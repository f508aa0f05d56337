//! Reading placements: the comma-separated coordinate list (`a1,b2,...`) and
//! the rank notation (`q7/8/...`), both written into an occupancy grid.
use vstd::prelude::*;
use crate::board::{Board, Coord, cell, on_board};
use crate::moves::{all_on_board, distinct};
use crate::text::{append_decimal, decimal, push_char};
use vstd::string::StringSliceAdditionalSpecFns;

verus! {

/// The fields of `s` between separators; always at least one, as `str::split` gives.
pub open spec fn fields(s: Seq<u8>, sep: u8) -> Seq<Seq<u8>>
    decreases s.len(),
{
    if s.len() == 0 {
        seq![Seq::empty()]
    } else {
        let p = fields(s.drop_last(), sep);
        if s.last() == sep {
            p.push(Seq::empty())
        } else {
            p.update(p.len() - 1, p.last().push(s.last()))
        }
    }
}

proof fn lemma_fields_nonempty(s: Seq<u8>, sep: u8)
    ensures
        fields(s, sep).len() >= 1,
    decreases s.len(),
{
    if s.len() > 0 {
        lemma_fields_nonempty(s.drop_last(), sep);
    }
}

/// Splits `s` at every separator byte.
fn split_fields(s: &[u8], sep: u8) -> (r: Vec<Vec<u8>>)
    ensures
        r@.map_values(|v: Vec<u8>| v@) == fields(s@, sep),
{
    let mut done: Vec<Vec<u8>> = Vec::new();
    let mut cur: Vec<u8> = Vec::new();
    let mut i: usize = 0;
    assert(s@.subrange(0, 0) =~= Seq::<u8>::empty());
    assert(done@.map_values(|v: Vec<u8>| v@).push(cur@) =~= fields(s@.subrange(0, 0), sep));
    while i < s.len()
        invariant
            i <= s@.len(),
            done@.map_values(|v: Vec<u8>| v@).push(cur@) == fields(s@.subrange(0, i as int), sep),
        decreases s@.len() - i,
    {
        let ghost prev = fields(s@.subrange(0, i as int), sep);
        assert(s@.subrange(0, i + 1).drop_last() =~= s@.subrange(0, i as int));
        if s[i] == sep {
            let full = cur;
            done.push(full);
            cur = Vec::new();
            assert(done@.map_values(|v: Vec<u8>| v@).push(cur@) =~= prev.push(Seq::empty()));
        } else {
            cur.push(s[i]);
            assert(done@.map_values(|v: Vec<u8>| v@).push(cur@) =~= prev.update(
                prev.len() - 1,
                prev.last().push(s@[i as int]),
            ));
        }
        i = i + 1;
    }
    assert(s@.subrange(0, s@.len() as int) =~= s@);
    done.push(cur);
    assert(done@.map_values(|v: Vec<u8>| v@) =~= fields(s@, sep));
    done
}

/// Some square of the list is at row `r`, column `c`.
pub open spec fn covers(sq: Seq<Coord>, r: int, c: int) -> bool {
    exists|j: int| 0 <= j < sq.len() && (#[trigger] sq[j]).row == r && sq[j].col == c
}

/// `after` is `before` with a queen put on each square of `sq`.
pub open spec fn marked_with<const N: usize>(
    before: [[u8; N]; N],
    after: [[u8; N]; N],
    sq: Seq<Coord>,
) -> bool {
    forall|r: int, c: int|
        0 <= r < N && 0 <= c < N ==> #[trigger] cell(after, r, c) == if covers(sq, r, c) {
            1u8
        } else {
            cell(before, r, c)
        }
}

/// Puts a queen on row `row`, column `col`.
fn mark<const N: usize>(buf: &mut [[u8; N]; N], row: usize, col: usize, Ghost(start): Ghost<[[u8; N]; N]>, Ghost(sq): Ghost<Seq<Coord>>)
    requires
        row < N,
        col < N,
        N <= 128,
        marked_with(start, *old(buf), sq),
    ensures
        marked_with(start, *final(buf), sq.push(Coord { row: row as i8, col: col as i8 })),
{
    let ghost before = *buf;
    buf[row][col] = 1;
    let ghost sq2 = sq.push(Coord { row: row as i8, col: col as i8 });
    assert forall|r: int, c: int| 0 <= r < N && 0 <= c < N implies #[trigger] cell(*buf, r, c)
        == if covers(sq2, r, c) {
        1u8
    } else {
        cell(start, r, c)
    } by {
        if r == row && c == col {
            assert(sq2[sq.len() as int].row == r && sq2[sq.len() as int].col == c);
        } else {
            assert(cell(*buf, r, c) == cell(before, r, c));
            assert(cell(before, r, c) == if covers(sq, r, c) {
                1u8
            } else {
                cell(start, r, c)
            });
            if covers(sq2, r, c) {
                let j = choose|j: int|
                    0 <= j < sq2.len() && (#[trigger] sq2[j]).row == r && sq2[j].col == c;
                assert(j < sq.len());
                assert(sq[j] == sq2[j]);
            }
            if covers(sq, r, c) {
                let j = choose|j: int|
                    0 <= j < sq.len() && (#[trigger] sq[j]).row == r && sq[j].col == c;
                assert(sq[j] == sq2[j]);
            }
        }
    }
}

/// The queens of `map` stand exactly on the squares of `sq`.
pub open spec fn placed<const N: usize>(map: [[u8; N]; N], sq: Seq<Coord>) -> bool {
    forall|r: int, c: int|
        0 <= r < N && 0 <= c < N ==> #[trigger] cell(map, r, c) == if covers(sq, r, c) {
            1u8
        } else {
            0u8
        }
}

/// What is wrong with a coordinate field on an `n` by `n` board: 0 nothing,
/// 1 not exactly two bytes, 2 a file or rank byte outside the board.
pub open spec fn field_fault(t: Seq<u8>, n: int) -> int {
    if t.len() != 2 {
        1
    } else if !(97 <= t[0] < 97 + n && 49 <= t[1] < 49 + n) {
        2
    } else {
        0
    }
}

/// The square a coordinate field names: its first byte is the file, its
/// second the rank.
pub open spec fn field_square(t: Seq<u8>) -> Coord {
    Coord { row: (t[1] - 49) as i8, col: (t[0] - 97) as i8 }
}

/// What is wrong with queen `k` of a coordinate list: as `field_fault`, 3
/// where the list has no field `k`, or 4 where it repeats an earlier field.
pub open spec fn csv_fault(f: Seq<Seq<u8>>, n: int, k: int) -> int {
    if k >= f.len() {
        3
    } else if field_fault(f[k], n) != 0 {
        field_fault(f[k], n)
    } else if repeats(f, k) {
        4
    } else {
        0
    }
}

/// Field `k` names the same square as an earlier field.
pub open spec fn repeats(f: Seq<Seq<u8>>, k: int) -> bool {
    exists|j: int| 0 <= j < k && #[trigger] f[j] == f[k]
}

/// The first queen, from `k` on, that a coordinate list of `n` queens gets
/// wrong; `n` where there is none.
pub open spec fn csv_first_fault(f: Seq<Seq<u8>>, n: int, k: int) -> int
    decreases n - k,
{
    if k >= n {
        n
    } else if csv_fault(f, n, k) != 0 {
        k
    } else {
        csv_first_fault(f, n, k + 1)
    }
}

/// The squares of the first `k` fields.
pub open spec fn csv_squares(f: Seq<Seq<u8>>, k: int) -> Seq<Coord> {
    Seq::new(k as nat, |j: int| field_square(f[j]))
}

/// The message for a fault of kind `kind` at queen `k` (counted from zero).
pub open spec fn csv_message(kind: int, k: int, n: int) -> Seq<char> {
    if kind == 3 {
        "Expected "@ + decimal(n as nat) + " queens from input, only "@ + decimal(k as nat)
            + " found."@
    } else if kind == 1 {
        "Malformed Queen "@ + decimal((k + 1) as nat) + " coordinates."@
    } else if kind == 4 {
        "Duplicate Queen "@ + decimal((k + 1) as nat) + " coordinates."@
    } else {
        "Invalid Queen "@ + decimal((k + 1) as nat) + " coordinates value."@
    }
}

fn csv_error(kind: usize, k: usize, n: usize) -> (r: String)
    requires
        k < n,
    ensures
        r@ == csv_message(kind as int, k as int, n as int),
{
    if kind == 3 {
        let mut m = String::from_str("Expected ");
        append_decimal(&mut m, n);
        m.append(" queens from input, only ");
        append_decimal(&mut m, k);
        m.append(" found.");
        m
    } else if kind == 1 {
        let mut m = String::from_str("Malformed Queen ");
        append_decimal(&mut m, k + 1);
        m.append(" coordinates.");
        m
    } else if kind == 4 {
        let mut m = String::from_str("Duplicate Queen ");
        append_decimal(&mut m, k + 1);
        m.append(" coordinates.");
        m
    } else {
        let mut m = String::from_str("Invalid Queen ");
        append_decimal(&mut m, k + 1);
        m.append(" coordinates value.");
        m
    }
}

impl<const N: usize> Board<N> {
    /// Reads `N` queens from a comma-separated coordinate list (`a1,b2,...`)
    /// into `buf`: exactly `N` fields, each a file letter and a rank digit of
    /// the board, no square twice.
    ///
    /// On an error, the queens of the fields before the faulty one stay marked.
    pub fn set_with_csv(csv_data: &str, buf: &mut [[u8; N]; N]) -> (r: Result<(), String>)
        requires
            N <= 128,
        ensures
            r is Ok <==> csv_accepts(csv_data.spec_bytes(), N as int),
            marked_with(*old(buf), *final(buf), csv_marks(csv_data.spec_bytes(), N as int)),
            r is Err ==> r->Err_0@ == csv_error_message(csv_data.spec_bytes(), N as int),
    {
        let bytes = csv_data.as_bytes();
        let it = split_fields(bytes, 44u8);
        let ghost f = fields(csv_data.spec_bytes(), 44u8);
        assert(it@.len() == f.len());
        let mut cur_count: usize = 0;
        assert(marked_with(*old(buf), *buf, csv_squares(f, 0)));
        while cur_count < N
            invariant
                cur_count <= N,
                N <= 128,
                it@.map_values(|v: Vec<u8>| v@) == f,
                f == fields(csv_data.spec_bytes(), 44u8),
                csv_first_fault(f, N as int, 0) == csv_first_fault(f, N as int, cur_count as int),
                marked_with(*old(buf), *buf, csv_squares(f, cur_count as int)),
            decreases N - cur_count,
        {
            if cur_count >= it.len() {
                return Err(csv_error(3, cur_count, N));
            }
            let coord = &it[cur_count];
            assert(coord@ == f[cur_count as int]);
            if coord.len() != 2 {
                return Err(csv_error(1, cur_count, N));
            }
            let file = coord[0];
            let rank = coord[1];
            if !(97 <= file && (file as usize) < 97 + N && 49 <= rank && (rank as usize) < 49 + N) {
                return Err(csv_error(2, cur_count, N));
            }
            let mut j: usize = 0;
            while j < cur_count
                invariant
                    j <= cur_count,
                    cur_count < it@.len(),
                    it@.map_values(|v: Vec<u8>| v@) == f,
                    coord@ == f[cur_count as int],
                    coord@.len() == 2,
                    coord@[0] == file,
                    coord@[1] == rank,
                    cur_count < N,
                    N <= 128,
                    f == fields(csv_data.spec_bytes(), 44u8),
                    field_fault(f[cur_count as int], N as int) == 0,
                    csv_first_fault(f, N as int, 0) == csv_first_fault(f, N as int, cur_count as int),
                    marked_with(*old(buf), *buf, csv_squares(f, cur_count as int)),
                    forall|i: int| 0 <= i < j ==> f[i] != f[cur_count as int],
                decreases cur_count - j,
            {
                let other = &it[j];
                assert(other@ == f[j as int]);
                if other.len() == 2 && other[0] == file && other[1] == rank {
                    assert(other@ =~= coord@);
                    assert(repeats(f, cur_count as int));
                    return Err(csv_error(4, cur_count, N));
                }
                j = j + 1;
            }
            assert(!repeats(f, cur_count as int));
            let row: usize = (rank - 49) as usize;
            let col: usize = (file - 97) as usize;
            mark(buf, row, col, Ghost(*old(buf)), Ghost(csv_squares(f, cur_count as int)));
            assert(csv_squares(f, cur_count as int).push(Coord { row: row as i8, col: col as i8 })
                =~= csv_squares(f, cur_count + 1));
            cur_count = cur_count + 1;
        }
        if it.len() != N {
            let mut m = String::from_str("Expected ");
            append_decimal(&mut m, N);
            m.append(" queens from input, ");
            append_decimal(&mut m, it.len());
            m.append(" found.");
            return Err(m);
        }
        Ok(())
    }
}

/// Counts in the rank notation stop growing here, far past any board width.
pub const COUNT_CAP: usize = 1000000;

/// `x`, but no more than `COUNT_CAP`.
pub open spec fn capped(x: int) -> int {
    if x > COUNT_CAP {
        COUNT_CAP as int
    } else {
        x
    }
}

/// The state of reading one rank of the rank notation: the files passed, the
/// digit run being read, the queens met, the columns (below the width) where
/// queens were put, and the first byte that is neither a digit nor a queen.
pub struct Scan {
    pub file: int,
    pub run: int,
    pub in_run: bool,
    pub queens: int,
    pub marks: Seq<int>,
    pub bad: Option<u8>,
}

/// Reading byte `x` of a rank `n` files wide: a digit extends the run, a
/// queen ends it and takes a file, anything else stops the reading.
pub open spec fn scan_step(st: Scan, x: u8, n: int) -> Scan {
    if st.bad is Some {
        st
    } else if 48 <= x <= 57 {
        Scan {
            run: capped(
                if st.in_run {
                    st.run * 10 + (x - 48)
                } else {
                    x - 48
                },
            ),
            in_run: true,
            ..st
        }
    } else if x == 81 || x == 113 {
        let f = if st.in_run {
            capped(st.file + st.run)
        } else {
            st.file
        };
        Scan {
            file: capped(f + 1),
            run: 0,
            in_run: false,
            queens: capped(st.queens + 1),
            marks: if f < n {
                st.marks.push(f)
            } else {
                st.marks
            },
            bad: None,
        }
    } else {
        Scan { bad: Some(x), ..st }
    }
}

/// The state after reading all of `r`, a rank `n` files wide.
pub open spec fn scan(r: Seq<u8>, n: int) -> Scan
    decreases r.len(),
{
    if r.len() == 0 {
        Scan { file: 0, run: 0, in_run: false, queens: 0, marks: Seq::empty(), bad: None }
    } else {
        scan_step(scan(r.drop_last(), n), r.last(), n)
    }
}

/// The width that a read rank adds up to.
pub open spec fn rank_width(st: Scan) -> int {
    if st.in_run {
        capped(st.file + st.run)
    } else {
        st.file
    }
}

/// The rank reads without a bad byte and adds up to `n` files.
pub open spec fn rank_ok(r: Seq<u8>, n: int) -> bool {
    scan(r, n).bad is None && rank_width(scan(r, n)) == n
}

/// The first rank, from `j` on, that is not right; `n` where there is none.
pub open spec fn first_bad_rank(rs: Seq<Seq<u8>>, n: int, j: int) -> int
    decreases n - j,
{
    if j >= n {
        n
    } else if !rank_ok(rs[j], n) {
        j
    } else {
        first_bad_rank(rs, n, j + 1)
    }
}

/// The squares where the first `j` ranks put queens; rank `j` (counted from
/// the top, from zero) is row `n - 1 - j`.
pub open spec fn rank_marks(rs: Seq<Seq<u8>>, n: int, j: int) -> Seq<Coord>
    decreases j,
{
    if j <= 0 {
        Seq::empty()
    } else {
        rank_marks(rs, n, j - 1) + scan(rs[j - 1], n).marks.map_values(
            |f: int| Coord { row: (n - j) as i8, col: f as i8 },
        )
    }
}

/// The queens met in the first `j` ranks.
pub open spec fn rank_queens(rs: Seq<Seq<u8>>, n: int, j: int) -> int
    decreases j,
{
    if j <= 0 {
        0
    } else {
        capped(rank_queens(rs, n, j - 1) + scan(rs[j - 1], n).queens)
    }
}

/// The index of the first space at or after `i`; the length where there is none.
pub open spec fn space_from(s: Seq<u8>, i: int) -> int
    decreases s.len() - i,
{
    if i >= s.len() {
        s.len() as int
    } else if s[i] == 32 {
        i
    } else {
        space_from(s, i + 1)
    }
}

/// The board part of the rank notation: what precedes the first space.
pub open spec fn board_part(s: Seq<u8>) -> Seq<u8> {
    s.subrange(0, space_from(s, 0))
}

/// The message for rank `j` (counted from the top, from zero) that is not right.
pub open spec fn rank_message(r: Seq<u8>, n: int, j: int) -> Seq<char> {
    let st = scan(r, n);
    if st.bad is Some {
        "Unexpected token '"@ + seq![st.bad->Some_0 as char] + "' on rank "@ + decimal(
            (n - j) as nat,
        )
    } else {
        "Expected a total of "@ + decimal(n as nat) + " files on rank "@ + decimal(
            (n - j) as nat,
        ) + ", found "@ + decimal(rank_width(st) as nat) + "."@
    }
}

/// The message for rank notation with `found` ranks where `n` are due.
pub open spec fn rank_count_message(found: int, n: int) -> Seq<char> {
    "Expected "@ + decimal(n as nat) + " ranks, but found "@ + decimal(found as nat) + "."@
}

/// The message for rank notation with `found` queens where `n` are due.
pub open spec fn queen_count_message(found: int, n: int) -> Seq<char> {
    "Expected a total of "@ + decimal(n as nat) + " queens, "@ + decimal(found as nat)
        + " found."@
}

/// A rank as read, with exec counts.
struct RankScan {
    file: usize,
    run: usize,
    in_run: bool,
    queens: usize,
    marks: Vec<usize>,
    bad: Option<u8>,
}

impl RankScan {
    spec fn view(&self) -> Scan {
        Scan {
            file: self.file as int,
            run: self.run as int,
            in_run: self.in_run,
            queens: self.queens as int,
            marks: self.marks@.map_values(|f: usize| f as int),
            bad: self.bad,
        }
    }
}

fn cap(x: usize) -> (r: usize)
    ensures
        r == capped(x as int),
{
    if x > COUNT_CAP {
        COUNT_CAP
    } else {
        x
    }
}

proof fn lemma_scan_bounds(r: Seq<u8>, n: int)
    requires
        0 <= n,
    ensures
        0 <= scan(r, n).file <= COUNT_CAP,
        0 <= scan(r, n).run <= COUNT_CAP,
        0 <= scan(r, n).queens <= COUNT_CAP,
        forall|i: int|
            0 <= i < scan(r, n).marks.len() ==> 0 <= #[trigger] scan(r, n).marks[i] < n,
    decreases r.len(),
{
    if r.len() > 0 {
        lemma_scan_bounds(r.drop_last(), n);
    }
}

/// Reads one rank of the rank notation, `n` files wide.
fn scan_rank(r: &Vec<u8>, n: usize) -> (st: RankScan)
    ensures
        st@ == scan(r@, n as int),
{
    let mut st = RankScan { file: 0, run: 0, in_run: false, queens: 0, marks: Vec::new(), bad: None };
    let mut i: usize = 0;
    assert(r@.subrange(0, 0) =~= Seq::<u8>::empty());
    assert(st@.marks =~= Seq::<int>::empty());
    assert(st@ =~= scan(r@.subrange(0, 0), n as int));
    while i < r.len()
        invariant
            i <= r@.len(),
            st@ == scan(r@.subrange(0, i as int), n as int),
        decreases r@.len() - i,
    {
        proof {
            lemma_scan_bounds(r@.subrange(0, i as int), n as int);
        }
        assert(r@.subrange(0, i + 1).drop_last() =~= r@.subrange(0, i as int));
        let x = r[i];
        let ghost prev = st@;
        if st.bad.is_some() {
        } else if 48 <= x && x <= 57 {
            let d: usize = (x - 48) as usize;
            st.run = if st.in_run {
                cap(st.run * 10 + d)
            } else {
                d
            };
            st.in_run = true;
            assert(st@ =~= scan_step(prev, x, n as int));
        } else if x == 81 || x == 113 {
            let f = if st.in_run {
                cap(st.file + st.run)
            } else {
                st.file
            };
            if f < n {
                st.marks.push(f);
            }
            st.file = cap(f + 1);
            st.run = 0;
            st.in_run = false;
            st.queens = cap(st.queens + 1);
            assert(st@.marks =~= if (f as int) < n {
                prev.marks.push(f as int)
            } else {
                prev.marks
            });
            assert(st@ =~= scan_step(prev, x, n as int));
        } else {
            st.bad = Some(x);
            assert(st@ =~= scan_step(prev, x, n as int));
        }
        i = i + 1;
    }
    assert(r@.subrange(0, r@.len() as int) =~= r@);
    st
}

impl<const N: usize> Board<N> {
    /// Reads `N` queens from the rank notation into `buf`: `N` ranks
    /// separated by `/`, the top rank first, each made of digit runs (empty
    /// squares) and `Q` or `q` (a queen) adding up to `N` files. Whatever
    /// follows the first space is not read.
    ///
    /// On an error, the queens of the ranks read so far stay marked.
    pub fn set_with_fen(fen_data: &str, buf: &mut [[u8; N]; N]) -> (r: Result<(), String>)
        requires
            N <= 128,
        ensures
            r is Ok <==> fen_accepts(fen_data.spec_bytes(), N as int),
            marked_with(*old(buf), *final(buf), fen_marks(fen_data.spec_bytes(), N as int)),
            r is Err ==> r->Err_0@ == fen_message(fen_data.spec_bytes(), N as int),
    {
        let bytes = fen_data.as_bytes();
        let ghost s = fen_data.spec_bytes();
        let mut body: Vec<u8> = Vec::new();
        let mut i: usize = 0;
        while i < bytes.len() && bytes[i] != 32
            invariant
                i <= s.len(),
                bytes@ == s,
                space_from(s, 0) == space_from(s, i as int),
                body@ == s.subrange(0, i as int),
            decreases s.len() - i,
        {
            body.push(bytes[i]);
            i = i + 1;
            assert(body@ =~= s.subrange(0, i as int));
        }
        let ranks = split_fields(body.as_slice(), 47u8);
        let ghost rs = fields(board_part(s), 47u8);
        assert(ranks@.len() == rs.len());
        if ranks.len() != N {
            let mut m = String::from_str("Expected ");
            append_decimal(&mut m, N);
            m.append(" ranks, but found ");
            append_decimal(&mut m, ranks.len());
            m.append(".");
            assert(marked_with(*old(buf), *buf, Seq::empty()));
            return Err(m);
        }
        let mut total_queens: usize = 0;
        let mut j: usize = 0;
        assert(marked_with(*old(buf), *buf, rank_marks(rs, N as int, 0)));
        while j < N
            invariant
                j <= N,
                N <= 128,
                ranks@.len() == N,
                rs.len() == N,
                ranks@.map_values(|v: Vec<u8>| v@) == rs,
                rs == fields(board_part(fen_data.spec_bytes()), 47u8),
                first_bad_rank(rs, N as int, 0) == first_bad_rank(rs, N as int, j as int),
                marked_with(*old(buf), *buf, rank_marks(rs, N as int, j as int)),
                total_queens == rank_queens(rs, N as int, j as int),
            decreases N - j,
        {
            let row: usize = N - 1 - j;
            assert(ranks@[j as int]@ == rs[j as int]);
            let st = scan_rank(&ranks[j], N);
            proof {
                lemma_scan_bounds(rs[j as int], N as int);
            }
            let ghost placed = rank_marks(rs, N as int, j as int);
            let ghost new_marks = st@.marks.map_values(
                |f: int| Coord { row: (N - (j + 1)) as i8, col: f as i8 },
            );
            let mut k: usize = 0;
            while k < st.marks.len()
                invariant
                    k <= st.marks@.len(),
                    row == N - 1 - j,
                    j < N,
                    N <= 128,
                    forall|t: int| 0 <= t < st@.marks.len() ==> 0 <= #[trigger] st@.marks[t] < N,
                    new_marks == st@.marks.map_values(
                        |f: int| Coord { row: (N - (j + 1)) as i8, col: f as i8 },
                    ),
                    marked_with(*old(buf), *buf, placed + new_marks.subrange(0, k as int)),
                decreases st.marks@.len() - k,
            {
                let col = st.marks[k];
                assert(st@.marks[k as int] == col as int);
                mark(buf, row, col, Ghost(*old(buf)), Ghost(placed + new_marks.subrange(0, k as int)));
                assert((placed + new_marks.subrange(0, k as int)).push(
                    Coord { row: row as i8, col: col as i8 },
                ) =~= placed + new_marks.subrange(0, k + 1));
                k = k + 1;
            }
            assert(new_marks.subrange(0, new_marks.len() as int) =~= new_marks);
            assert(rank_marks(rs, N as int, j + 1) == placed + new_marks);
            if let Some(x) = st.bad {
                let mut m = String::from_str("Unexpected token '");
                push_char(&mut m, x as char);
                m.append("' on rank ");
                append_decimal(&mut m, N - j);
                return Err(m);
            }
            let width = if st.in_run {
                cap(st.file + st.run)
            } else {
                st.file
            };
            if width != N {
                let mut m = String::from_str("Expected a total of ");
                append_decimal(&mut m, N);
                m.append(" files on rank ");
                append_decimal(&mut m, N - j);
                m.append(", found ");
                append_decimal(&mut m, width);
                m.append(".");
                return Err(m);
            }
            total_queens = cap(total_queens + st.queens);
            j = j + 1;
        }
        if total_queens != N {
            let mut m = String::from_str("Expected a total of ");
            append_decimal(&mut m, N);
            m.append(" queens, ");
            append_decimal(&mut m, total_queens);
            m.append(" found.");
            return Err(m);
        }
        Ok(())
    }
}

/// A coordinate list of exactly `n` queens is read without fault.
pub open spec fn csv_accepts(s: Seq<u8>, n: int) -> bool {
    csv_first_fault(fields(s, 44u8), n, 0) == n && fields(s, 44u8).len() == n
}

/// The squares that reading a coordinate list marks: those before its first fault.
pub open spec fn csv_marks(s: Seq<u8>, n: int) -> Seq<Coord> {
    let f = fields(s, 44u8);
    csv_squares(f, csv_first_fault(f, n, 0))
}

/// The message for a coordinate list that is not read.
pub open spec fn csv_error_message(s: Seq<u8>, n: int) -> Seq<char> {
    let f = fields(s, 44u8);
    let k = csv_first_fault(f, n, 0);
    if k < n {
        csv_message(csv_fault(f, n, k), k, n)
    } else {
        "Expected "@ + decimal(n as nat) + " queens from input, "@ + decimal(f.len()) + " found."@
    }
}

/// The ranks of the rank notation.
pub open spec fn fen_ranks(s: Seq<u8>) -> Seq<Seq<u8>> {
    fields(board_part(s), 47u8)
}

/// The rank notation of an `n` by `n` board with `n` queens is read without fault.
pub open spec fn fen_accepts(s: Seq<u8>, n: int) -> bool {
    let rs = fen_ranks(s);
    rs.len() == n && first_bad_rank(rs, n, 0) == n && rank_queens(rs, n, n) == n
}

/// The squares that reading the rank notation marks: those of the ranks read
/// up to and including the first that is not right.
pub open spec fn fen_marks(s: Seq<u8>, n: int) -> Seq<Coord> {
    let rs = fen_ranks(s);
    let j = first_bad_rank(rs, n, 0);
    if rs.len() != n {
        Seq::empty()
    } else if j < n {
        rank_marks(rs, n, j + 1)
    } else {
        rank_marks(rs, n, n)
    }
}

/// The message for rank notation that is not read.
pub open spec fn fen_message(s: Seq<u8>, n: int) -> Seq<char> {
    let rs = fen_ranks(s);
    let j = first_bad_rank(rs, n, 0);
    if rs.len() != n {
        rank_count_message(rs.len() as int, n)
    } else if j < n {
        rank_message(rs[j], n, j)
    } else {
        queen_count_message(rank_queens(rs, n, n), n)
    }
}

/// Marking `a` and then `b` marks `a + b`.
proof fn lemma_marked_twice<const N: usize>(
    x: [[u8; N]; N],
    y: [[u8; N]; N],
    z: [[u8; N]; N],
    a: Seq<Coord>,
    b: Seq<Coord>,
)
    requires
        marked_with(x, y, a),
        marked_with(y, z, b),
    ensures
        marked_with(x, z, a + b),
{
    assert forall|r: int, c: int| 0 <= r < N && 0 <= c < N implies #[trigger] cell(z, r, c) == if covers(a + b, r, c) {
        1u8
    } else {
        cell(x, r, c)
    } by {
        assert(cell(y, r, c) == if covers(a, r, c) {
            1u8
        } else {
            cell(x, r, c)
        });
        if covers(a, r, c) {
            let j = choose|j: int| 0 <= j < a.len() && (#[trigger] a[j]).row == r && a[j].col == c;
            assert((a + b)[j] == a[j]);
        }
        if covers(b, r, c) {
            let j = choose|j: int| 0 <= j < b.len() && (#[trigger] b[j]).row == r && b[j].col == c;
            assert((a + b)[a.len() + j] == b[j]);
        }
        if covers(a + b, r, c) {
            let j = choose|j: int|
                0 <= j < (a + b).len() && (#[trigger] (a + b)[j]).row == r && (a + b)[j].col == c;
            if j < a.len() {
                assert(a[j] == (a + b)[j]);
            } else {
                assert(b[j - a.len()] == (a + b)[j]);
            }
        }
    }
}

impl<const N: usize> Board<N> {
    /// Reads `N` queens into `buf`, trying the rank notation first and the
    /// coordinate list second.
    pub fn set(data: &str, buf: &mut [[u8; N]; N]) -> (r: Result<(), String>)
        requires
            N <= 128,
        ensures
            ({
                let s = data.spec_bytes();
                let n = N as int;
                &&& r is Ok <==> fen_accepts(s, n) || csv_accepts(s, n)
                &&& fen_accepts(s, n) ==> marked_with(*old(buf), *final(buf), fen_marks(s, n))
                &&& !fen_accepts(s, n) ==> marked_with(
                    *old(buf),
                    *final(buf),
                    fen_marks(s, n) + csv_marks(s, n),
                )
                &&& r is Err ==> r->Err_0@ == "Unable to determine file data type.\n[FEN: "@
                    + fen_message(s, n) + "]\n[CSV: "@ + csv_error_message(s, n) + "]"@
            }),
    {
        let ghost start = *buf;
        match Self::set_with_fen(data, buf) {
            Ok(()) => Ok(()),
            Err(fen_desc) => {
                let ghost mid = *buf;
                let csv = Self::set_with_csv(data, buf);
                proof {
                    lemma_marked_twice(
                        start,
                        mid,
                        *buf,
                        fen_marks(data.spec_bytes(), N as int),
                        csv_marks(data.spec_bytes(), N as int),
                    );
                }
                match csv {
                    Ok(()) => Ok(()),
                    Err(csv_desc) => {
                        let mut m = String::from_str("Unable to determine file data type.\n[FEN: ");
                        m.append(fen_desc.as_str());
                        m.append("]\n[CSV: ");
                        m.append(csv_desc.as_str());
                        m.append("]");
                        Err(m)
                    },
                }
            },
        }
    }
}

/// The field that names a square: its file letter, then its rank digit.
pub open spec fn square_field(c: Coord) -> Seq<u8> {
    seq![(97 + c.col) as u8, (49 + c.row) as u8]
}

/// The coordinate list of the squares, separated by commas.
pub open spec fn csv_text(sq: Seq<Coord>) -> Seq<u8>
    decreases sq.len(),
{
    if sq.len() <= 1 {
        if sq.len() == 0 {
            Seq::empty()
        } else {
            square_field(sq[0])
        }
    } else {
        csv_text(sq.drop_last()) + seq![44u8] + square_field(sq.last())
    }
}

proof fn lemma_fields_extend(s: Seq<u8>, x: Seq<u8>, sep: u8)
    requires
        forall|i: int| 0 <= i < x.len() ==> x[i] != sep,
    ensures
        fields(s + x, sep) == fields(s, sep).update(
            fields(s, sep).len() - 1,
            fields(s, sep).last() + x,
        ),
    decreases x.len(),
{
    lemma_fields_nonempty(s, sep);
    if x.len() == 0 {
        assert(s + x =~= s);
        assert(fields(s, sep).last() + x =~= fields(s, sep).last());
        assert(fields(s, sep).update(fields(s, sep).len() - 1, fields(s, sep).last())
            =~= fields(s, sep));
    } else {
        lemma_fields_extend(s, x.drop_last(), sep);
        assert((s + x).drop_last() =~= s + x.drop_last());
        let p = fields(s + x.drop_last(), sep);
        assert(p.last() =~= fields(s, sep).last() + x.drop_last());
        assert(fields(s, sep).last() + x.drop_last() + seq![x.last()] =~= fields(s, sep).last() + x);
        assert((s + x).last() == x.last());
        assert(x[x.len() - 1] != sep);
        assert(p.len() == fields(s, sep).len());
        assert(fields(s + x, sep) == p.update(p.len() - 1, p.last().push(x.last())));
        assert(p.last().push(x.last()) =~= fields(s, sep).last() + x);
        assert(fields(s + x, sep) =~= fields(s, sep).update(
            fields(s, sep).len() - 1,
            fields(s, sep).last() + x,
        ));
    }
}

proof fn lemma_csv_text_fields(sq: Seq<Coord>, n: int)
    requires
        sq.len() >= 1,
        1 <= n <= 9,
        all_on_board(sq, n),
    ensures
        fields(csv_text(sq), 44u8) == sq.map_values(|c: Coord| square_field(c)),
    decreases sq.len(),
{
    let f = square_field(sq.last());
    assert(f[0] != 44u8 && f[1] != 44u8) by {
        assert(on_board(sq[sq.len() - 1], n));
    }
    if sq.len() == 1 {
        assert(Seq::<u8>::empty() + f =~= f);
        lemma_fields_extend(Seq::empty(), f, 44u8);
        assert(sq.map_values(|c: Coord| square_field(c)) =~= seq![f]);
    } else {
        let front = sq.drop_last();
        assert(all_on_board(front, n)) by {
            assert forall|i: int| 0 <= i < front.len() implies on_board(#[trigger] front[i], n) by {
                assert(front[i] == sq[i]);
            }
        }
        lemma_csv_text_fields(front, n);
        let head = csv_text(front) + seq![44u8];
        assert(head.drop_last() =~= csv_text(front));
        assert(fields(head, 44u8) == fields(csv_text(front), 44u8).push(Seq::empty()));
        lemma_fields_extend(head, f, 44u8);
        assert(csv_text(sq) =~= head + f);
        assert(Seq::<u8>::empty() + f =~= f);
        assert(sq.map_values(|c: Coord| square_field(c)) =~= front.map_values(
            |c: Coord| square_field(c),
        ).push(f));
    }
}

proof fn lemma_no_fault_from(f: Seq<Seq<u8>>, n: int, k: int)
    requires
        0 <= k <= n,
        f.len() >= n,
        forall|j: int| 0 <= j < n ==> field_fault(#[trigger] f[j], n) == 0,
        forall|j: int| 0 <= j < n ==> !#[trigger] repeats(f, j),
    ensures
        csv_first_fault(f, n, k) == n,
    decreases n - k,
{
    if k < n {
        lemma_no_fault_from(f, n, k + 1);
    }
}

/// Reading back the coordinate list of `n` distinct squares of an `n` by `n`
/// board (at most 9 wide, so that each rank is one digit) succeeds and marks
/// exactly those squares.
pub proof fn lemma_csv_round_trip(sq: Seq<Coord>, n: int)
    requires
        1 <= n <= 9,
        sq.len() == n,
        all_on_board(sq, n),
        distinct(sq),
    ensures
        csv_accepts(csv_text(sq), n),
        csv_marks(csv_text(sq), n) == sq,
{
    lemma_csv_text_fields(sq, n);
    let f = fields(csv_text(sq), 44u8);
    assert forall|j: int| 0 <= j < n implies field_fault(#[trigger] f[j], n) == 0 by {
        assert(f[j] == square_field(sq[j]));
        assert(on_board(sq[j], n));
    }
    assert forall|k: int| 0 <= k < n implies !#[trigger] repeats(f, k) by {
        if repeats(f, k) {
            let j = choose|j: int| 0 <= j < k && #[trigger] f[j] == f[k];
            assert(f[j] == square_field(sq[j]));
            assert(f[k] == square_field(sq[k]));
            assert(on_board(sq[j], n) && on_board(sq[k], n));
            assert(f[j][0] == f[k][0] && f[j][1] == f[k][1]);
            assert(sq[j] == sq[k]);
        }
    }
    lemma_no_fault_from(f, n, 0);
    assert(csv_squares(f, n) =~= sq) by {
        assert forall|j: int| 0 <= j < n implies #[trigger] csv_squares(f, n)[j] == sq[j] by {
            assert(f[j] == square_field(sq[j]));
            assert(on_board(sq[j], n));
        }
    }
}

impl<const N: usize> Board<N> {
    /// Moves the queen on the square named `src` (as `a2`) to the square
    /// named `dest`, legal or not. Where `src` holds no queen nothing changes
    /// and the result is false.
    pub fn move_piece_with_coords(&mut self, src: &str, dest: &str) -> (r: bool)
        requires
            N <= 128,
            field_fault(src.spec_bytes(), N as int) == 0,
            field_fault(dest.spec_bytes(), N as int) == 0,
        ensures
            ({
                let s = field_square(src.spec_bytes());
                let d = field_square(dest.spec_bytes());
                &&& r == (cell(old(self).init_state, s.row as int, s.col as int) == 1)
                &&& !r ==> *final(self) == *old(self)
                &&& r ==> forall|i: int, j: int|
                    0 <= i < N && 0 <= j < N ==> #[trigger] cell(final(self).init_state, i, j) == if i
                        == d.row && j == d.col {
                        1u8
                    } else if i == s.row && j == s.col {
                        0u8
                    } else {
                        cell(old(self).init_state, i, j)
                    }
            }),
    {
        let a = src.as_bytes();
        let b = dest.as_bytes();
        let s = ((a[1] - 49) as usize, (a[0] - 97) as usize);
        let d = ((b[1] - 49) as usize, (b[0] - 97) as usize);
        if self.init_state[s.0][s.1] == 1 {
            self.init_state[s.0][s.1] = 0;
            self.init_state[d.0][d.1] = 1;
            true
        } else {
            false
        }
    }
}

/// The digit for a run of `k` empty squares; nothing for none.
pub open spec fn run_text(k: int) -> Seq<u8> {
    if k == 0 {
        Seq::empty()
    } else {
        seq![(48 + k) as u8]
    }
}

/// A rank `n` files wide with one queen, in file `c`.
pub open spec fn queen_rank_text(c: int, n: int) -> Seq<u8> {
    run_text(c) + seq![81u8] + run_text(n - 1 - c)
}

/// The rank notation of a placement with one queen per rank: `cols[j]` is
/// the file of the queen on rank `j`, counted from the top.
pub open spec fn fen_of_columns(cols: Seq<int>, n: int) -> Seq<u8>
    decreases cols.len(),
{
    if cols.len() <= 1 {
        if cols.len() == 0 {
            Seq::empty()
        } else {
            queen_rank_text(cols[0], n)
        }
    } else {
        fen_of_columns(cols.drop_last(), n) + seq![47u8] + queen_rank_text(cols.last(), n)
    }
}

/// The squares of a placement with one queen per rank.
pub open spec fn column_squares(cols: Seq<int>, n: int) -> Seq<Coord> {
    Seq::new(cols.len(), |j: int| Coord { row: (n - 1 - j) as i8, col: cols[j] as i8 })
}

proof fn lemma_no_space_from(s: Seq<u8>, i: int)
    requires
        0 <= i <= s.len(),
        forall|j: int| 0 <= j < s.len() ==> s[j] != 32,
    ensures
        space_from(s, i) == s.len(),
    decreases s.len() - i,
{
    if i < s.len() {
        lemma_no_space_from(s, i + 1);
    }
}

proof fn lemma_scan_queen_rank(c: int, n: int)
    requires
        1 <= n <= 9,
        0 <= c < n,
    ensures
        scan(queen_rank_text(c, n), n).bad is None,
        rank_width(scan(queen_rank_text(c, n), n)) == n,
        scan(queen_rank_text(c, n), n).queens == 1,
        scan(queen_rank_text(c, n), n).marks == seq![c],
        forall|i: int| 0 <= i < queen_rank_text(c, n).len() ==> #[trigger] queen_rank_text(c, n)[i] != 32
            && queen_rank_text(c, n)[i] != 47,
{
    let a = run_text(c);
    let b = a + seq![81u8];
    let t = b + run_text(n - 1 - c);
    assert(t == queen_rank_text(c, n));
    let sa = scan(a, n);
    if c == 0 {
        assert(a.len() == 0);
    } else {
        assert(a.drop_last() =~= Seq::<u8>::empty());
        assert(a.last() == (48 + c) as u8);
        assert(scan(a.drop_last(), n) == scan(Seq::<u8>::empty(), n));
        assert(sa == scan_step(scan(Seq::<u8>::empty(), n), (48 + c) as u8, n));
        assert(sa.run == c && sa.in_run && sa.file == 0 && sa.queens == 0 && sa.bad is None);
        assert(sa.marks =~= Seq::<int>::empty());
    }
    assert(sa.bad is None && sa.file == 0 && sa.queens == 0 && sa.marks =~= Seq::<int>::empty()
        && (sa.in_run ==> sa.run == c) && (!sa.in_run ==> c == 0));
    assert(b.drop_last() =~= a);
    let sb = scan(b, n);
    assert(sb == scan_step(sa, 81u8, n));
    assert(sb.file == c + 1 && !sb.in_run && sb.queens == 1 && sb.bad is None);
    assert(sb.marks =~= seq![c]);
    if n - 1 - c == 0 {
        assert(t =~= b);
    } else {
        assert(t.drop_last() =~= b);
        assert(scan(t, n) == scan_step(sb, (48 + n - 1 - c) as u8, n));
    }
    assert forall|i: int| 0 <= i < t.len() implies #[trigger] t[i] != 32 && t[i] != 47 by {
        if i < a.len() {
            assert(t[i] == a[i]);
        } else if i == a.len() {
            assert(t[i] == 81u8);
        } else {
            assert(t[i] == run_text(n - 1 - c)[i - a.len() - 1]);
        }
    }
}

proof fn lemma_fen_of_columns_ranks(cols: Seq<int>, n: int)
    requires
        cols.len() >= 1,
        1 <= n <= 9,
        forall|j: int| 0 <= j < cols.len() ==> 0 <= #[trigger] cols[j] < n,
    ensures
        fields(fen_of_columns(cols, n), 47u8) == cols.map_values(|c: int| queen_rank_text(c, n)),
        forall|i: int|
            0 <= i < fen_of_columns(cols, n).len() ==> #[trigger] fen_of_columns(cols, n)[i] != 32,
    decreases cols.len(),
{
    let f = queen_rank_text(cols.last(), n);
    lemma_scan_queen_rank(cols.last(), n);
    assert forall|i: int| 0 <= i < f.len() implies f[i] != 47u8 by {
        assert(f[i] == queen_rank_text(cols.last(), n)[i]);
    }
    if cols.len() == 1 {
        assert(Seq::<u8>::empty() + f =~= f);
        lemma_fields_extend(Seq::empty(), f, 47u8);
        assert(cols.map_values(|c: int| queen_rank_text(c, n)) =~= seq![f]);
        assert(cols[0] == cols.last());
    } else {
        let front = cols.drop_last();
        assert forall|j: int| 0 <= j < front.len() implies 0 <= #[trigger] front[j] < n by {
            assert(front[j] == cols[j]);
        }
        lemma_fen_of_columns_ranks(front, n);
        let head = fen_of_columns(front, n) + seq![47u8];
        assert(head.drop_last() =~= fen_of_columns(front, n));
        assert(fields(head, 47u8) == fields(fen_of_columns(front, n), 47u8).push(Seq::empty()));
        lemma_fields_extend(head, f, 47u8);
        assert(fen_of_columns(cols, n) =~= head + f);
        assert(Seq::<u8>::empty() + f =~= f);
        assert(cols.map_values(|c: int| queen_rank_text(c, n)) =~= front.map_values(
            |c: int| queen_rank_text(c, n),
        ).push(f));
        let whole = head + f;
        assert forall|i: int| 0 <= i < whole.len() implies #[trigger] whole[i] != 32 by {
            if i < fen_of_columns(front, n).len() {
                assert(whole[i] == fen_of_columns(front, n)[i]);
            } else if i >= head.len() {
                assert(whole[i] == f[i - head.len()]);
            }
        }
    }
}

proof fn lemma_column_ranks_read(rs: Seq<Seq<u8>>, cols: Seq<int>, n: int, j: int)
    requires
        1 <= n <= 9,
        0 <= j <= n,
        cols.len() == n,
        rs.len() == n,
        forall|i: int| 0 <= i < n ==> 0 <= #[trigger] cols[i] < n,
        forall|i: int| 0 <= i < n ==> #[trigger] rs[i] == queen_rank_text(cols[i], n),
    ensures
        first_bad_rank(rs, n, n - j) == n,
        rank_queens(rs, n, j) == j,
        rank_marks(rs, n, j) == column_squares(cols.subrange(0, j), n),
    decreases j,
{
    if j > 0 {
        lemma_column_ranks_read(rs, cols, n, j - 1);
        lemma_scan_queen_rank(cols[j - 1], n);
        lemma_scan_queen_rank(cols[n - j], n);
        assert(rank_ok(rs[n - j], n));
        assert(scan(rs[j - 1], n).marks.map_values(|f: int| Coord { row: (n - j) as i8, col: f as i8 })
            =~= seq![Coord { row: (n - j) as i8, col: cols[j - 1] as i8 }]);
        assert(column_squares(cols.subrange(0, j), n) =~= column_squares(cols.subrange(0, j - 1), n)
            + seq![Coord { row: (n - j) as i8, col: cols[j - 1] as i8 }]);
    }
}

/// Reading back the rank notation of a placement with one queen on each rank
/// of an `n` by `n` board (at most 9 wide, so that each run is one digit)
/// succeeds and marks exactly its squares.
pub proof fn lemma_fen_round_trip(cols: Seq<int>, n: int)
    requires
        1 <= n <= 9,
        cols.len() == n,
        forall|j: int| 0 <= j < n ==> 0 <= #[trigger] cols[j] < n,
    ensures
        fen_accepts(fen_of_columns(cols, n), n),
        fen_marks(fen_of_columns(cols, n), n) == column_squares(cols, n),
{
    let t = fen_of_columns(cols, n);
    lemma_fen_of_columns_ranks(cols, n);
    lemma_no_space_from(t, 0);
    assert(board_part(t) =~= t);
    let rs = fen_ranks(t);
    assert(rs == cols.map_values(|c: int| queen_rank_text(c, n)));
    assert forall|i: int| 0 <= i < n implies #[trigger] rs[i] == queen_rank_text(cols[i], n) by {}
    lemma_column_ranks_read(rs, cols, n, n);
    assert(cols.subrange(0, n) =~= cols);
}

} // verus!
