//! Squares, moves and boards: queen extraction, placement validation and the
//! geometry shared by the solvers.
use vstd::prelude::*;
use crate::text::{append_decimal, decimal, push_char};

verus! {

/// A square: `row` 0 is rank 1, `col` 0 is file `a`.
#[derive(Copy, Clone, PartialEq, Eq, Structural, PartialOrd, Ord, Debug)]
pub struct Coord {
    pub row: i8,
    pub col: i8,
}

impl Coord {
    /// The square's name: its file letter, then its rank number (`a1`).
    pub fn to_string(&self) -> (r: String)
        requires
            0 <= self.col < 26,
            0 <= self.row,
        ensures
            r@ == seq![((97 + self.col) as u8) as char] + decimal((self.row + 1) as nat),
    {
        let mut s = String::new();
        push_char(&mut s, ((97 + self.col as u8) as u8) as char);
        append_decimal(&mut s, self.row as usize + 1);
        assert(s@ =~= seq![((97 + self.col) as u8) as char] + decimal((self.row + 1) as nat));
        s
    }
}

/// Absolute value of an integer.
pub open spec fn abs(x: int) -> int {
    if x < 0 {
        -x
    } else {
        x
    }
}

/// Two queens attack each other: same row, same column or same diagonal.
pub open spec fn attacks(a: Coord, b: Coord) -> bool {
    a.row == b.row || a.col == b.col || abs(a.row - b.row) == abs(a.col - b.col)
}

/// No two queens of the list share a row, a column or a diagonal.
pub open spec fn non_attacking(q: Seq<Coord>) -> bool {
    forall|i: int, j: int| 0 <= i < j < q.len() ==> !attacks(#[trigger] q[i], #[trigger] q[j])
}

/// A square of an `n` by `n` board.
pub open spec fn on_board(c: Coord, n: int) -> bool {
    0 <= c.row < n && 0 <= c.col < n
}

/// A straight move of one queen, or the lack of one.
///
/// `Horizontal`, `Vertical` and `Diagonal` are what the solvers produce;
/// the signed directions are their refinements for display.
#[derive(Copy, Clone, PartialEq, Eq, Structural, Debug)]
pub enum Moves {
    Horizontal(Coord, Coord),
    Vertical(Coord, Coord),
    Diagonal(Coord, Coord),
    ThreeMoves1(Coord, Coord),
    ThreeMoves2(Coord, Coord),
    ThreeMoves3(Coord, Coord),
    NoPossibleMoves,
    Left(Coord, Coord),
    Right(Coord, Coord),
    Up(Coord, Coord),
    Down(Coord, Coord),
    UpLeft(Coord, Coord),
    UpRight(Coord, Coord),
    DownLeft(Coord, Coord),
    DownRight(Coord, Coord),
}

/// The source and destination of a move; none for `NoPossibleMoves`.
pub open spec fn move_ends(m: Moves) -> Option<(Coord, Coord)> {
    match m {
        Moves::Horizontal(s, d) => Some((s, d)),
        Moves::Vertical(s, d) => Some((s, d)),
        Moves::Diagonal(s, d) => Some((s, d)),
        Moves::ThreeMoves1(s, d) => Some((s, d)),
        Moves::ThreeMoves2(s, d) => Some((s, d)),
        Moves::ThreeMoves3(s, d) => Some((s, d)),
        Moves::NoPossibleMoves => None,
        Moves::Left(s, d) => Some((s, d)),
        Moves::Right(s, d) => Some((s, d)),
        Moves::Up(s, d) => Some((s, d)),
        Moves::Down(s, d) => Some((s, d)),
        Moves::UpLeft(s, d) => Some((s, d)),
        Moves::UpRight(s, d) => Some((s, d)),
        Moves::DownLeft(s, d) => Some((s, d)),
        Moves::DownRight(s, d) => Some((s, d)),
    }
}

/// The signed refinement of a move: a move whose ends coincide is no move;
/// up is towards higher rows, right towards higher columns.
pub open spec fn specific_direction(m: Moves) -> Moves {
    match move_ends(m) {
        Some((s, d)) if s == d => Moves::NoPossibleMoves,
        _ => match m {
            Moves::Horizontal(s, d) => if d.col > s.col {
                Moves::Right(s, d)
            } else {
                Moves::Left(s, d)
            },
            Moves::Vertical(s, d) => if d.row > s.row {
                Moves::Up(s, d)
            } else {
                Moves::Down(s, d)
            },
            Moves::Diagonal(s, d) => if d.row > s.row {
                if d.col > s.col {
                    Moves::UpRight(s, d)
                } else {
                    Moves::UpLeft(s, d)
                }
            } else if d.col > s.col {
                Moves::DownRight(s, d)
            } else {
                Moves::DownLeft(s, d)
            },
            _ => m,
        },
    }
}

impl Moves {
    /// The source and destination of the move.
    pub fn get_values(self) -> (r: Option<(Coord, Coord)>)
        ensures
            r == move_ends(self),
    {
        match self {
            Moves::Horizontal(s, d) | Moves::Vertical(s, d) | Moves::Diagonal(s, d)
            | Moves::ThreeMoves1(s, d) | Moves::ThreeMoves2(s, d) | Moves::ThreeMoves3(s, d)
            | Moves::Left(s, d) | Moves::Right(s, d) | Moves::Up(s, d) | Moves::Down(s, d)
            | Moves::UpLeft(s, d) | Moves::UpRight(s, d) | Moves::DownLeft(s, d)
            | Moves::DownRight(s, d) => Some((s, d)),
            Moves::NoPossibleMoves => None,
        }
    }

    /// The move named by its signed direction.
    pub fn get_specific_direction(self) -> (r: Moves)
        ensures
            r == specific_direction(self),
    {
        if let Some((src, dest)) = self.get_values() {
            if src == dest {
                return Moves::NoPossibleMoves;
            }
        }
        match self {
            Moves::Horizontal(src, dest) => {
                if dest.col > src.col {
                    Moves::Right(src, dest)
                } else {
                    Moves::Left(src, dest)
                }
            },
            Moves::Vertical(src, dest) => {
                if dest.row > src.row {
                    Moves::Up(src, dest)
                } else {
                    Moves::Down(src, dest)
                }
            },
            Moves::Diagonal(src, dest) => {
                if dest.row > src.row {
                    if dest.col > src.col {
                        Moves::UpRight(src, dest)
                    } else {
                        Moves::UpLeft(src, dest)
                    }
                } else if dest.col > src.col {
                    Moves::DownRight(src, dest)
                } else {
                    Moves::DownLeft(src, dest)
                }
            },
            x => x,
        }
    }

    /// The square the move starts from.
    pub fn get_src(self) -> (r: Option<Coord>)
        ensures
            r == match move_ends(self) {
                Some((s, _)) => Some(s),
                None => None::<Coord>,
            },
    {
        match self.get_values() {
            Some((s, _)) => Some(s),
            None => None,
        }
    }

    /// The square the move ends on.
    pub fn get_dest(self) -> (r: Option<Coord>)
        ensures
            r == match move_ends(self) {
                Some((_, d)) => Some(d),
                None => None::<Coord>,
            },
    {
        match self.get_values() {
            Some((_, d)) => Some(d),
            None => None,
        }
    }
}

/// An `N` by `N` board; a nonzero cell holds a queen.
pub struct Board<const N: usize> {
    pub init_state: [[u8; N]; N],
}

/// The cell at row `r`, column `c`.
pub open spec fn cell<const N: usize>(map: [[u8; N]; N], r: int, c: int) -> u8 {
    map@[r]@[c]
}

/// The queens of row `r` in columns below `c`, left to right.
pub open spec fn row_queens<const N: usize>(map: [[u8; N]; N], r: int, c: int) -> Seq<Coord>
    decreases c,
{
    if c <= 0 {
        Seq::empty()
    } else if cell(map, r, c - 1) != 0 {
        row_queens(map, r, c - 1).push(Coord { row: r as i8, col: (c - 1) as i8 })
    } else {
        row_queens(map, r, c - 1)
    }
}

/// The queens of the top `t` rows in reading order: from the top row down,
/// each row left to right.
pub open spec fn top_queens<const N: usize>(map: [[u8; N]; N], t: int) -> Seq<Coord>
    decreases t,
{
    if t <= 0 {
        Seq::empty()
    } else {
        top_queens(map, t - 1) + row_queens(map, N - t, N as int)
    }
}

/// Every queen of the board in reading order.
pub open spec fn queens_of<const N: usize>(map: [[u8; N]; N]) -> Seq<Coord> {
    top_queens(map, N as int)
}

/// The board holds exactly `N` queens and no two of them attack each other.
pub open spec fn solved<const N: usize>(map: [[u8; N]; N]) -> bool {
    queens_of(map).len() == N && non_attacking(queens_of(map))
}

proof fn lemma_row_queens_on_board<const N: usize>(map: [[u8; N]; N], r: int, c: int)
    requires
        0 <= r < N,
        c <= N,
        N <= 128,
    ensures
        forall|i: int|
            0 <= i < row_queens(map, r, c).len() ==> {
                let q = #[trigger] row_queens(map, r, c)[i];
                on_board(q, N as int) && q.row == r && cell(map, q.row as int, q.col as int) != 0
            },
        row_queens(map, r, c).len() <= if c < 0 { 0 } else { c },
    decreases c,
{
    if c > 0 {
        lemma_row_queens_on_board(map, r, c - 1);
    }
}

proof fn lemma_top_queens_on_board<const N: usize>(map: [[u8; N]; N], t: int)
    requires
        t <= N,
        N <= 128,
    ensures
        forall|i: int|
            0 <= i < top_queens(map, t).len() ==> {
                let q = #[trigger] top_queens(map, t)[i];
                on_board(q, N as int) && cell(map, q.row as int, q.col as int) != 0
            },
    decreases t,
{
    if t > 0 {
        lemma_top_queens_on_board(map, t - 1);
        lemma_row_queens_on_board(map, N - t, N as int);
        let a = top_queens(map, t - 1);
        let b = row_queens(map, N - t, N as int);
        assert forall|i: int| 0 <= i < (a + b).len() implies {
            let q = #[trigger] (a + b)[i];
            on_board(q, N as int) && cell(map, q.row as int, q.col as int) != 0
        } by {
            if i >= a.len() {
                assert((a + b)[i] == b[i - a.len()]);
            }
        }
    }
}

proof fn lemma_row_queens_distinct<const N: usize>(map: [[u8; N]; N], r: int, c: int)
    requires
        0 <= r < N,
        c <= N,
        N <= 128,
    ensures
        forall|i: int, j: int|
            0 <= i < j < row_queens(map, r, c).len() ==> (#[trigger] row_queens(map, r, c)[i]).col
                < (#[trigger] row_queens(map, r, c)[j]).col,
        forall|i: int|
            0 <= i < row_queens(map, r, c).len() ==> (#[trigger] row_queens(map, r, c)[i]).col
                < c && row_queens(map, r, c)[i].col >= 0 && row_queens(map, r, c)[i].row == r,
    decreases c,
{
    if c > 0 {
        lemma_row_queens_distinct(map, r, c - 1);
        let p = row_queens(map, r, c - 1);
        let q = Coord { row: r as i8, col: (c - 1) as i8 };
        assert(q.col == c - 1 && q.row == r);
        if cell(map, r, c - 1) != 0 {
            assert(row_queens(map, r, c) == p.push(q));
            assert forall|i: int| 0 <= i < p.len() implies #[trigger] p.push(q)[i] == p[i] by {}
        }
    }
}

proof fn lemma_top_queens_distinct<const N: usize>(map: [[u8; N]; N], t: int)
    requires
        0 <= t <= N,
        N <= 128,
    ensures
        forall|i: int, j: int|
            0 <= i < j < top_queens(map, t).len() ==> top_queens(map, t)[i] != top_queens(
                map,
                t,
            )[j],
        forall|i: int|
            0 <= i < top_queens(map, t).len() ==> (#[trigger] top_queens(map, t)[i]).row >= N - t,
    decreases t,
{
    if t > 0 {
        lemma_top_queens_distinct(map, t - 1);
        lemma_row_queens_distinct(map, N - t, N as int);
        let a = top_queens(map, t - 1);
        let b = row_queens(map, N - t, N as int);
        assert forall|i: int| 0 <= i < (a + b).len() implies (#[trigger] (a + b)[i]).row >= N - t by {
            if i >= a.len() {
                assert((a + b)[i] == b[i - a.len()]);
            }
        }
        assert forall|i: int, j: int| 0 <= i < j < (a + b).len() implies (a + b)[i] != (a + b)[j] by {
            if j < a.len() {
            } else if i >= a.len() {
                assert((a + b)[i] == b[i - a.len()]);
                assert((a + b)[j] == b[j - a.len()]);
            } else {
                assert((a + b)[i] == a[i]);
                assert((a + b)[j] == b[j - a.len()]);
                assert(a[i].row >= N - (t - 1));
            }
        }
    }
}

/// The queens of a board are distinct squares of the board.
pub proof fn lemma_queens_of_distinct<const N: usize>(map: [[u8; N]; N])
    requires
        N <= 128,
    ensures
        forall|i: int, j: int|
            0 <= i < j < queens_of(map).len() ==> queens_of(map)[i] != queens_of(map)[j],
        forall|i: int|
            0 <= i < queens_of(map).len() ==> on_board(#[trigger] queens_of(map)[i], N as int),
{
    lemma_top_queens_distinct(map, N as int);
    lemma_top_queens_on_board(map, N as int);
}

/// Every queen of the board, in reading order.
fn queen_list<const N: usize>(map: &[[u8; N]; N]) -> (r: Vec<Coord>)
    requires
        N <= 128,
    ensures
        r@ == queens_of(*map),
{
    let mut out: Vec<Coord> = Vec::new();
    let mut t: usize = 0;
    while t < N
        invariant
            t <= N,
            N <= 128,
            out@ == top_queens(*map, t as int),
        decreases N - t,
    {
        let row_n: usize = N - 1 - t;
        let ghost before = out@;
        let mut col_n: usize = 0;
        while col_n < N
            invariant
                t < N,
                row_n == N - 1 - t,
                col_n <= N,
                N <= 128,
                before == top_queens(*map, t as int),
                out@ == before + row_queens(*map, row_n as int, col_n as int),
            decreases N - col_n,
        {
            if map[row_n][col_n] != 0 {
                out.push(Coord { row: row_n as i8, col: col_n as i8 });
            }
            col_n = col_n + 1;
            assert(out@ =~= before + row_queens(*map, row_n as int, col_n as int));
        }
        t = t + 1;
    }
    out
}

/// Whether two queens share a row, a column or a diagonal.
fn attack(a: Coord, b: Coord) -> (r: bool)
    ensures
        r == attacks(a, b),
{
    let dr: i16 = a.row as i16 - b.row as i16;
    let dc: i16 = a.col as i16 - b.col as i16;
    let adr: i16 = if dr < 0 {
        -dr
    } else {
        dr
    };
    let adc: i16 = if dc < 0 {
        -dc
    } else {
        dc
    };
    a.row == b.row || a.col == b.col || adr == adc
}

/// Whether no two queens of the list attack each other.
pub(crate) fn no_attacks(q: &[Coord]) -> (r: bool)
    ensures
        r == non_attacking(q@),
{
    let mut i: usize = 0;
    while i < q.len()
        invariant
            i <= q@.len(),
            forall|a: int, b: int| 0 <= a < b < q@.len() && a < i ==> !attacks(q@[a], q@[b]),
        decreases q@.len() - i,
    {
        let mut j: usize = i + 1;
        while j < q.len()
            invariant
                i < q@.len(),
                i + 1 <= j <= q@.len(),
                forall|a: int, b: int| 0 <= a < b < q@.len() && a < i ==> !attacks(q@[a], q@[b]),
                forall|b: int| i < b < j ==> !attacks(q@[i as int], q@[b]),
            decreases q@.len() - j,
        {
            if attack(q[i], q[j]) {
                assert(!non_attacking(q@)) by {
                    assert(attacks(q@[i as int], q@[j as int]));
                }
                return false;
            }
            j = j + 1;
        }
        i = i + 1;
    }
    true
}

impl<const N: usize> Board<N> {
    /// The queens of `map` in reading order (from the top row down, each row
    /// left to right), the first `N` of them; missing ones read as `a1`.
    pub fn get_queens_pos(map: [[u8; N]; N]) -> (r: [Coord; N])
        requires
            N <= 128,
        ensures
            forall|i: int|
                0 <= i < N ==> #[trigger] r@[i] == if i < queens_of(map).len() {
                    queens_of(map)[i]
                } else {
                    Coord { row: 0, col: 0 }
                },
    {
        let all = queen_list(&map);
        let mut queens_pos: [Coord; N] = [Coord { row: 0, col: 0 }; N];
        let mut idx: usize = 0;
        while idx < N && idx < all.len()
            invariant
                idx <= N,
                idx <= all@.len(),
                all@ == queens_of(map),
                forall|i: int|
                    0 <= i < N ==> #[trigger] queens_pos@[i] == if i < idx {
                        all@[i]
                    } else {
                        Coord { row: 0, col: 0 }
                    },
            decreases N - idx,
        {
            queens_pos[idx] = all[idx];
            idx = idx + 1;
        }
        queens_pos
    }

    /// Whether no two queens of the list share a row, a column or a diagonal.
    pub fn validate_list(queens_pos: [Coord; N]) -> (r: bool)
        ensures
            r == non_attacking(queens_pos@),
    {
        no_attacks(queens_pos.as_slice())
    }

    /// Whether the board holds exactly `N` queens, no two of which attack each other.
    pub fn validate_game(&mut self) -> (r: bool)
        requires
            N <= 128,
        ensures
            r == solved(old(self).init_state),
            *final(self) == *old(self),
    {
        let queens_pos = queen_list(&self.init_state);
        if queens_pos.len() != N {
            return false;
        }
        no_attacks(queens_pos.as_slice())
    }
}

} // verus!
