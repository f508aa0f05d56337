//! Drawing a board as text: a bordered grid with rank digits on the left and
//! file letters below, the top rank first.
use vstd::prelude::*;
use crate::board::{Board, Coord, Moves, cell, move_ends, on_board};
use crate::moves::{
    lemma_segment_first, lemma_segment_grow, lemma_segment_step, on_segment, steps_away,
    straight_kind, unit_step,
};
use crate::text::push_char;

verus! {

/// The character for a cell: blank or `.` (on dark squares) when empty, and
/// otherwise the overlay drawn there: 1 a queen, 2 the square a queen left,
/// 3 to 6 a path (`|`, `\`, `/`, `-`).
pub open spec fn glyph(v: u8, dark: bool) -> char {
    if v == 0 {
        if dark {
            '.'
        } else {
            ' '
        }
    } else if v == 1 {
        'Q'
    } else if v == 2 {
        '#'
    } else if v == 3 {
        '|'
    } else if v == 4 {
        '\\'
    } else if v == 5 {
        '/'
    } else {
        '-'
    }
}

/// Every cell holds an overlay value that has a character.
pub open spec fn drawable<const N: usize>(map: [[u8; N]; N]) -> bool {
    forall|r: int, c: int| 0 <= r < N && 0 <= c < N ==> #[trigger] cell(map, r, c) <= 6
}

/// `k` copies of `s`.
pub open spec fn repeat(s: Seq<char>, k: int) -> Seq<char>
    decreases k,
{
    if k <= 0 {
        Seq::empty()
    } else {
        repeat(s, k - 1) + s
    }
}

/// The first `c` cells of line `t` (counted from the top), each followed by `|`.
pub open spec fn cells_text<const N: usize>(map: [[u8; N]; N], t: int, c: int) -> Seq<char>
    decreases c,
{
    if c <= 0 {
        Seq::empty()
    } else {
        cells_text(map, t, c - 1) + seq![
            glyph(cell(map, N - 1 - t, c - 1), (t + c - 1) % 2 == 1),
            '|',
        ]
    }
}

/// Line `t` of cells (counted from the top), after its rank digit.
pub open spec fn rank_line<const N: usize>(map: [[u8; N]; N], t: int) -> Seq<char> {
    seq![((48 + N - t) as u8) as char, ' ', '|'] + cells_text(map, t, N as int) + seq!['\n']
}

/// The border above the top rank and below the bottom one.
pub open spec fn outer_border(n: int) -> Seq<char> {
    seq![' ', ' '] + repeat(seq!['-'], 2 * n + 1) + seq!['\n']
}

/// The border between two ranks, with `+` where lines cross.
pub open spec fn inner_border(n: int) -> Seq<char> {
    seq![' ', ' ', '-', '-'] + repeat(seq!['+', '-'], n - 1) + seq!['-', '\n']
}

/// The first `t` lines of cells, each with the border below it.
pub open spec fn body_text<const N: usize>(map: [[u8; N]; N], t: int) -> Seq<char>
    decreases t,
{
    if t <= 0 {
        Seq::empty()
    } else {
        body_text(map, t - 1) + rank_line(map, t - 1) + if t < N {
            inner_border(N as int)
        } else {
            outer_border(N as int)
        }
    }
}

/// The first `c` file letters, each after a space.
pub open spec fn files_text(c: int) -> Seq<char>
    decreases c,
{
    if c <= 0 {
        Seq::empty()
    } else {
        files_text(c - 1) + seq![' ', ((97 + c - 1) as u8) as char]
    }
}

/// The whole drawing of a board.
pub open spec fn drawing<const N: usize>(map: [[u8; N]; N]) -> Seq<char> {
    outer_border(N as int) + body_text(map, N as int) + seq![' ', ' '] + files_text(N as int)
        + seq![' ', ' ']
}

fn glyph_of(v: u8, dark: bool) -> (r: char)
    requires
        v <= 6,
    ensures
        r == glyph(v, dark),
{
    if v == 0 {
        if dark {
            '.'
        } else {
            ' '
        }
    } else if v == 1 {
        'Q'
    } else if v == 2 {
        '#'
    } else if v == 3 {
        '|'
    } else if v == 4 {
        '\\'
    } else if v == 5 {
        '/'
    } else {
        '-'
    }
}

fn append_repeat(s: &mut String, unit: &str, k: usize)
    ensures
        final(s)@ == old(s)@ + repeat(unit@, k as int),
{
    let mut i: usize = 0;
    while i < k
        invariant
            i <= k,
            s@ == old(s)@ + repeat(unit@, i as int),
        decreases k - i,
    {
        s.append(unit);
        i = i + 1;
        assert(s@ =~= old(s)@ + repeat(unit@, i as int));
    }
}

fn append_border(s: &mut String, n: usize, outer: bool)
    requires
        n >= 1,
        n <= 128,
    ensures
        final(s)@ == old(s)@ + if outer {
            outer_border(n as int)
        } else {
            inner_border(n as int)
        },
{
    proof {
        reveal_strlit("  ");
        reveal_strlit("  --");
        reveal_strlit("-");
        reveal_strlit("+-");
        reveal_strlit("-\n");
        reveal_strlit("\n");
        assert("  "@ =~= seq![' ', ' ']);
        assert("  --"@ =~= seq![' ', ' ', '-', '-']);
        assert("-"@ =~= seq!['-']);
        assert("+-"@ =~= seq!['+', '-']);
        assert("-\n"@ =~= seq!['-', '\n']);
        assert("\n"@ =~= seq!['\n']);
    }
    if outer {
        s.append("  ");
        append_repeat(s, "-", 2 * n + 1);
        s.append("\n");
        assert(s@ =~= old(s)@ + outer_border(n as int));
    } else {
        s.append("  --");
        append_repeat(s, "+-", n - 1);
        s.append("-\n");
        assert(s@ =~= old(s)@ + inner_border(n as int));
    }
}

impl<const N: usize> Board<N> {
    /// Draws the board.
    pub fn to_string(&self) -> (r: String)
        requires
            1 <= N <= 128,
            drawable(self.init_state),
        ensures
            r@ == drawing(self.init_state),
    {
        Self::to_string_inner(self.init_state)
    }

    /// Draws a grid of overlay values as a board.
    pub fn to_string_inner(map: [[u8; N]; N]) -> (r: String)
        requires
            1 <= N <= 128,
            drawable(map),
        ensures
            r@ == drawing(map),
    {
        let mut s = String::new();
        append_border(&mut s, N, true);
        let ghost head = s@;
        let mut t: usize = 0;
        assert(s@ =~= head + body_text(map, 0));
        while t < N
            invariant
                1 <= N <= 128,
                t <= N,
                drawable(map),
                head == outer_border(N as int),
                s@ == head + body_text(map, t as int),
            decreases N - t,
        {
            let ghost before = s@;
            push_char(&mut s, ((48 + N - t) as u8) as char);
            push_char(&mut s, ' ');
            push_char(&mut s, '|');
            let ghost lead = s@;
            assert(lead =~= before + seq![((48 + N - t) as u8) as char, ' ', '|']);
            let row: usize = N - 1 - t;
            let mut c: usize = 0;
            assert(s@ =~= lead + cells_text(map, t as int, 0));
            while c < N
                invariant
                    1 <= N <= 128,
                    t < N,
                    row == N - 1 - t,
                    c <= N,
                    drawable(map),
                    s@ == lead + cells_text(map, t as int, c as int),
                decreases N - c,
            {
                let v = map[row][c];
                assert(cell(map, row as int, c as int) == v);
                push_char(&mut s, glyph_of(v, (t + c) % 2 == 1));
                push_char(&mut s, '|');
                c = c + 1;
                assert(s@ =~= lead + cells_text(map, t as int, c as int));
            }
            push_char(&mut s, '\n');
            assert(s@ =~= before + rank_line(map, t as int));
            append_border(&mut s, N, t + 1 == N);
            t = t + 1;
            assert(s@ =~= head + body_text(map, t as int));
        }
        push_char(&mut s, ' ');
        push_char(&mut s, ' ');
        let ghost mid = s@;
        let mut c: usize = 0;
        assert(s@ =~= mid + files_text(0));
        while c < N
            invariant
                1 <= N <= 128,
                c <= N,
                s@ == mid + files_text(c as int),
            decreases N - c,
        {
            push_char(&mut s, ' ');
            push_char(&mut s, ((97 + c) as u8) as char);
            c = c + 1;
            assert(s@ =~= mid + files_text(c as int));
        }
        push_char(&mut s, ' ');
        push_char(&mut s, ' ');
        assert(s@ =~= drawing(map));
        s
    }
}

/// What a cell of a drawing shows.
#[derive(Copy, Clone, PartialEq, Eq, Structural, Debug)]
pub enum BoardPrint {
    Empty,
    Q,
    Pound,
    VerticalSlash,
    BackwardSlash,
    ForwardSlash,
    Hyphen,
}

/// The overlay value of a drawing symbol.
pub open spec fn print_id(p: BoardPrint) -> u8 {
    match p {
        BoardPrint::Empty => 0,
        BoardPrint::Q => 1,
        BoardPrint::Pound => 2,
        BoardPrint::VerticalSlash => 3,
        BoardPrint::BackwardSlash => 4,
        BoardPrint::ForwardSlash => 5,
        BoardPrint::Hyphen => 6,
    }
}

impl BoardPrint {
    /// The symbol of an overlay value.
    pub fn new(id: u8) -> (r: Self)
        requires
            id <= 6,
        ensures
            print_id(r) == id,
    {
        match id {
            0 => BoardPrint::Empty,
            1 => BoardPrint::Q,
            2 => BoardPrint::Pound,
            3 => BoardPrint::VerticalSlash,
            4 => BoardPrint::BackwardSlash,
            5 => BoardPrint::ForwardSlash,
            _ => BoardPrint::Hyphen,
        }
    }

    /// The overlay value of the symbol.
    pub fn id(self) -> (r: u8)
        ensures
            r == print_id(self),
    {
        match self {
            BoardPrint::Empty => 0,
            BoardPrint::Q => 1,
            BoardPrint::Pound => 2,
            BoardPrint::VerticalSlash => 3,
            BoardPrint::BackwardSlash => 4,
            BoardPrint::ForwardSlash => 5,
            BoardPrint::Hyphen => 6,
        }
    }

    /// The character drawn for the symbol, as a byte.
    pub fn to_unicode_u8(self) -> (r: u8)
        ensures
            r as char == glyph(print_id(self), false),
    {
        match self {
            BoardPrint::Empty => 32,
            BoardPrint::Q => 81,
            BoardPrint::Pound => 35,
            BoardPrint::VerticalSlash => 124,
            BoardPrint::BackwardSlash => 92,
            BoardPrint::ForwardSlash => 47,
            BoardPrint::Hyphen => 45,
        }
    }
}

/// Moves whose path a drawing shows.
pub open spec fn draws_path(m: Moves) -> bool {
    m is Horizontal || m is Vertical || m is Diagonal
}

/// The path symbol drawn on `c` for move `m` ending on `d`.
pub open spec fn path_mark(m: Moves, d: Coord, c: Coord) -> u8 {
    match m {
        Moves::Vertical(_, _) => 3,
        Moves::Horizontal(_, _) => 6,
        _ => if (c.row > d.row) == (c.col > d.col) {
            5
        } else {
            4
        },
    }
}

/// Cell `(r, c)` of the drawing of move `m`, made on the board `after` shows.
pub open spec fn frame_cell<const N: usize>(after: [[u8; N]; N], m: Moves, r: int, c: int) -> u8 {
    match move_ends(m) {
        None => cell(after, r, c),
        Some((s, d)) => if r == d.row && c == d.col {
            1
        } else if r == s.row && c == s.col {
            2
        } else if draws_path(m) && on_segment(s, d, Coord { row: r as i8, col: c as i8 }) {
            path_mark(m, d, Coord { row: r as i8, col: c as i8 })
        } else {
            cell(after, r, c)
        },
    }
}

fn sign(x: i8) -> (r: i8)
    ensures
        r == if x > 0 { 1i8 } else if x < 0 { -1i8 } else { 0i8 },
{
    if x > 0 {
        1
    } else if x < 0 {
        -1
    } else {
        0
    }
}

impl<const N: usize> Board<N> {
    /// Makes move `m` on `map` (its source emptied, a queen on its
    /// destination) and returns the drawing of it: the source marked `#`,
    /// the queen on the destination, and the squares passed over marked with
    /// the line's symbol.
    pub fn replay_step(map: &mut [[u8; N]; N], m: Moves) -> (frame: [[u8; N]; N])
        requires
            N <= 128,
            move_ends(m) is Some ==> on_board(move_ends(m)->Some_0.0, N as int) && on_board(
                move_ends(m)->Some_0.1,
                N as int,
            ) && (draws_path(m) ==> straight_kind(m, move_ends(m)->Some_0.0, move_ends(m)->Some_0.1)),
        ensures
            move_ends(m) is None ==> *final(map) == *old(map),
            move_ends(m) is Some ==> {
                let (s, d) = move_ends(m)->Some_0;
                forall|r: int, c: int|
                    0 <= r < N && 0 <= c < N ==> #[trigger] cell(*final(map), r, c) == if r == d.row
                        && c == d.col {
                        1u8
                    } else if r == s.row && c == s.col {
                        0u8
                    } else {
                        cell(*old(map), r, c)
                    }
            },
            forall|r: int, c: int|
                0 <= r < N && 0 <= c < N ==> #[trigger] cell(frame, r, c) == frame_cell(
                    *final(map),
                    m,
                    r,
                    c,
                ),
    {
        let (src, dest) = match m.get_values() {
            Some(e) => e,
            None => {
                return *map;
            },
        };
        map[src.row as usize][src.col as usize] = 0;
        map[dest.row as usize][dest.col as usize] = 1;
        let mut frame = *map;
        frame[src.row as usize][src.col as usize] = BoardPrint::Pound.id();
        frame[dest.row as usize][dest.col as usize] = BoardPrint::Q.id();
        let is_path = match m {
            Moves::Horizontal(_, _) | Moves::Vertical(_, _) | Moves::Diagonal(_, _) => true,
            _ => false,
        };
        if !is_path {
            return frame;
        }
        let mark: u8 = match m {
            Moves::Vertical(_, _) => BoardPrint::VerticalSlash.id(),
            Moves::Horizontal(_, _) => BoardPrint::Hyphen.id(),
            _ => 0,
        };
        let dr = sign(dest.row - src.row);
        let dc = sign(dest.col - src.col);
        let ghost after = *map;
        let ghost total: int = if dest.row != src.row {
            crate::board::abs(dest.row - src.row)
        } else {
            crate::board::abs(dest.col - src.col)
        };
        let mut cur = Coord { row: src.row + dr, col: src.col + dc };
        let mut k: usize = 1;
        proof {
            assert(unit_step(dr as int, dc as int));
            assert(steps_away(src, dest, dr as int, dc as int, total));
            assert forall|c: Coord| !#[trigger] on_segment(src, cur, c) by {
                lemma_segment_first(src, cur, dr as int, dc as int, c);
            }
        }
        while cur != dest
            invariant
                N <= 128,
                unit_step(dr as int, dc as int),
                on_board(src, N as int),
                on_board(dest, N as int),
                1 <= k <= total,
                total <= 128,
                steps_away(src, cur, dr as int, dc as int, k as int),
                steps_away(src, dest, dr as int, dc as int, total),
                straight_kind(m, src, dest),
                draws_path(m),
                move_ends(m) == Some((src, dest)),
                m is Vertical ==> mark == 3,
                m is Horizontal ==> mark == 6,
                m is Diagonal ==> mark == 0,
                is_path,
                forall|r: int, c: int|
                    0 <= r < N && 0 <= c < N ==> #[trigger] cell(frame, r, c) == if r == dest.row
                        && c == dest.col {
                        1u8
                    } else if r == src.row && c == src.col {
                        2u8
                    } else if on_segment(src, cur, Coord { row: r as i8, col: c as i8 }) {
                        path_mark(m, dest, Coord { row: r as i8, col: c as i8 })
                    } else {
                        cell(after, r, c)
                    },
            decreases total - k,
        {
            let glyph_here: u8 = if is_path && mark != 0 {
                mark
            } else if (cur.row > dest.row) == (cur.col > dest.col) {
                BoardPrint::ForwardSlash.id()
            } else {
                BoardPrint::BackwardSlash.id()
            };
            let ghost before = frame;
            assert(glyph_here == path_mark(m, dest, cur));
            frame[cur.row as usize][cur.col as usize] = glyph_here;
            let nxt = Coord { row: cur.row + dr, col: cur.col + dc };
            proof {
                assert forall|c: Coord| #[trigger] on_segment(src, nxt, c) <==> (c == cur || on_segment(src, cur, c)) by {
                    if on_segment(src, nxt, c) {
                        lemma_segment_step(src, cur, nxt, dr as int, dc as int, k as int, c);
                    }
                    if c == cur || on_segment(src, cur, c) {
                        lemma_segment_grow(src, cur, nxt, dr as int, dc as int, k as int, c);
                    }
                }
                assert forall|r: int, c: int| 0 <= r < N && 0 <= c < N implies #[trigger] cell(frame, r, c) == if r == dest.row
                    && c == dest.col {
                    1u8
                } else if r == src.row && c == src.col {
                    2u8
                } else if on_segment(src, nxt, Coord { row: r as i8, col: c as i8 }) {
                    path_mark(m, dest, Coord { row: r as i8, col: c as i8 })
                } else {
                    cell(after, r, c)
                } by {
                    let cc = Coord { row: r as i8, col: c as i8 };
                    assert(cc.row == r && cc.col == c);
                    if r == cur.row && c == cur.col {
                        assert(cc == cur);
                        assert(cur != src);
                    } else {
                        assert(cell(frame, r, c) == cell(before, r, c));
                        assert(cc != cur);
                    }
                }
            }
            cur = nxt;
            k = k + 1;
        }
        frame
    }
}

/// Cell `(r, c)` of `map` after the moves `ms`, each emptying its source and
/// putting a queen on its destination.
pub open spec fn cell_after<const N: usize>(map: [[u8; N]; N], ms: Seq<Moves>, r: int, c: int) -> u8
    decreases ms.len(),
{
    if ms.len() == 0 {
        cell(map, r, c)
    } else {
        match move_ends(ms.last()) {
            Some((s, d)) => if r == d.row && c == d.col {
                1
            } else if r == s.row && c == s.col {
                0
            } else {
                cell_after(map, ms.drop_last(), r, c)
            },
            None => cell_after(map, ms.drop_last(), r, c),
        }
    }
}

/// Cell `(r, c)` of the drawing of move `i` of `ms`, replayed from `map`.
pub open spec fn replay_cell<const N: usize>(
    map: [[u8; N]; N],
    ms: Seq<Moves>,
    i: int,
    r: int,
    c: int,
) -> u8 {
    let m = ms[i];
    let below = cell_after(map, ms.subrange(0, i + 1), r, c);
    match move_ends(m) {
        None => below,
        Some((s, d)) => if r == d.row && c == d.col {
            1
        } else if r == s.row && c == s.col {
            2
        } else if draws_path(m) && on_segment(s, d, Coord { row: r as i8, col: c as i8 }) {
            path_mark(m, d, Coord { row: r as i8, col: c as i8 })
        } else {
            below
        },
    }
}

/// A move that can be drawn on an `n` by `n` board: its ends are on the
/// board, and a move along a line really follows that line.
pub open spec fn drawable_move(m: Moves, n: int) -> bool {
    move_ends(m) is Some ==> on_board(move_ends(m)->Some_0.0, n) && on_board(
        move_ends(m)->Some_0.1,
        n,
    ) && (draws_path(m) ==> straight_kind(m, move_ends(m)->Some_0.0, move_ends(m)->Some_0.1))
}

impl<const N: usize> Board<N> {
    /// Replays the moves from this board, returning the drawing grid of each
    /// move in turn (see `replay_step`).
    pub fn replay_moves(&self, moves: &Vec<Moves>) -> (frames: Vec<[[u8; N]; N]>)
        requires
            N <= 128,
            forall|i: int| 0 <= i < moves@.len() ==> drawable_move(#[trigger] moves@[i], N as int),
        ensures
            frames@.len() == moves@.len(),
            forall|i: int, r: int, c: int|
                0 <= i < moves@.len() && 0 <= r < N && 0 <= c < N ==> #[trigger] cell(
                    frames@[i],
                    r,
                    c,
                ) == replay_cell(self.init_state, moves@, i, r, c),
    {
        let mut map = self.init_state;
        let mut frames: Vec<[[u8; N]; N]> = Vec::new();
        let mut i: usize = 0;
        while i < moves.len()
            invariant
                N <= 128,
                i <= moves@.len(),
                frames@.len() == i,
                forall|j: int| 0 <= j < moves@.len() ==> drawable_move(#[trigger] moves@[j], N as int),
                forall|r: int, c: int|
                    0 <= r < N && 0 <= c < N ==> #[trigger] cell(map, r, c) == cell_after(
                        self.init_state,
                        moves@.subrange(0, i as int),
                        r,
                        c,
                    ),
                forall|j: int, r: int, c: int|
                    0 <= j < i && 0 <= r < N && 0 <= c < N ==> #[trigger] cell(frames@[j], r, c)
                        == replay_cell(self.init_state, moves@, j, r, c),
            decreases moves@.len() - i,
        {
            let m = moves[i];
            assert(drawable_move(moves@[i as int], N as int));
            let ghost before = map;
            let frame = Self::replay_step(&mut map, m);
            let ghost upto = moves@.subrange(0, i + 1);
            proof {
                assert(upto.drop_last() =~= moves@.subrange(0, i as int));
                assert(upto.last() == m);
                assert forall|r: int, c: int| 0 <= r < N && 0 <= c < N implies #[trigger] cell(map, r, c)
                    == cell_after(self.init_state, upto, r, c) by {
                    assert(cell(before, r, c) == cell_after(
                        self.init_state,
                        moves@.subrange(0, i as int),
                        r,
                        c,
                    ));
                }
                assert forall|r: int, c: int| 0 <= r < N && 0 <= c < N implies #[trigger] cell(frame, r, c)
                    == replay_cell(self.init_state, moves@, i as int, r, c) by {
                    assert(cell(map, r, c) == cell_after(self.init_state, upto, r, c));
                }
            }
            frames.push(frame);
            i = i + 1;
            proof {
                assert forall|j: int, r: int, c: int|
                    0 <= j < i && 0 <= r < N && 0 <= c < N implies #[trigger] cell(frames@[j], r, c)
                        == replay_cell(self.init_state, moves@, j, r, c) by {
                    if j == i - 1 {
                        assert(frames@[j] == frame);
                    }
                }
            }
        }
        frames
    }
}

} // verus!
