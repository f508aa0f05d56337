//! Legal queen moves and replaying them: a move goes in a straight line over
//! empty squares to an empty square.
use vstd::prelude::*;
use crate::board::{Coord, Moves, abs, move_ends, on_board};

verus! {

/// `x` lies strictly between `a` and `b`, in either order.
pub open spec fn strictly_between(a: int, x: int, b: int) -> bool {
    (a < x < b) || (b < x < a)
}

/// `c` lies strictly between `s` and `d` on the row, column or diagonal that
/// joins them.
pub open spec fn on_segment(s: Coord, d: Coord, c: Coord) -> bool {
    if s.row == d.row {
        c.row == s.row && strictly_between(s.col as int, c.col as int, d.col as int)
    } else if s.col == d.col {
        c.col == s.col && strictly_between(s.row as int, c.row as int, d.row as int)
    } else {
        &&& abs(c.row - s.row) == abs(c.col - s.col)
        &&& abs(c.row - d.row) == abs(c.col - d.col)
        &&& strictly_between(s.row as int, c.row as int, d.row as int)
    }
}

/// The kind of a straight move from `s` to `d`.
pub open spec fn straight_kind(m: Moves, s: Coord, d: Coord) -> bool {
    s != d && match m {
        Moves::Horizontal(_, _) => s.row == d.row,
        Moves::Vertical(_, _) => s.col == d.col,
        Moves::Diagonal(_, _) => s.row != d.row && abs(s.row - d.row) == abs(s.col - d.col),
        _ => false,
    }
}

/// No two entries of the list are the same square.
pub open spec fn distinct(q: Seq<Coord>) -> bool {
    forall|i: int, j: int| 0 <= i < j < q.len() ==> q[i] != q[j]
}

/// Every entry of the list is a square of an `n` by `n` board.
pub open spec fn all_on_board(q: Seq<Coord>, n: int) -> bool {
    forall|i: int| 0 <= i < q.len() ==> on_board(#[trigger] q[i], n)
}

/// `m` is a legal move for the queens `q` on an `n` by `n` board: it starts
/// on a queen, goes in a straight line, and neither passes over nor lands on
/// another queen.
pub open spec fn legal(q: Seq<Coord>, m: Moves, n: int) -> bool {
    match move_ends(m) {
        Some((s, d)) => {
            &&& q.contains(s)
            &&& on_board(d, n)
            &&& !q.contains(d)
            &&& straight_kind(m, s, d)
            &&& forall|c: Coord| #[trigger] on_segment(s, d, c) ==> !q.contains(c)
        },
        None => false,
    }
}

/// The queens after moving the one on the source of `m` to its destination.
pub open spec fn apply(q: Seq<Coord>, m: Moves) -> Seq<Coord> {
    match move_ends(m) {
        Some((s, d)) => q.map_values(|c: Coord| if c == s { d } else { c }),
        None => q,
    }
}

/// The queens after the moves `ms`, made one after the other; none where a
/// move is not legal when it is made.
pub open spec fn replay(q: Seq<Coord>, ms: Seq<Moves>, n: int) -> Option<Seq<Coord>>
    decreases ms.len(),
{
    if ms.len() == 0 {
        Some(q)
    } else {
        match replay(q, ms.drop_last(), n) {
            Some(p) => if legal(p, ms.last(), n) {
                Some(apply(p, ms.last()))
            } else {
                None
            },
            None => None,
        }
    }
}

/// A unit step in one of the eight directions.
pub open spec fn unit_step(dr: int, dc: int) -> bool {
    -1 <= dr <= 1 && -1 <= dc <= 1 && (dr != 0 || dc != 0)
}

/// `d` is `k` unit steps from `s` in direction `(dr, dc)`.
pub open spec fn steps_away(s: Coord, d: Coord, dr: int, dc: int, k: int) -> bool {
    &&& d.row == s.row + if dr == 1 { k } else if dr == -1 { -k } else { 0 }
    &&& d.col == s.col + if dc == 1 { k } else if dc == -1 { -k } else { 0 }
}

/// Going one step further along a ray adds just the square left behind to
/// those strictly between.
pub proof fn lemma_segment_step(s: Coord, d: Coord, e: Coord, dr: int, dc: int, k: int, c: Coord)
    requires
        unit_step(dr, dc),
        k >= 1,
        steps_away(s, d, dr, dc, k),
        steps_away(s, e, dr, dc, k + 1),
        on_segment(s, e, c),
    ensures
        c == d || on_segment(s, d, c),
{
}

/// A square one step from `s` has nothing strictly between.
pub proof fn lemma_segment_first(s: Coord, d: Coord, dr: int, dc: int, c: Coord)
    requires
        unit_step(dr, dc),
        steps_away(s, d, dr, dc, 1),
    ensures
        !on_segment(s, d, c),
{
}

/// Going one step further along a ray keeps every square strictly between,
/// and adds the one left behind.
pub proof fn lemma_segment_grow(s: Coord, d: Coord, e: Coord, dr: int, dc: int, k: int, c: Coord)
    requires
        unit_step(dr, dc),
        k >= 1,
        steps_away(s, d, dr, dc, k),
        steps_away(s, e, dr, dc, k + 1),
        c == d || on_segment(s, d, c),
    ensures
        on_segment(s, e, c),
{
}

/// Whether some queen of the list stands on `c`.
pub fn occupied(q: &[Coord], c: Coord) -> (r: bool)
    ensures
        r == q@.contains(c),
{
    let mut i: usize = 0;
    while i < q.len()
        invariant
            i <= q@.len(),
            forall|j: int| 0 <= j < i ==> q@[j] != c,
        decreases q@.len() - i,
    {
        if q[i] == c {
            assert(q@[i as int] == c);
            return true;
        }
        i = i + 1;
    }
    false
}

/// The eight directions a queen moves in.
pub fn direction(d: usize) -> (r: (i8, i8))
    requires
        d < 8,
    ensures
        unit_step(r.0 as int, r.1 as int),
        r.0 as int == dir_row(d as int),
        r.1 as int == dir_col(d as int),
{
    match d {
        0 => (1, 0),
        1 => (-1, 0),
        2 => (0, 1),
        3 => (0, -1),
        4 => (1, 1),
        5 => (1, -1),
        6 => (-1, 1),
        _ => (-1, -1),
    }
}

/// Row step of direction `d` (of the eight, numbered as `direction` does).
pub open spec fn dir_row(d: int) -> int {
    if d == 0 || d == 4 || d == 5 {
        1
    } else if d == 1 || d == 6 || d == 7 {
        -1
    } else {
        0
    }
}

/// Column step of direction `d`.
pub open spec fn dir_col(d: int) -> int {
    if d == 2 || d == 4 || d == 6 {
        1
    } else if d == 3 || d == 5 || d == 7 {
        -1
    } else {
        0
    }
}

/// -1, 0 or 1 as `x` is negative, zero or positive.
pub open spec fn sign_of(x: int) -> int {
    if x > 0 {
        1
    } else if x < 0 {
        -1
    } else {
        0
    }
}

/// The number of the direction that leads from `a` towards `b`.
pub open spec fn heading(a: Coord, b: Coord) -> int {
    let dr = sign_of(b.row - a.row);
    let dc = sign_of(b.col - a.col);
    if dr == 1 && dc == 0 {
        0
    } else if dr == -1 && dc == 0 {
        1
    } else if dr == 0 && dc == 1 {
        2
    } else if dr == 0 && dc == -1 {
        3
    } else if dr == 1 && dc == 1 {
        4
    } else if dr == 1 && dc == -1 {
        5
    } else if dr == -1 && dc == 1 {
        6
    } else {
        7
    }
}

/// How many unit steps lead from `a` to `b` on their common line.
pub open spec fn span(a: Coord, b: Coord) -> int {
    if a.row != b.row {
        abs(b.row - a.row)
    } else {
        abs(b.col - a.col)
    }
}

/// Two squares joined by a straight move lie `span` steps apart along `heading`.
pub proof fn lemma_straight_steps(m: Moves, a: Coord, b: Coord)
    requires
        straight_kind(m, a, b),
    ensures
        0 <= heading(a, b) < 8,
        span(a, b) >= 1,
        unit_step(dir_row(heading(a, b)), dir_col(heading(a, b))),
        steps_away(a, b, dir_row(heading(a, b)), dir_col(heading(a, b)), span(a, b)),
{
}

/// A square fewer steps along the same ray lies strictly between.
pub proof fn lemma_steps_between(a: Coord, b: Coord, c: Coord, dr: int, dc: int, j: int, t: int)
    requires
        unit_step(dr, dc),
        steps_away(a, b, dr, dc, t),
        steps_away(a, c, dr, dc, j),
        1 <= j < t,
    ensures
        on_segment(a, b, c),
{
}

/// Squares strictly between two squares of the board are on the board.
pub proof fn lemma_between_on_board(a: Coord, b: Coord, c: Coord, n: int)
    requires
        on_board(a, n),
        on_board(b, n),
        a.row == b.row || a.col == b.col || abs(a.row - b.row) == abs(a.col - b.col),
        on_segment(a, b, c),
    ensures
        on_board(c, n),
{
}

} // verus!
