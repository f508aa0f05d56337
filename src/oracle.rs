//! The single-queen route finder: the fewest straight segments that carry
//! one queen to a target square over squares that no other queen holds.
use vstd::prelude::*;
use crate::board::{Coord, Moves, move_ends, on_board};
use crate::board::abs;
use crate::moves::{
    apply, dir_col, dir_row, direction, distinct, heading, legal, lemma_between_on_board,
    lemma_segment_first, lemma_segment_step, lemma_steps_between, lemma_straight_steps, occupied,
    on_segment, replay, span, steps_away, straight_kind, unit_step,
};

verus! {

/// A square that blocks the moving queen: held by a queen other than the
/// one that moves (which starts on `s`).
pub open spec fn blocked(q: Seq<Coord>, s: Coord, c: Coord) -> bool {
    q.contains(c) && c != s
}

/// A straight segment from `a` to `b` that the queen moving from `s` may
/// take: it lands on the board, on a square not blocked, and passes over none.
pub open spec fn clear_segment(q: Seq<Coord>, s: Coord, m: Moves, n: int) -> bool {
    match move_ends(m) {
        Some((a, b)) => {
            &&& on_board(a, n)
            &&& on_board(b, n)
            &&& straight_kind(m, a, b)
            &&& !blocked(q, s, b)
            &&& forall|c: Coord| #[trigger] on_segment(a, b, c) ==> !blocked(q, s, c)
        },
        None => false,
    }
}

/// The segments lead, one after the other, from `a` to `d`.
pub open spec fn chain(q: Seq<Coord>, s: Coord, a: Coord, d: Coord, segs: Seq<Moves>, n: int) -> bool
    decreases segs.len(),
{
    if segs.len() == 0 {
        a == d
    } else {
        &&& move_ends(segs[0]) is Some
        &&& move_ends(segs[0])->Some_0.0 == a
        &&& clear_segment(q, s, segs[0], n)
        &&& chain(q, s, move_ends(segs[0])->Some_0.1, d, segs.drop_first(), n)
    }
}

/// A route for the queen on `s` to `d`: at least one segment, chained from
/// `s` to `d`.
pub open spec fn route_ok(q: Seq<Coord>, s: Coord, d: Coord, segs: Seq<Moves>, n: int) -> bool {
    segs.len() >= 1 && chain(q, s, s, d, segs, n)
}

/// The squares seen so far: `src` at distance 0, every other one reached
/// from a square one segment nearer by a segment the queen may take.
spec fn seen_ok<const N: usize>(
    q: Seq<Coord>,
    src: Coord,
    dist: [[usize; N]; N],
    from: [[Coord; N]; N],
) -> bool {
    &&& dist@[src.row as int]@[src.col as int] == 0
    &&& forall|r: int, c: int|
        0 <= r < N && 0 <= c < N && #[trigger] dist@[r]@[c] != usize::MAX && !(r == src.row
            && c == src.col) ==> {
            let p = from@[r]@[c];
            let b = Coord { row: r as i8, col: c as i8 };
            &&& dist@[r]@[c] >= 1
            &&& on_board(p, N as int)
            &&& dist@[p.row as int]@[p.col as int] == dist@[r]@[c] - 1
            &&& clear_segment(q, src, segment(p, b), N as int)
        }
}

/// The straight move from `a` to `b`, named by the line it follows.
pub open spec fn segment(a: Coord, b: Coord) -> Moves {
    if a.row == b.row {
        Moves::Horizontal(a, b)
    } else if a.col == b.col {
        Moves::Vertical(a, b)
    } else {
        Moves::Diagonal(a, b)
    }
}

fn make_segment(a: Coord, b: Coord) -> (r: Moves)
    ensures
        r == segment(a, b),
{
    if a.row == b.row {
        Moves::Horizontal(a, b)
    } else if a.col == b.col {
        Moves::Vertical(a, b)
    } else {
        Moves::Diagonal(a, b)
    }
}

fn is_blocked(q: &[Coord], s: Coord, c: Coord) -> (r: bool)
    ensures
        r == blocked(q@, s, c),
{
    c != s && occupied(q, c)
}

/// The queen moving from `s` can go from `y` to `x` in one straight segment.
pub open spec fn one_step(q: Seq<Coord>, s: Coord, y: Coord, x: Coord, n: int) -> bool {
    clear_segment(q, s, segment(y, x), n)
}

/// The layer at which the search first saw `x`; `usize::MAX` where unseen.
spec fn dist_at<const N: usize>(dist: [[usize; N]; N], x: Coord) -> usize {
    dist@[x.row as int]@[x.col as int]
}

/// A segment that a route may take is the straight move of its line.
proof fn lemma_clear_is_segment(q: Seq<Coord>, s: Coord, m: Moves, n: int)
    requires
        clear_segment(q, s, m, n),
    ensures
        one_step(q, s, move_ends(m)->Some_0.0, move_ends(m)->Some_0.1, n),
{
}

/// The last segment of a nonempty chain comes from a square the rest reaches.
proof fn lemma_chain_last(q: Seq<Coord>, s: Coord, a: Coord, d: Coord, segs: Seq<Moves>, n: int)
    requires
        chain(q, s, a, d, segs, n),
        segs.len() >= 1,
    ensures
        exists|y: Coord|
            chain(q, s, a, y, segs.drop_last(), n) && #[trigger] one_step(q, s, y, d, n),
    decreases segs.len(),
{
    let b = move_ends(segs[0])->Some_0.1;
    lemma_clear_is_segment(q, s, segs[0], n);
    if segs.len() == 1 {
        assert(segs.drop_first().len() == 0);
        assert(chain(q, s, b, d, segs.drop_first(), n));
        assert(b == d);
        assert(segs.drop_last().len() == 0);
        assert(chain(q, s, a, a, segs.drop_last(), n));
        assert(one_step(q, s, a, d, n));
    } else {
        lemma_chain_last(q, s, b, d, segs.drop_first(), n);
        let y = choose|y: Coord|
            chain(q, s, b, y, segs.drop_first().drop_last(), n) && #[trigger] one_step(q, s, y, d, n);
        assert(segs.drop_last().drop_first() =~= segs.drop_first().drop_last());
        assert(segs.drop_last()[0] == segs[0]);
        assert(chain(q, s, a, y, segs.drop_last(), n));
    }
}

/// Every square of the search seen so far, up to layer `k`: each square one
/// segment from a square of an earlier layer has been seen, one layer later
/// at most.
spec fn layers_closed<const N: usize>(
    q: Seq<Coord>,
    s: Coord,
    dist: [[usize; N]; N],
    k: int,
) -> bool {
    forall|y: Coord, x: Coord|
        on_board(y, N as int) && dist_at(dist, y) < k && #[trigger] one_step(q, s, y, x, N as int)
            ==> dist_at(dist, x) != usize::MAX && dist_at(dist, x) <= dist_at(dist, y) + 1
}

/// Where the layers are closed up to `k`, a chain of at most `k` segments
/// ends on a square seen no later than its length.
proof fn lemma_chain_seen<const N: usize>(
    q: Seq<Coord>,
    s: Coord,
    x: Coord,
    segs: Seq<Moves>,
    dist: [[usize; N]; N],
    k: int,
)
    requires
        on_board(s, N as int),
        dist_at(dist, s) == 0,
        k < usize::MAX,
        layers_closed(q, s, dist, k),
        chain(q, s, s, x, segs, N as int),
        segs.len() <= k,
    ensures
        dist_at(dist, x) <= segs.len(),
    decreases segs.len(),
{
    if segs.len() > 0 {
        lemma_chain_last(q, s, s, x, segs, N as int);
        let y = choose|y: Coord|
            chain(q, s, s, y, segs.drop_last(), N as int) && #[trigger] one_step(q, s, y, x, N as int);
        lemma_chain_seen(q, s, y, segs.drop_last(), dist, k);
        assert(on_board(y, N as int));
    }
}

/// Where the layers are closed up to `k` and no square lies in layer `k`,
/// every chain from `s` ends on a square of an earlier layer.
proof fn lemma_chain_seen_closed<const N: usize>(
    q: Seq<Coord>,
    s: Coord,
    x: Coord,
    segs: Seq<Moves>,
    dist: [[usize; N]; N],
    k: int,
)
    requires
        on_board(s, N as int),
        dist_at(dist, s) == 0,
        1 <= k < usize::MAX,
        layers_closed(q, s, dist, k),
        forall|z: Coord| on_board(z, N as int) ==> #[trigger] dist_at(dist, z) != k,
        chain(q, s, s, x, segs, N as int),
    ensures
        dist_at(dist, x) < k,
    decreases segs.len(),
{
    if segs.len() > 0 {
        lemma_chain_last(q, s, s, x, segs, N as int);
        let y = choose|y: Coord|
            chain(q, s, s, y, segs.drop_last(), N as int) && #[trigger] one_step(q, s, y, x, N as int);
        lemma_chain_seen_closed(q, s, y, segs.drop_last(), dist, k);
        assert(on_board(y, N as int));
        assert(on_board(x, N as int));
    }
}

/// Finds a route with the fewest segments for the queen on `src` to `dest`,
/// with the other queens of `queens` in place, and appends its segments to
/// `out`. Returns the number of segments, or 0 where no route exists (and
/// then `out` is left as it was).
///
/// `N` is the board's width; `queens` may hold any number of queens, the one
/// that moves among them or not.
pub fn route<const N: usize>(queens: &[Coord], src: Coord, dest: Coord, out: &mut Vec<Moves>) -> (r: usize)
    requires
        N < 128,
        on_board(src, N as int),
        on_board(dest, N as int),
        src != dest,
        !queens@.contains(dest),
    ensures
        r == 0 ==> final(out)@ == old(out)@,
        r > 0 ==> final(out)@.len() == old(out)@.len() + r && final(out)@.subrange(
            0,
            old(out)@.len() as int,
        ) == old(out)@ && route_ok(
            queens@,
            src,
            dest,
            final(out)@.subrange(old(out)@.len() as int, final(out)@.len() as int),
            N as int,
        ),
        (forall|p: Seq<Moves>| !#[trigger] route_ok(queens@, src, dest, p, N as int)) ==> r == 0,
        r > 0 ==> forall|p: Seq<Moves>| #[trigger] route_ok(queens@, src, dest, p, N as int) ==> r
            <= p.len(),
        (exists|p: Seq<Moves>| #[trigger] route_ok(queens@, src, dest, p, N as int) && p.len() <= N
            * N) ==> r > 0,
{
    let mut dist: [[usize; N]; N] = [[usize::MAX; N]; N];
    let mut from: [[Coord; N]; N] = [[src; N]; N];
    let sr: usize = src.row as usize;
    let sc: usize = src.col as usize;
    dist[sr][sc] = 0;
    let mut layer: Vec<Coord> = Vec::new();
    layer.push(src);
    let mut k: usize = 0;
    proof {
        assert(N * N < 16384) by (nonlinear_arith)
            requires
                N < 128,
        ;
        assert forall|x: Coord| on_board(x, N as int) && #[trigger] dist_at(dist, x) != usize::MAX
            implies x == src by {}
        assert(layer@[0] == src);
    }
    let limit: usize = N * N;
    while k < limit && layer.len() > 0 && dist[dest.row as usize][dest.col as usize] == usize::MAX
        invariant
            N < 128,
            limit < 16384,
            k <= limit,
            on_board(src, N as int),
            on_board(dest, N as int),
            seen_ok(queens@, src, dist, from),
            dist_at(dist, src) == 0,
            forall|i: int|
                0 <= i < layer@.len() ==> on_board(#[trigger] layer@[i], N as int) && dist@[layer@[i].row as int]@[layer@[i].col as int] == k,
            forall|x: Coord|
                on_board(x, N as int) && #[trigger] dist_at(dist, x) != usize::MAX ==> dist_at(dist, x) <= k,
            forall|x: Coord|
                on_board(x, N as int) && #[trigger] dist_at(dist, x) == k ==> layer@.contains(x),
            layers_closed(queens@, src, dist, k as int),
        decreases limit - k,
    {
        k = k + 1;
        let mut next: Vec<Coord> = Vec::new();
        let mut li: usize = 0;
        while li < layer.len()
            invariant
                N < 128,
                1 <= k <= limit,
                limit < 16384,
                li <= layer@.len(),
                on_board(src, N as int),
                seen_ok(queens@, src, dist, from),
                dist_at(dist, src) == 0,
                forall|i: int|
                    0 <= i < layer@.len() ==> on_board(#[trigger] layer@[i], N as int) && dist@[layer@[i].row as int]@[layer@[i].col as int] == k - 1,
                forall|i: int|
                    0 <= i < next@.len() ==> on_board(#[trigger] next@[i], N as int) && dist@[next@[i].row as int]@[next@[i].col as int] == k,
                forall|x: Coord|
                    on_board(x, N as int) && #[trigger] dist_at(dist, x) != usize::MAX ==> dist_at(dist, x) <= k,
                forall|x: Coord|
                    on_board(x, N as int) && #[trigger] dist_at(dist, x) == k - 1 ==> layer@.contains(x),
                forall|x: Coord|
                    on_board(x, N as int) && #[trigger] dist_at(dist, x) == k ==> next@.contains(x),
                forall|y: Coord, x: Coord|
                    on_board(y, N as int) && (dist_at(dist, y) < k - 1 || (dist_at(dist, y) == k - 1
                        && layer@.subrange(0, li as int).contains(y))) && #[trigger] one_step(
                        queens@,
                        src,
                        y,
                        x,
                        N as int,
                    ) ==> dist_at(dist, x) != usize::MAX && dist_at(dist, x) <= dist_at(dist, y) + 1,
            decreases layer@.len() - li,
        {
            let a = layer[li];
            let mut d: usize = 0;
            while d < 8
                invariant
                    N < 128,
                    1 <= k <= limit,
                    limit < 16384,
                    li < layer@.len(),
                    a == layer@[li as int],
                    on_board(a, N as int),
                    dist@[a.row as int]@[a.col as int] == k - 1,
                    d <= 8,
                    on_board(src, N as int),
                    seen_ok(queens@, src, dist, from),
                    dist_at(dist, src) == 0,
                    forall|i: int|
                        0 <= i < layer@.len() ==> on_board(#[trigger] layer@[i], N as int) && dist@[layer@[i].row as int]@[layer@[i].col as int] == k - 1,
                    forall|i: int|
                        0 <= i < next@.len() ==> on_board(#[trigger] next@[i], N as int) && dist@[next@[i].row as int]@[next@[i].col as int] == k,
                    forall|x: Coord|
                        on_board(x, N as int) && #[trigger] dist_at(dist, x) != usize::MAX ==> dist_at(dist, x) <= k,
                    forall|x: Coord|
                        on_board(x, N as int) && #[trigger] dist_at(dist, x) == k - 1 ==> layer@.contains(x),
                    forall|x: Coord|
                        on_board(x, N as int) && #[trigger] dist_at(dist, x) == k ==> next@.contains(x),
                    forall|y: Coord, x: Coord|
                        on_board(y, N as int) && (dist_at(dist, y) < k - 1 || (dist_at(dist, y) == k
                            - 1 && layer@.subrange(0, li as int).contains(y))) && #[trigger] one_step(
                            queens@,
                            src,
                            y,
                            x,
                            N as int,
                        ) ==> dist_at(dist, x) != usize::MAX && dist_at(dist, x) <= dist_at(dist, y)
                            + 1,
                    forall|x: Coord|
                        #[trigger] one_step(queens@, src, a, x, N as int) && heading(a, x) < d
                            ==> dist_at(dist, x) != usize::MAX && dist_at(dist, x) <= k,
                decreases 8 - d,
            {
                let (dr, dc) = direction(d);
                let mut steps: usize = 1;
                let mut cur = Coord { row: a.row + dr, col: a.col + dc };
                proof {
                    assert forall|c: Coord| #[trigger] on_segment(a, cur, c) implies !blocked(queens@, src, c) by {
                        lemma_segment_first(a, cur, dr as int, dc as int, c);
                    }
                }
                while steps <= N && 0 <= cur.row && cur.row < N as i8 && 0 <= cur.col && cur.col
                    < N as i8 && !is_blocked(queens, src, cur)
                    invariant
                        N < 128,
                        1 <= k <= limit,
                        limit < 16384,
                        li < layer@.len(),
                        d < 8,
                        1 <= steps <= N + 1,
                        unit_step(dr as int, dc as int),
                        dr as int == dir_row(d as int),
                        dc as int == dir_col(d as int),
                        a == layer@[li as int],
                        on_board(a, N as int),
                        dist@[a.row as int]@[a.col as int] == k - 1,
                        steps_away(a, cur, dr as int, dc as int, steps as int),
                        forall|c: Coord| #[trigger] on_segment(a, cur, c) ==> !blocked(queens@, src, c),
                        on_board(src, N as int),
                        seen_ok(queens@, src, dist, from),
                        dist_at(dist, src) == 0,
                        forall|i: int|
                            0 <= i < layer@.len() ==> on_board(#[trigger] layer@[i], N as int) && dist@[layer@[i].row as int]@[layer@[i].col as int] == k - 1,
                        forall|i: int|
                            0 <= i < next@.len() ==> on_board(#[trigger] next@[i], N as int) && dist@[next@[i].row as int]@[next@[i].col as int] == k,
                        forall|x: Coord|
                            on_board(x, N as int) && #[trigger] dist_at(dist, x) != usize::MAX ==> dist_at(dist, x) <= k,
                        forall|x: Coord|
                            on_board(x, N as int) && #[trigger] dist_at(dist, x) == k - 1 ==> layer@.contains(x),
                        forall|x: Coord|
                            on_board(x, N as int) && #[trigger] dist_at(dist, x) == k ==> next@.contains(x),
                        forall|y: Coord, x: Coord|
                            on_board(y, N as int) && (dist_at(dist, y) < k - 1 || (dist_at(dist, y)
                                == k - 1 && layer@.subrange(0, li as int).contains(y))) && #[trigger] one_step(
                                queens@,
                                src,
                                y,
                                x,
                                N as int,
                            ) ==> dist_at(dist, x) != usize::MAX && dist_at(dist, x) <= dist_at(
                                dist,
                                y,
                            ) + 1,
                        forall|x: Coord|
                            #[trigger] one_step(queens@, src, a, x, N as int) && heading(a, x) < d
                                ==> dist_at(dist, x) != usize::MAX && dist_at(dist, x) <= k,
                        forall|x: Coord|
                            #[trigger] one_step(queens@, src, a, x, N as int) && heading(a, x) == d
                                && span(a, x) < steps ==> dist_at(dist, x) != usize::MAX && dist_at(
                                dist,
                                x,
                            ) <= k,
                    decreases N + 1 - steps,
                {
                    let cr: usize = cur.row as usize;
                    let cc: usize = cur.col as usize;
                    let ghost before = dist;
                    if dist[cr][cc] == usize::MAX {
                        proof {
                            assert(cur == Coord { row: cr as i8, col: cc as i8 });
                            assert(straight_kind(segment(a, cur), a, cur));
                        }
                        dist[cr][cc] = k;
                        from[cr][cc] = a;
                        let ghost old_next = next@;
                        next.push(cur);
                        proof {
                            assert(next@[next@.len() - 1] == cur);
                            assert forall|x: Coord| on_board(x, N as int) && #[trigger] dist_at(dist, x) == k
                                implies next@.contains(x) by {
                                if x == cur {
                                    assert(next@[next@.len() - 1] == x);
                                } else {
                                    assert(x.row != cur.row || x.col != cur.col);
                                    assert(dist_at(before, x) == k);
                                    assert(old_next.contains(x));
                                    let j = choose|j: int| 0 <= j < old_next.len() && old_next[j] == x;
                                    assert(next@[j] == x);
                                }
                            }
                            assert forall|z: Coord| on_board(z, N as int) && z != cur implies dist_at(dist, z)
                                == dist_at(before, z) by {
                                assert(z.row != cur.row || z.col != cur.col);
                            }
                        }
                    }
                    proof {
                        assert(dist_at(dist, cur) != usize::MAX && dist_at(dist, cur) <= k);
                        assert forall|x: Coord| #[trigger] one_step(queens@, src, a, x, N as int) && heading(a, x)
                            == d && span(a, x) < steps + 1 implies dist_at(dist, x) != usize::MAX
                            && dist_at(dist, x) <= k by {
                            lemma_straight_steps(segment(a, x), a, x);
                            if span(a, x) == steps {
                                assert(x == cur);
                            }
                        }
                    }
                    let nxt = Coord { row: cur.row + dr, col: cur.col + dc };
                    proof {
                        assert forall|c: Coord| #[trigger] on_segment(a, nxt, c) implies !blocked(queens@, src, c) by {
                            lemma_segment_step(a, cur, nxt, dr as int, dc as int, steps as int, c);
                        }
                    }
                    cur = nxt;
                    steps = steps + 1;
                }
                proof {
                    assert forall|x: Coord| #[trigger] one_step(queens@, src, a, x, N as int) && heading(a, x)
                        < d + 1 implies dist_at(dist, x) != usize::MAX && dist_at(dist, x) <= k by {
                        if heading(a, x) == d {
                            lemma_straight_steps(segment(a, x), a, x);
                            if span(a, x) >= steps {
                                if span(a, x) == steps {
                                    assert(x == cur);
                                } else {
                                    lemma_steps_between(
                                        a,
                                        x,
                                        cur,
                                        dr as int,
                                        dc as int,
                                        steps as int,
                                        span(a, x),
                                    );
                                    lemma_between_on_board(a, x, cur, N as int);
                                }
                            }
                        }
                    }
                }
                d = d + 1;
            }
            proof {
                assert forall|y: Coord, x: Coord|
                    on_board(y, N as int) && (dist_at(dist, y) < k - 1 || (dist_at(dist, y) == k - 1
                        && layer@.subrange(0, li + 1).contains(y))) && #[trigger] one_step(
                        queens@,
                        src,
                        y,
                        x,
                        N as int,
                    ) implies dist_at(dist, x) != usize::MAX && dist_at(dist, x) <= dist_at(dist, y) + 1 by {
                    if dist_at(dist, y) == k - 1 && !layer@.subrange(0, li as int).contains(y) {
                        let j = choose|j: int| 0 <= j < li + 1 && #[trigger] layer@.subrange(0, li + 1)[j] == y;
                        if j < li {
                            assert(layer@.subrange(0, li as int)[j] == y);
                        } else {
                            assert(y == a);
                            lemma_straight_steps(segment(a, x), a, x);
                        }
                    }
                }
            }
            li = li + 1;
        }
        proof {
            assert(layer@.subrange(0, layer@.len() as int) =~= layer@);
        }
        layer = next;
    }
    let dr_: usize = dest.row as usize;
    let dc_: usize = dest.col as usize;
    if dist[dr_][dc_] == usize::MAX {
        proof {
            assert(dist_at(dist, dest) == usize::MAX);
            assert(k >= 1) by {
                assert(limit >= 1) by (nonlinear_arith)
                    requires
                        limit == N * N,
                        N >= 1,
                ;
                if k == 0 {
                    assert(layer@.len() > 0);
                }
            }
            assert forall|p: Seq<Moves>| #[trigger] route_ok(queens@, src, dest, p, N as int) implies p.len()
                > N * N by {
                if p.len() <= k {
                    lemma_chain_seen(queens@, src, dest, p, dist, k as int);
                } else if layer@.len() == 0 {
                    assert forall|z: Coord| on_board(z, N as int) implies #[trigger] dist_at(dist, z) != k by {
                        if dist_at(dist, z) == k {
                            assert(layer@.contains(z));
                        }
                    }
                    lemma_chain_seen_closed(queens@, src, dest, p, dist, k as int);
                }
            }
        }
        return 0;
    }
    proof {
        assert(dist_at(dist, dest) != usize::MAX);
        assert(dist_at(dist, dest) <= k);
        assert forall|p: Seq<Moves>| #[trigger] route_ok(queens@, src, dest, p, N as int) implies dist_at(
            dist,
            dest,
        ) <= p.len() by {
            if p.len() <= k {
                lemma_chain_seen(queens@, src, dest, p, dist, k as int);
            }
        }
    }
    let mut path: Vec<Moves> = Vec::new();
    let mut cur = dest;
    while cur != src
        invariant
            N < 128,
            on_board(cur, N as int),
            on_board(src, N as int),
            dist@[cur.row as int]@[cur.col as int] != usize::MAX,
            seen_ok(queens@, src, dist, from),
            chain(queens@, src, cur, dest, path@, N as int),
            path@.len() + dist@[cur.row as int]@[cur.col as int] == dist@[dest.row as int]@[dest.col as int],
            on_board(dest, N as int),
            dist_at(dist, src) == 0,
            forall|p: Seq<Moves>| #[trigger] route_ok(queens@, src, dest, p, N as int) ==> dist_at(
                dist,
                dest,
            ) <= p.len(),
        decreases dist@[cur.row as int]@[cur.col as int],
    {
        let cr: usize = cur.row as usize;
        let cc: usize = cur.col as usize;
        proof {
            assert(cur == Coord { row: cr as i8, col: cc as i8 });
        }
        let p = from[cr][cc];
        let m = make_segment(p, cur);
        let ghost old_path = path@;
        path.insert(0, m);
        proof {
            assert(path@.drop_first() =~= old_path);
        }
        cur = p;
    }
    let count = path.len();
    let mut i: usize = 0;
    let ghost start = out@;
    while i < count
        invariant
            i <= count,
            count == path@.len(),
            out@ == start + path@.subrange(0, i as int),
        decreases count - i,
    {
        out.push(path[i]);
        i = i + 1;
        assert(out@ =~= start + path@.subrange(0, i as int));
    }
    assert(path@.subrange(0, count as int) =~= path@);
    assert(out@.subrange(0, start.len() as int) =~= start);
    assert(out@.subrange(start.len() as int, out@.len() as int) =~= path@);
    assert(route_ok(queens@, src, dest, path@, N as int));
    assert(count == dist_at(dist, dest));
    count
}

/// The queens `q` with the one on `s` moved to `a`.
pub open spec fn moved(q: Seq<Coord>, s: Coord, a: Coord) -> Seq<Coord> {
    q.map_values(|c: Coord| if c == s { a } else { c })
}

/// Replaying moves `a` and then moves `b` is replaying `a + b`.
pub proof fn lemma_replay_concat(q: Seq<Coord>, a: Seq<Moves>, b: Seq<Moves>, n: int)
    requires
        replay(q, a, n) is Some,
    ensures
        replay(q, a + b, n) == replay(replay(q, a, n)->Some_0, b, n),
    decreases b.len(),
{
    if b.len() == 0 {
        assert(a + b =~= a);
    } else {
        lemma_replay_concat(q, a, b.drop_last(), n);
        assert((a + b).drop_last() =~= a + b.drop_last());
        assert((a + b).last() == b.last());
    }
}

/// A segment strictly between two squares never holds either of them.
proof fn lemma_segment_excludes_ends(a: Coord, b: Coord, c: Coord)
    requires
        on_segment(a, b, c),
    ensures
        c != a,
        c != b,
{
}

/// A chain of segments for the queen that started on `s` and now stands on
/// `a` replays, one segment after the other, to that queen standing on `d`.
pub proof fn lemma_chain_replays(
    q: Seq<Coord>,
    s: Coord,
    a: Coord,
    d: Coord,
    segs: Seq<Moves>,
    n: int,
)
    requires
        distinct(q),
        q.contains(s),
        a == s || !q.contains(a),
        chain(q, s, a, d, segs, n),
    ensures
        replay(moved(q, s, a), segs, n) == Some(moved(q, s, d)),
    decreases segs.len(),
{
    let p = moved(q, s, a);
    if segs.len() == 0 {
        assert(a == d);
    } else {
        let m = segs[0];
        let b = move_ends(m)->Some_0.1;
        let i = choose|i: int| 0 <= i < q.len() && q[i] == s;
        assert(p[i] == a);
        assert(p.contains(a));
        assert(!p.contains(b)) by {
            if p.contains(b) {
                let j = choose|j: int| 0 <= j < p.len() && p[j] == b;
                if q[j] == s {
                    assert(b == a);
                } else {
                    assert(q[j] == b);
                    assert(q.contains(b));
                }
            }
        }
        assert forall|c: Coord| #[trigger] on_segment(a, b, c) implies !p.contains(c) by {
            lemma_segment_excludes_ends(a, b, c);
            if p.contains(c) {
                let j = choose|j: int| 0 <= j < p.len() && p[j] == c;
                if q[j] != s {
                    assert(q[j] == c);
                    assert(q.contains(c));
                }
            }
        }
        assert(legal(p, m, n));
        assert(apply(p, m) =~= moved(q, s, b)) by {
            assert forall|j: int| 0 <= j < q.len() implies #[trigger] apply(p, m)[j] == moved(q, s, b)[j] by {
                if q[j] != s {
                    if q[j] == a {
                        assert(q.contains(a));
                    }
                }
            }
        }
        assert(b == s || !q.contains(b));
        lemma_chain_replays(q, s, b, d, segs.drop_first(), n);
        // the first segment, then the rest
        assert(segs =~= seq![m] + segs.drop_first());
        assert(replay(p, seq![m], n) == Some(moved(q, s, b))) by {
            assert(seq![m].drop_last() =~= Seq::<Moves>::empty());
            assert(replay(p, Seq::<Moves>::empty(), n) == Some(p));
            assert(seq![m].last() == m);
            assert(seq![m].len() == 1);
        }
        lemma_replay_concat(p, seq![m], segs.drop_first(), n);
    }
}

/// A route replays to the moving queen standing on its target.
pub proof fn lemma_route_replays(q: Seq<Coord>, s: Coord, d: Coord, segs: Seq<Moves>, n: int)
    requires
        distinct(q),
        q.contains(s),
        route_ok(q, s, d, segs, n),
    ensures
        replay(q, segs, n) == Some(moved(q, s, d)),
{
    assert(moved(q, s, s) =~= q);
    lemma_chain_replays(q, s, s, d, segs, n);
}

} // verus!
