//! Searching for the fewest straight queen moves that reach a target: no
//! two queens attacking each other, or a queen on every goal square. The
//! search deepens one move at a time and tries every legal move, so the
//! first solution it meets is a shortest one.
use vstd::prelude::*;
use crate::board::{Board, Coord, Moves, no_attacks, non_attacking, on_board, queens_of, lemma_queens_of_distinct};
use crate::moves::{
    all_on_board, apply, direction, dir_col, dir_row, distinct, heading, legal,
    lemma_between_on_board, lemma_segment_first, lemma_segment_step, lemma_steps_between,
    lemma_straight_steps, occupied, on_segment, replay, span, steps_away, straight_kind,
    unit_step,
};
use crate::oracle::{lemma_replay_concat, segment};

verus! {

/// Solutions longer than this many moves per queen are cut off.
pub const MOVES_PER_QUEEN: usize = 5;

/// The queens meet the target: with no goal, no two of them attack each
/// other; with goal squares, each goal square holds a queen.
pub open spec fn target_met(q: Seq<Coord>, goals: Option<Seq<Coord>>) -> bool {
    match goals {
        None => non_attacking(q),
        Some(g) => forall|j: int| 0 <= j < g.len() ==> q.contains(#[trigger] g[j]),
    }
}

/// A goal square without a queen leaves the target unmet.
pub proof fn lemma_goal_unmet(q: Seq<Coord>, g: Seq<Coord>, j: int)
    requires
        0 <= j < g.len(),
        !q.contains(g[j]),
    ensures
        !target_met(q, Some(g)),
{
    if target_met(q, Some(g)) {
        let gs = Some(g)->Some_0;
        assert(gs == g);
        assert(forall|i: int| 0 <= i < gs.len() ==> q.contains(#[trigger] gs[i]));
        assert(q.contains(gs[j]));
    }
}

/// The moves are legal one after the other from `q` and end with the target met.
pub open spec fn leads_to(q: Seq<Coord>, ms: Seq<Moves>, n: int, goals: Option<Seq<Coord>>) -> bool {
    replay(q, ms, n) is Some && target_met(replay(q, ms, n)->Some_0, goals)
}

/// The moves are at least one, and replay from `q0` to a placement where no
/// two queens attack each other.
pub open spec fn solves(q0: Seq<Coord>, ms: Seq<Moves>, n: int) -> bool {
    ms.len() > 0 && leads_to(q0, ms, n, None)
}

/// The goal squares among the first `k` that hold no queen.
pub open spec fn unfilled(q: Seq<Coord>, g: Seq<Coord>, k: int) -> int
    decreases k,
{
    if k <= 0 {
        0
    } else {
        unfilled(q, g, k - 1) + if q.contains(g[k - 1]) {
            0int
        } else {
            1int
        }
    }
}

/// A lower bound on the moves still needed: the goal squares without a
/// queen (one move fills one square at most); none without goals.
pub open spec fn estimate(q: Seq<Coord>, goals: Option<Seq<Coord>>) -> int {
    match goals {
        None => 0,
        Some(g) => unfilled(q, g, g.len() as int),
    }
}

/// The goals handed to the search, as exec values and as their view.
pub open spec fn goals_match<const N: usize>(goals: Option<&[Coord; N]>, g: Option<Seq<Coord>>) -> bool {
    match goals {
        None => g is None,
        Some(a) => g == Some(a@) && distinct(a@),
    }
}

proof fn lemma_replay_none(q: Seq<Coord>, a: Seq<Moves>, b: Seq<Moves>, n: int)
    requires
        replay(q, a, n) is None,
    ensures
        replay(q, a + b, n) is None,
    decreases b.len(),
{
    if b.len() == 0 {
        assert(a + b =~= a);
    } else {
        lemma_replay_none(q, a, b.drop_last(), n);
        assert((a + b).drop_last() =~= a + b.drop_last());
    }
}

/// Replaying from the front: the first move, then the rest from where it leads.
proof fn lemma_replay_first(q: Seq<Coord>, ms: Seq<Moves>, n: int)
    requires
        ms.len() > 0,
    ensures
        replay(q, ms, n) == if legal(q, ms[0], n) {
            replay(apply(q, ms[0]), ms.drop_first(), n)
        } else {
            None
        },
{
    let one = seq![ms[0]];
    assert(ms =~= one + ms.drop_first());
    assert(one.drop_last() =~= Seq::<Moves>::empty());
    assert(replay(q, Seq::<Moves>::empty(), n) == Some(q));
    assert(one.last() == ms[0]);
    if legal(q, ms[0], n) {
        assert(replay(q, one, n) == Some(apply(q, ms[0])));
        lemma_replay_concat(q, one, ms.drop_first(), n);
    } else {
        assert(replay(q, one, n) is None);
        lemma_replay_none(q, one, ms.drop_first(), n);
    }
}

proof fn lemma_apply_contains(q: Seq<Coord>, m: Moves, x: Coord)
    requires
        move_ends_some(m),
        apply(q, m).contains(x),
    ensures
        x == crate::board::move_ends(m)->Some_0.1 || q.contains(x),
{
    let i = choose|i: int| 0 <= i < apply(q, m).len() && apply(q, m)[i] == x;
    assert(q[i] == x || x == crate::board::move_ends(m)->Some_0.1);
}

/// The move has a source and a destination.
spec fn move_ends_some(m: Moves) -> bool {
    crate::board::move_ends(m) is Some
}

proof fn lemma_unfilled_step(q: Seq<Coord>, m: Moves, g: Seq<Coord>, k: int)
    requires
        move_ends_some(m),
        distinct(g),
        0 <= k <= g.len(),
    ensures
        unfilled(apply(q, m), g, k) + (if exists|j: int| 0 <= j < k && g[j] == crate::board::move_ends(m)->Some_0.1 {
            1int
        } else {
            0int
        }) >= unfilled(q, g, k),
    decreases k,
{
    if k > 0 {
        lemma_unfilled_step(q, m, g, k - 1);
        let d = crate::board::move_ends(m)->Some_0.1;
        if apply(q, m).contains(g[k - 1]) {
            lemma_apply_contains(q, m, g[k - 1]);
        }
        if g[k - 1] == d {
            assert forall|j: int| 0 <= j < k - 1 implies g[j] != d by {}
        }
        if exists|j: int| 0 <= j < k - 1 && g[j] == d {
            let j = choose|j: int| 0 <= j < k - 1 && g[j] == d;
            assert(0 <= j < k && g[j] == d);
        }
    }
}

proof fn lemma_unfilled_zero(q: Seq<Coord>, g: Seq<Coord>, k: int)
    requires
        0 <= k <= g.len(),
        forall|j: int| 0 <= j < g.len() ==> q.contains(#[trigger] g[j]),
    ensures
        unfilled(q, g, k) == 0,
    decreases k,
{
    if k > 0 {
        lemma_unfilled_zero(q, g, k - 1);
        assert(q.contains(g[k - 1]));
    }
}

proof fn lemma_unfilled_nonneg(q: Seq<Coord>, g: Seq<Coord>, k: int)
    ensures
        unfilled(q, g, k) >= 0,
    decreases k,
{
    if k > 0 {
        lemma_unfilled_nonneg(q, g, k - 1);
    }
}

/// The estimate never exceeds the length of a solution.
proof fn lemma_estimate_bound(q: Seq<Coord>, ms: Seq<Moves>, n: int, goals: Option<Seq<Coord>>)
    requires
        leads_to(q, ms, n, goals),
        goals matches Some(g) ==> distinct(g),
    ensures
        estimate(q, goals) <= ms.len(),
    decreases ms.len(),
{
    if let Some(g) = goals {
        if ms.len() == 0 {
            lemma_unfilled_zero(q, g, g.len() as int);
        } else {
            lemma_replay_first(q, ms, n);
            let m = ms[0];
            lemma_estimate_bound(apply(q, m), ms.drop_first(), n, goals);
            lemma_unfilled_step(q, m, g, g.len() as int);
        }
    }
}

fn target_reached<const N: usize>(q: &[Coord; N], goals: Option<&[Coord; N]>, Ghost(g): Ghost<Option<Seq<Coord>>>) -> (r: bool)
    requires
        goals_match(goals, g),
    ensures
        r == target_met(q@, g),
{
    match goals {
        None => no_attacks(q.as_slice()),
        Some(a) => {
            let mut j: usize = 0;
            while j < N
                invariant
                    j <= N,
                    g == Some(a@),
                    forall|i: int| 0 <= i < j ==> q@.contains(#[trigger] a@[i]),
                decreases N - j,
            {
                if !occupied(q.as_slice(), a[j]) {
                    assert(!q@.contains(a@[j as int]));
                    proof {
                        let gs = g->Some_0;
                        assert(gs == a@);
                        assert(0 <= j < gs.len() && !q@.contains(gs[j as int]));
                        assert(!target_met(q@, g));
                    }
                    return false;
                }
                j = j + 1;
            }
            true
        },
    }
}

fn estimate_of<const N: usize>(q: &[Coord; N], goals: Option<&[Coord; N]>, Ghost(g): Ghost<Option<Seq<Coord>>>) -> (r: usize)
    requires
        goals_match(goals, g),
    ensures
        r == estimate(q@, g),
{
    match goals {
        None => 0,
        Some(a) => {
            let mut count: usize = 0;
            let mut j: usize = 0;
            while j < N
                invariant
                    j <= N,
                    count <= j,
                    g == Some(a@),
                    count == unfilled(q@, a@, j as int),
                decreases N - j,
            {
                if !occupied(q.as_slice(), a[j]) {
                    count = count + 1;
                }
                j = j + 1;
            }
            count
        },
    }
}

/// Looks for moves, at most `left` of them, that lead from the queens `q`
/// to the target, and appends the first it meets to `moves`. Returns false,
/// leaving `moves` as it was, exactly where there are none.
fn dfs<const N: usize>(
    q: &[Coord; N],
    goals: Option<&[Coord; N]>,
    moves: &mut Vec<Moves>,
    left: usize,
    Ghost(g): Ghost<Option<Seq<Coord>>>,
) -> (found: bool)
    requires
        N < 128,
        distinct(q@),
        all_on_board(q@, N as int),
        goals_match(goals, g),
    ensures
        found ==> old(moves)@.len() <= final(moves)@.len(),
        found ==> final(moves)@.len() <= old(moves)@.len() + left && final(moves)@.subrange(
            0,
            old(moves)@.len() as int,
        ) == old(moves)@ && leads_to(
            q@,
            final(moves)@.subrange(old(moves)@.len() as int, final(moves)@.len() as int),
            N as int,
            g,
        ),
        !found ==> final(moves)@ == old(moves)@ && forall|ms: Seq<Moves>| #[trigger] leads_to(q@, ms, N as int, g) ==> ms.len() > left,
    decreases left,
{
    let ghost start = moves@;
    if target_reached(q, goals, Ghost(g)) {
        assert(moves@.subrange(0, start.len() as int) =~= start);
        assert(moves@.subrange(start.len() as int, moves@.len() as int) =~= Seq::<Moves>::empty());
        return true;
    }
    if left == 0 {
        return false;
    }
    if estimate_of(q, goals, Ghost(g)) > left {
        proof {
            assert forall|ms: Seq<Moves>| #[trigger] leads_to(q@, ms, N as int, g) implies ms.len() > left by {
                lemma_estimate_bound(q@, ms, N as int, g);
            }
        }
        return false;
    }
    let mut qi: usize = 0;
    while qi < N
        invariant
            N < 128,
            1 <= left,
            qi <= N,
            distinct(q@),
            all_on_board(q@, N as int),
            goals_match(goals, g),
            moves@ == start,
            start == old(moves)@,
            !target_met(q@, g),
            forall|m: Moves|
                #[trigger] legal(q@, m, N as int) && q@.subrange(0, qi as int).contains(
                    crate::board::move_ends(m)->Some_0.0,
                ) ==> forall|ms: Seq<Moves>| #[trigger] leads_to(apply(q@, m), ms, N as int, g) ==> ms.len() > left - 1,
        decreases N - qi,
    {
        let src = q[qi];
        assert(on_board(q@[qi as int], N as int));
        let mut d: usize = 0;
        while d < 8
            invariant
                N < 128,
                1 <= left,
                qi < N,
                d <= 8,
                src == q@[qi as int],
                on_board(src, N as int),
                distinct(q@),
                all_on_board(q@, N as int),
                goals_match(goals, g),
                moves@ == start,
                start == old(moves)@,
                !target_met(q@, g),
                forall|m: Moves|
                    #[trigger] legal(q@, m, N as int) && q@.subrange(0, qi as int).contains(
                        crate::board::move_ends(m)->Some_0.0,
                    ) ==> forall|ms: Seq<Moves>| #[trigger] leads_to(apply(q@, m), ms, N as int, g) ==> ms.len() > left - 1,
                forall|m: Moves|
                    #[trigger] legal(q@, m, N as int) && crate::board::move_ends(m)->Some_0.0 == src
                        && heading(src, crate::board::move_ends(m)->Some_0.1) < d ==> forall|ms: Seq<Moves>| #[trigger] leads_to(apply(q@, m), ms, N as int, g) ==> ms.len() > left - 1,
            decreases 8 - d,
        {
            let (dr, dc) = direction(d);
            let mut k: usize = 1;
            let mut cur = Coord { row: src.row + dr, col: src.col + dc };
            proof {
                assert forall|c: Coord| #[trigger] on_segment(src, cur, c) implies !q@.contains(c) by {
                    lemma_segment_first(src, cur, dr as int, dc as int, c);
                }
            }
            while k <= N && 0 <= cur.row && cur.row < N as i8 && 0 <= cur.col && cur.col < N as i8
                && !occupied(q.as_slice(), cur)
                invariant
                    N < 128,
                    1 <= left,
                    qi < N,
                    d < 8,
                    1 <= k <= N + 1,
                    unit_step(dr as int, dc as int),
                    dr as int == dir_row(d as int),
                    dc as int == dir_col(d as int),
                    src == q@[qi as int],
                    on_board(src, N as int),
                    steps_away(src, cur, dr as int, dc as int, k as int),
                    forall|c: Coord| #[trigger] on_segment(src, cur, c) ==> !q@.contains(c),
                    distinct(q@),
                    all_on_board(q@, N as int),
                    goals_match(goals, g),
                    moves@ == start,
                    start == old(moves)@,
                    !target_met(q@, g),
                    forall|m: Moves|
                        #[trigger] legal(q@, m, N as int) && q@.subrange(0, qi as int).contains(
                            crate::board::move_ends(m)->Some_0.0,
                        ) ==> forall|ms: Seq<Moves>| #[trigger] leads_to(apply(q@, m), ms, N as int, g) ==> ms.len() > left - 1,
                    forall|m: Moves|
                        #[trigger] legal(q@, m, N as int) && crate::board::move_ends(m)->Some_0.0 == src
                            && heading(src, crate::board::move_ends(m)->Some_0.1) < d ==> forall|ms: Seq<Moves>| #[trigger] leads_to(apply(q@, m), ms, N as int, g) ==> ms.len() > left - 1,
                    forall|m: Moves|
                        #[trigger] legal(q@, m, N as int) && crate::board::move_ends(m)->Some_0.0 == src
                            && heading(src, crate::board::move_ends(m)->Some_0.1) == d && span(
                            src,
                            crate::board::move_ends(m)->Some_0.1,
                        ) < k ==> forall|ms: Seq<Moves>| #[trigger] leads_to(apply(q@, m), ms, N as int, g) ==> ms.len() > left - 1,
                decreases N + 1 - k,
            {
                let m = if dr == 0 {
                    Moves::Horizontal(src, cur)
                } else if dc == 0 {
                    Moves::Vertical(src, cur)
                } else {
                    Moves::Diagonal(src, cur)
                };
                let mut new_queens = *q;
                new_queens[qi] = cur;
                proof {
                    let p = q@;
                    assert(p.contains(src));
                    assert(straight_kind(m, src, cur));
                    assert(legal(p, m, N as int));
                    assert(apply(p, m) =~= new_queens@) by {
                        assert forall|j: int| 0 <= j < N implies #[trigger] apply(p, m)[j] == new_queens@[j] by {
                            if j != qi {
                                assert(p[j] != p[qi as int]);
                            }
                        }
                    }
                    assert(distinct(new_queens@)) by {
                        assert forall|a: int, b: int| 0 <= a < b < N implies new_queens@[a] != new_queens@[b] by {
                            if a == qi {
                                assert(p[b] == new_queens@[b]);
                            } else if b == qi {
                                assert(p[a] == new_queens@[a]);
                            }
                        }
                    }
                    assert(all_on_board(new_queens@, N as int)) by {
                        assert forall|j: int| 0 <= j < N implies on_board(#[trigger] new_queens@[j], N as int) by {
                            if j != qi {
                                assert(new_queens@[j] == p[j]);
                            }
                        }
                    }
                }
                moves.push(m);
                let ghost pushed = moves@;
                if dfs(&new_queens, goals, moves, left - 1, Ghost(g)) {
                    proof {
                        let ext = moves@.subrange(pushed.len() as int, moves@.len() as int);
                        let all = moves@.subrange(start.len() as int, moves@.len() as int);
                        assert(moves@.subrange(0, pushed.len() as int) == pushed);
                        assert(pushed =~= start.push(m));
                        assert forall|i: int| 0 <= i < start.len() implies moves@[i] == start[i] by {
                            assert(moves@.subrange(0, pushed.len() as int)[i] == pushed[i]);
                        }
                        assert(moves@[start.len() as int] == m) by {
                            assert(moves@.subrange(0, pushed.len() as int)[start.len() as int] == pushed[start.len() as int]);
                        }
                        assert(all =~= seq![m] + ext);
                        assert(moves@.subrange(0, start.len() as int) =~= start);
                        assert(all.len() > 0 && all[0] == m);
                        assert(all.drop_first() =~= ext);
                        lemma_replay_first(q@, all, N as int);
                    }
                    return true;
                }
                moves.pop();
                assert(moves@ =~= start);
                let nxt = Coord { row: cur.row + dr, col: cur.col + dc };
                proof {
                    assert forall|m2: Moves|
                        #[trigger] legal(q@, m2, N as int) && crate::board::move_ends(m2)->Some_0.0 == src
                            && heading(src, crate::board::move_ends(m2)->Some_0.1) == d && span(
                            src,
                            crate::board::move_ends(m2)->Some_0.1,
                        ) < k + 1 implies forall|ms: Seq<Moves>| #[trigger] leads_to(apply(q@, m2), ms, N as int, g) ==> ms.len() > left - 1 by {
                        let e = crate::board::move_ends(m2)->Some_0.1;
                        lemma_straight_steps(m2, src, e);
                        if span(src, e) == k {
                            assert(e == cur);
                            assert(m2 == m);
                        }
                    }
                    assert forall|c: Coord| #[trigger] on_segment(src, nxt, c) implies !q@.contains(c) by {
                        lemma_segment_step(src, cur, nxt, dr as int, dc as int, k as int, c);
                    }
                }
                cur = nxt;
                k = k + 1;
            }
            proof {
                assert forall|m2: Moves|
                    #[trigger] legal(q@, m2, N as int) && crate::board::move_ends(m2)->Some_0.0 == src
                        && heading(src, crate::board::move_ends(m2)->Some_0.1) < d + 1 implies forall|ms: Seq<Moves>| #[trigger] leads_to(apply(q@, m2), ms, N as int, g) ==> ms.len() > left - 1 by {
                    let e = crate::board::move_ends(m2)->Some_0.1;
                    if heading(src, e) == d {
                        lemma_straight_steps(m2, src, e);
                        if span(src, e) >= k {
                            if span(src, e) == k {
                                assert(e == cur);
                            } else {
                                lemma_steps_between(src, e, cur, dr as int, dc as int, k as int, span(src, e));
                                lemma_between_on_board(src, e, cur, N as int);
                            }
                        }
                    }
                }
            }
            d = d + 1;
        }
        proof {
            assert forall|m2: Moves|
                #[trigger] legal(q@, m2, N as int) && q@.subrange(0, qi + 1).contains(
                    crate::board::move_ends(m2)->Some_0.0,
                ) implies forall|ms: Seq<Moves>| #[trigger] leads_to(apply(q@, m2), ms, N as int, g) ==> ms.len() > left - 1 by {
                let s2 = crate::board::move_ends(m2)->Some_0.0;
                let e = crate::board::move_ends(m2)->Some_0.1;
                let j = choose|j: int| 0 <= j < qi + 1 && #[trigger] q@.subrange(0, qi + 1)[j] == s2;
                if j < qi {
                    assert(q@.subrange(0, qi as int)[j] == s2);
                } else {
                    assert(s2 == src);
                    lemma_straight_steps(m2, s2, e);
                }
            }
        }
        qi = qi + 1;
    }
    proof {
        assert(q@.subrange(0, N as int) =~= q@);
        assert forall|ms: Seq<Moves>| #[trigger] leads_to(q@, ms, N as int, g) implies ms.len() > left by {
            if ms.len() > 0 {
                lemma_replay_first(q@, ms, N as int);
                let m = ms[0];
                assert(legal(q@, m, N as int));
                assert(leads_to(apply(q@, m), ms.drop_first(), N as int, g));
            }
        }
    }
    false
}

/// The shortest moves, at most `cutoff` of them, that lead from `q` to the
/// target; none where there are none.
pub(crate) fn deepen<const N: usize>(
    q: &[Coord; N],
    goals: Option<&[Coord; N]>,
    cutoff: usize,
    Ghost(g): Ghost<Option<Seq<Coord>>>,
) -> (r: Vec<Moves>)
    requires
        N < 128,
        cutoff < usize::MAX,
        distinct(q@),
        all_on_board(q@, N as int),
        goals_match(goals, g),
        !target_met(q@, g),
    ensures
        r@.len() <= cutoff,
        r@.len() > 0 ==> leads_to(q@, r@, N as int, g),
        (exists|ms: Seq<Moves>| #[trigger] leads_to(q@, ms, N as int, g) && ms.len() <= cutoff) ==> r@.len() > 0,
        r@.len() > 0 ==> forall|ms: Seq<Moves>| #[trigger] leads_to(q@, ms, N as int, g) ==> r@.len() <= ms.len(),
{
    let mut limit: usize = 0;
    while limit <= cutoff
        invariant
            N < 128,
            cutoff < usize::MAX,
            limit <= cutoff + 1,
            distinct(q@),
            all_on_board(q@, N as int),
            goals_match(goals, g),
            !target_met(q@, g),
            forall|ms: Seq<Moves>| #[trigger] leads_to(q@, ms, N as int, g) ==> ms.len() >= limit,
        decreases cutoff + 1 - limit,
    {
        let mut moves: Vec<Moves> = Vec::new();
        if dfs(q, goals, &mut moves, limit, Ghost(g)) {
            proof {
                assert(moves@.subrange(0, 0) =~= Seq::<Moves>::empty());
                assert(moves@.subrange(0, moves@.len() as int) =~= moves@);
                if moves@.len() == 0 {
                    assert(replay(q@, moves@, N as int) == Some(q@));
                }
            }
            return moves;
        }
        limit = limit + 1;
    }
    Vec::new()
}

impl<const N: usize> Board<N> {
    /// The fewest straight queen moves that leave no two queens attacking
    /// each other, among solutions of at most `MOVES_PER_QUEEN * N` moves.
    ///
    /// Returns no moves where the queens already do not attack each other,
    /// and where no solution within the cutoff exists.
    pub fn solve(&mut self) -> (r: Vec<Moves>)
        requires
            N < 128,
            queens_of(old(self).init_state).len() == N,
        ensures
            *final(self) == *old(self),
            r@.len() <= MOVES_PER_QUEEN * N,
            non_attacking(queens_of(old(self).init_state)) ==> r@.len() == 0,
            r@.len() > 0 ==> solves(queens_of(old(self).init_state), r@, N as int),
            !non_attacking(queens_of(old(self).init_state)) && (exists|ms: Seq<Moves>|
                #[trigger] solves(queens_of(old(self).init_state), ms, N as int) && ms.len()
                    <= MOVES_PER_QUEEN * N) ==> r@.len() > 0,
            r@.len() > 0 ==> forall|ms: Seq<Moves>| #[trigger] solves(queens_of(old(self).init_state), ms, N as int)
                ==> r@.len() <= ms.len(),
    {
        let ghost q0 = queens_of(self.init_state);
        let map_list = Self::get_queens_pos(self.init_state);
        assert(map_list@ =~= q0);
        if Self::validate_list(map_list) {
            return Vec::new();
        }
        proof {
            lemma_queens_of_distinct(self.init_state);
        }
        let r = deepen(&map_list, None, MOVES_PER_QUEEN * N, Ghost(None));
        proof {
            assert forall|ms: Seq<Moves>| #[trigger] solves(q0, ms, N as int) implies leads_to(q0, ms, N as int, None) by {}
            if exists|ms: Seq<Moves>| #[trigger] solves(q0, ms, N as int) && ms.len() <= MOVES_PER_QUEEN * N {
                let ms = choose|ms: Seq<Moves>| #[trigger] solves(q0, ms, N as int) && ms.len() <= MOVES_PER_QUEEN * N;
                assert(leads_to(q0, ms, N as int, None));
            }
        }
        r
    }
}

} // verus!
