//! Moving queens onto a goal placement: the fewest straight segments, each
//! a legal queen move, after which every goal square holds a queen.
use vstd::prelude::*;
use crate::board::{Board, Coord, Moves, queens_of, lemma_queens_of_distinct};
use crate::moves::occupied;
use crate::solver::{MOVES_PER_QUEEN, deepen, goals_match, leads_to, lemma_goal_unmet};

verus! {

/// The moves are at least one, and replay from `q0` to a placement with a
/// queen on every goal square.
pub open spec fn reaches_goal(q0: Seq<Coord>, goals: Seq<Coord>, ms: Seq<Moves>, n: int) -> bool {
    ms.len() > 0 && leads_to(q0, ms, n, Some(goals))
}

impl<const N: usize> Board<N> {
    /// The fewest straight segments that move the queens of this board onto
    /// the squares of `goal`'s queens, among solutions of at most
    /// `MOVES_PER_QUEEN * N` segments. Each segment is a legal queen move:
    /// it passes over no queen and lands on an empty square.
    ///
    /// Returns no moves where every goal square already holds a queen, and
    /// where no solution within the cutoff exists.
    pub fn solve_to(&self, goal: &Board<N>) -> (r: Vec<Moves>)
        requires
            N < 128,
            queens_of(self.init_state).len() == N,
            queens_of(goal.init_state).len() == N,
        ensures
            r@.len() <= MOVES_PER_QUEEN * N,
            (forall|j: int|
                0 <= j < N ==> queens_of(self.init_state).contains(
                    #[trigger] queens_of(goal.init_state)[j],
                )) ==> r@.len() == 0,
            r@.len() > 0 ==> reaches_goal(
                queens_of(self.init_state),
                queens_of(goal.init_state),
                r@,
                N as int,
            ),
            !(forall|j: int|
                0 <= j < N ==> queens_of(self.init_state).contains(
                    #[trigger] queens_of(goal.init_state)[j],
                )) && (exists|ms: Seq<Moves>|
                #[trigger] reaches_goal(
                    queens_of(self.init_state),
                    queens_of(goal.init_state),
                    ms,
                    N as int,
                ) && ms.len() <= MOVES_PER_QUEEN * N) ==> r@.len() > 0,
            r@.len() > 0 ==> forall|ms: Seq<Moves>|
                #[trigger] reaches_goal(
                    queens_of(self.init_state),
                    queens_of(goal.init_state),
                    ms,
                    N as int,
                ) ==> r@.len() <= ms.len(),
    {
        let ghost q0 = queens_of(self.init_state);
        let ghost g0 = queens_of(goal.init_state);
        let queens = Self::get_queens_pos(self.init_state);
        let goals = Self::get_queens_pos(goal.init_state);
        assert(queens@ =~= q0);
        assert(goals@ =~= g0);
        proof {
            lemma_queens_of_distinct(self.init_state);
            lemma_queens_of_distinct(goal.init_state);
        }
        let mut j: usize = 0;
        while j < N && occupied(queens.as_slice(), goals[j])
            invariant
                j <= N,
                queens@ == q0,
                goals@ == g0,
                forall|k: int| 0 <= k < j ==> q0.contains(#[trigger] g0[k]),
            decreases N - j,
        {
            j = j + 1;
        }
        if j == N {
            return Vec::new();
        }
        assert(!q0.contains(g0[j as int]));
        assert(g0.len() == N && j < g0.len());
        proof {
            lemma_goal_unmet(q0, g0, j as int);
        }
        assert(goals_match(Some(&goals), Some(g0)));
        let r = deepen(&queens, Some(&goals), MOVES_PER_QUEEN * N, Ghost(Some(g0)));
        proof {
            if exists|ms: Seq<Moves>| #[trigger] reaches_goal(q0, g0, ms, N as int) && ms.len() <= MOVES_PER_QUEEN * N {
                let ms = choose|ms: Seq<Moves>| #[trigger] reaches_goal(q0, g0, ms, N as int) && ms.len() <= MOVES_PER_QUEEN * N;
                assert(leads_to(q0, ms, N as int, Some(g0)));
            }
        }
        r
    }
}

} // verus!
