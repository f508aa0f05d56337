use nqueens::board::{Board, Moves};

/// Replays the moves, checking that each starts on a queen, passes over no
/// queen and lands on an empty square; returns the final board.
fn replay_checked<const N: usize>(b: &Board<N>, moves: &[Moves]) -> [[u8; N]; N] {
    let mut map = b.init_state;
    for m in moves {
        let (s, d) = m.get_values().unwrap();
        assert_eq!(map[s.row as usize][s.col as usize], 1, "no queen at the source of {:?}", m);
        assert_eq!(map[d.row as usize][d.col as usize], 0, "destination taken in {:?}", m);
        let dr = (d.row - s.row).signum();
        let dc = (d.col - s.col).signum();
        let (mut r, mut c) = (s.row + dr, s.col + dc);
        while (r, c) != (d.row, d.col) {
            assert_eq!(map[r as usize][c as usize], 0, "path blocked in {:?}", m);
            r += dr;
            c += dc;
        }
        map[s.row as usize][s.col as usize] = 0;
        map[d.row as usize][d.col as usize] = 1;
    }
    map
}

#[test]
fn diagonal_to_default_goal() {
    let init = Board::<8>::new("a1,b2,c3,d4,e5,f6,g7,h8");
    let goal = Board::<8>::new("b1,e2,g3,d4,a5,h6,f7,c8");
    let moves = init.solve_to(&goal);
    // Seven goals are empty and each of the seven queens off d4 has a
    // straight way to one of them.
    assert_eq!(moves.len(), 7);
    let end = replay_checked(&init, &moves);
    assert_eq!(end, goal.init_state);
}

#[test]
fn goal_already_reached() {
    let init = Board::<8>::new("b1,e2,g3,d4,a5,h6,f7,c8");
    let goal = Board::<8>::new("b1,e2,g3,d4,a5,h6,f7,c8");
    assert!(init.solve_to(&goal).is_empty());
}

#[test]
fn four_queens_from_one_rank_to_goal() {
    let init = Board::<4>::new("a1,b1,c1,d1");
    let goal = Board::<4>::new("b4,d3,a2,c1");
    let moves = init.solve_to(&goal);
    // a1-a2, b1-b4 and d1-d3: three is the fewest, one per empty goal.
    assert_eq!(moves.len(), 3);
    let end = replay_checked(&init, &moves);
    assert_eq!(end, goal.init_state);
    let mut after = Board::<4> { init_state: end };
    assert!(after.validate_game());
}

#[test]
fn one_queen_around_a_wall() {
    // a1 must reach c3 with b2 held by a queen already on its goal.
    let init = Board::<3>::new("a1,b2,c1");
    let goal = Board::<3>::new("c3,b2,c1");
    let moves = init.solve_to(&goal);
    assert_eq!(moves.len(), 2);
    let end = replay_checked(&init, &moves);
    assert_eq!(end, goal.init_state);
}

#[test]
fn straight_moves_cost_one_segment_each() {
    // a1 goes up its file, d1 along the diagonal: one segment each.
    let init = Board::<4>::new("a1,b1,c1,d1");
    let goal = Board::<4>::new("a4,b1,c1,d4");
    let moves = init.solve_to(&goal);
    assert_eq!(moves.len(), 2);
    let end = replay_checked(&init, &moves);
    assert_eq!(end, goal.init_state);
}

#[test]
fn blocked_diagonal_needs_two_segments() {
    // a1 cannot take the diagonal to c3 past b2, which is already home.
    let init = Board::<4>::new("a1,b2,d1,d2");
    let goal = Board::<4>::new("c3,b2,d1,d2");
    let moves = init.solve_to(&goal);
    assert_eq!(moves.len(), 2);
    let end = replay_checked(&init, &moves);
    assert_eq!(end, goal.init_state);
}

#[test]
fn five_queens_into_a_solution() {
    let init = Board::<5>::new("a1,b1,c1,d1,e1");
    let goal = Board::<5>::new("a1,b3,c5,d2,e4");
    let moves = init.solve_to(&goal);
    // Four queens must leave rank 1, and each can go straight up.
    assert_eq!(moves.len(), 4);
    assert!(moves.len() <= 5 * 5);
    let end = replay_checked(&init, &moves);
    assert_eq!(end, goal.init_state);
}

#[test]
fn walled_in_queen_waits_for_the_others() {
    // a1 is boxed in by a2, b1 and b2 until one of them has left.
    let init = Board::<4>::new("a1,a2,b1,b2");
    let goal = Board::<4>::new("c4,d4,c3,d3");
    let moves = init.solve_to(&goal);
    // a2-c4, b2-d4, b1-d3 and then a1-c3, once b2 is free.
    assert_eq!(moves.len(), 4);
    let end = replay_checked(&init, &moves);
    assert_eq!(end, goal.init_state);
}
