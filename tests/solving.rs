use nqueens::board::{Board, Coord, Moves};
use nqueens::oracle::route;
use nqueens::render::BoardPrint;

fn sq(s: &str) -> Coord {
    let b = s.as_bytes();
    Coord { row: (b[1] - b'1') as i8, col: (b[0] - b'a') as i8 }
}

fn replay<const N: usize>(b: &Board<N>, moves: &[Moves]) -> [[u8; N]; N] {
    let mut map = b.init_state;
    for m in moves {
        let (s, d) = m.get_values().unwrap();
        assert_eq!(map[s.row as usize][s.col as usize], 1);
        assert_eq!(map[d.row as usize][d.col as usize], 0);
        map[s.row as usize][s.col as usize] = 0;
        map[d.row as usize][d.col as usize] = 1;
    }
    map
}

#[test]
fn validator_accepts_a_solution_and_rejects_attacks() {
    let good = ["b1", "e2", "g3", "d4", "a5", "h6", "f7", "c8"].map(sq);
    assert!(Board::<8>::validate_list(good));
    let diag = ["a1", "b2", "c3", "d4", "e5", "f6", "g7", "h8"].map(sq);
    assert!(!Board::<8>::validate_list(diag));
    let row = ["a1", "b1", "c3", "d5", "e7", "f2", "g4", "h6"].map(sq);
    assert!(!Board::<8>::validate_list(row));
}

#[test]
fn validate_game_reads_the_board() {
    let mut b = Board::<8>::new("b1,e2,g3,d4,a5,h6,f7,c8");
    assert!(b.validate_game());
    let mut b = Board::<8>::new("a1,b2,c3,d4,e5,f6,g7,h8");
    assert!(!b.validate_game());
    let mut map = [[0u8; 8]; 8];
    for (r, c) in [(0, 0), (2, 2), (3, 3), (4, 4), (5, 5), (6, 6), (7, 7)] {
        map[r][c] = 1;
    }
    let mut b = Board::<8> { init_state: map };
    assert!(!b.validate_game());
}

#[test]
fn queens_come_in_reading_order() {
    let b = Board::<4>::new("b4,d3,a2,c1");
    let q = Board::<4>::get_queens_pos(b.init_state);
    assert_eq!(q, ["b4", "d3", "a2", "c1"].map(sq));
}

#[test]
fn solved_board_needs_no_moves() {
    let mut b = Board::<8>::new("b1,e2,g3,d4,a5,h6,f7,c8");
    assert!(b.solve().is_empty());
}

#[test]
fn four_queens_on_one_rank() {
    let mut b = Board::<4>::new("a1,b1,c1,d1");
    let moves = b.solve();
    assert!(moves.len() >= 3);
    let end = replay(&b, &moves);
    let mut after = Board::<4> { init_state: end };
    assert!(after.validate_game());
}

#[test]
fn four_queens_on_the_diagonal() {
    // Neither 4-queens solution uses the long diagonal, so every queen moves;
    // a1-a2, b2-b4, c3-c1, d4-d3 does it in four.
    let mut b = Board::<4>::new("a1,b2,c3,d4");
    let moves = b.solve();
    assert_eq!(moves.len(), 4);
    let end = replay(&b, &moves);
    let mut after = Board::<4> { init_state: end };
    assert!(after.validate_game());
}

#[test]
fn route_bends_around_a_blocker() {
    let mut out = Vec::new();
    let n = route::<3>(&[sq("a1"), sq("b2")], sq("a1"), sq("c3"), &mut out);
    assert_eq!(n, 2);
    assert_eq!(out.len(), 2);
    assert_eq!(out[0].get_src(), Some(sq("a1")));
    assert_eq!(out[1].get_dest(), Some(sq("c3")));
    assert_eq!(out[0].get_dest(), out[1].get_src());
}

#[test]
fn route_straight_when_clear() {
    let mut out = vec![Moves::NoPossibleMoves];
    let n = route::<3>(&[sq("a1")], sq("a1"), sq("c3"), &mut out);
    assert_eq!(n, 1);
    assert_eq!(out, vec![Moves::NoPossibleMoves, Moves::Diagonal(sq("a1"), sq("c3"))]);
}

#[test]
fn route_fails_when_walled_in() {
    let mut out = Vec::new();
    let qs = ["a1", "a2", "b1", "b2", "c2", "b3"].map(sq);
    let n = route::<3>(&qs, sq("a1"), sq("c3"), &mut out);
    assert_eq!(n, 0);
    assert!(out.is_empty());
}

#[test]
fn move_directions() {
    let m = Moves::Diagonal(sq("c3"), sq("a1"));
    assert_eq!(m.get_specific_direction(), Moves::DownLeft(sq("c3"), sq("a1")));
    let m = Moves::Vertical(sq("c3"), sq("c5"));
    assert_eq!(m.get_specific_direction(), Moves::Up(sq("c3"), sq("c5")));
    let m = Moves::Horizontal(sq("c3"), sq("c3"));
    assert_eq!(m.get_specific_direction(), Moves::NoPossibleMoves);
    assert_eq!(Moves::NoPossibleMoves.get_values(), None);
}

#[test]
fn drawing_of_a_small_board() {
    let b = Board::<3>::new("a1,c2,c3");
    let mut map = [[0u8; 3]; 3];
    map[0][0] = 1;
    map[1][2] = 1;
    assert_eq!(
        Board::<3>::to_string_inner(map),
        "  -------\n3 | |.| |\n  --+-+--\n2 |.| |Q|\n  --+-+--\n1 |Q|.| |\n  -------\n   a b c  "
    );
    assert!(b.to_string().starts_with("  -------\n3 | |.|Q|\n"));
}

#[test]
fn drawing_shows_overlay_symbols() {
    let mut map = [[0u8; 4]; 4];
    map[0][0] = 2;
    map[1][1] = 4;
    map[2][2] = 1;
    map[3][0] = 1;
    assert_eq!(
        Board::<4>::to_string_inner(map),
        "  ---------\n4 |Q|.| |.|\n  --+-+-+--\n3 |.| |Q| |\n  --+-+-+--\n2 | |\\| |.|\n  --+-+-+--\n1 |#| |.| |\n  ---------\n   a b c d  "
    );
}

#[test]
fn replay_marks_the_path() {
    let b = Board::<4>::new("a1,b3,c4,d2");
    let moves = vec![Moves::Diagonal(sq("a1"), sq("c3")), Moves::Vertical(sq("d2"), sq("d4"))];
    let frames = b.replay_moves(&moves);
    assert_eq!(frames.len(), 2);
    // First move: a1 left (#), b2 passed over (/), queen on c3.
    assert_eq!(frames[0][0][0], 2);
    assert_eq!(frames[0][1][1], 5);
    assert_eq!(frames[0][2][2], 1);
    // Second move drawn on the board after the first.
    assert_eq!(frames[1][0][0], 0);
    assert_eq!(frames[1][2][2], 1);
    assert_eq!(frames[1][1][3], 2);
    assert_eq!(frames[1][2][3], 3);
    assert_eq!(frames[1][3][3], 1);
    let mut map = b.init_state;
    let f = Board::<4>::replay_step(&mut map, Moves::Horizontal(sq("b3"), sq("d3")));
    assert_eq!(f[2][1], 2);
    assert_eq!(f[2][2], 6);
    assert_eq!(f[2][3], 1);
    assert_eq!(map[2][1], 0);
    assert_eq!(map[2][3], 1);
}

#[test]
fn squares_and_symbols_by_name() {
    assert_eq!(sq("c7").to_string(), "c7");
    assert_eq!(Coord { row: 9, col: 0 }.to_string(), "a10");
    assert_eq!(BoardPrint::new(3), BoardPrint::VerticalSlash);
    assert_eq!(BoardPrint::ForwardSlash.id(), 5);
    assert_eq!(BoardPrint::BackwardSlash.to_unicode_u8(), b'\\');
    assert_eq!(BoardPrint::Pound.to_unicode_u8(), b'#');
}

#[test]
fn moving_a_piece_by_name() {
    let mut b = Board::<4>::new("a1,b3,c4,d2");
    assert!(b.move_piece_with_coords("a1", "a2"));
    assert_eq!(b.init_state[0][0], 0);
    assert_eq!(b.init_state[1][0], 1);
    assert!(!b.move_piece_with_coords("a1", "a3"));
    assert_eq!(b.init_state[2][0], 0);
}
