use nqueens::board::Board;
use nqueens::board_builder::{BoardBuilder, InputDataType};

fn queens(map: &[[u8; 8]; 8]) -> Vec<(usize, usize)> {
    let mut v = Vec::new();
    for r in 0..8 {
        for c in 0..8 {
            if map[r][c] != 0 {
                v.push((r, c));
            }
        }
    }
    v
}

#[test]
fn csv_reads_the_listed_squares() {
    let mut buf = [[0u8; 8]; 8];
    assert_eq!(Board::<8>::set_with_csv("b1,e2,g3,d4,a5,h6,f7,c8", &mut buf), Ok(()));
    assert_eq!(
        queens(&buf),
        vec![(0, 1), (1, 4), (2, 6), (3, 3), (4, 0), (5, 7), (6, 5), (7, 2)]
    );
}

#[test]
fn csv_with_a_short_field_names_the_queen() {
    let mut buf = [[0u8; 8]; 8];
    let e = Board::<8>::set_with_csv("a1,b2,c3,d4,e5,f6,g7,9", &mut buf).unwrap_err();
    assert!(e.contains("Queen 8"));
    assert!(e.contains("coordinates"));
    assert_eq!(e, "Malformed Queen 8 coordinates.");
    assert_eq!(queens(&buf).len(), 7);
}

#[test]
fn csv_with_too_few_fields() {
    let mut buf = [[0u8; 8]; 8];
    let e = Board::<8>::set_with_csv("a1,b2,c3", &mut buf).unwrap_err();
    assert_eq!(e, "Expected 8 queens from input, only 3 found.");
}

#[test]
fn csv_with_a_square_off_the_board() {
    let mut buf = [[0u8; 8]; 8];
    let e = Board::<8>::set_with_csv("a1,b2,c3,d4,e5,f6,g7,i8", &mut buf).unwrap_err();
    assert_eq!(e, "Invalid Queen 8 coordinates value.");
    let e = Board::<8>::set_with_csv("a0,b2,c3,d4,e5,f6,g7,h8", &mut buf).unwrap_err();
    assert_eq!(e, "Invalid Queen 1 coordinates value.");
}

#[test]
fn fen_reads_the_ranks_top_first() {
    let mut buf = [[0u8; 8]; 8];
    let fen = "2Q5/5Q2/7Q/Q7/3Q4/6Q1/4Q3/1Q6 w - - 0 1";
    assert_eq!(Board::<8>::set_with_fen(fen, &mut buf), Ok(()));
    assert_eq!(
        queens(&buf),
        vec![(0, 1), (1, 4), (2, 6), (3, 3), (4, 0), (5, 7), (6, 5), (7, 2)]
    );
}

#[test]
fn fen_without_queens_reports_none_found() {
    let mut buf = [[0u8; 8]; 8];
    let e = Board::<8>::set_with_fen("8/8/8/8/8/8/8/8", &mut buf).unwrap_err();
    assert!(e.contains("0 found"));
    assert_eq!(e, "Expected a total of 8 queens, 0 found.");
}

#[test]
fn fen_with_a_wrong_rank_width() {
    let mut buf = [[0u8; 8]; 8];
    let e = Board::<8>::set_with_fen("q6/8/8/8/8/8/8/8", &mut buf).unwrap_err();
    assert_eq!(e, "Expected a total of 8 files on rank 8, found 7.");
    let e = Board::<8>::set_with_fen("8/8/8/8/8/8/8/10", &mut buf).unwrap_err();
    assert_eq!(e, "Expected a total of 8 files on rank 1, found 10.");
}

#[test]
fn fen_with_a_bad_token() {
    let mut buf = [[0u8; 8]; 8];
    let e = Board::<8>::set_with_fen("8/8/8/8/8/8/8/7k", &mut buf).unwrap_err();
    assert_eq!(e, "Unexpected token 'k' on rank 1");
}

#[test]
fn fen_with_a_wrong_rank_count() {
    let mut buf = [[0u8; 8]; 8];
    let e = Board::<8>::set_with_fen("8/8/8", &mut buf).unwrap_err();
    assert_eq!(e, "Expected 8 ranks, but found 3.");
    assert_eq!(queens(&buf).len(), 0);
}

#[test]
fn fen_with_too_many_queens() {
    let mut buf = [[0u8; 8]; 8];
    let e = Board::<8>::set_with_fen("qq6/q7/q7/q7/q7/q7/q7/q7", &mut buf).unwrap_err();
    assert_eq!(e, "Expected a total of 8 queens, 9 found.");
}

#[test]
fn set_tries_both_notations() {
    let mut buf = [[0u8; 8]; 8];
    assert_eq!(Board::<8>::set("a1,b3,c5,d7,e2,f4,g6,h8", &mut buf), Ok(()));
    assert_eq!(queens(&buf).len(), 8);
    let mut buf = [[0u8; 8]; 8];
    let e = Board::<8>::set("zz", &mut buf).unwrap_err();
    assert_eq!(
        e,
        "Unable to determine file data type.\n[FEN: Expected 8 ranks, but found 1.]\n[CSV: Invalid Queen 1 coordinates value.]"
    );
}

#[test]
fn builder_reports_the_notation_tried() {
    let b = BoardBuilder::<8>::new()
        .set_init("a1,b2")
        .data_type(InputDataType::CSV)
        .build();
    assert_eq!(
        b.err().unwrap(),
        "Malformed CSV input - Expected 8 queens from input, only 2 found."
    );
    let b = BoardBuilder::<8>::new()
        .set_init("8/8")
        .data_type(InputDataType::FEN)
        .build();
    assert_eq!(b.err().unwrap(), "Malformed FEN input - Expected 8 ranks, but found 2.");
    let b = BoardBuilder::<8>::new().set_init("x").build();
    assert_eq!(
        b.err().unwrap(),
        "Malformed input data.\n[FEN: Expected 8 ranks, but found 1.]\n[CSV: Malformed Queen 1 coordinates.]"
    );
}

#[test]
fn builder_with_trust_keeps_what_was_read() {
    let b = BoardBuilder::<8>::new()
        .set_init("a1,b2")
        .pipe_if(true, |s| s.trust(true))
        .pipe(|s| s.data_type(InputDataType::CSV))
        .build()
        .unwrap();
    assert_eq!(queens(&b.init_state), vec![(0, 0), (1, 1)]);
}

#[test]
fn new_reads_either_notation() {
    let b = Board::<8>::new("b1,e2,g3,d4,a5,h6,f7,c8");
    assert_eq!(queens(&b.init_state).len(), 8);
    let b = Board::<8>::new("2Q5/5Q2/7Q/Q7/3Q4/6Q1/4Q3/1Q6");
    assert_eq!(queens(&b.init_state).len(), 8);
    let d: Board<8> = Board::default();
    assert_eq!(queens(&d.init_state).len(), 0);
}

#[test]
fn csv_with_too_many_fields() {
    let mut buf = [[0u8; 8]; 8];
    let e = Board::<8>::set_with_csv("a1,b3,c5,d7,e2,f4,g6,h8,a2", &mut buf).unwrap_err();
    assert_eq!(e, "Expected 8 queens from input, 9 found.");
}

#[test]
fn csv_with_a_long_field() {
    let mut buf = [[0u8; 8]; 8];
    let e = Board::<8>::set_with_csv("a1,b3,c5,d7,e2,f4,g6,h88", &mut buf).unwrap_err();
    assert_eq!(e, "Malformed Queen 8 coordinates.");
}

#[test]
fn csv_with_a_repeated_square() {
    let mut buf = [[0u8; 8]; 8];
    let e = Board::<8>::set_with_csv("a1,b3,c5,d7,e2,f4,b3,h8", &mut buf).unwrap_err();
    assert_eq!(e, "Duplicate Queen 7 coordinates.");
    assert_eq!(queens(&buf).len(), 6);
}
