//! Building a board from text in one of the two notations.
use vstd::prelude::*;
use vstd::string::StringSliceAdditionalSpecFns;
use crate::board::{Board, Coord, cell};
use crate::notation::{
    covers,
    csv_accepts, csv_error_message, csv_marks, fen_accepts, fen_marks, fen_message, marked_with,
    placed,
};

verus! {

/// The notation of the input text.
#[derive(PartialEq, Eq, Structural, Debug, Clone, Copy)]
pub enum InputDataType {
    CSV,
    FEN,
    Unknown,
}

/// Every cell of the board is empty.
pub open spec fn empty_board<const N: usize>(map: [[u8; N]; N]) -> bool {
    forall|r: int, c: int| 0 <= r < N && 0 <= c < N ==> #[trigger] cell(map, r, c) == 0
}

/// The input is read without fault in the notation given (either one where
/// it is not known).
pub open spec fn accepts(s: Seq<u8>, n: int, dt: InputDataType) -> bool {
    match dt {
        InputDataType::CSV => csv_accepts(s, n),
        InputDataType::FEN => fen_accepts(s, n),
        InputDataType::Unknown => fen_accepts(s, n) || csv_accepts(s, n),
    }
}

/// The squares that reading the input marks.
pub open spec fn read_marks(s: Seq<u8>, n: int, dt: InputDataType) -> Seq<Coord> {
    match dt {
        InputDataType::CSV => csv_marks(s, n),
        InputDataType::FEN => fen_marks(s, n),
        InputDataType::Unknown => if fen_accepts(s, n) {
            fen_marks(s, n)
        } else {
            fen_marks(s, n) + csv_marks(s, n)
        },
    }
}

/// The message for input that is not read.
pub open spec fn read_message(s: Seq<u8>, n: int, dt: InputDataType) -> Seq<char> {
    match dt {
        InputDataType::CSV => "Malformed CSV input - "@ + csv_error_message(s, n),
        InputDataType::FEN => "Malformed FEN input - "@ + fen_message(s, n),
        InputDataType::Unknown => "Malformed input data.\n[FEN: "@ + fen_message(s, n)
            + "]\n[CSV: "@ + csv_error_message(s, n) + "]"@,
    }
}

/// Collects the input text and how to read it, then builds the board.
pub struct BoardBuilder<'a, const N: usize> {
    init_data: &'a str,
    is_trustable: bool,
    data_type: InputDataType,
}

impl<'a, const N: usize> BoardBuilder<'a, N> {
    /// The input text.
    pub closed spec fn text(&self) -> Seq<u8> {
        self.init_data.spec_bytes()
    }

    /// Whether faults in the input are let through.
    pub closed spec fn trusted(&self) -> bool {
        self.is_trustable
    }

    /// The notation the input is read in.
    pub closed spec fn kind(&self) -> InputDataType {
        self.data_type
    }

    /// A builder with no input, not trusted, of unknown notation.
    pub fn new() -> (r: BoardBuilder<'static, N>)
        ensures
            r.text().len() == 0,
            !r.trusted(),
            r.kind() == InputDataType::Unknown,
    {
        proof {
            reveal_strlit("");
        }
        BoardBuilder { init_data: "", is_trustable: false, data_type: InputDataType::Unknown }
    }

    /// Sets the input text.
    pub fn set_init(self, init_data: &'a str) -> (r: Self)
        ensures
            r.text() == init_data.spec_bytes(),
            r.trusted() == self.trusted(),
            r.kind() == self.kind(),
    {
        BoardBuilder { init_data, ..self }
    }

    /// With `trustable`, a fault in the input does not stop the build: the
    /// board keeps what was read.
    pub fn trust(self, trustable: bool) -> (r: Self)
        ensures
            r.text() == self.text(),
            r.trusted() == trustable,
            r.kind() == self.kind(),
    {
        BoardBuilder { is_trustable: trustable, ..self }
    }

    /// Hands the builder to `fun` and continues with what it returns.
    pub fn pipe(self, fun: impl FnOnce(Self) -> Self) -> (r: Self)
        requires
            call_requires(fun, (self,)),
        ensures
            call_ensures(fun, (self,), r),
    {
        fun(self)
    }

    /// Hands the builder to `fun` where `statement` holds.
    pub fn pipe_if(self, statement: bool, fun: impl FnOnce(Self) -> Self) -> (r: Self)
        requires
            statement ==> call_requires(fun, (self,)),
        ensures
            statement ==> call_ensures(fun, (self,), r),
            !statement ==> r == self,
    {
        if statement {
            fun(self)
        } else {
            self
        }
    }

    /// Sets the notation the input is read in.
    pub fn data_type(self, data_type: InputDataType) -> (r: Self)
        ensures
            r.text() == self.text(),
            r.trusted() == self.trusted(),
            r.kind() == data_type,
    {
        BoardBuilder { data_type, ..self }
    }

    /// Reads the input onto an empty board.
    pub fn build(self) -> (r: Result<Board<N>, String>)
        requires
            N <= 128,
        ensures
            r is Ok <==> self.trusted() || accepts(self.text(), N as int, self.kind()),
            r is Ok ==> placed(r->Ok_0.init_state, read_marks(self.text(), N as int, self.kind())),
            r is Err ==> r->Err_0@ == read_message(self.text(), N as int, self.kind()),
    {
        let mut board = Board::<N>::empty();
        let ghost start = board.init_state;
        let data = self.init_data;
        let outcome: Result<(), String> = match self.data_type {
            InputDataType::CSV => match Board::<N>::set_with_csv(data, &mut board.init_state) {
                Ok(()) => Ok(()),
                Err(desc) => {
                    let mut m = String::from_str("Malformed CSV input - ");
                    m.append(desc.as_str());
                    Err(m)
                },
            },
            InputDataType::FEN => match Board::<N>::set_with_fen(data, &mut board.init_state) {
                Ok(()) => Ok(()),
                Err(desc) => {
                    let mut m = String::from_str("Malformed FEN input - ");
                    m.append(desc.as_str());
                    Err(m)
                },
            },
            InputDataType::Unknown => match Board::<N>::set(data, &mut board.init_state) {
                Ok(()) => Ok(()),
                Err(_) => {
                    let mut m = String::from_str("Malformed input data.\n[FEN: ");
                    let mut fen_buf = Board::<N>::empty().init_state;
                    let mut csv_buf = Board::<N>::empty().init_state;
                    let fen = Board::<N>::set_with_fen(data, &mut fen_buf);
                    let csv = Board::<N>::set_with_csv(data, &mut csv_buf);
                    match (fen, csv) {
                        (Err(fen_desc), Err(csv_desc)) => {
                            m.append(fen_desc.as_str());
                            m.append("]\n[CSV: ");
                            m.append(csv_desc.as_str());
                            m.append("]");
                        },
                        _ => {},
                    }
                    Err(m)
                },
            },
        };
        assert(marked_with(start, board.init_state, read_marks(self.text(), N as int, self.kind())));
        assert(placed(board.init_state, read_marks(self.text(), N as int, self.kind()))) by {
            assert forall|r: int, c: int| 0 <= r < N && 0 <= c < N implies #[trigger] cell(board.init_state, r, c) == if covers(read_marks(self.text(), N as int, self.kind()), r, c) {
                1u8
            } else {
                0u8
            } by {
                assert(cell(start, r, c) == 0);
            }
        }
        match outcome {
            Ok(()) => Ok(board),
            Err(m) => {
                if self.is_trustable {
                    Ok(board)
                } else {
                    Err(m)
                }
            },
        }
    }
}

impl<const N: usize> Board<N> {
    /// A board with no queen.
    pub fn empty() -> (r: Board<N>)
        ensures
            empty_board(r.init_state),
    {
        Board { init_state: [[0u8; N]; N] }
    }

    /// The board that `init_data` describes, in either notation.
    pub fn new(init_data: &str) -> (r: Board<N>)
        requires
            N <= 128,
            fen_accepts(init_data.spec_bytes(), N as int) || csv_accepts(
                init_data.spec_bytes(),
                N as int,
            ),
        ensures
            placed(r.init_state, read_marks(init_data.spec_bytes(), N as int, InputDataType::Unknown)),
    {
        let mut board = Board::<N>::empty();
        let ghost start = board.init_state;
        let _ = Board::<N>::set(init_data, &mut board.init_state);
        let ghost sq = read_marks(init_data.spec_bytes(), N as int, InputDataType::Unknown);
        assert forall|r: int, c: int| 0 <= r < N && 0 <= c < N implies #[trigger] cell(board.init_state, r, c) == if covers(sq, r, c) {
            1u8
        } else {
            0u8
        } by {
            assert(cell(start, r, c) == 0);
        }
        board
    }
}

impl<const N: usize> Default for Board<N> {
    fn default() -> (r: Board<N>)
        ensures
            empty_board(r.init_state),
    {
        Board::empty()
    }
}

} // verus!
