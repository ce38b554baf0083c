//! A position: where the pieces stand, and the state that a FEN record
//! carries beside them.
//!
//! The pieces are kept twice, square by square and as one bitboard per kind
//! and per colour. A well-formed board keeps the two in step.

use vstd::prelude::*;
use vstd::slice::slice_index_get;
use vstd::string::StringSliceAdditionalSpecFns;
use crate::bits::{holds, lemma_holds_or, lemma_holds_single, lemma_holds_without, lemma_holds_zero};
use crate::castling::CastlingRights;
use crate::fen::{clock_of, fields_of, parse_clock, split_fields, views_of};
use crate::pieces::{Color, Piece, PieceType};
use crate::squares::Square;

verus! {

/// The record of the starting position.
pub const START_RECORD: &'static str = "rnbqkbnr/pppppppp/8/8/8/8/PPPPPPPP/RNBQKBNR w KQkq - 0 1";

/// Why a FEN record was refused.
#[derive(Debug, Clone, Copy, PartialEq, Eq, Structural)]
pub enum FenError {
    /// The record does not have six fields.
    FieldCount,
    /// A move clock is not a number from 0 to 65535.
    Clock,
}

/// A position.
#[derive(Debug, Clone, PartialEq, Eq)]
pub struct Board {
    /// The piece on each square, a1 first.
    pub squares: [Option<Piece>; 64],
    /// The squares of each kind of piece, in the order of `PieceType`.
    pub pieces: [u64; 6],
    /// The squares of the white and of the black pieces.
    pub colors: [u64; 2],
    /// The side to move.
    pub active_color: Color,
    pub castling_rights: CastlingRights,
    /// The square behind a pawn that has just advanced two squares.
    pub en_passant: Option<Square>,
    pub halfmove_clock: u16,
    pub fullmove_clock: u16,
}

/// The piece that a letter of the placement field stands for: a capital
/// for White, a small letter for Black.
pub open spec fn piece_of_letter(letter: u8) -> Option<Piece> {
    let color = if 65 <= letter <= 90 {
        Color::White
    } else {
        Color::Black
    };
    let small = if 65 <= letter <= 90 {
        letter + 32
    } else {
        letter as int
    };
    if small == 112 {
        Some(Piece { kind: PieceType::Pawn, color })
    } else if small == 98 {
        Some(Piece { kind: PieceType::Bishop, color })
    } else if small == 110 {
        Some(Piece { kind: PieceType::Knight, color })
    } else if small == 114 {
        Some(Piece { kind: PieceType::Rook, color })
    } else if small == 113 {
        Some(Piece { kind: PieceType::Queen, color })
    } else if small == 107 {
        Some(Piece { kind: PieceType::King, color })
    } else {
        None
    }
}

/// Where the reading of a placement field stands: the row and file of the
/// next piece, and the pieces placed so far. Row 0 is the eighth rank.
pub struct Placement {
    pub row: int,
    pub file: int,
    pub squares: Seq<Option<Piece>>,
}

/// Reads one byte of a placement field. A slash starts the next row, up to
/// the eighth. A digit skips as many files. A piece letter places its piece
/// and moves on by one file; beyond the h-file nothing is placed. Any other
/// byte is passed over.
pub open spec fn place_byte(at: Placement, byte: u8) -> Placement {
    if byte == 47 && at.row < 7 {
        Placement { row: at.row + 1, file: 0, squares: at.squares }
    } else if 48 <= byte <= 57 {
        Placement {
            row: at.row,
            file: if at.file + (byte - 48) > 8 {
                8
            } else {
                at.file + (byte - 48)
            },
            squares: at.squares,
        }
    } else if piece_of_letter(byte) is Some {
        if at.file < 8 {
            Placement {
                row: at.row,
                file: at.file + 1,
                squares: at.squares.update((7 - at.row) * 8 + at.file, piece_of_letter(byte)),
            }
        } else {
            at
        }
    } else {
        at
    }
}

/// The reading of the first `n` bytes of a placement field, onto the
/// squares `onto`.
pub open spec fn placed_upto(field: Seq<u8>, n: int, onto: Seq<Option<Piece>>) -> Placement
    decreases n,
{
    if n <= 0 {
        Placement { row: 0, file: 0, squares: onto }
    } else {
        place_byte(placed_upto(field, n - 1, onto), field[n - 1])
    }
}

/// The squares after a whole placement field is read onto `onto`.
pub open spec fn placed(field: Seq<u8>, onto: Seq<Option<Piece>>) -> Seq<Option<Piece>> {
    placed_upto(field, field.len() as int, onto).squares
}

/// The side that an active-colour field names, if it names one.
pub open spec fn color_named(field: Seq<u8>) -> Option<Color> {
    if field =~= seq![119u8] {
        Some(Color::White)
    } else if field =~= seq![98u8] {
        Some(Color::Black)
    } else {
        None
    }
}

/// Whether `letter` occurs in the field.
pub open spec fn names(field: Seq<u8>, letter: u8) -> bool {
    exists|i: int| 0 <= i < field.len() && #[trigger] field[i] == letter
}

/// The rights that a castling field adds to `before`: each of the letters
/// K, Q, k and q adds its right, an empty field takes every right away.
pub open spec fn rights_named(field: Seq<u8>, before: CastlingRights) -> CastlingRights {
    if field.len() == 0 {
        CastlingRights {
            white_kingside: false,
            white_queenside: false,
            black_kingside: false,
            black_queenside: false,
        }
    } else {
        CastlingRights {
            white_kingside: before.white_kingside || names(field, 75),
            white_queenside: before.white_queenside || names(field, 81),
            black_kingside: before.black_kingside || names(field, 107),
            black_queenside: before.black_queenside || names(field, 113),
        }
    }
}

/// The square that an en-passant field names, as an index.
pub open spec fn square_named(field: Seq<u8>) -> Option<int> {
    Square::named_index(field)
}

/// The board `wide` with or without the square `square`.
fn with_square(wide: u64, square: usize, set: bool) -> (out: u64)
    requires
        square < 64,
    ensures
        forall|t: int|
            holds(out, t) <==> if t == square {
                set
            } else {
                holds(wide, t)
            },
{
    let cleared = wide & !(1u64 << square);
    let out = if set {
        cleared | (1u64 << square)
    } else {
        cleared
    };
    proof {
        assert forall|t: int|
            holds(out, t) <==> if t == square {
                set
            } else {
                holds(wide, t)
            } by {
            lemma_holds_without(wide, square as int, t);
            lemma_holds_single(square as int, t);
            lemma_holds_or(cleared, 1u64 << square, t);
        }
    }
    out
}

impl Board {
    /// The bitboards say what the squares say.
    pub open spec fn wf(&self) -> bool {
        &&& forall|sq: int, k: int|
            0 <= sq < 64 && 0 <= k < 6 ==> (#[trigger] holds(self.pieces[k], sq) <==> (
            self.squares[sq] matches Some(p) && p.kind.index_of() == k))
        &&& forall|sq: int, c: int|
            0 <= sq < 64 && 0 <= c < 2 ==> (#[trigger] holds(self.colors[c], sq) <==> (
            self.squares[sq] matches Some(p) && p.color.index_of() == c))
    }

    /// Everything but the pieces is as on `other`.
    pub open spec fn same_state(&self, other: &Board) -> bool {
        &&& self.active_color == other.active_color
        &&& self.castling_rights == other.castling_rights
        &&& self.en_passant == other.en_passant
        &&& self.halfmove_clock == other.halfmove_clock
        &&& self.fullmove_clock == other.fullmove_clock
    }

    /// The board without pieces: White to move, no castling, first move.
    pub fn empty() -> (board: Board)
        ensures
            board.wf(),
            forall|sq: int| 0 <= sq < 64 ==> board.squares[sq] is None,
            board.active_color == Color::White,
            board.castling_rights.bits_of() == 0,
            board.en_passant is None,
            board.halfmove_clock == 0,
            board.fullmove_clock == 1,
    {
        let squares: [Option<Piece>; 64] = [
            None, None, None, None, None, None, None, None,
            None, None, None, None, None, None, None, None,
            None, None, None, None, None, None, None, None,
            None, None, None, None, None, None, None, None,
            None, None, None, None, None, None, None, None,
            None, None, None, None, None, None, None, None,
            None, None, None, None, None, None, None, None,
            None, None, None, None, None, None, None, None,
        ];
        let pieces: [u64; 6] = [0, 0, 0, 0, 0, 0];
        let colors: [u64; 2] = [0, 0];
        let board = Board {
            squares,
            pieces,
            colors,
            active_color: Color::White,
            castling_rights: CastlingRights::none(),
            en_passant: None,
            halfmove_clock: 0,
            fullmove_clock: 1,
        };
        proof {
            assert forall|sq: int, k: int| 0 <= sq < 64 && 0 <= k < 6 implies !holds(
                board.pieces[k],
                sq,
            ) by {
                assert(board.pieces@[k] == 0);
                lemma_holds_zero(sq);
            }
            assert forall|sq: int, c: int| 0 <= sq < 64 && 0 <= c < 2 implies !holds(
                board.colors[c],
                sq,
            ) by {
                assert(board.colors@[c] == 0);
                lemma_holds_zero(sq);
            }
        }
        board
    }

    /// Puts `piece` on `square`, in place of what stood there.
    pub fn put(&mut self, square: usize, piece: Piece)
        requires
            old(self).wf(),
            square < 64,
        ensures
            final(self).wf(),
            final(self).squares@ == old(self).squares@.update(square as int, Some(piece)),
            final(self).same_state(old(self)),
    {
        let kind = piece.kind.index();
        let side = piece.color.index();
        let mut k: usize = 0;
        while k < 6
            invariant
                k <= 6,
                square < 64,
                kind == piece.kind.index_of(),
                self.squares == old(self).squares,
                self.colors == old(self).colors,
                self.same_state(old(self)),
                forall|j: int, t: int|
                    0 <= j < k && 0 <= t < 64 ==> (#[trigger] holds(self.pieces[j], t) <==> if t
                        == square {
                        j == kind
                    } else {
                        holds(old(self).pieces[j], t)
                    }),
                forall|j: int| k <= j < 6 ==> self.pieces[j] == old(self).pieces[j],
            decreases 6 - k,
        {
            let wide = self.pieces[k];
            self.pieces[k] = with_square(wide, square, k == kind);
            k = k + 1;
        }
        let mut c: usize = 0;
        while c < 2
            invariant
                c <= 2,
                square < 64,
                side == piece.color.index_of(),
                self.squares == old(self).squares,
                self.same_state(old(self)),
                forall|j: int, t: int|
                    0 <= j < 6 && 0 <= t < 64 ==> (#[trigger] holds(self.pieces[j], t) <==> if t
                        == square {
                        j == piece.kind.index_of()
                    } else {
                        holds(old(self).pieces[j], t)
                    }),
                forall|j: int, t: int|
                    0 <= j < c && 0 <= t < 64 ==> (#[trigger] holds(self.colors[j], t) <==> if t
                        == square {
                        j == side
                    } else {
                        holds(old(self).colors[j], t)
                    }),
                forall|j: int| c <= j < 2 ==> self.colors[j] == old(self).colors[j],
            decreases 2 - c,
        {
            let wide = self.colors[c];
            self.colors[c] = with_square(wide, square, c == side);
            c = c + 1;
        }
        self.squares[square] = Some(piece);
    }

    /// The pieces stand as on `other`.
    pub open spec fn same_pieces(&self, other: &Board) -> bool {
        &&& self.squares == other.squares
        &&& self.pieces == other.pieces
        &&& self.colors == other.colors
    }

    /// Reads a placement field onto the board: the rows from the eighth
    /// rank to the first, separated by slashes, in each row a letter for a
    /// piece and a digit for as many empty squares.
    pub fn place_bytes(&mut self, field: &[u8])
        requires
            old(self).wf(),
        ensures
            final(self).wf(),
            final(self).squares@ == placed(field@, old(self).squares@),
            final(self).same_state(old(self)),
    {
        let mut row: usize = 0;
        let mut file: usize = 0;
        let mut i: usize = 0;
        while i < field.len()
            invariant
                i <= field.len(),
                row <= 7,
                file <= 8,
                self.wf(),
                self.same_state(old(self)),
                placed_upto(field@, i as int, old(self).squares@) == (Placement {
                    row: row as int,
                    file: file as int,
                    squares: self.squares@,
                }),
            decreases field.len() - i,
        {
            let byte = *slice_index_get(field, i);
            if byte == 47 && row < 7 {
                row = row + 1;
                file = 0;
            } else if 48 <= byte && byte <= 57 {
                let skip = (byte - 48) as usize;
                file = if file + skip > 8 {
                    8
                } else {
                    file + skip
                };
            } else {
                match piece_for(byte) {
                    Some(piece) => {
                        if file < 8 {
                            self.put((7 - row) * 8 + file, piece);
                            file = file + 1;
                        }
                    },
                    None => {},
                }
            }
            i = i + 1;
        }
    }

    /// Reads a placement field onto the board.
    pub fn parse_pieces(&mut self, pieces: &str)
        requires
            old(self).wf(),
        ensures
            final(self).wf(),
            final(self).squares@ == placed(pieces.spec_bytes(), old(self).squares@),
            final(self).same_state(old(self)),
    {
        self.place_bytes(pieces.as_bytes())
    }

    /// Reads the side to move: `w` or `b`. Any other field leaves the side
    /// as it was.
    pub fn parse_active_color(&mut self, active_color: &str)
        ensures
            final(self).active_color == match color_named(active_color.spec_bytes()) {
                Some(color) => color,
                None => old(self).active_color,
            },
            final(self).same_pieces(old(self)),
            final(self).castling_rights == old(self).castling_rights,
            final(self).en_passant == old(self).en_passant,
            final(self).halfmove_clock == old(self).halfmove_clock,
            final(self).fullmove_clock == old(self).fullmove_clock,
    {
        let field = active_color.as_bytes();
        if field.len() == 1 {
            let byte = *slice_index_get(field, 0);
            if byte == 119 {
                self.active_color = Color::White;
            } else if byte == 98 {
                self.active_color = Color::Black;
            }
        }
    }

    /// Reads the castling rights: each of the letters K, Q, k and q adds
    /// its right to those of the board, other bytes add none, and an empty
    /// field takes every right away.
    pub fn parse_castling_availabilty(&mut self, castling_availablity: &str)
        ensures
            final(self).castling_rights == rights_named(
                castling_availablity.spec_bytes(),
                old(self).castling_rights,
            ),
            final(self).same_pieces(old(self)),
            final(self).active_color == old(self).active_color,
            final(self).en_passant == old(self).en_passant,
            final(self).halfmove_clock == old(self).halfmove_clock,
            final(self).fullmove_clock == old(self).fullmove_clock,
    {
        self.castling_rights = read_rights(castling_availablity.as_bytes(), self.castling_rights);
    }

    /// Reads the en-passant square: a file letter and a rank digit. Any
    /// other field, such as `-`, stands for no square.
    pub fn parse_enpassant(&mut self, en_passant: &str)
        ensures
            final(self).en_passant is Some <==> square_named(en_passant.spec_bytes()) is Some,
            final(self).en_passant matches Some(square) ==> Some(square.index_of())
                == square_named(en_passant.spec_bytes()),
            final(self).same_pieces(old(self)),
            final(self).active_color == old(self).active_color,
            final(self).castling_rights == old(self).castling_rights,
            final(self).halfmove_clock == old(self).halfmove_clock,
            final(self).fullmove_clock == old(self).fullmove_clock,
    {
        self.en_passant = Square::from_str(en_passant);
    }

    /// Reads the halfmove clock. A field that is no clock value is refused
    /// and leaves the board as it was.
    pub fn parse_halfmove_clock(&mut self, halfmove_clock: &str) -> (read: Result<(), FenError>)
        ensures
            match clock_of(halfmove_clock.spec_bytes()) {
                Some(clock) => read is Ok && final(self).halfmove_clock == clock,
                None => read == Err::<(), FenError>(FenError::Clock) && final(self).halfmove_clock
                    == old(self).halfmove_clock,
            },
            final(self).same_pieces(old(self)),
            final(self).active_color == old(self).active_color,
            final(self).castling_rights == old(self).castling_rights,
            final(self).en_passant == old(self).en_passant,
            final(self).fullmove_clock == old(self).fullmove_clock,
    {
        match parse_clock(halfmove_clock.as_bytes()) {
            Some(clock) => {
                self.halfmove_clock = clock;
                Ok(())
            },
            None => Err(FenError::Clock),
        }
    }

    /// Reads the fullmove clock. A field that is no clock value is refused
    /// and leaves the board as it was.
    pub fn parse_fullmove_clock(&mut self, fullmove_clock: &str) -> (read: Result<(), FenError>)
        ensures
            match clock_of(fullmove_clock.spec_bytes()) {
                Some(clock) => read is Ok && final(self).fullmove_clock == clock,
                None => read == Err::<(), FenError>(FenError::Clock) && final(self).fullmove_clock
                    == old(self).fullmove_clock,
            },
            final(self).same_pieces(old(self)),
            final(self).active_color == old(self).active_color,
            final(self).castling_rights == old(self).castling_rights,
            final(self).en_passant == old(self).en_passant,
            final(self).halfmove_clock == old(self).halfmove_clock,
    {
        match parse_clock(fullmove_clock.as_bytes()) {
            Some(clock) => {
                self.fullmove_clock = clock;
                Ok(())
            },
            None => Err(FenError::Clock),
        }
    }
}

/// The squares of a board without pieces.
pub open spec fn no_pieces() -> Seq<Option<Piece>> {
    Seq::new(64, |sq: int| None::<Piece>)
}

/// What a record with the six fields `fields` says of a board.
pub open spec fn record_describes(fields: Seq<Seq<u8>>, board: Board) -> bool {
    &&& board.wf()
    &&& board.squares@ == placed(fields[0], no_pieces())
    &&& board.active_color == match color_named(fields[1]) {
        Some(color) => color,
        None => Color::White,
    }
    &&& board.castling_rights == rights_named(
        fields[2],
        CastlingRights {
            white_kingside: false,
            white_queenside: false,
            black_kingside: false,
            black_queenside: false,
        },
    )
    &&& board.en_passant is Some <==> square_named(fields[3]) is Some
    &&& board.en_passant matches Some(square) ==> Some(square.index_of()) == square_named(
        fields[3],
    )
    &&& Some(board.halfmove_clock) == clock_of(fields[4])
    &&& Some(board.fullmove_clock) == clock_of(fields[5])
}

/// The kind of the piece that starts on `file` of a side's back rank.
pub open spec fn back_rank_kind(file: int) -> PieceType {
    if file == 0 || file == 7 {
        PieceType::Rook
    } else if file == 1 || file == 6 {
        PieceType::Knight
    } else if file == 2 || file == 5 {
        PieceType::Bishop
    } else if file == 3 {
        PieceType::Queen
    } else {
        PieceType::King
    }
}

/// The piece that starts the game on `square`.
pub open spec fn starting_piece(square: int) -> Option<Piece> {
    if square / 8 == 0 {
        Some(Piece { kind: back_rank_kind(square % 8), color: Color::White })
    } else if square / 8 == 1 {
        Some(Piece { kind: PieceType::Pawn, color: Color::White })
    } else if square / 8 == 6 {
        Some(Piece { kind: PieceType::Pawn, color: Color::Black })
    } else if square / 8 == 7 {
        Some(Piece { kind: back_rank_kind(square % 8), color: Color::Black })
    } else {
        None
    }
}

/// The kind of the piece that starts on `file` of a side's back rank.
fn back_rank(file: usize) -> (kind: PieceType)
    requires
        file < 8,
    ensures
        kind == back_rank_kind(file as int),
{
    if file == 0 || file == 7 {
        PieceType::Rook
    } else if file == 1 || file == 6 {
        PieceType::Knight
    } else if file == 2 || file == 5 {
        PieceType::Bishop
    } else if file == 3 {
        PieceType::Queen
    } else {
        PieceType::King
    }
}

impl Board {
    /// The starting position.
    pub fn starting() -> (board: Board)
        ensures
            board.wf(),
            forall|sq: int| 0 <= sq < 64 ==> board.squares[sq] == starting_piece(sq),
            board.active_color == Color::White,
            board.castling_rights.bits_of() == 15,
            board.en_passant is None,
            board.halfmove_clock == 0,
            board.fullmove_clock == 1,
    {
        let mut board = Board::empty();
        let mut file: usize = 0;
        while file < 8
            invariant
                file <= 8,
                board.wf(),
                board.active_color == Color::White,
                board.en_passant is None,
                board.halfmove_clock == 0,
                board.fullmove_clock == 1,
                forall|sq: int|
                    0 <= sq < 64 ==> board.squares[sq] == if sq % 8 < file {
                        starting_piece(sq)
                    } else {
                        None
                    },
            decreases 8 - file,
        {
            let kind = back_rank(file);
            board.put(file, Piece { kind, color: Color::White });
            board.put(8 + file, Piece { kind: PieceType::Pawn, color: Color::White });
            board.put(48 + file, Piece { kind: PieceType::Pawn, color: Color::Black });
            board.put(56 + file, Piece { kind, color: Color::Black });
            file = file + 1;
        }
        board.castling_rights = CastlingRights::all();
        board
    }

    /// Reads a FEN record: six fields, separated by single spaces, for the
    /// placement of the pieces, the side to move, the castling rights, the
    /// en-passant square and the two move clocks.
    pub fn from_fen(fen: &str) -> (read: Result<Board, FenError>)
        ensures
            fields_of(fen.spec_bytes()).len() != 6 ==> read == Err::<Board, FenError>(
                FenError::FieldCount,
            ),
            fields_of(fen.spec_bytes()).len() == 6 && (clock_of(fields_of(fen.spec_bytes())[4])
                is None || clock_of(fields_of(fen.spec_bytes())[5]) is None) ==> read == Err::<
                Board,
                FenError,
            >(FenError::Clock),
            fields_of(fen.spec_bytes()).len() == 6 && clock_of(fields_of(fen.spec_bytes())[4])
                is Some && clock_of(fields_of(fen.spec_bytes())[5]) is Some ==> read is Ok,
            read matches Ok(board) ==> record_describes(fields_of(fen.spec_bytes()), board),
    {
        let fields = split_fields(fen.as_bytes());
        if fields.len() != 6 {
            return Err(FenError::FieldCount);
        }
        let ghost spelled = fields_of(fen.spec_bytes());
        proof {
            assert forall|i: int| 0 <= i < 6 implies fields[i]@ == spelled[i] by {
                assert(views_of(fields@)[i] == fields[i]@);
            }
        }
        let halfmove = match parse_clock(fields[4].as_slice()) {
            Some(clock) => clock,
            None => {
                return Err(FenError::Clock);
            },
        };
        let fullmove = match parse_clock(fields[5].as_slice()) {
            Some(clock) => clock,
            None => {
                return Err(FenError::Clock);
            },
        };
        let mut board = Board::empty();
        proof {
            assert(board.squares@ =~= no_pieces());
        }
        board.place_bytes(fields[0].as_slice());
        board.active_color = read_color(fields[1].as_slice());
        board.castling_rights = read_rights(fields[2].as_slice(), CastlingRights::none());
        board.en_passant = Square::from_bytes(fields[3].as_slice());
        board.halfmove_clock = halfmove;
        board.fullmove_clock = fullmove;
        Ok(board)
    }
}

impl Default for Board {
    /// The starting position.
    fn default() -> (board: Board)
        ensures
            board.wf(),
            forall|sq: int| 0 <= sq < 64 ==> board.squares[sq] == starting_piece(sq),
            board.active_color == Color::White,
            board.castling_rights.bits_of() == 15,
            board.en_passant is None,
            board.halfmove_clock == 0,
            board.fullmove_clock == 1,
    {
        Board::starting()
    }
}

/// The side that an active-colour field names, White if it names none.
fn read_color(field: &[u8]) -> (color: Color)
    ensures
        color == match color_named(field@) {
            Some(named) => named,
            None => Color::White,
        },
{
    if field.len() == 1 && *slice_index_get(field, 0) == 98 {
        Color::Black
    } else {
        Color::White
    }
}

/// The rights of `before` with those that a castling field adds.
fn read_rights(field: &[u8], before: CastlingRights) -> (rights: CastlingRights)
    ensures
        rights == rights_named(field@, before),
{
    if field.len() == 0 {
        return CastlingRights::none();
    }
    let mut named = CastlingRights::none();
    let mut i: usize = 0;
    while i < field.len()
        invariant
            i <= field.len(),
            named.white_kingside <==> names(field@.take(i as int), 75),
            named.white_queenside <==> names(field@.take(i as int), 81),
            named.black_kingside <==> names(field@.take(i as int), 107),
            named.black_queenside <==> names(field@.take(i as int), 113),
        decreases field.len() - i,
    {
        let byte = *slice_index_get(field, i);
        let ghost seen = field@.take(i as int);
        let ghost after = field@.take(i + 1);
        proof {
            assert(after[i as int] == byte);
            assert forall|letter: u8|
                names(after, letter) <==> names(seen, letter) || byte == letter by {
                if names(seen, letter) {
                    let j = choose|j: int| 0 <= j < seen.len() && #[trigger] seen[j] == letter;
                    assert(after[j] == letter);
                }
                if names(after, letter) {
                    let j = choose|j: int| 0 <= j < after.len() && #[trigger] after[j] == letter;
                    if j < i {
                        assert(seen[j] == letter);
                    }
                }
            }
        }
        if byte == 75 {
            named.white_kingside = true;
        } else if byte == 81 {
            named.white_queenside = true;
        } else if byte == 107 {
            named.black_kingside = true;
        } else if byte == 113 {
            named.black_queenside = true;
        }
        i = i + 1;
    }
    proof {
        assert(field@.take(field.len() as int) == field@);
    }
    before.union(named)
}

/// The piece that a letter of the placement field stands for.
pub fn piece_for(letter: u8) -> (piece: Option<Piece>)
    ensures
        piece == piece_of_letter(letter),
{
    let white = 65 <= letter && letter <= 90;
    let color = if white {
        Color::White
    } else {
        Color::Black
    };
    let small = if white {
        letter + 32
    } else {
        letter
    };
    if small == 112 {
        Some(Piece { kind: PieceType::Pawn, color })
    } else if small == 98 {
        Some(Piece { kind: PieceType::Bishop, color })
    } else if small == 110 {
        Some(Piece { kind: PieceType::Knight, color })
    } else if small == 114 {
        Some(Piece { kind: PieceType::Rook, color })
    } else if small == 113 {
        Some(Piece { kind: PieceType::Queen, color })
    } else if small == 107 {
        Some(Piece { kind: PieceType::King, color })
    } else {
        None
    }
}

} // verus!
