//! Boards as text: eight lines of eight cells, the eighth rank first.

use vstd::prelude::*;
use crate::bits::holds;
use crate::board::{piece_of_letter, Board};
use crate::pieces::{Color, Piece, PieceType};

verus! {

/// The number of bytes of a line: eight cells of a character and a space,
/// and the line feed.
pub const LINE: usize = 17;

/// The letter of a piece: a capital for White, a small letter for Black.
pub open spec fn letter_of(piece: Piece) -> u8 {
    let capital: u8 = match piece.kind {
        PieceType::Pawn => 80,
        PieceType::Bishop => 66,
        PieceType::Knight => 78,
        PieceType::Rook => 82,
        PieceType::Queen => 81,
        PieceType::King => 75,
    };
    match piece.color {
        Color::White => capital,
        Color::Black => (capital + 32) as u8,
    }
}

/// The letter of a piece is the letter that the placement field of a FEN
/// record reads as that piece.
pub proof fn lemma_letter_reads_back(piece: Piece)
    ensures
        piece_of_letter(letter_of(piece)) == Some(piece),
{
}

/// The letter of a piece.
pub fn symbol(piece: Piece) -> (letter: u8)
    ensures
        letter == letter_of(piece),
{
    let capital: u8 = match piece.kind {
        PieceType::Pawn => 80,
        PieceType::Bishop => 66,
        PieceType::Knight => 78,
        PieceType::Rook => 82,
        PieceType::Queen => 81,
        PieceType::King => 75,
    };
    match piece.color {
        Color::White => capital,
        Color::Black => capital + 32,
    }
}

/// The square that is shown in column `column` of line `line`.
pub open spec fn shown_square(line: int, column: int) -> int {
    (7 - line) * 8 + column
}

/// The byte at `position` of a text of eight lines whose cells are given
/// by `cell`: in each line eight times a cell and a space, then a line
/// feed.
pub open spec fn diagram_byte(cell: spec_fn(int) -> u8, position: int) -> u8 {
    let line = position / 17;
    let offset = position % 17;
    if offset == 16 {
        10
    } else if offset % 2 == 1 {
        32
    } else {
        cell(shown_square(line, offset / 2))
    }
}

/// A text of eight lines whose cells are given by `cell`, square by
/// square.
pub open spec fn is_diagram(text: Seq<u8>, cell: spec_fn(int) -> u8) -> bool {
    &&& text.len() == 8 * LINE
    &&& forall|position: int|
        0 <= position < text.len() ==> #[trigger] text[position] == diagram_byte(cell, position)
}

/// The cell of a square of a bitboard: `1` if the board holds it, else `0`.
pub open spec fn bit_cell(bitboard: u64) -> spec_fn(int) -> u8 {
    |sq: int|
        if holds(bitboard, sq) {
            49u8
        } else {
            48u8
        }
}

/// The cell of a square of a position: the letter of its piece, or a dot.
pub open spec fn piece_cell(board: Board) -> spec_fn(int) -> u8 {
    |sq: int|
        match board.squares[sq] {
            Some(piece) => letter_of(piece),
            None => 46u8,
        }
}

/// A bitboard as text, with `1` for its squares and `0` for the others.
pub fn bitboard_text(bitboard: u64) -> (text: Vec<u8>)
    ensures
        is_diagram(text@, bit_cell(bitboard)),
{
    let mut text: Vec<u8> = Vec::new();
    let mut position: usize = 0;
    while position < 8 * LINE
        invariant
            position <= 8 * LINE,
            text.len() == position,
            forall|p: int|
                0 <= p < position ==> #[trigger] text[p] == diagram_byte(bit_cell(bitboard), p),
        decreases 8 * LINE - position,
    {
        let line = position / LINE;
        let offset = position % LINE;
        if offset == 16 {
            text.push(10);
        } else if offset % 2 == 1 {
            text.push(32);
        } else {
            let square = ((7 - line) * 8 + offset / 2) as u64;
            if (bitboard >> square) & 1 == 1 {
                text.push(49);
            } else {
                text.push(48);
            }
        }
        position = position + 1;
    }
    text
}

/// A position as text, with the letter of the piece on each square and a
/// dot on the empty ones.
pub fn board_text(board: &Board) -> (text: Vec<u8>)
    ensures
        is_diagram(text@, piece_cell(*board)),
{
    let mut text: Vec<u8> = Vec::new();
    let mut position: usize = 0;
    while position < 8 * LINE
        invariant
            position <= 8 * LINE,
            text.len() == position,
            forall|p: int|
                0 <= p < position ==> #[trigger] text[p] == diagram_byte(piece_cell(*board), p),
        decreases 8 * LINE - position,
    {
        let line = position / LINE;
        let offset = position % LINE;
        if offset == 16 {
            text.push(10);
        } else if offset % 2 == 1 {
            text.push(32);
        } else {
            match board.squares[(7 - line) * 8 + offset / 2] {
                Some(piece) => {
                    text.push(symbol(piece));
                },
                None => {
                    text.push(46);
                },
            }
        }
        position = position + 1;
    }
    text
}

} // verus!
