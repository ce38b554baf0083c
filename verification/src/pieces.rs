//! The colours and kinds of the pieces.

use vstd::prelude::*;

verus! {

/// The two sides.
#[derive(Debug, Clone, Copy, PartialEq, Eq, Structural)]
pub enum Color {
    White,
    Black,
}

impl Color {
    /// The rank step of the side's pawns: 1 for White, -1 for Black.
    pub open spec fn forward(self) -> int {
        match self {
            Color::White => 1,
            Color::Black => -1,
        }
    }

    /// The index of the side in a table with one row per side.
    pub open spec fn index_of(self) -> int {
        match self {
            Color::White => 0,
            Color::Black => 1,
        }
    }

    /// The index of the side in a table with one row per side.
    pub fn index(self) -> (i: usize)
        ensures
            i == self.index_of(),
    {
        match self {
            Color::White => 0,
            Color::Black => 1,
        }
    }
}

/// The six kinds of pieces.
#[derive(Debug, Clone, Copy, PartialEq, Eq, Structural)]
pub enum PieceType {
    Pawn,
    Bishop,
    Knight,
    Rook,
    Queen,
    King,
}

impl PieceType {
    /// The index of the kind in a table with one row per kind.
    pub open spec fn index_of(self) -> int {
        match self {
            PieceType::Pawn => 0,
            PieceType::Bishop => 1,
            PieceType::Knight => 2,
            PieceType::Rook => 3,
            PieceType::Queen => 4,
            PieceType::King => 5,
        }
    }

    /// The index of the kind in a table with one row per kind.
    pub fn index(self) -> (i: usize)
        ensures
            i == self.index_of(),
    {
        match self {
            PieceType::Pawn => 0,
            PieceType::Bishop => 1,
            PieceType::Knight => 2,
            PieceType::Rook => 3,
            PieceType::Queen => 4,
            PieceType::King => 5,
        }
    }
}

/// A piece of one side.
#[derive(Debug, Clone, Copy, PartialEq, Eq, Structural)]
pub struct Piece {
    pub kind: PieceType,
    pub color: Color,
}

} // verus!
