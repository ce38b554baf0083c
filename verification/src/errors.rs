//! The ways in which building the lookup tables can fail.

use vstd::prelude::*;

verus! {

/// Why a table could not be built. Each variant names the square it is
/// about.
#[derive(Debug, Clone, Copy, PartialEq, Eq, Structural)]
pub enum BuildError {
    /// The relevant-occupancy mask of the square is empty, holds the square
    /// itself, or holds more squares than can be enumerated.
    MalformedMask { square: u64 },
    /// No multiplier was found for the square within the attempt budget.
    MagicSearchExhausted { square: u64 },
    /// The square is not one of the 64 squares of the board.
    OutOfRangeSquare { square: u64 },
}

} // verus!
