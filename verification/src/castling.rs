//! The castling rights of a position.

use vstd::prelude::*;

verus! {

/// Which of the four castlings are still allowed.
#[derive(Debug, Clone, Copy, PartialEq, Eq, Structural)]
pub struct CastlingRights {
    pub white_kingside: bool,
    pub white_queenside: bool,
    pub black_kingside: bool,
    pub black_queenside: bool,
}

impl CastlingRights {
    /// The rights as four bits: 1 and 2 for White's king and queen side,
    /// 4 and 8 for Black's.
    pub open spec fn bits_of(self) -> int {
        (if self.white_kingside {
            1int
        } else {
            0int
        }) + (if self.white_queenside {
            2int
        } else {
            0int
        }) + (if self.black_kingside {
            4int
        } else {
            0int
        }) + (if self.black_queenside {
            8int
        } else {
            0int
        })
    }

    /// Every right of `self` or of `other`.
    pub open spec fn union_of(self, other: CastlingRights) -> CastlingRights {
        CastlingRights {
            white_kingside: self.white_kingside || other.white_kingside,
            white_queenside: self.white_queenside || other.white_queenside,
            black_kingside: self.black_kingside || other.black_kingside,
            black_queenside: self.black_queenside || other.black_queenside,
        }
    }

    /// No castling is allowed.
    pub fn none() -> (rights: CastlingRights)
        ensures
            rights.bits_of() == 0,
            !rights.white_kingside && !rights.white_queenside && !rights.black_kingside
                && !rights.black_queenside,
    {
        CastlingRights {
            white_kingside: false,
            white_queenside: false,
            black_kingside: false,
            black_queenside: false,
        }
    }

    /// Every castling is allowed.
    pub fn all() -> (rights: CastlingRights)
        ensures
            rights.bits_of() == 15,
            rights.white_kingside && rights.white_queenside && rights.black_kingside
                && rights.black_queenside,
    {
        CastlingRights {
            white_kingside: true,
            white_queenside: true,
            black_kingside: true,
            black_queenside: true,
        }
    }

    /// The rights as four bits.
    pub fn bits(self) -> (bits: u8)
        ensures
            bits == self.bits_of(),
            bits <= 15,
    {
        let mut bits: u8 = 0;
        if self.white_kingside {
            bits = bits + 1;
        }
        if self.white_queenside {
            bits = bits + 2;
        }
        if self.black_kingside {
            bits = bits + 4;
        }
        if self.black_queenside {
            bits = bits + 8;
        }
        bits
    }

    /// Every right of `self` or of `other`.
    pub fn union(self, other: CastlingRights) -> (rights: CastlingRights)
        ensures
            rights == self.union_of(other),
    {
        CastlingRights {
            white_kingside: self.white_kingside || other.white_kingside,
            white_queenside: self.white_queenside || other.white_queenside,
            black_kingside: self.black_kingside || other.black_kingside,
            black_queenside: self.black_queenside || other.black_queenside,
        }
    }

    /// Whether every right of `other` is a right of `self`.
    pub fn contains(self, other: CastlingRights) -> (yes: bool)
        ensures
            yes <==> self.union_of(other) == self,
    {
        (self.white_kingside || !other.white_kingside) && (self.white_queenside
            || !other.white_queenside) && (self.black_kingside || !other.black_kingside) && (
        self.black_queenside || !other.black_queenside)
    }
}

} // verus!
