//! The 64 squares by name.

use vstd::prelude::*;
use vstd::slice::slice_index_get;
use vstd::string::StringSliceAdditionalSpecFns;

verus! {

/// A square of the board, from a1 to h8. The squares of a rank follow each
/// other from the a-file to the h-file, and the ranks from the first to
/// the eighth.
#[derive(Debug, Clone, Copy, PartialEq, Eq, Structural)]
pub enum Square {
    A1, B1, C1, D1, E1, F1, G1, H1,
    A2, B2, C2, D2, E2, F2, G2, H2,
    A3, B3, C3, D3, E3, F3, G3, H3,
    A4, B4, C4, D4, E4, F4, G4, H4,
    A5, B5, C5, D5, E5, F5, G5, H5,
    A6, B6, C6, D6, E6, F6, G6, H6,
    A7, B7, C7, D7, E7, F7, G7, H7,
    A8, B8, C8, D8, E8, F8, G8, H8,
}

impl Square {
    /// The index of the square, from 0 for a1 to 63 for h8.
    pub open spec fn index_of(self) -> int {
        match self {
            Square::A1 => 0,
            Square::B1 => 1,
            Square::C1 => 2,
            Square::D1 => 3,
            Square::E1 => 4,
            Square::F1 => 5,
            Square::G1 => 6,
            Square::H1 => 7,
            Square::A2 => 8,
            Square::B2 => 9,
            Square::C2 => 10,
            Square::D2 => 11,
            Square::E2 => 12,
            Square::F2 => 13,
            Square::G2 => 14,
            Square::H2 => 15,
            Square::A3 => 16,
            Square::B3 => 17,
            Square::C3 => 18,
            Square::D3 => 19,
            Square::E3 => 20,
            Square::F3 => 21,
            Square::G3 => 22,
            Square::H3 => 23,
            Square::A4 => 24,
            Square::B4 => 25,
            Square::C4 => 26,
            Square::D4 => 27,
            Square::E4 => 28,
            Square::F4 => 29,
            Square::G4 => 30,
            Square::H4 => 31,
            Square::A5 => 32,
            Square::B5 => 33,
            Square::C5 => 34,
            Square::D5 => 35,
            Square::E5 => 36,
            Square::F5 => 37,
            Square::G5 => 38,
            Square::H5 => 39,
            Square::A6 => 40,
            Square::B6 => 41,
            Square::C6 => 42,
            Square::D6 => 43,
            Square::E6 => 44,
            Square::F6 => 45,
            Square::G6 => 46,
            Square::H6 => 47,
            Square::A7 => 48,
            Square::B7 => 49,
            Square::C7 => 50,
            Square::D7 => 51,
            Square::E7 => 52,
            Square::F7 => 53,
            Square::G7 => 54,
            Square::H7 => 55,
            Square::A8 => 56,
            Square::B8 => 57,
            Square::C8 => 58,
            Square::D8 => 59,
            Square::E8 => 60,
            Square::F8 => 61,
            Square::G8 => 62,
            Square::H8 => 63,
        }
    }

    /// The index of the square, from 0 for a1 to 63 for h8.
    pub fn index(self) -> (i: u64)
        ensures
            i == self.index_of(),
            i < 64,
    {
        match self {
            Square::A1 => 0,
            Square::B1 => 1,
            Square::C1 => 2,
            Square::D1 => 3,
            Square::E1 => 4,
            Square::F1 => 5,
            Square::G1 => 6,
            Square::H1 => 7,
            Square::A2 => 8,
            Square::B2 => 9,
            Square::C2 => 10,
            Square::D2 => 11,
            Square::E2 => 12,
            Square::F2 => 13,
            Square::G2 => 14,
            Square::H2 => 15,
            Square::A3 => 16,
            Square::B3 => 17,
            Square::C3 => 18,
            Square::D3 => 19,
            Square::E3 => 20,
            Square::F3 => 21,
            Square::G3 => 22,
            Square::H3 => 23,
            Square::A4 => 24,
            Square::B4 => 25,
            Square::C4 => 26,
            Square::D4 => 27,
            Square::E4 => 28,
            Square::F4 => 29,
            Square::G4 => 30,
            Square::H4 => 31,
            Square::A5 => 32,
            Square::B5 => 33,
            Square::C5 => 34,
            Square::D5 => 35,
            Square::E5 => 36,
            Square::F5 => 37,
            Square::G5 => 38,
            Square::H5 => 39,
            Square::A6 => 40,
            Square::B6 => 41,
            Square::C6 => 42,
            Square::D6 => 43,
            Square::E6 => 44,
            Square::F6 => 45,
            Square::G6 => 46,
            Square::H6 => 47,
            Square::A7 => 48,
            Square::B7 => 49,
            Square::C7 => 50,
            Square::D7 => 51,
            Square::E7 => 52,
            Square::F7 => 53,
            Square::G7 => 54,
            Square::H7 => 55,
            Square::A8 => 56,
            Square::B8 => 57,
            Square::C8 => 58,
            Square::D8 => 59,
            Square::E8 => 60,
            Square::F8 => 61,
            Square::G8 => 62,
            Square::H8 => 63,
        }
    }

    /// The square with the given index, if the index is below 64.
    pub fn from_index(index: u64) -> (square: Option<Square>)
        ensures
            square is Some <==> index < 64,
            square matches Some(sq) ==> sq.index_of() == index,
    {
        match index {
            0 => Some(Square::A1),
            1 => Some(Square::B1),
            2 => Some(Square::C1),
            3 => Some(Square::D1),
            4 => Some(Square::E1),
            5 => Some(Square::F1),
            6 => Some(Square::G1),
            7 => Some(Square::H1),
            8 => Some(Square::A2),
            9 => Some(Square::B2),
            10 => Some(Square::C2),
            11 => Some(Square::D2),
            12 => Some(Square::E2),
            13 => Some(Square::F2),
            14 => Some(Square::G2),
            15 => Some(Square::H2),
            16 => Some(Square::A3),
            17 => Some(Square::B3),
            18 => Some(Square::C3),
            19 => Some(Square::D3),
            20 => Some(Square::E3),
            21 => Some(Square::F3),
            22 => Some(Square::G3),
            23 => Some(Square::H3),
            24 => Some(Square::A4),
            25 => Some(Square::B4),
            26 => Some(Square::C4),
            27 => Some(Square::D4),
            28 => Some(Square::E4),
            29 => Some(Square::F4),
            30 => Some(Square::G4),
            31 => Some(Square::H4),
            32 => Some(Square::A5),
            33 => Some(Square::B5),
            34 => Some(Square::C5),
            35 => Some(Square::D5),
            36 => Some(Square::E5),
            37 => Some(Square::F5),
            38 => Some(Square::G5),
            39 => Some(Square::H5),
            40 => Some(Square::A6),
            41 => Some(Square::B6),
            42 => Some(Square::C6),
            43 => Some(Square::D6),
            44 => Some(Square::E6),
            45 => Some(Square::F6),
            46 => Some(Square::G6),
            47 => Some(Square::H6),
            48 => Some(Square::A7),
            49 => Some(Square::B7),
            50 => Some(Square::C7),
            51 => Some(Square::D7),
            52 => Some(Square::E7),
            53 => Some(Square::F7),
            54 => Some(Square::G7),
            55 => Some(Square::H7),
            56 => Some(Square::A8),
            57 => Some(Square::B8),
            58 => Some(Square::C8),
            59 => Some(Square::D8),
            60 => Some(Square::E8),
            61 => Some(Square::F8),
            62 => Some(Square::G8),
            63 => Some(Square::H8),
            _ => None,
        }
    }

    /// The index that a two-letter name stands for: a file letter from a
    /// to h, in either case, and a rank digit from 1 to 8.
    pub open spec fn named_index(name: Seq<u8>) -> Option<int> {
        if name.len() != 2 {
            None
        } else {
            let file = if 97 <= name[0] <= 104 {
                name[0] - 97
            } else if 65 <= name[0] <= 72 {
                name[0] - 65
            } else {
                -1
            };
            if file >= 0 && 49 <= name[1] <= 56 {
                Some((name[1] - 49) * 8 + file)
            } else {
                None
            }
        }
    }

    /// The square that a name such as `e4` stands for.
    pub fn from_bytes(name: &[u8]) -> (square: Option<Square>)
        ensures
            square is Some <==> Self::named_index(name@) is Some,
            square matches Some(sq) ==> Some(sq.index_of()) == Self::named_index(name@),
    {
        if name.len() != 2 {
            return None;
        }
        let letter = *slice_index_get(name, 0);
        let digit = *slice_index_get(name, 1);
        let file: u64 = if 97 <= letter && letter <= 104 {
            (letter - 97) as u64
        } else if 65 <= letter && letter <= 72 {
            (letter - 65) as u64
        } else {
            return None;
        };
        if 49 <= digit && digit <= 56 {
            Square::from_index((digit - 49) as u64 * 8 + file)
        } else {
            None
        }
    }

    /// The square that a name such as `e4` stands for.
    pub fn from_str(name: &str) -> (square: Option<Square>)
        ensures
            square is Some <==> Self::named_index(name.spec_bytes()) is Some,
            square matches Some(sq) ==> Some(sq.index_of()) == Self::named_index(name.spec_bytes()),
    {
        Square::from_bytes(name.as_bytes())
    }
}

} // verus!
