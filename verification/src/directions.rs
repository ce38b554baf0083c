//! Single steps of a whole bitboard in the eight compass directions.
//!
//! A step to the east or west drops the pieces that would leave the board
//! over the h- or a-file instead of letting them wrap to the next rank.

use vstd::prelude::*;
use crate::bits::{holds, lemma_holds_and, lemma_holds_shl, lemma_holds_shr};
use crate::geometry::holds_offset;

verus! {

/// Every square but those of the a-file.
pub const NOT_A_FILE: u64 = 0xfefefefefefefefe;

/// Every square but those of the h-file.
pub const NOT_H_FILE: u64 = 0x7f7f7f7f7f7f7f7f;

/// Every square but those of the a- and b-files.
pub const NOT_AB_FILE: u64 = 0xfcfcfcfcfcfcfcfc;

/// Every square but those of the g- and h-files.
pub const NOT_GH_FILE: u64 = 0x3f3f3f3f3f3f3f3f;

pub proof fn lemma_file_masks(sq: int)
    requires
        0 <= sq < 64,
    ensures
        holds(NOT_A_FILE, sq) <==> sq % 8 != 0,
        holds(NOT_H_FILE, sq) <==> sq % 8 != 7,
        holds(NOT_AB_FILE, sq) <==> sq % 8 >= 2,
        holds(NOT_GH_FILE, sq) <==> sq % 8 < 6,
{
    let t = sq as u64;
    assert(t < 64 ==> ((0xfefefefefefefefeu64 >> t) & 1 == 1 <==> t % 8 != 0)) by (bit_vector);
    assert(t < 64 ==> ((0x7f7f7f7f7f7f7f7fu64 >> t) & 1 == 1 <==> t % 8 != 7)) by (bit_vector);
    assert(t < 64 ==> ((0xfcfcfcfcfcfcfcfcu64 >> t) & 1 == 1 <==> t % 8 >= 2)) by (bit_vector);
    assert(t < 64 ==> ((0x3f3f3f3f3f3f3f3fu64 >> t) & 1 == 1 <==> t % 8 < 6)) by (bit_vector);
}

/// What `(b << k) & keep` and `(b >> k) & keep` hold, square by square.
pub proof fn lemma_step_up(b: u64, k: u64, keep: u64, sq: int)
    requires
        k < 64,
    ensures
        holds((b << k) & keep, sq) <==> k <= sq < 64 && holds(b, sq - k) && holds(keep, sq),
{
    lemma_holds_and(b << k, keep, sq);
    lemma_holds_shl(b, k, sq);
}

pub proof fn lemma_step_down(b: u64, k: u64, keep: u64, sq: int)
    requires
        k < 64,
    ensures
        holds((b >> k) & keep, sq) <==> 0 <= sq && sq + k < 64 && holds(b, sq + k) && holds(
            keep,
            sq,
        ),
{
    lemma_holds_and(b >> k, keep, sq);
    lemma_holds_shr(b, k, sq);
}

/// One step to the south.
pub fn sout_one(b: u64) -> (r: u64)
    ensures
        r == b >> 8,
        forall|sq: int| holds(r, sq) <==> 0 <= sq < 64 && holds_offset(b, sq, 1, 0),
{
    let r = b >> 8;
    proof {
        assert forall|sq: int| holds(r, sq) <==> 0 <= sq < 64 && holds_offset(b, sq, 1, 0) by {
            lemma_holds_shr(b, 8, sq);
        }
    }
    r
}

/// One step to the north.
pub fn nort_one(b: u64) -> (r: u64)
    ensures
        r == b << 8,
        forall|sq: int| holds(r, sq) <==> 0 <= sq < 64 && holds_offset(b, sq, -1, 0),
{
    let r = b << 8;
    proof {
        assert forall|sq: int| holds(r, sq) <==> 0 <= sq < 64 && holds_offset(b, sq, -1, 0) by {
            lemma_holds_shl(b, 8, sq);
        }
    }
    r
}

/// One step to the east.
pub fn east_one(b: u64) -> (r: u64)
    ensures
        r == (b << 1) & NOT_A_FILE,
        forall|sq: int| holds(r, sq) <==> 0 <= sq < 64 && holds_offset(b, sq, 0, -1),
{
    let r = (b << 1) & NOT_A_FILE;
    proof {
        assert forall|sq: int| holds(r, sq) <==> 0 <= sq < 64 && holds_offset(b, sq, 0, -1) by {
            lemma_step_up(b, 1, NOT_A_FILE, sq);
            if 0 <= sq < 64 {
                lemma_file_masks(sq);
            }
        }
    }
    r
}

/// One step to the north-east.
pub fn no_ea_one(b: u64) -> (r: u64)
    ensures
        r == (b << 9) & NOT_A_FILE,
        forall|sq: int| holds(r, sq) <==> 0 <= sq < 64 && holds_offset(b, sq, -1, -1),
{
    let r = (b << 9) & NOT_A_FILE;
    proof {
        assert forall|sq: int| holds(r, sq) <==> 0 <= sq < 64 && holds_offset(b, sq, -1, -1) by {
            lemma_step_up(b, 9, NOT_A_FILE, sq);
            if 0 <= sq < 64 {
                lemma_file_masks(sq);
            }
        }
    }
    r
}

/// One step to the south-east.
pub fn so_ea_one(b: u64) -> (r: u64)
    ensures
        r == (b >> 7) & NOT_A_FILE,
        forall|sq: int| holds(r, sq) <==> 0 <= sq < 64 && holds_offset(b, sq, 1, -1),
{
    let r = (b >> 7) & NOT_A_FILE;
    proof {
        assert forall|sq: int| holds(r, sq) <==> 0 <= sq < 64 && holds_offset(b, sq, 1, -1) by {
            lemma_step_down(b, 7, NOT_A_FILE, sq);
            if 0 <= sq < 64 {
                lemma_file_masks(sq);
            }
        }
    }
    r
}

/// One step to the west.
pub fn west_one(b: u64) -> (r: u64)
    ensures
        r == (b >> 1) & NOT_H_FILE,
        forall|sq: int| holds(r, sq) <==> 0 <= sq < 64 && holds_offset(b, sq, 0, 1),
{
    let r = (b >> 1) & NOT_H_FILE;
    proof {
        assert forall|sq: int| holds(r, sq) <==> 0 <= sq < 64 && holds_offset(b, sq, 0, 1) by {
            lemma_step_down(b, 1, NOT_H_FILE, sq);
            if 0 <= sq < 64 {
                lemma_file_masks(sq);
            }
        }
    }
    r
}

/// One step to the south-west.
pub fn so_we_one(b: u64) -> (r: u64)
    ensures
        r == (b >> 9) & NOT_H_FILE,
        forall|sq: int| holds(r, sq) <==> 0 <= sq < 64 && holds_offset(b, sq, 1, 1),
{
    let r = (b >> 9) & NOT_H_FILE;
    proof {
        assert forall|sq: int| holds(r, sq) <==> 0 <= sq < 64 && holds_offset(b, sq, 1, 1) by {
            lemma_step_down(b, 9, NOT_H_FILE, sq);
            if 0 <= sq < 64 {
                lemma_file_masks(sq);
            }
        }
    }
    r
}

/// One step to the north-west.
pub fn no_we_one(b: u64) -> (r: u64)
    ensures
        r == (b << 7) & NOT_H_FILE,
        forall|sq: int| holds(r, sq) <==> 0 <= sq < 64 && holds_offset(b, sq, -1, 1),
{
    let r = (b << 7) & NOT_H_FILE;
    proof {
        assert forall|sq: int| holds(r, sq) <==> 0 <= sq < 64 && holds_offset(b, sq, -1, 1) by {
            lemma_step_up(b, 7, NOT_H_FILE, sq);
            if 0 <= sq < 64 {
                lemma_file_masks(sq);
            }
        }
    }
    r
}

} // verus!
