//! Attack sets of the pieces that no blocker stops: king, knight and pawn.
//!
//! Each function takes a set of pieces of one kind and returns every square
//! that at least one of them attacks.

use vstd::prelude::*;
use crate::bits::{
    board_of,
    holds,
    lemma_holds_or,
    lemma_holds_shl,
    lemma_holds_shr,
    lemma_holds_single,
    lemma_is_board_of,
    single,
};
use crate::directions::{
    east_one,
    lemma_file_masks,
    lemma_step_down,
    lemma_step_up,
    no_ea_one,
    no_we_one,
    nort_one,
    so_ea_one,
    so_we_one,
    sout_one,
    west_one,
    NOT_A_FILE,
    NOT_AB_FILE,
    NOT_GH_FILE,
    NOT_H_FILE,
};
use crate::geometry::{holds_offset, king_step, knight_step, pawn_capture_step};

verus! {

/// Some king of `kings` stands one step from `to`.
pub open spec fn king_attacked(kings: u64, to: int) -> bool {
    0 <= to < 64 && exists|from: int| #[trigger] holds(kings, from) && king_step(from, to)
}

/// Some knight of `knights` stands one jump from `to`.
pub open spec fn knight_attacked(knights: u64, to: int) -> bool {
    0 <= to < 64 && exists|from: int| #[trigger] holds(knights, from) && knight_step(from, to)
}

/// Some pawn of `pawns`, moving towards higher ranks when `dr` is 1 and
/// towards lower ranks when it is -1, captures on `to`.
pub open spec fn pawn_attacked(pawns: u64, dr: int, to: int) -> bool {
    0 <= to < 64 && exists|from: int| #[trigger]
        holds(pawns, from) && pawn_capture_step(from, to, dr)
}

/// A piece of `b` stands `(dr, df)` away from `to`, seen as a step from
/// that piece to `to`.
proof fn lemma_offset_is_step(b: u64, to: int, dr: int, df: int)
    requires
        0 <= to < 64,
        holds_offset(b, to, dr, df),
    ensures
        exists|from: int| #[trigger]
            holds(b, from) && 0 <= from < 64 && to / 8 - from / 8 == -dr && to % 8 - from % 8
                == -df,
{
    let from = (to / 8 + dr) * 8 + (to % 8 + df);
    assert(holds(b, from));
}

/// Squares attacked by the white pawns of `wpawns` towards the east.
pub fn w_pawn_east_attacks(wpawns: u64) -> (r: u64)
    ensures
        forall|sq: int| holds(r, sq) <==> 0 <= sq < 64 && holds_offset(wpawns, sq, -1, -1),
{
    no_ea_one(wpawns)
}

/// Squares attacked by the white pawns of `wpawns` towards the west.
pub fn w_pawn_west_attacks(wpawns: u64) -> (r: u64)
    ensures
        forall|sq: int| holds(r, sq) <==> 0 <= sq < 64 && holds_offset(wpawns, sq, -1, 1),
{
    no_we_one(wpawns)
}

/// Squares attacked by the black pawns of `bpawns` towards the east.
pub fn b_pawn_east_attacks(bpawns: u64) -> (r: u64)
    ensures
        forall|sq: int| holds(r, sq) <==> 0 <= sq < 64 && holds_offset(bpawns, sq, 1, -1),
{
    so_ea_one(bpawns)
}

/// Squares attacked by the black pawns of `bpawns` towards the west.
pub fn b_pawn_west_attacks(bpawns: u64) -> (r: u64)
    ensures
        forall|sq: int| holds(r, sq) <==> 0 <= sq < 64 && holds_offset(bpawns, sq, 1, 1),
{
    so_we_one(bpawns)
}

/// Squares on which the white pawns of `wpawns` capture.
pub fn w_pawn_attacks(wpawns: u64) -> (r: u64)
    ensures
        forall|sq: int| holds(r, sq) <==> pawn_attacked(wpawns, 1, sq),
{
    let east = w_pawn_east_attacks(wpawns);
    let west = w_pawn_west_attacks(wpawns);
    let r = east | west;
    proof {
        assert forall|sq: int| holds(r, sq) <==> pawn_attacked(wpawns, 1, sq) by {
            lemma_holds_or(east, west, sq);
            if holds(r, sq) {
                if holds(east, sq) {
                    lemma_offset_is_step(wpawns, sq, -1, -1);
                } else {
                    lemma_offset_is_step(wpawns, sq, -1, 1);
                }
            }
            if pawn_attacked(wpawns, 1, sq) {
                let from = choose|from: int| #[trigger]
                    holds(wpawns, from) && pawn_capture_step(from, sq, 1);
                assert(from == (sq / 8 - 1) * 8 + (sq % 8 - (sq % 8 - from % 8)));
            }
        }
    }
    r
}

/// Squares on which the black pawns of `bpawns` capture.
pub fn b_pawn_attacks(bpawns: u64) -> (r: u64)
    ensures
        forall|sq: int| holds(r, sq) <==> pawn_attacked(bpawns, -1, sq),
{
    let east = b_pawn_east_attacks(bpawns);
    let west = b_pawn_west_attacks(bpawns);
    let r = east | west;
    proof {
        assert forall|sq: int| holds(r, sq) <==> pawn_attacked(bpawns, -1, sq) by {
            lemma_holds_or(east, west, sq);
            if holds(r, sq) {
                if holds(east, sq) {
                    lemma_offset_is_step(bpawns, sq, 1, -1);
                } else {
                    lemma_offset_is_step(bpawns, sq, 1, 1);
                }
            }
            if pawn_attacked(bpawns, -1, sq) {
                let from = choose|from: int| #[trigger]
                    holds(bpawns, from) && pawn_capture_step(from, sq, -1);
                assert(from == (sq / 8 + 1) * 8 + (sq % 8 - (sq % 8 - from % 8)));
            }
        }
    }
    r
}

/// A piece of `b` stands a knight's jump from `to`, offset by offset.
spec fn jump_offsets(b: u64, to: int) -> bool {
    ||| holds_offset(b, to, -2, 1)
    ||| holds_offset(b, to, -2, -1)
    ||| holds_offset(b, to, 2, 1)
    ||| holds_offset(b, to, 2, -1)
    ||| holds_offset(b, to, -1, 2)
    ||| holds_offset(b, to, -1, -2)
    ||| holds_offset(b, to, 1, 2)
    ||| holds_offset(b, to, 1, -2)
}

proof fn lemma_jump_offsets(b: u64, to: int)
    requires
        0 <= to < 64,
    ensures
        jump_offsets(b, to) <==> knight_attacked(b, to),
{
    if jump_offsets(b, to) {
        if holds_offset(b, to, -2, 1) {
            lemma_offset_is_step(b, to, -2, 1);
        } else if holds_offset(b, to, -2, -1) {
            lemma_offset_is_step(b, to, -2, -1);
        } else if holds_offset(b, to, 2, 1) {
            lemma_offset_is_step(b, to, 2, 1);
        } else if holds_offset(b, to, 2, -1) {
            lemma_offset_is_step(b, to, 2, -1);
        } else if holds_offset(b, to, -1, 2) {
            lemma_offset_is_step(b, to, -1, 2);
        } else if holds_offset(b, to, -1, -2) {
            lemma_offset_is_step(b, to, -1, -2);
        } else if holds_offset(b, to, 1, 2) {
            lemma_offset_is_step(b, to, 1, 2);
        } else {
            lemma_offset_is_step(b, to, 1, -2);
        }
    }
    if knight_attacked(b, to) {
        let from = choose|from: int| #[trigger] holds(b, from) && knight_step(from, to);
        let dr = to / 8 - from / 8;
        let df = to % 8 - from % 8;
        assert(from == (to / 8 - dr) * 8 + (to % 8 - df));
    }
}

/// The pieces of `b` moved one file to either side.
spec fn beside(b: u64) -> u64 {
    ((b >> 1) & NOT_H_FILE) | ((b << 1) & NOT_A_FILE)
}

/// The pieces of `b` moved two files to either side.
spec fn two_beside(b: u64) -> u64 {
    ((b >> 2) & NOT_GH_FILE) | ((b << 2) & NOT_AB_FILE)
}

proof fn lemma_beside(b: u64, u: int)
    requires
        0 <= u < 64,
    ensures
        holds(beside(b), u) <==> holds_offset(b, u, 0, 1) || holds_offset(b, u, 0, -1),
        holds(two_beside(b), u) <==> holds_offset(b, u, 0, 2) || holds_offset(b, u, 0, -2),
{
    lemma_file_masks(u);
    lemma_holds_or((b >> 1) & NOT_H_FILE, (b << 1) & NOT_A_FILE, u);
    lemma_holds_or((b >> 2) & NOT_GH_FILE, (b << 2) & NOT_AB_FILE, u);
    lemma_step_down(b, 1, NOT_H_FILE, u);
    lemma_step_down(b, 2, NOT_GH_FILE, u);
    lemma_step_up(b, 1, NOT_A_FILE, u);
    lemma_step_up(b, 2, NOT_AB_FILE, u);
}

/// A lateral offset seen from `dr` ranks away.
proof fn lemma_offset_across_ranks(b: u64, sq: int, dr: int, df: int)
    requires
        0 <= sq < 64,
        -2 <= dr <= 2,
    ensures
        holds_offset(b, sq, dr, df) <==> 0 <= sq + 8 * dr < 64 && holds_offset(
            b,
            sq + 8 * dr,
            0,
            df,
        ),
{
}

proof fn lemma_jumps_far(b: u64, sq: int)
    requires
        0 <= sq < 64,
    ensures
        holds(beside(b) << 16, sq) <==> holds_offset(b, sq, -2, 1) || holds_offset(b, sq, -2, -1),
        holds(beside(b) >> 16, sq) <==> holds_offset(b, sq, 2, 1) || holds_offset(b, sq, 2, -1),
{
    lemma_holds_shl(beside(b), 16, sq);
    lemma_holds_shr(beside(b), 16, sq);
    lemma_offset_across_ranks(b, sq, -2, 1);
    lemma_offset_across_ranks(b, sq, -2, -1);
    lemma_offset_across_ranks(b, sq, 2, 1);
    lemma_offset_across_ranks(b, sq, 2, -1);
    if sq >= 16 {
        lemma_beside(b, sq - 16);
    }
    if sq + 16 < 64 {
        lemma_beside(b, sq + 16);
    }
}

proof fn lemma_jumps_near(b: u64, sq: int)
    requires
        0 <= sq < 64,
    ensures
        holds(two_beside(b) << 8, sq) <==> holds_offset(b, sq, -1, 2) || holds_offset(
            b,
            sq,
            -1,
            -2,
        ),
        holds(two_beside(b) >> 8, sq) <==> holds_offset(b, sq, 1, 2) || holds_offset(b, sq, 1, -2),
{
    lemma_holds_shl(two_beside(b), 8, sq);
    lemma_holds_shr(two_beside(b), 8, sq);
    lemma_offset_across_ranks(b, sq, -1, 2);
    lemma_offset_across_ranks(b, sq, -1, -2);
    lemma_offset_across_ranks(b, sq, 1, 2);
    lemma_offset_across_ranks(b, sq, 1, -2);
    if sq >= 8 {
        lemma_beside(b, sq - 8);
    }
    if sq + 8 < 64 {
        lemma_beside(b, sq + 8);
    }
}

/// Squares attacked by the knights of `knights`.
pub fn knight_attacks(knights: u64) -> (r: u64)
    ensures
        forall|sq: int| holds(r, sq) <==> knight_attacked(knights, sq),
{
    let l1 = (knights >> 1) & NOT_H_FILE;
    let l2 = (knights >> 2) & NOT_GH_FILE;
    let r1 = (knights << 1) & NOT_A_FILE;
    let r2 = (knights << 2) & NOT_AB_FILE;
    let h1 = l1 | r1;
    let h2 = l2 | r2;
    let r = (h1 << 16) | (h1 >> 16) | (h2 << 8) | (h2 >> 8);
    proof {
        assert(h1 == beside(knights) && h2 == two_beside(knights));
        assert forall|sq: int| holds(r, sq) <==> knight_attacked(knights, sq) by {
            lemma_holds_or((h1 << 16) | (h1 >> 16) | (h2 << 8), h2 >> 8, sq);
            lemma_holds_or((h1 << 16) | (h1 >> 16), h2 << 8, sq);
            lemma_holds_or(h1 << 16, h1 >> 16, sq);
            if 0 <= sq < 64 {
                lemma_jumps_far(knights, sq);
                lemma_jumps_near(knights, sq);
                lemma_jump_offsets(knights, sq);
            }
        }
    }
    r
}

/// Squares attacked by the kings of `kingset`.
pub fn king_attacks(kingset: u64) -> (r: u64)
    ensures
        forall|sq: int| holds(r, sq) <==> king_attacked(kingset, sq),
{
    let e = east_one(kingset);
    let w = west_one(kingset);
    let n = nort_one(kingset);
    let s = sout_one(kingset);
    let ne = no_ea_one(kingset);
    let nw = no_we_one(kingset);
    let se = so_ea_one(kingset);
    let sw = so_we_one(kingset);
    let r = e | w | n | s | ne | nw | se | sw;
    proof {
        assert forall|sq: int| holds(r, sq) <==> king_attacked(kingset, sq) by {
            lemma_holds_or(e | w | n | s | ne | nw | se, sw, sq);
            lemma_holds_or(e | w | n | s | ne | nw, se, sq);
            lemma_holds_or(e | w | n | s | ne, nw, sq);
            lemma_holds_or(e | w | n | s, ne, sq);
            lemma_holds_or(e | w | n, s, sq);
            lemma_holds_or(e | w, n, sq);
            lemma_holds_or(e, w, sq);
            if holds(r, sq) {
                if holds(e, sq) {
                    lemma_offset_is_step(kingset, sq, 0, -1);
                } else if holds(w, sq) {
                    lemma_offset_is_step(kingset, sq, 0, 1);
                } else if holds(n, sq) {
                    lemma_offset_is_step(kingset, sq, -1, 0);
                } else if holds(s, sq) {
                    lemma_offset_is_step(kingset, sq, 1, 0);
                } else if holds(ne, sq) {
                    lemma_offset_is_step(kingset, sq, -1, -1);
                } else if holds(nw, sq) {
                    lemma_offset_is_step(kingset, sq, -1, 1);
                } else if holds(se, sq) {
                    lemma_offset_is_step(kingset, sq, 1, -1);
                } else {
                    lemma_offset_is_step(kingset, sq, 1, 1);
                }
            }
            if king_attacked(kingset, sq) {
                let from = choose|from: int| #[trigger]
                    holds(kingset, from) && king_step(from, sq);
                let dr = sq / 8 - from / 8;
                let df = sq % 8 - from % 8;
                assert(from == (sq / 8 - dr) * 8 + (sq % 8 - df));
            }
        }
    }
    r
}


/// The squares that a king on `from` attacks.
pub open spec fn king_attack_set(from: int) -> u64 {
    board_of(|to: int| king_step(from, to))
}

/// The squares that a knight on `from` attacks.
pub open spec fn knight_attack_set(from: int) -> u64 {
    board_of(|to: int| knight_step(from, to))
}

/// The squares on which a pawn on `from` captures; `dr` is 1 for a white
/// pawn and -1 for a black one.
pub open spec fn pawn_attack_set(from: int, dr: int) -> u64 {
    board_of(|to: int| pawn_capture_step(from, to, dr))
}

/// The squares that a single king on `square` attacks.
pub fn king_attacks_from(square: u64) -> (attacks: u64)
    requires
        square < 64,
    ensures
        attacks == king_attack_set(square as int),
{
    let attacks = king_attacks(1u64 << square);
    proof {
        assert forall|to: int| 0 <= to < 64 implies (holds(attacks, to) <==> king_step(
            square as int,
            to,
        )) by {
            assert forall|from: int| holds(single(square as int), from) <==> from == square by {
                lemma_holds_single(square as int, from);
            }
            if king_step(square as int, to) {
                assert(holds(single(square as int), square as int));
            }
        }
        lemma_is_board_of(attacks, |to: int| king_step(square as int, to));
    }
    attacks
}

/// The squares that a single knight on `square` attacks.
pub fn knight_attacks_from(square: u64) -> (attacks: u64)
    requires
        square < 64,
    ensures
        attacks == knight_attack_set(square as int),
{
    let attacks = knight_attacks(1u64 << square);
    proof {
        assert forall|to: int| 0 <= to < 64 implies (holds(attacks, to) <==> knight_step(
            square as int,
            to,
        )) by {
            assert forall|from: int| holds(single(square as int), from) <==> from == square by {
                lemma_holds_single(square as int, from);
            }
            if knight_step(square as int, to) {
                assert(holds(single(square as int), square as int));
            }
        }
        lemma_is_board_of(attacks, |to: int| knight_step(square as int, to));
    }
    attacks
}

/// The squares on which a single pawn on `square` captures.
pub fn pawn_attacks_from(white: bool, square: u64) -> (attacks: u64)
    requires
        square < 64,
    ensures
        attacks == pawn_attack_set(square as int, if white { 1int } else { -1int }),
{
    let attacks = if white {
        w_pawn_attacks(1u64 << square)
    } else {
        b_pawn_attacks(1u64 << square)
    };
    let ghost dr = if white { 1int } else { -1int };
    proof {
        assert forall|to: int| 0 <= to < 64 implies (holds(attacks, to) <==> pawn_capture_step(
            square as int,
            to,
            dr,
        )) by {
            assert forall|from: int| holds(single(square as int), from) <==> from == square by {
                lemma_holds_single(square as int, from);
            }
            if pawn_capture_step(square as int, to, dr) {
                assert(holds(single(square as int), square as int));
            }
        }
        lemma_is_board_of(attacks, |to: int| pawn_capture_step(square as int, to, dr));
    }
    attacks
}

} // verus!
