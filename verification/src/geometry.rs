//! Squares as (rank, file) pairs, single steps and rays.
//!
//! Square `0` is a1; the file grows to the east and the rank to the north.
//! A direction is a pair `(dr, df)` of rank and file steps, each one of
//! `-1`, `0`, `1`.

use vstd::prelude::*;
use crate::bits::{board_of, holds};

verus! {

pub open spec fn rank_of(sq: int) -> int {
    sq / 8
}

pub open spec fn file_of(sq: int) -> int {
    sq % 8
}

pub open spec fn on_board(rank: int, file: int) -> bool {
    0 <= rank < 8 && 0 <= file < 8
}

pub open spec fn square_at(rank: int, file: int) -> int {
    rank * 8 + file
}

/// A rank or file step of a direction.
pub open spec fn unit_step(d: int) -> bool {
    -1 <= d <= 1
}

/// A direction along which a sliding piece moves.
pub open spec fn is_direction(dr: int, df: int) -> bool {
    unit_step(dr) && unit_step(df) && (dr != 0 || df != 0)
}

/// The square `(dr, df)` away from `from` lies on the board and `b` holds it.
pub open spec fn holds_offset(b: u64, from: int, dr: int, df: int) -> bool {
    on_board(rank_of(from) + dr, file_of(from) + df) && holds(
        b,
        square_at(rank_of(from) + dr, file_of(from) + df),
    )
}

/// `to` is one king step away from `from`.
pub open spec fn king_step(from: int, to: int) -> bool {
    let dr = rank_of(to) - rank_of(from);
    let df = file_of(to) - file_of(from);
    -1 <= dr <= 1 && -1 <= df <= 1 && (dr != 0 || df != 0)
}

/// `to` is one knight jump away from `from`.
pub open spec fn knight_step(from: int, to: int) -> bool {
    let dr = rank_of(to) - rank_of(from);
    let df = file_of(to) - file_of(from);
    ((dr == 2 || dr == -2) && (df == 1 || df == -1)) || ((dr == 1 || dr == -1) && (df == 2 || df
        == -2))
}

/// `to` is one diagonal step away from `from`, towards rank `from + dr`.
pub open spec fn pawn_capture_step(from: int, to: int, dr: int) -> bool {
    let df = file_of(to) - file_of(from);
    rank_of(to) - rank_of(from) == dr && (df == 1 || df == -1)
}

/// Whether `k` steps from `from` in direction `(dr, df)` stay on the board.
pub open spec fn ray_on_board(from: int, dr: int, df: int, k: int) -> bool {
    on_board(rank_of(from) + k * dr, file_of(from) + k * df)
}

/// The square `k` steps from `from` in direction `(dr, df)`.
pub open spec fn ray_square(from: int, dr: int, df: int, k: int) -> int {
    square_at(rank_of(from) + k * dr, file_of(from) + k * df)
}

/// No piece of `occ` stands on the first `k - 1` squares of the ray.
pub open spec fn ray_clear(occ: u64, from: int, dr: int, df: int, k: int) -> bool {
    forall|j: int| 1 <= j < k ==> !holds(occ, #[trigger] ray_square(from, dr, df, j))
}

/// `to` is the square `k` steps along the ray, and a slider on `from`
/// reaches it: every square before it is empty.
pub open spec fn ray_hits_at(occ: u64, from: int, dr: int, df: int, to: int, k: int) -> bool {
    &&& ray_on_board(from, dr, df, k)
    &&& to == ray_square(from, dr, df, k)
    &&& ray_clear(occ, from, dr, df, k)
}

/// A slider on `from` reaches `to` within fewer than `limit` steps in
/// direction `(dr, df)`.
pub open spec fn ray_hits_within(
    occ: u64,
    from: int,
    dr: int,
    df: int,
    to: int,
    limit: int,
) -> bool {
    exists|k: int| 1 <= k < limit && #[trigger] ray_hits_at(occ, from, dr, df, to, k)
}

/// A slider on `from` attacks `to` along direction `(dr, df)`: `to` lies on
/// the ray, and the squares between are empty. The first occupied square of
/// the ray is attacked, the squares behind it are not.
pub open spec fn ray_hits(occ: u64, from: int, dr: int, df: int, to: int) -> bool {
    ray_hits_within(occ, from, dr, df, to, 8)
}

/// `to` is the square `k` steps along the ray and is not the last square of
/// the ray before the edge.
pub open spec fn ray_inner_at(from: int, dr: int, df: int, to: int, k: int) -> bool {
    &&& ray_on_board(from, dr, df, k + 1)
    &&& to == ray_square(from, dr, df, k)
}

pub open spec fn ray_inner_within(from: int, dr: int, df: int, to: int, limit: int) -> bool {
    exists|k: int| 1 <= k < limit && #[trigger] ray_inner_at(from, dr, df, to, k)
}

/// `to` lies on the ray from `from` in direction `(dr, df)`, short of the
/// ray's last square: a piece on `to` can shorten the ray.
pub open spec fn ray_inner(from: int, dr: int, df: int, to: int) -> bool {
    ray_inner_within(from, dr, df, to, 8)
}

/// What a rook on `from` attacks when the pieces stand on `occ`.
pub open spec fn rook_attacks_square(from: int, occ: u64, to: int) -> bool {
    ||| ray_hits(occ, from, 1, 0, to)
    ||| ray_hits(occ, from, -1, 0, to)
    ||| ray_hits(occ, from, 0, 1, to)
    ||| ray_hits(occ, from, 0, -1, to)
}

/// What a bishop on `from` attacks when the pieces stand on `occ`.
pub open spec fn bishop_attacks_square(from: int, occ: u64, to: int) -> bool {
    ||| ray_hits(occ, from, 1, 1, to)
    ||| ray_hits(occ, from, 1, -1, to)
    ||| ray_hits(occ, from, -1, 1, to)
    ||| ray_hits(occ, from, -1, -1, to)
}

/// The squares whose occupancy decides what a rook on `from` attacks.
pub open spec fn rook_relevant(from: int, to: int) -> bool {
    ||| ray_inner(from, 1, 0, to)
    ||| ray_inner(from, -1, 0, to)
    ||| ray_inner(from, 0, 1, to)
    ||| ray_inner(from, 0, -1, to)
}

/// The squares whose occupancy decides what a bishop on `from` attacks.
pub open spec fn bishop_relevant(from: int, to: int) -> bool {
    ||| ray_inner(from, 1, 1, to)
    ||| ray_inner(from, 1, -1, to)
    ||| ray_inner(from, -1, 1, to)
    ||| ray_inner(from, -1, -1, to)
}


/// The bitboard of the squares that a rook on `from` attacks.
pub open spec fn rook_attack_set(from: int, occ: u64) -> u64 {
    board_of(|to: int| rook_attacks_square(from, occ, to))
}

/// The bitboard of the squares that a bishop on `from` attacks.
pub open spec fn bishop_attack_set(from: int, occ: u64) -> u64 {
    board_of(|to: int| bishop_attacks_square(from, occ, to))
}

/// The relevant-occupancy mask of a rook on `from`.
pub open spec fn rook_mask_of(from: int) -> u64 {
    board_of(|to: int| rook_relevant(from, to))
}

/// The relevant-occupancy mask of a bishop on `from`.
pub open spec fn bishop_mask_of(from: int) -> u64 {
    board_of(|to: int| bishop_relevant(from, to))
}

/// The index width of the rook's table on `square`: ten bits, and one more
/// for each edge of the board on which the square lies.
pub open spec fn rook_bits_of(square: int) -> int {
    10 + if rank_of(square) == 0 || rank_of(square) == 7 {
        1int
    } else {
        0int
    } + if file_of(square) == 0 || file_of(square) == 7 {
        1int
    } else {
        0int
    }
}

/// How many steps separate `square` from the nearest edge of the board.
pub open spec fn edge_distance(square: int) -> int {
    let r = rank_of(square);
    let f = file_of(square);
    let vertical = if r < 7 - r {
        r
    } else {
        7 - r
    };
    let lateral = if f < 7 - f {
        f
    } else {
        7 - f
    };
    if vertical < lateral {
        vertical
    } else {
        lateral
    }
}

/// The index width of the bishop's table on `square`: six bits in the
/// corners, five on the two outer rings, seven on the third ring and nine
/// on the four central squares.
pub open spec fn bishop_bits_of(square: int) -> int {
    let corner = (rank_of(square) == 0 || rank_of(square) == 7) && (file_of(square) == 0
        || file_of(square) == 7);
    if corner {
        6
    } else if edge_distance(square) <= 1 {
        5
    } else if edge_distance(square) == 2 {
        7
    } else {
        9
    }
}

/// `k` steps of size `d`, for a unit step `d`.
pub open spec fn steps(k: int, d: int) -> int {
    if d == 1 {
        k
    } else if d == -1 {
        -k
    } else {
        0
    }
}

pub proof fn lemma_steps(k: int, d: int)
    requires
        unit_step(d),
    ensures
        k * d == steps(k, d),
{
    assert(k * d == steps(k, d)) by (nonlinear_arith)
        requires
            -1 <= d <= 1,
    ;
}

/// The coordinates of a ray's squares without a product.
pub proof fn lemma_ray_coordinates(from: int, dr: int, df: int, k: int)
    requires
        is_direction(dr, df),
    ensures
        ray_on_board(from, dr, df, k) == on_board(
            rank_of(from) + steps(k, dr),
            file_of(from) + steps(k, df),
        ),
        ray_square(from, dr, df, k) == square_at(
            rank_of(from) + steps(k, dr),
            file_of(from) + steps(k, df),
        ),
{
    lemma_steps(k, dr);
    lemma_steps(k, df);
}

/// A ray that is on the board after `k` steps was on it after every
/// smaller number of steps, and `k` is at most 7.
pub proof fn lemma_ray_prefix(from: int, dr: int, df: int, j: int, k: int)
    requires
        0 <= from < 64,
        is_direction(dr, df),
        0 <= j <= k,
        ray_on_board(from, dr, df, k),
    ensures
        ray_on_board(from, dr, df, j),
        0 <= ray_square(from, dr, df, j) < 64,
        k < 8,
        j != k ==> ray_square(from, dr, df, j) != ray_square(from, dr, df, k),
{
    lemma_ray_coordinates(from, dr, df, j);
    lemma_ray_coordinates(from, dr, df, k);
}

} // verus!
