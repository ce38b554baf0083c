//! Rook and bishop: relevant-occupancy masks and blocked attack sets.
//!
//! Both are computed by walking the four rays of the piece. An attack ray
//! stops on the first occupied square, which it includes; a mask ray stops
//! one square short of the edge of the board.

use vstd::prelude::*;
use crate::bits::{
    board_of,
    count_true,
    lemma_count_below_disjoint_or,
    lemma_count_below_is_count_true,
    holds,
    lemma_board_of,
    lemma_equal_by_squares,
    lemma_holds_and,
    lemma_holds_or,
    lemma_holds_single,
    lemma_holds_zero,
    lemma_is_board_of,
    popcount,
};
use crate::geometry::{
    bishop_attack_set,
    bishop_attacks_square,
    bishop_bits_of,
    bishop_mask_of,
    bishop_relevant,
    file_of,
    is_direction,
    lemma_ray_coordinates,
    lemma_ray_prefix,
    on_board,
    rank_of,
    ray_clear,
    ray_hits,
    ray_hits_at,
    ray_hits_within,
    ray_inner,
    ray_inner_at,
    ray_inner_within,
    ray_on_board,
    ray_square,
    rook_attack_set,
    rook_attacks_square,
    rook_bits_of,
    rook_mask_of,
    rook_relevant,
    steps,
};

verus! {

/// The squares that a slider on `square` attacks along one ray.
fn ray_attacks(square: u64, occ: u64, dr: i32, df: i32) -> (res: u64)
    requires
        square < 64,
        is_direction(dr as int, df as int),
    ensures
        forall|to: int| holds(res, to) <==> ray_hits(occ, square as int, dr as int, df as int, to),
{
    let ghost from = square as int;
    let rank: i32 = (square / 8) as i32;
    let file: i32 = (square % 8) as i32;
    let mut res: u64 = 0;
    let mut r: i32 = rank + dr;
    let mut f: i32 = file + df;
    let mut k: i32 = 1;
    proof {
        lemma_ray_coordinates(from, dr as int, df as int, 1);
        assert forall|to: int| holds(res, to) <==> ray_hits_within(
            occ,
            from,
            dr as int,
            df as int,
            to,
            1,
        ) by {
            lemma_holds_zero(to);
        }
    }
    let mut blocked = false;
    while !blocked && 0 <= r && r < 8 && 0 <= f && f < 8
        invariant
            from == square,
            0 <= from < 64,
            is_direction(dr as int, df as int),
            1 <= k <= 8,
            -1 <= r <= 8,
            -1 <= f <= 8,
            blocked ==> forall|to: int|
                holds(res, to) <==> ray_hits(occ, from, dr as int, df as int, to),
            !blocked ==> rank_of(from) + k * dr == r && file_of(from) + k * df == f,
            !blocked ==> ray_clear(occ, from, dr as int, df as int, k as int),
            !blocked ==> forall|to: int|
                holds(res, to) <==> ray_hits_within(occ, from, dr as int, df as int, to, k as int),
        decreases 8 - k + if blocked { 0int } else { 1int },
    {
        let pos: u64 = (r * 8 + f) as u64;
        let ghost before = res;
        res = res | (1u64 << pos);
        blocked = (occ >> pos) & 1 == 1;
        proof {
            assert(ray_on_board(from, dr as int, df as int, k as int));
            lemma_ray_prefix(from, dr as int, df as int, k as int, k as int);
            assert(pos == ray_square(from, dr as int, df as int, k as int));
            assert(blocked == holds(occ, pos as int));
            assert(ray_hits_at(occ, from, dr as int, df as int, pos as int, k as int));
            assert forall|to: int|
                holds(res, to) <==> ray_hits_within(
                    occ,
                    from,
                    dr as int,
                    df as int,
                    to,
                    k + 1,
                ) by {
                lemma_holds_or(before, 1u64 << pos, to);
                lemma_holds_single(pos as int, to);
                if ray_hits_within(occ, from, dr as int, df as int, to, k + 1) {
                    let j = choose|j: int|
                        1 <= j < k + 1 && #[trigger] ray_hits_at(
                            occ,
                            from,
                            dr as int,
                            df as int,
                            to,
                            j,
                        );
                    if j < k {
                        assert(ray_hits_within(occ, from, dr as int, df as int, to, k as int));
                    }
                }
            }
            if blocked {
                assert forall|to: int|
                    ray_hits(occ, from, dr as int, df as int, to) implies ray_hits_within(
                    occ,
                    from,
                    dr as int,
                    df as int,
                    to,
                    k + 1,
                ) by {
                    let j = choose|j: int|
                        1 <= j < 8 && #[trigger] ray_hits_at(
                            occ,
                            from,
                            dr as int,
                            df as int,
                            to,
                            j,
                        );
                    if j > k {
                        assert(!holds(occ, ray_square(from, dr as int, df as int, k as int)));
                    }
                }
            }
            lemma_ray_coordinates(from, dr as int, df as int, k as int);
            lemma_ray_coordinates(from, dr as int, df as int, k + 1);
        }
        if !blocked {
            r = r + dr;
            f = f + df;
            k = k + 1;
        }
    }
    proof {
        if !blocked {
            assert forall|to: int|
                ray_hits(occ, from, dr as int, df as int, to) implies ray_hits_within(
                occ,
                from,
                dr as int,
                df as int,
                to,
                k as int,
            ) by {
                let j = choose|j: int|
                    1 <= j < 8 && #[trigger] ray_hits_at(occ, from, dr as int, df as int, to, j);
                if j >= k {
                    lemma_ray_prefix(from, dr as int, df as int, k as int, j);
                }
            }
        }
    }
    res
}

/// The squares of one ray from `square` on which a piece can shorten it.
fn ray_mask(square: u64, dr: i32, df: i32) -> (res: u64)
    requires
        square < 64,
        is_direction(dr as int, df as int),
    ensures
        forall|to: int| holds(res, to) <==> ray_inner(square as int, dr as int, df as int, to),
{
    let ghost from = square as int;
    let rank: i32 = (square / 8) as i32;
    let file: i32 = (square % 8) as i32;
    let mut res: u64 = 0;
    let mut r: i32 = rank + dr;
    let mut f: i32 = file + df;
    let mut k: i32 = 1;
    proof {
        lemma_ray_coordinates(from, dr as int, df as int, 1);
        lemma_ray_coordinates(from, dr as int, df as int, 2);
        assert forall|to: int| holds(res, to) <==> ray_inner_within(
            from,
            dr as int,
            df as int,
            to,
            1,
        ) by {
            lemma_holds_zero(to);
        }
    }
    while 0 <= r + dr && r + dr < 8 && 0 <= f + df && f + df < 8
        invariant
            from == square,
            0 <= from < 64,
            is_direction(dr as int, df as int),
            1 <= k <= 8,
            -1 <= r <= 8,
            -1 <= f <= 8,
            rank_of(from) + k * dr == r,
            file_of(from) + k * df == f,
            rank_of(from) + (k + 1) * dr == r + dr,
            file_of(from) + (k + 1) * df == f + df,
            forall|to: int|
                holds(res, to) <==> ray_inner_within(from, dr as int, df as int, to, k as int),
        decreases 8 - k,
    {
        proof {
            assert(ray_on_board(from, dr as int, df as int, k + 1));
            lemma_ray_prefix(from, dr as int, df as int, k as int, k + 1);
            assert(ray_on_board(from, dr as int, df as int, k as int));
        }
        let pos: u64 = (r * 8 + f) as u64;
        let ghost before = res;
        res = res | (1u64 << pos);
        proof {
            assert(pos == ray_square(from, dr as int, df as int, k as int));
            assert(ray_inner_at(from, dr as int, df as int, pos as int, k as int));
            assert forall|to: int|
                holds(res, to) <==> ray_inner_within(from, dr as int, df as int, to, k + 1) by {
                lemma_holds_or(before, 1u64 << pos, to);
                lemma_holds_single(pos as int, to);
                if ray_inner_within(from, dr as int, df as int, to, k + 1) {
                    let j = choose|j: int|
                        1 <= j < k + 1 && #[trigger] ray_inner_at(
                            from,
                            dr as int,
                            df as int,
                            to,
                            j,
                        );
                    if j < k {
                        assert(ray_inner_within(from, dr as int, df as int, to, k as int));
                    }
                }
            }
            lemma_ray_coordinates(from, dr as int, df as int, k as int);
            lemma_ray_coordinates(from, dr as int, df as int, k + 1);
            lemma_ray_coordinates(from, dr as int, df as int, k + 2);
        }
        r = r + dr;
        f = f + df;
        k = k + 1;
    }
    proof {
        assert forall|to: int|
            ray_inner(from, dr as int, df as int, to) implies ray_inner_within(
            from,
            dr as int,
            df as int,
            to,
            k as int,
        ) by {
            let j = choose|j: int|
                1 <= j < 8 && #[trigger] ray_inner_at(from, dr as int, df as int, to, j);
            if j >= k {
                lemma_ray_prefix(from, dr as int, df as int, k + 1, j + 1);
            }
        }
    }
    res
}

/// Along one ray, only the pieces on the ray's inner squares matter.
proof fn lemma_ray_hits_transfer(a: u64, b: u64, from: int, dr: int, df: int, to: int)
    requires
        0 <= from < 64,
        is_direction(dr, df),
        forall|m: int| ray_inner(from, dr, df, m) ==> (holds(a, m) <==> holds(b, m)),
        ray_hits(a, from, dr, df, to),
    ensures
        ray_hits(b, from, dr, df, to),
{
    let k = choose|k: int| 1 <= k < 8 && #[trigger] ray_hits_at(a, from, dr, df, to, k);
    assert forall|j: int| 1 <= j < k implies !holds(b, #[trigger] ray_square(from, dr, df, j)) by {
        lemma_ray_prefix(from, dr, df, j + 1, k);
        assert(ray_inner_at(from, dr, df, ray_square(from, dr, df, j), j));
    }
    assert(ray_hits_at(b, from, dr, df, to, k));
}

/// Two occupancies that agree on the inner squares of a ray give the same
/// attacks along it.
pub proof fn lemma_ray_only_inner_matters(a: u64, b: u64, from: int, dr: int, df: int, to: int)
    requires
        0 <= from < 64,
        is_direction(dr, df),
        forall|m: int| ray_inner(from, dr, df, m) ==> (holds(a, m) <==> holds(b, m)),
    ensures
        ray_hits(a, from, dr, df, to) <==> ray_hits(b, from, dr, df, to),
{
    if ray_hits(a, from, dr, df, to) {
        lemma_ray_hits_transfer(a, b, from, dr, df, to);
    }
    if ray_hits(b, from, dr, df, to) {
        lemma_ray_hits_transfer(b, a, from, dr, df, to);
    }
}

/// A rook's attacks depend on the occupancy of its mask only: the pieces
/// outside the mask can be taken off the board without changing them.
pub proof fn lemma_rook_mask_suffices(from: int, occ: u64)
    requires
        0 <= from < 64,
    ensures
        rook_attack_set(from, occ & rook_mask_of(from)) == rook_attack_set(from, occ),
{
    let mask = rook_mask_of(from);
    let inner = occ & mask;
    lemma_board_of(|to: int| rook_relevant(from, to));
    assert forall|m: int| rook_relevant(from, m) implies (holds(inner, m) <==> holds(occ, m)) by {
        lemma_holds_and(occ, mask, m);
        if !(0 <= m < 64) {
            assert(!holds(inner, m) && !holds(occ, m));
        }
    }
    assert forall|to: int|
        rook_attacks_square(from, inner, to) <==> rook_attacks_square(from, occ, to) by {
        lemma_ray_only_inner_matters(inner, occ, from, 1, 0, to);
        lemma_ray_only_inner_matters(inner, occ, from, -1, 0, to);
        lemma_ray_only_inner_matters(inner, occ, from, 0, 1, to);
        lemma_ray_only_inner_matters(inner, occ, from, 0, -1, to);
    }
    lemma_board_of(|to: int| rook_attacks_square(from, occ, to));
    lemma_is_board_of(
        rook_attack_set(from, occ),
        |to: int| rook_attacks_square(from, inner, to),
    );
}

/// A bishop's attacks depend on the occupancy of its mask only.
pub proof fn lemma_bishop_mask_suffices(from: int, occ: u64)
    requires
        0 <= from < 64,
    ensures
        bishop_attack_set(from, occ & bishop_mask_of(from)) == bishop_attack_set(from, occ),
{
    let mask = bishop_mask_of(from);
    let inner = occ & mask;
    lemma_board_of(|to: int| bishop_relevant(from, to));
    assert forall|m: int| bishop_relevant(from, m) implies (holds(inner, m) <==> holds(
        occ,
        m,
    )) by {
        lemma_holds_and(occ, mask, m);
        if !(0 <= m < 64) {
            assert(!holds(inner, m) && !holds(occ, m));
        }
    }
    assert forall|to: int|
        bishop_attacks_square(from, inner, to) <==> bishop_attacks_square(from, occ, to) by {
        lemma_ray_only_inner_matters(inner, occ, from, 1, 1, to);
        lemma_ray_only_inner_matters(inner, occ, from, 1, -1, to);
        lemma_ray_only_inner_matters(inner, occ, from, -1, 1, to);
        lemma_ray_only_inner_matters(inner, occ, from, -1, -1, to);
    }
    lemma_board_of(|to: int| bishop_attacks_square(from, occ, to));
    lemma_is_board_of(
        bishop_attack_set(from, occ),
        |to: int| bishop_attacks_square(from, inner, to),
    );
}

/// The inner squares of a ray lie on the ray, off the origin, and not on
/// the ray's last square.
proof fn lemma_ray_inner_coordinates(from: int, dr: int, df: int, to: int)
    requires
        0 <= from < 64,
        is_direction(dr, df),
        ray_inner(from, dr, df, to),
    ensures
        0 <= to < 64,
        to != from,
        exists|k: int|
            1 <= k < 7 && rank_of(to) == rank_of(from) + #[trigger] steps(k, dr) && file_of(to)
                == file_of(from) + steps(k, df) && on_board(
                rank_of(to) + dr,
                file_of(to) + df,
            ),
{
    let k = choose|k: int| 1 <= k < 8 && #[trigger] ray_inner_at(from, dr, df, to, k);
    lemma_ray_prefix(from, dr, df, k, k + 1);
    lemma_ray_prefix(from, dr, df, 0, k);
    lemma_ray_coordinates(from, dr, df, 0);
    lemma_ray_coordinates(from, dr, df, k);
    lemma_ray_coordinates(from, dr, df, k + 1);
    assert(rank_of(to) == rank_of(from) + steps(k, dr));
}

/// No mask holds the square of its own piece.
pub proof fn lemma_masks_exclude_origin(from: int)
    requires
        0 <= from < 64,
    ensures
        !holds(rook_mask_of(from), from),
        !holds(bishop_mask_of(from), from),
{
    lemma_board_of(|to: int| rook_relevant(from, to));
    lemma_board_of(|to: int| bishop_relevant(from, to));
    assert forall|dr: int, df: int| is_direction(dr, df) implies !ray_inner(from, dr, df, from) by {
        if ray_inner(from, dr, df, from) {
            lemma_ray_inner_coordinates(from, dr, df, from);
        }
    }
}

/// Counts squares rank by rank: if `p` picks at most one square of each
/// rank, that on file `file_on(rank)` of the ranks that satisfy `on`, then
/// below `n` it picks one square for each such rank that lies below `n`
/// altogether, and one more if the square of the rank of `n` lies below `n`.
proof fn lemma_count_by_rank(
    p: spec_fn(int) -> bool,
    on: spec_fn(int) -> bool,
    file_on: spec_fn(int) -> int,
    n: int,
)
    requires
        0 <= n <= 64,
        forall|sq: int|
            0 <= sq < 64 ==> (#[trigger] p(sq) <==> on(rank_of(sq)) && file_of(sq) == file_on(
                rank_of(sq),
            )),
        forall|r: int| #[trigger] on(r) ==> 0 <= file_on(r) < 8,
    ensures
        count_true(p, n) == count_true(on, n / 8) + if on(n / 8) && file_on(n / 8) < n % 8 {
            1nat
        } else {
            0nat
        },
    decreases n,
{
    if n > 0 {
        lemma_count_by_rank(p, on, file_on, n - 1);
        assert(p(n - 1) <==> on(rank_of(n - 1)) && file_of(n - 1) == file_on(rank_of(n - 1)));
    }
}

/// Counts the squares of one rank: if `p` picks the squares of rank `rank`
/// whose file satisfies `on`, it picks as many squares as files satisfy
/// `on`.
proof fn lemma_count_in_rank(
    p: spec_fn(int) -> bool,
    rank: int,
    on: spec_fn(int) -> bool,
    n: int,
)
    requires
        0 <= rank < 8,
        0 <= n <= 64,
        forall|sq: int|
            0 <= sq < 64 ==> (#[trigger] p(sq) <==> rank_of(sq) == rank && on(file_of(sq))),
    ensures
        count_true(p, n) == count_true(
            on,
            if n <= 8 * rank {
                0
            } else if n >= 8 * rank + 8 {
                8
            } else {
                n - 8 * rank
            },
        ),
    decreases n,
{
    if n > 0 {
        lemma_count_in_rank(p, rank, on, n - 1);
        assert(p(n - 1) <==> rank_of(n - 1) == rank && on(file_of(n - 1)));
    }
}

/// The squares of the two rays of one line through `from`, by their
/// coordinates: they lie on the line, off `from`, and a step further along
/// their ray still lies on the board.
proof fn lemma_line_inner(from: int, dr: int, df: int, to: int)
    requires
        0 <= from < 64,
        0 <= to < 64,
        is_direction(dr, df),
    ensures
        ray_inner(from, dr, df, to) || ray_inner(from, -dr, -df, to) <==> exists|k: int|
            #![trigger steps(k, dr)]
            -7 < k < 7 && k != 0 && rank_of(to) == rank_of(from) + steps(k, dr) && file_of(to)
                == file_of(from) + steps(k, df) && if k > 0 {
                on_board(rank_of(to) + dr, file_of(to) + df)
            } else {
                on_board(rank_of(to) - dr, file_of(to) - df)
            },
{
    if ray_inner(from, dr, df, to) {
        lemma_ray_inner_coordinates(from, dr, df, to);
    }
    if ray_inner(from, -dr, -df, to) {
        lemma_ray_inner_coordinates(from, -dr, -df, to);
        let k = choose|k: int|
            1 <= k < 7 && rank_of(to) == rank_of(from) + #[trigger] steps(k, -dr) && file_of(to)
                == file_of(from) + steps(k, -df) && on_board(
                rank_of(to) - dr,
                file_of(to) - df,
            );
        assert(steps(-k, dr) == steps(k, -dr) && steps(-k, df) == steps(k, -df));
    }
    if exists|k: int|
        #![trigger steps(k, dr)]
        -7 < k < 7 && k != 0 && rank_of(to) == rank_of(from) + steps(k, dr) && file_of(to)
            == file_of(from) + steps(k, df) && if k > 0 {
            on_board(rank_of(to) + dr, file_of(to) + df)
        } else {
            on_board(rank_of(to) - dr, file_of(to) - df)
        } {
        let k = choose|k: int|
            #![trigger steps(k, dr)]
            -7 < k < 7 && k != 0 && rank_of(to) == rank_of(from) + steps(k, dr) && file_of(to)
                == file_of(from) + steps(k, df) && if k > 0 {
                on_board(rank_of(to) + dr, file_of(to) + df)
            } else {
                on_board(rank_of(to) - dr, file_of(to) - df)
            };
        if k > 0 {
            lemma_ray_coordinates(from, dr, df, k);
            lemma_ray_coordinates(from, dr, df, k + 1);
            assert(ray_inner_at(from, dr, df, to, k));
        } else {
            lemma_ray_coordinates(from, -dr, -df, -k);
            lemma_ray_coordinates(from, -dr, -df, -k + 1);
            assert(ray_inner_at(from, -dr, -df, to, -k));
        }
    }
}

/// The mask of a rook holds as many squares as its table has index bits.
pub proof fn lemma_rook_mask_size(from: int)
    requires
        0 <= from < 64,
    ensures
        popcount(rook_mask_of(from)) == rook_bits_of(from),
{
    let mask = rook_mask_of(from);
    let r0 = rank_of(from);
    let f0 = file_of(from);
    let upright_at = |to: int| ray_inner(from, 1, 0, to) || ray_inner(from, -1, 0, to);
    let level_at = |to: int| ray_inner(from, 0, 1, to) || ray_inner(from, 0, -1, to);
    let upright = board_of(upright_at);
    let level = board_of(level_at);
    lemma_board_of(|to: int| rook_relevant(from, to));
    lemma_board_of(upright_at);
    lemma_board_of(level_at);
    assert forall|sq: int| 0 <= sq < 64 implies (holds(mask, sq) <==> holds(
        upright | level,
        sq,
    )) by {
        lemma_holds_or(upright, level, sq);
    }
    lemma_equal_by_squares(mask, upright | level);
    let inner_rank = |r: int| 1 <= r <= 6 && r != r0;
    let inner_file = |f: int| 1 <= f <= 6 && f != f0;
    let column = |r: int| f0;
    assert forall|sq: int| 0 <= sq < 64 implies (#[trigger] upright_at(sq) <==> inner_rank(
        rank_of(sq),
    ) && file_of(sq) == column(rank_of(sq))) by {
        lemma_line_inner(from, 1, 0, sq);
        if inner_rank(rank_of(sq)) && file_of(sq) == f0 {
            let k = rank_of(sq) - r0;
            assert(steps(k, 1) == k && steps(k, 0) == 0);
        }
    }
    assert forall|sq: int| 0 <= sq < 64 implies (#[trigger] level_at(sq) <==> rank_of(sq) == r0
        && inner_file(file_of(sq))) by {
        lemma_line_inner(from, 0, 1, sq);
        if rank_of(sq) == r0 && inner_file(file_of(sq)) {
            let k = file_of(sq) - f0;
            assert(steps(k, 1) == k && steps(k, 0) == 0);
        }
    }
    assert forall|sq: int| !(holds(upright, sq) && holds(level, sq)) by {
        if holds(upright, sq) && holds(level, sq) {
            assert(upright_at(sq) && level_at(sq));
        }
    }
    lemma_count_below_disjoint_or(upright, level, 64);
    lemma_count_below_is_count_true(upright, upright_at, 64);
    lemma_count_below_is_count_true(level, level_at, 64);
    lemma_count_by_rank(upright_at, inner_rank, column, 64);
    lemma_count_in_rank(level_at, r0, inner_file, 64);
    assert(count_true(inner_rank, 8) == 6 - if 1 <= r0 <= 6 {
        1int
    } else {
        0int
    }) by {
        reveal_with_fuel(count_true, 9);
    }
    assert(count_true(inner_file, 8) == 6 - if 1 <= f0 <= 6 {
        1int
    } else {
        0int
    }) by {
        reveal_with_fuel(count_true, 9);
    }
}

/// The mask of a bishop holds as many squares as its table has index bits.
pub proof fn lemma_bishop_mask_size(from: int)
    requires
        0 <= from < 64,
    ensures
        popcount(bishop_mask_of(from)) == bishop_bits_of(from),
{
    let mask = bishop_mask_of(from);
    let r0 = rank_of(from);
    let f0 = file_of(from);
    let rising_at = |to: int| ray_inner(from, 1, 1, to) || ray_inner(from, -1, -1, to);
    let falling_at = |to: int| ray_inner(from, 1, -1, to) || ray_inner(from, -1, 1, to);
    let rising = board_of(rising_at);
    let falling = board_of(falling_at);
    lemma_board_of(|to: int| bishop_relevant(from, to));
    lemma_board_of(rising_at);
    lemma_board_of(falling_at);
    assert forall|sq: int| 0 <= sq < 64 implies (holds(mask, sq) <==> holds(
        rising | falling,
        sq,
    )) by {
        lemma_holds_or(rising, falling, sq);
    }
    lemma_equal_by_squares(mask, rising | falling);
    let up = |r: int| f0 + (r - r0);
    let down = |r: int| f0 - (r - r0);
    let on_rising = |r: int| 1 <= r <= 6 && r != r0 && 1 <= f0 + (r - r0) <= 6;
    let on_falling = |r: int| 1 <= r <= 6 && r != r0 && 1 <= f0 - (r - r0) <= 6;
    assert forall|sq: int| 0 <= sq < 64 implies (#[trigger] rising_at(sq) <==> on_rising(
        rank_of(sq),
    ) && file_of(sq) == up(rank_of(sq))) by {
        lemma_line_inner(from, 1, 1, sq);
        if on_rising(rank_of(sq)) && file_of(sq) == up(rank_of(sq)) {
            let k = rank_of(sq) - r0;
            assert(steps(k, 1) == k);
        }
    }
    assert forall|sq: int| 0 <= sq < 64 implies (#[trigger] falling_at(sq) <==> on_falling(
        rank_of(sq),
    ) && file_of(sq) == down(rank_of(sq))) by {
        lemma_line_inner(from, 1, -1, sq);
        if on_falling(rank_of(sq)) && file_of(sq) == down(rank_of(sq)) {
            let k = rank_of(sq) - r0;
            assert(steps(k, 1) == k && steps(k, -1) == -k);
        }
    }
    assert forall|sq: int| !(holds(rising, sq) && holds(falling, sq)) by {
        if holds(rising, sq) && holds(falling, sq) {
            assert(rising_at(sq) && falling_at(sq));
        }
    }
    lemma_count_below_disjoint_or(rising, falling, 64);
    lemma_count_below_is_count_true(rising, rising_at, 64);
    lemma_count_below_is_count_true(falling, falling_at, 64);
    lemma_count_by_rank(rising_at, on_rising, up, 64);
    lemma_count_by_rank(falling_at, on_falling, down, 64);
    assert(count_true(on_rising, 8) + count_true(on_falling, 8) == bishop_bits_of(from)) by {
        reveal_with_fuel(count_true, 9);
    }
}

/// The relevant-occupancy mask of a rook on `square`: the squares of its
/// four rays, without the last square of each.
pub fn rook_mask(square: u64) -> (mask: u64)
    requires
        square < 64,
    ensures
        mask == rook_mask_of(square as int),
        forall|to: int| holds(mask, to) <==> rook_relevant(square as int, to),
        popcount(mask) == rook_bits_of(square as int),
        !holds(mask, square as int),
{
    proof {
        lemma_rook_mask_size(square as int);
        lemma_masks_exclude_origin(square as int);
    }
    let north = ray_mask(square, 1, 0);
    let south = ray_mask(square, -1, 0);
    let east = ray_mask(square, 0, 1);
    let west = ray_mask(square, 0, -1);
    let mask = north | south | east | west;
    proof {
        assert forall|to: int| holds(mask, to) <==> rook_relevant(square as int, to) by {
            lemma_holds_or(north | south | east, west, to);
            lemma_holds_or(north | south, east, to);
            lemma_holds_or(north, south, to);
        }
        lemma_is_board_of(mask, |to: int| rook_relevant(square as int, to));
    }
    mask
}

/// The relevant-occupancy mask of a bishop on `square`.
pub fn bishop_mask(square: u64) -> (mask: u64)
    requires
        square < 64,
    ensures
        mask == bishop_mask_of(square as int),
        forall|to: int| holds(mask, to) <==> bishop_relevant(square as int, to),
        popcount(mask) == bishop_bits_of(square as int),
        !holds(mask, square as int),
{
    proof {
        lemma_bishop_mask_size(square as int);
        lemma_masks_exclude_origin(square as int);
    }
    let ne = ray_mask(square, 1, 1);
    let nw = ray_mask(square, 1, -1);
    let se = ray_mask(square, -1, 1);
    let sw = ray_mask(square, -1, -1);
    let mask = ne | nw | se | sw;
    proof {
        assert forall|to: int| holds(mask, to) <==> bishop_relevant(square as int, to) by {
            lemma_holds_or(ne | nw | se, sw, to);
            lemma_holds_or(ne | nw, se, to);
            lemma_holds_or(ne, nw, to);
        }
        lemma_is_board_of(mask, |to: int| bishop_relevant(square as int, to));
    }
    mask
}

/// The squares that a rook on `square` attacks when the pieces of either
/// colour stand on `block`.
pub fn rook_attacks(square: u64, block: u64) -> (attacks: u64)
    requires
        square < 64,
    ensures
        attacks == rook_attack_set(square as int, block),
        forall|to: int| holds(attacks, to) <==> rook_attacks_square(square as int, block, to),
{
    let north = ray_attacks(square, block, 1, 0);
    let south = ray_attacks(square, block, -1, 0);
    let east = ray_attacks(square, block, 0, 1);
    let west = ray_attacks(square, block, 0, -1);
    let attacks = north | south | east | west;
    proof {
        assert forall|to: int|
            holds(attacks, to) <==> rook_attacks_square(square as int, block, to) by {
            lemma_holds_or(north | south | east, west, to);
            lemma_holds_or(north | south, east, to);
            lemma_holds_or(north, south, to);
        }
        lemma_is_board_of(attacks, |to: int| rook_attacks_square(square as int, block, to));
    }
    attacks
}

/// The squares that a bishop on `square` attacks when the pieces of either
/// colour stand on `block`.
pub fn bishop_attacks(square: u64, block: u64) -> (attacks: u64)
    requires
        square < 64,
    ensures
        attacks == bishop_attack_set(square as int, block),
        forall|to: int| holds(attacks, to) <==> bishop_attacks_square(square as int, block, to),
{
    let ne = ray_attacks(square, block, 1, 1);
    let nw = ray_attacks(square, block, 1, -1);
    let se = ray_attacks(square, block, -1, 1);
    let sw = ray_attacks(square, block, -1, -1);
    let attacks = ne | nw | se | sw;
    proof {
        assert forall|to: int|
            holds(attacks, to) <==> bishop_attacks_square(square as int, block, to) by {
            lemma_holds_or(ne | nw | se, sw, to);
            lemma_holds_or(ne | nw, se, to);
            lemma_holds_or(ne, nw, to);
        }
        lemma_is_board_of(attacks, |to: int| bishop_attacks_square(square as int, block, to));
    }
    attacks
}

} // verus!
