//! Enumeration of the occupancies of a mask.
//!
//! An index `i` selects a subset of a mask bit by bit: bit `j` of `i`
//! decides whether the `j`-th square of the mask, counted from the lowest,
//! belongs to the subset. Over the indices below `2^n`, where `n` is the
//! number of squares of the mask, this reaches every subset exactly once.

use vstd::prelude::*;
use vstd::arithmetic::power2::{lemma2_to64, lemma_pow2_strictly_increases, pow2};
use crate::bits::{
    board_of,
    count_1s,
    count_below,
    holds,
    lemma_board_of,
    lemma_bounded_by_squares,
    lemma_count_below_bounds,
    lemma_count_below_strict,
    lemma_equal_by_squares,
    lemma_holds_and,
    lemma_holds_low_squares,
    lemma_holds_or,
    lemma_holds_single,
    lemma_holds_zero,
    lemma_is_board_of,
    lemma_shl_one_is_pow2,
    lemma_squares_of_bounded,
    popcount,
    subset_of,
};
use crate::geometry::{bishop_bits_of, bishop_mask_of, rook_bits_of, rook_mask_of};
use crate::sliders::{bishop_mask, lemma_bishop_mask_size, lemma_rook_mask_size, rook_mask};

verus! {

/// The most squares that a mask may hold for its occupancies to be listed.
pub const MAX_MASK_SQUARES: u64 = 16;

/// Whether the occupancy selected by `index` holds `sq`: `sq` is a square
/// of the mask, fewer than `bits` squares of the mask lie below it, and
/// the bit of `index` at that count is set.
pub open spec fn selected(index: u64, bits: u64, mask: u64, sq: int) -> bool {
    &&& holds(mask, sq)
    &&& count_below(mask, sq) < bits
    &&& holds(index, count_below(mask, sq) as int)
}

/// The occupancy that `index` selects among the lowest `bits` squares of
/// `mask`.
pub open spec fn occupancy_of(index: u64, bits: u64, mask: u64) -> u64 {
    board_of(|sq: int| selected(index, bits, mask, sq))
}

/// The square of `mask` with exactly `j` squares of `mask` below it.
pub open spec fn nth_square(mask: u64, j: int) -> int {
    choose|sq: int| holds(mask, sq) && count_below(mask, sq) == j
}

/// The index that selects `occ` among the squares of `mask`.
pub open spec fn index_of(occ: u64, mask: u64) -> u64 {
    board_of(|j: int| j < popcount(mask) && holds(occ, nth_square(mask, j)))
}

proof fn lemma_nth_square_below(mask: u64, j: int, n: int)
    requires
        0 <= n <= 64,
        0 <= j < count_below(mask, n),
    ensures
        exists|sq: int| holds(mask, sq) && count_below(mask, sq) == j,
    decreases n,
{
    if n > 0 {
        if j < count_below(mask, n - 1) {
            lemma_nth_square_below(mask, j, n - 1);
        } else {
            assert(holds(mask, n - 1) && count_below(mask, n - 1) == j);
        }
    }
}

/// A mask has a `j`-th square for every `j` below its number of squares.
pub proof fn lemma_nth_square(mask: u64, j: int)
    requires
        0 <= j < popcount(mask),
    ensures
        holds(mask, nth_square(mask, j)),
        count_below(mask, nth_square(mask, j)) == j,
{
    lemma_nth_square_below(mask, j, 64);
}

/// A square of the mask is the one at its own count.
pub proof fn lemma_nth_square_of_count(mask: u64, sq: int)
    requires
        holds(mask, sq),
    ensures
        count_below(mask, sq) < popcount(mask),
        nth_square(mask, count_below(mask, sq) as int) == sq,
{
    lemma_count_below_strict(mask, sq, 64);
    let j = count_below(mask, sq) as int;
    lemma_nth_square(mask, j);
    let other = nth_square(mask, j);
    if other < sq {
        lemma_count_below_strict(mask, other, sq);
    } else if sq < other {
        lemma_count_below_strict(mask, sq, other);
    }
}

/// The occupancy that an index selects is a subset of the mask.
pub proof fn lemma_occupancy_within_mask(index: u64, bits: u64, mask: u64)
    ensures
        subset_of(occupancy_of(index, bits, mask), mask),
{
    let occ = occupancy_of(index, bits, mask);
    lemma_board_of(|sq: int| selected(index, bits, mask, sq));
    assert forall|sq: int| 0 <= sq < 64 implies (holds(occ & mask, sq) <==> holds(occ, sq)) by {
        lemma_holds_and(occ, mask, sq);
    }
    lemma_equal_by_squares(occ & mask, occ);
}

/// Two different indices below `2^n` select different occupancies of a
/// mask with `n` squares.
pub proof fn lemma_occupancy_injective(a: u64, b: u64, mask: u64)
    requires
        a < pow2(popcount(mask)),
        b < pow2(popcount(mask)),
        a != b,
    ensures
        occupancy_of(a, popcount(mask) as u64, mask) != occupancy_of(
            b,
            popcount(mask) as u64,
            mask,
        ),
{
    let n = popcount(mask);
    lemma_count_below_bounds(mask, 64);
    if forall|j: int| 0 <= j < 64 ==> (holds(a, j) <==> holds(b, j)) {
        lemma_equal_by_squares(a, b);
    }
    let j = choose|j: int| 0 <= j < 64 && holds(a, j) != holds(b, j);
    if n < 64 {
        lemma_shl_one_is_pow2(n as u64);
        if j >= n {
            lemma_squares_of_bounded(a, n as u64, j);
            lemma_squares_of_bounded(b, n as u64, j);
        }
    }
    lemma_nth_square(mask, j);
    let sq = nth_square(mask, j);
    lemma_board_of(|sq: int| selected(a, n as u64, mask, sq));
    lemma_board_of(|sq: int| selected(b, n as u64, mask, sq));
    assert(holds(occupancy_of(a, n as u64, mask), sq) == holds(a, j));
    assert(holds(occupancy_of(b, n as u64, mask), sq) == holds(b, j));
}

/// Every subset of a mask with `n` squares is selected by an index below
/// `2^n`, namely by `index_of`.
pub proof fn lemma_occupancy_surjective(occ: u64, mask: u64)
    requires
        subset_of(occ, mask),
    ensures
        index_of(occ, mask) < pow2(popcount(mask)),
        occupancy_of(index_of(occ, mask), popcount(mask) as u64, mask) == occ,
{
    let n = popcount(mask);
    let index = index_of(occ, mask);
    lemma_count_below_bounds(mask, 64);
    lemma_board_of(|j: int| j < popcount(mask) && holds(occ, nth_square(mask, j)));
    if n < 64 {
        lemma_bounded_by_squares(index, n as u64);
        lemma_shl_one_is_pow2(n as u64);
    } else {
        lemma2_to64();
    }
    assert forall|sq: int| 0 <= sq < 64 implies (holds(occ, sq) <==> selected(
        index,
        n as u64,
        mask,
        sq,
    )) by {
        lemma_holds_and(occ, mask, sq);
        if holds(mask, sq) {
            lemma_nth_square_of_count(mask, sq);
        }
    }
    lemma_is_board_of(occ, |sq: int| selected(index, n as u64, mask, sq));
}

/// The index 0 selects the empty occupancy.
pub proof fn lemma_occupancy_of_zero(bits: u64, mask: u64)
    ensures
        occupancy_of(0, bits, mask) == 0,
{
    assert forall|sq: int| 0 <= sq < 64 implies (holds(0, sq) <==> selected(0, bits, mask, sq)) by {
        lemma_holds_zero(sq);
        lemma_holds_zero(count_below(mask, sq) as int);
    }
    lemma_is_board_of(0, |sq: int| selected(0, bits, mask, sq));
}

/// The last index below `2^n` selects the whole mask.
pub proof fn lemma_occupancy_of_last(mask: u64)
    requires
        popcount(mask) < 64,
    ensures
        pow2(popcount(mask)) - 1 == ((1u64 << (popcount(mask) as u64)) - 1) as u64,
        occupancy_of((pow2(popcount(mask)) - 1) as u64, popcount(mask) as u64, mask) == mask,
{
    let n = popcount(mask) as u64;
    lemma_shl_one_is_pow2(n);
    let last = ((1u64 << n) - 1) as u64;
    assert(1u64 << n >= 1) by (bit_vector)
        requires
            n < 64,
    ;
    assert forall|sq: int| 0 <= sq < 64 implies (holds(mask, sq) <==> selected(
        last,
        n,
        mask,
        sq,
    )) by {
        if holds(mask, sq) {
            lemma_count_below_strict(mask, sq, 64);
            lemma_holds_low_squares(n, count_below(mask, sq) as int);
        }
    }
    lemma_is_board_of(mask, |sq: int| selected(last, n, mask, sq));
}

/// The occupancy that `index` selects among the lowest `bits` squares of
/// `mask`: bit `j` of `index` decides over the `j`-th square of the mask.
pub fn index_to_u64(index: u64, bits: u64, mask: u64) -> (occupancy: u64)
    ensures
        occupancy == occupancy_of(index, bits, mask),
        forall|sq: int| holds(occupancy, sq) <==> selected(index, bits, mask, sq),
{
    let mut occupancy: u64 = 0;
    let mut count: u64 = 0;
    let mut sq: u64 = 0;
    proof {
        assert forall|t: int| holds(occupancy, t) <==> t < 0 && selected(index, bits, mask, t) by {
            lemma_holds_zero(t);
        }
    }
    while sq < 64
        invariant
            sq <= 64,
            count == count_below(mask, sq as int),
            count <= sq,
            forall|t: int| holds(occupancy, t) <==> t < sq && selected(index, bits, mask, t),
        decreases 64 - sq,
    {
        let ghost before = occupancy;
        let ghost taken = false;
        if (mask >> sq) & 1 == 1 {
            if count < bits && (index >> count) & 1 == 1 {
                occupancy = occupancy | (1u64 << sq);
                proof {
                    taken = true;
                }
            }
            count = count + 1;
        }
        proof {
            assert forall|t: int|
                holds(occupancy, t) <==> t < sq + 1 && selected(index, bits, mask, t) by {
                lemma_holds_single(sq as int, t);
                if taken {
                    lemma_holds_or(before, 1u64 << sq, t);
                }
            }
        }
        sq = sq + 1;
    }
    proof {
        lemma_is_board_of(occupancy, |sq: int| selected(index, bits, mask, sq));
    }
    occupancy
}

/// Every occupancy of `mask`, each once: entry `i` is the occupancy that
/// `i` selects. The first is empty and the last is the mask itself.
pub fn enumerate_occupancies(mask: u64) -> (all: Vec<u64>)
    requires
        popcount(mask) <= MAX_MASK_SQUARES,
    ensures
        all.len() == pow2(popcount(mask)),
        forall|i: int|
            0 <= i < all.len() ==> #[trigger] all[i] == occupancy_of(
                i as u64,
                popcount(mask) as u64,
                mask,
            ),
        forall|i: int| 0 <= i < all.len() ==> subset_of(#[trigger] all[i], mask),
        forall|i: int, j: int| 0 <= i < j < all.len() ==> all[i] != all[j],
        forall|occ: u64|
            subset_of(occ, mask) ==> 0 <= index_of(occ, mask) < all.len() && all[index_of(
                occ,
                mask,
            ) as int] == occ,
        all[0] == 0,
        all[all.len() - 1] == mask,
{
    let bits = count_1s(mask);
    let total: u64 = 1u64 << bits;
    proof {
        lemma_shl_one_is_pow2(bits);
        lemma2_to64();
        if bits < 16 {
            lemma_pow2_strictly_increases(bits as nat, 16);
        }
    }
    let mut all: Vec<u64> = Vec::new();
    let mut index: u64 = 0;
    while index < total
        invariant
            bits == popcount(mask),
            total == pow2(bits as nat),
            total <= 0x10000,
            index <= total,
            all.len() == index,
            forall|i: int|
                0 <= i < all.len() ==> #[trigger] all[i] == occupancy_of(i as u64, bits, mask),
        decreases total - index,
    {
        let occupancy = index_to_u64(index, bits, mask);
        all.push(occupancy);
        index = index + 1;
    }
    proof {
        assert forall|i: int| 0 <= i < all.len() implies subset_of(#[trigger] all[i], mask) by {
            lemma_occupancy_within_mask(i as u64, bits, mask);
        }
        assert forall|i: int, j: int| 0 <= i < j < all.len() implies all[i] != all[j] by {
            lemma_occupancy_injective(i as u64, j as u64, mask);
        }
        assert forall|occ: u64| subset_of(occ, mask) implies 0 <= index_of(occ, mask) < all.len()
            && all[index_of(occ, mask) as int] == occ by {
            lemma_occupancy_surjective(occ, mask);
        }
        lemma_occupancy_of_zero(bits, mask);
        lemma_occupancy_of_last(mask);
    }
    all
}


/// Every occupancy of the rook's mask on `square`, each once.
pub fn generate_rook_occupancy_masks(square: u64) -> (all: Vec<u64>)
    requires
        square < 64,
    ensures
        all.len() == pow2(rook_bits_of(square as int) as nat),
        all.len() == pow2(popcount(rook_mask_of(square as int))),
        forall|i: int|
            0 <= i < all.len() ==> #[trigger] all[i] == occupancy_of(
                i as u64,
                popcount(rook_mask_of(square as int)) as u64,
                rook_mask_of(square as int),
            ),
        forall|i: int, j: int| 0 <= i < j < all.len() ==> all[i] != all[j],
        forall|occ: u64|
            subset_of(occ, rook_mask_of(square as int)) ==> 0 <= index_of(
                occ,
                rook_mask_of(square as int),
            ) < all.len() && all[index_of(occ, rook_mask_of(square as int)) as int] == occ,
{
    proof {
        lemma_rook_mask_size(square as int);
    }
    enumerate_occupancies(rook_mask(square))
}

/// Every occupancy of the bishop's mask on `square`, each once.
pub fn generate_bishop_occupancy_masks(square: u64) -> (all: Vec<u64>)
    requires
        square < 64,
    ensures
        all.len() == pow2(bishop_bits_of(square as int) as nat),
        all.len() == pow2(popcount(bishop_mask_of(square as int))),
        forall|i: int|
            0 <= i < all.len() ==> #[trigger] all[i] == occupancy_of(
                i as u64,
                popcount(bishop_mask_of(square as int)) as u64,
                bishop_mask_of(square as int),
            ),
        forall|i: int, j: int| 0 <= i < j < all.len() ==> all[i] != all[j],
        forall|occ: u64|
            subset_of(occ, bishop_mask_of(square as int)) ==> 0 <= index_of(
                occ,
                bishop_mask_of(square as int),
            ) < all.len() && all[index_of(occ, bishop_mask_of(square as int)) as int] == occ,
{
    proof {
        lemma_bishop_mask_size(square as int);
    }
    enumerate_occupancies(bishop_mask(square))
}

} // verus!
