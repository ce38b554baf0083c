//! Bitboards as sets of squares.
//!
//! Every contract in this crate speaks of a bitboard through [`holds`]: the
//! word `b` holds square `sq` when bit `sq` of `b` is set. The lemmas below
//! carry the bitwise operators over to that reading, so that the rest of
//! the crate reasons about squares with ordinary integer arithmetic.

use vstd::prelude::*;
use vstd::arithmetic::power2::pow2;
use vstd::bits::{lemma_u64_pow2_no_overflow, lemma_u64_shl_is_mul};
use vstd::std_specs::bits::{
    axiom_u64_leading_zeros,
    axiom_u64_trailing_zeros,
    u64_leading_zeros,
    u64_trailing_zeros,
};

verus! {

/// Whether the bitboard `b` holds the square `sq`.
pub open spec fn holds(b: u64, sq: int) -> bool {
    0 <= sq < 64 && (b >> (sq as u64)) & 1 == 1
}

/// The bitboard that holds `sq` and nothing else.
pub open spec fn single(sq: int) -> u64 {
    1u64 << (sq as u64)
}

/// `sub` is a subset of `sup`.
pub open spec fn subset_of(sub: u64, sup: u64) -> bool {
    sub & sup == sub
}

/// The empty board holds nothing.
pub proof fn lemma_holds_zero(sq: int)
    ensures
        !holds(0, sq),
{
    if 0 <= sq < 64 {
        let t = sq as u64;
        assert((0u64 >> t) & 1 == 0) by (bit_vector);
    }
}

/// A board of one square holds that square only.
pub proof fn lemma_holds_single(sq: int, t: int)
    requires
        0 <= sq < 64,
    ensures
        holds(single(sq), t) <==> t == sq,
{
    if 0 <= t < 64 {
        let s = sq as u64;
        let u = t as u64;
        assert(s < 64 && u < 64 ==> (((1u64 << s) >> u) & 1 == 1 <==> u == s)) by (bit_vector);
    }
}

/// A union holds what either part holds.
pub proof fn lemma_holds_or(a: u64, b: u64, sq: int)
    ensures
        holds(a | b, sq) <==> holds(a, sq) || holds(b, sq),
{
    if 0 <= sq < 64 {
        let t = sq as u64;
        assert((((a | b) >> t) & 1 == 1) <==> ((a >> t) & 1 == 1 || (b >> t) & 1 == 1))
            by (bit_vector);
    }
}

/// An intersection holds what both parts hold.
pub proof fn lemma_holds_and(a: u64, b: u64, sq: int)
    ensures
        holds(a & b, sq) <==> holds(a, sq) && holds(b, sq),
{
    if 0 <= sq < 64 {
        let t = sq as u64;
        assert((((a & b) >> t) & 1 == 1) <==> ((a >> t) & 1 == 1 && (b >> t) & 1 == 1))
            by (bit_vector);
    }
}

/// A left shift by `k` moves every square up by `k` and drops those that
/// leave the board.
pub proof fn lemma_holds_shl(a: u64, k: u64, sq: int)
    requires
        k < 64,
    ensures
        holds(a << k, sq) <==> k <= sq < 64 && holds(a, sq - k),
{
    if 0 <= sq < 64 {
        let t = sq as u64;
        if t >= k {
            let d = (t - k) as u64;
            assert(k < 64 && t < 64 && t >= k && d == t - k ==> ((((a << k) >> t) & 1 == 1) <==> (a
                >> d) & 1 == 1)) by (bit_vector);
        } else {
            assert(k < 64 && t < k ==> ((a << k) >> t) & 1 == 0) by (bit_vector);
        }
    }
}

/// A right shift by `k` moves every square down by `k` and drops those
/// that leave the board.
pub proof fn lemma_holds_shr(a: u64, k: u64, sq: int)
    requires
        k < 64,
    ensures
        holds(a >> k, sq) <==> 0 <= sq && sq + k < 64 && holds(a, sq + k),
{
    if 0 <= sq < 64 {
        let t = sq as u64;
        if t + k < 64 {
            let d = (t + k) as u64;
            assert(k < 64 && t < 64 && d < 64 && d == t + k ==> ((((a >> k) >> t) & 1 == 1) <==> (a
                >> d) & 1 == 1)) by (bit_vector);
        } else {
            assert(k < 64 && t < 64 && t + k >= 64 ==> ((a >> k) >> t) & 1 == 0) by (bit_vector);
        }
    }
}

/// What a board holds after one square is taken off it.
pub proof fn lemma_holds_without(a: u64, sq: int, t: int)
    requires
        0 <= sq < 64,
    ensures
        holds(a & !single(sq), t) <==> holds(a, t) && t != sq,
{
    if 0 <= t < 64 {
        let s = sq as u64;
        let u = t as u64;
        assert(s < 64 && u < 64 ==> ((((a & !(1u64 << s)) >> u) & 1 == 1) <==> ((a >> u) & 1 == 1
            && u != s))) by (bit_vector);
    }
}

/// Two bitboards that hold the same squares are the same word.
pub proof fn lemma_equal_by_squares(a: u64, b: u64)
    requires
        forall|sq: int| 0 <= sq < 64 ==> (holds(a, sq) <==> holds(b, sq)),
    ensures
        a == b,
{
    let x = a ^ b;
    if x != 0 {
        axiom_u64_trailing_zeros(x);
        let t = u64_trailing_zeros(x) as u64;
        assert(t < 64 && ((a ^ b) >> t) & 1 == 1 ==> ((a >> t) & 1 == 1) != ((b >> t) & 1 == 1))
            by (bit_vector);
        assert(holds(a, t as int) != holds(b, t as int));
    }
    assert(a ^ b == 0 ==> a == b) by (bit_vector);
}

/// A word whose squares all lie below `n` is smaller than `2^n`.
pub proof fn lemma_bounded_by_squares(a: u64, n: u64)
    requires
        n < 64,
        forall|sq: int| n <= sq < 64 ==> !holds(a, sq),
    ensures
        a < (1u64 << n),
{
    let hi = a >> n;
    assert forall|sq: int| 0 <= sq < 64 implies (holds(hi, sq) <==> holds(0, sq)) by {
        lemma_holds_shr(a, n, sq);
        lemma_holds_zero(sq);
    }
    lemma_equal_by_squares(hi, 0);
    assert(n < 64 && a >> n == 0 ==> a < (1u64 << n)) by (bit_vector);
}

/// A word smaller than `2^n` holds no square from `n` upwards.
pub proof fn lemma_squares_of_bounded(a: u64, n: u64, sq: int)
    requires
        n < 64,
        a < (1u64 << n),
        n <= sq,
    ensures
        !holds(a, sq),
{
    if sq < 64 {
        let t = sq as u64;
        assert(n < 64 && a < (1u64 << n) && n <= t && t < 64 ==> (a >> t) & 1 == 0)
            by (bit_vector);
    }
}

/// The bitboard of the squares below `n` that satisfy `p`.
pub open spec fn board_below(p: spec_fn(int) -> bool, n: int) -> u64
    decreases n,
{
    if n <= 0 {
        0
    } else {
        board_below(p, n - 1) | if p(n - 1) {
            single(n - 1)
        } else {
            0
        }
    }
}

/// The bitboard of the squares that satisfy `p`.
pub open spec fn board_of(p: spec_fn(int) -> bool) -> u64 {
    board_below(p, 64)
}

/// `board_below(p, n)` holds exactly the squares below `n` that satisfy
/// `p`.
pub proof fn lemma_board_below(p: spec_fn(int) -> bool, n: int, sq: int)
    requires
        n <= 64,
    ensures
        holds(board_below(p, n), sq) <==> 0 <= sq < n && p(sq),
    decreases n,
{
    if n <= 0 {
        lemma_holds_zero(sq);
    } else {
        lemma_board_below(p, n - 1, sq);
        let last = if p(n - 1) {
            single(n - 1)
        } else {
            0
        };
        lemma_holds_or(board_below(p, n - 1), last, sq);
        lemma_holds_zero(sq);
        lemma_holds_single(n - 1, sq);
    }
}

/// `board_of(p)` holds exactly the squares of the board that satisfy `p`.
pub proof fn lemma_board_of(p: spec_fn(int) -> bool)
    ensures
        forall|sq: int| holds(board_of(p), sq) <==> 0 <= sq < 64 && p(sq),
{
    assert forall|sq: int| holds(board_of(p), sq) <==> 0 <= sq < 64 && p(sq) by {
        lemma_board_below(p, 64, sq);
    }
}

/// A bitboard that holds exactly the squares that satisfy `p` is
/// `board_of(p)`.
pub proof fn lemma_is_board_of(b: u64, p: spec_fn(int) -> bool)
    requires
        forall|sq: int| 0 <= sq < 64 ==> (holds(b, sq) <==> p(sq)),
    ensures
        b == board_of(p),
{
    lemma_board_of(p);
    lemma_equal_by_squares(b, board_of(p));
}

/// `1 << n` is the `n`-th power of two.
pub proof fn lemma_shl_one_is_pow2(n: u64)
    requires
        n < 64,
    ensures
        (1u64 << n) == pow2(n as nat),
{
    lemma_u64_pow2_no_overflow(n as nat);
    lemma_u64_shl_is_mul(1, n);
}

/// The word just below `2^n` holds exactly the squares below `n`.
pub proof fn lemma_holds_low_squares(n: u64, sq: int)
    requires
        n < 64,
    ensures
        holds(((1u64 << n) - 1) as u64, sq) <==> 0 <= sq < n,
{
    if 0 <= sq < 64 {
        let t = sq as u64;
        assert(n < 64 && t < 64 ==> (((((1u64 << n) - 1) as u64 >> t) & 1 == 1) <==> t < n))
            by (bit_vector);
    }
}

/// How many squares below `n` the bitboard `b` holds.
pub open spec fn count_below(b: u64, n: int) -> nat
    decreases n,
{
    if n <= 0 {
        0
    } else {
        count_below(b, n - 1) + if holds(b, n - 1) {
            1nat
        } else {
            0nat
        }
    }
}

/// The number of squares that `b` holds.
pub open spec fn popcount(b: u64) -> nat {
    count_below(b, 64)
}

/// Below `n` there are at most `n` squares.
pub proof fn lemma_count_below_bounds(b: u64, n: int)
    requires
        0 <= n,
    ensures
        count_below(b, n) <= n,
    decreases n,
{
    if n > 0 {
        lemma_count_below_bounds(b, n - 1);
    }
}

/// The count does not shrink as the bound grows.
pub proof fn lemma_count_below_monotonic(b: u64, m: int, n: int)
    requires
        m <= n,
    ensures
        count_below(b, m) <= count_below(b, n),
    decreases n - m,
{
    if m < n {
        lemma_count_below_monotonic(b, m, n - 1);
    }
}

/// A square of `b` is counted by every bound above it.
pub proof fn lemma_count_below_strict(b: u64, sq: int, n: int)
    requires
        holds(b, sq),
        sq < n,
    ensures
        count_below(b, sq) < count_below(b, n),
{
    lemma_count_below_monotonic(b, sq + 1, n);
}

/// The empty board holds no square.
pub proof fn lemma_popcount_zero()
    ensures
        popcount(0) == 0,
{
    assert forall|sq: int| holds(0, sq) implies 0 <= sq < 0 by {
        lemma_holds_zero(sq);
    }
    lemma_count_below_interval(0, 0, 0, 64);
}

/// A board whose squares all lie in `lo..hi` holds at most `hi - lo`
/// squares.
pub proof fn lemma_count_below_interval(b: u64, lo: int, hi: int, n: int)
    requires
        lo <= hi,
        forall|sq: int| holds(b, sq) ==> lo <= sq < hi,
    ensures
        count_below(b, n) <= if n <= lo {
            0
        } else if n >= hi {
            hi - lo
        } else {
            n - lo
        },
    decreases n,
{
    if n > 0 {
        lemma_count_below_interval(b, lo, hi, n - 1);
    }
}

/// How many numbers from 0 up to `n`, without `n`, satisfy `p`.
pub open spec fn count_true(p: spec_fn(int) -> bool, n: int) -> nat
    decreases n,
{
    if n <= 0 {
        0
    } else {
        count_true(p, n - 1) + if p(n - 1) {
            1nat
        } else {
            0nat
        }
    }
}

/// A board that holds exactly the squares that satisfy `p` holds as many
/// squares as satisfy `p`.
pub proof fn lemma_count_below_is_count_true(b: u64, p: spec_fn(int) -> bool, n: int)
    requires
        n <= 64,
        forall|sq: int| 0 <= sq < 64 ==> (holds(b, sq) <==> p(sq)),
    ensures
        count_below(b, n) == count_true(p, n),
    decreases n,
{
    if n > 0 {
        lemma_count_below_is_count_true(b, p, n - 1);
    }
}

/// A union of two boards without a common square holds as many squares as
/// its two parts together.
pub proof fn lemma_count_below_disjoint_or(a: u64, b: u64, n: int)
    requires
        forall|sq: int| !(holds(a, sq) && holds(b, sq)),
    ensures
        count_below(a | b, n) == count_below(a, n) + count_below(b, n),
    decreases n,
{
    if n > 0 {
        lemma_count_below_disjoint_or(a, b, n - 1);
        lemma_holds_or(a, b, n - 1);
    }
}

/// `u64::count_ones` returns the number of one bits of its argument, which
/// is the number of squares that the word holds.
pub assume_specification[ u64::count_ones ](i: u64) -> (r: u32)
    ensures
        r == popcount(i),
;

/// Population count of a bitboard.
pub fn count_1s(bb: u64) -> (n: u64)
    ensures
        n == popcount(bb),
        n <= 64,
{
    proof {
        lemma_count_below_bounds(bb, 64);
    }
    bb.count_ones() as u64
}

/// Index of the lowest square of `bb`, or 64 for the empty board.
pub fn bitscan_forwards(bb: u64) -> (sq: u64)
    ensures
        sq == u64_trailing_zeros(bb),
        bb == 0 <==> sq == 64,
        bb != 0 ==> holds(bb, sq as int),
        forall|t: int| 0 <= t < sq ==> !holds(bb, t),
{
    proof {
        axiom_u64_trailing_zeros(bb);
        assert forall|t: int| 0 <= t < u64_trailing_zeros(bb) implies !holds(bb, t) by {
            let j = t as u64;
            assert((bb >> j) & 1u64 == 0u64);
        }
    }
    bb.trailing_zeros() as u64
}

/// Number of empty squares above the highest square of `bb`, or 64 for the
/// empty board.
pub fn bitscan_backwards(bb: &u64) -> (n: u64)
    ensures
        n == u64_leading_zeros(*bb),
        *bb == 0 <==> n == 64,
        *bb != 0 ==> holds(*bb, 63 - n),
        forall|t: int| 64 - n <= t < 64 ==> !holds(*bb, t),
{
    proof {
        axiom_u64_leading_zeros(*bb);
        let b = *bb;
        let z = u64_leading_zeros(b);
        if b != 0 {
            let t = (63 - z) as u64;
            assert((b >> t) & 1u64 != 0 ==> (b >> t) & 1u64 == 1) by (bit_vector);
        }
        assert forall|t: int| 64 - z <= t < 64 implies !holds(b, t) by {
            let j = t as u64;
            assert((b >> j) & 1u64 == 0u64);
        }
    }
    bb.leading_zeros() as u64
}

/// The board without its lowest square.
pub fn bitscan_forwards_with_reset(bb: u64) -> (rest: u64)
    requires
        bb != 0,
    ensures
        rest == bb & ((bb - 1) as u64),
        forall|t: int| holds(rest, t) <==> holds(bb, t) && t != u64_trailing_zeros(bb),
{
    let rest = bb & (bb - 1);
    proof {
        axiom_u64_trailing_zeros(bb);
        let z = u64_trailing_zeros(bb) as u64;
        let up = (64 - z) as u64;
        assert forall|t: int| holds(rest, t) <==> holds(bb, t) && t != z by {
            if 0 <= t < 64 {
                let j = t as u64;
                assert(bb != 0 && z < 64 && j < 64 && up == 64 - z && (bb >> z) & 1 == 1 && bb << up
                    == 0 ==> ((((bb & ((bb - 1) as u64)) >> j) & 1 == 1) <==> ((bb >> j) & 1 == 1
                    && j != z))) by (bit_vector);
            }
        }
    }
    rest
}

} // verus!
