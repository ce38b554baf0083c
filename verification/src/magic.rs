//! The search for magic multipliers.
//!
//! For one square and one sliding piece, a magic is a 64-bit multiplier
//! that sends every occupancy of the piece's mask to a slot of a small
//! table, such that two occupancies share a slot only when the piece
//! attacks the same squares under both. Candidates are drawn from a seeded
//! generator and each is checked against every occupancy of the mask; the
//! table that a successful check has filled is the square's attack table.

use vstd::prelude::*;
use vstd::arithmetic::power2::{lemma2_to64, lemma_pow2_strictly_increases, pow2};
use vstd::wrapping::u64_specs::wrapping_mul;
use rand::{Rng, SeedableRng};
use rand_xoshiro::Xoshiro256PlusPlus;
use crate::bits::{count_1s, holds, lemma_popcount_zero, lemma_shl_one_is_pow2, popcount, subset_of};
use crate::errors::BuildError;
use crate::geometry::{bishop_attack_set, bishop_mask_of, rook_attack_set, rook_mask_of};
use crate::occupancy::{enumerate_occupancies, index_of, MAX_MASK_SQUARES};
use crate::sliders::{
    bishop_attacks,
    bishop_mask,
    lemma_bishop_mask_size,
    lemma_bishop_mask_suffices,
    lemma_masks_exclude_origin,
    lemma_rook_mask_size,
    lemma_rook_mask_suffices,
    rook_attacks,
    rook_mask,
};

verus! {

/// The widest table index that a search accepts.
pub const MAX_INDEX_BITS: u64 = 16;

/// The attempt budget of a search that is given none.
pub const DEFAULT_ATTEMPTS: u64 = 1_000_000_000_000;

/// The fewest bits that the top byte of `mask * magic` must hold for the
/// candidate to be checked at all.
pub const MIN_TOP_BITS: u64 = 6;

/// The top byte of a 64-bit word.
pub const TOP_BYTE: u64 = 0xFF00000000000000;

/// `rand_xoshiro::Xoshiro256PlusPlus`, the generator of the candidates. A
/// value of it is a state of the generator; nothing is known of what a
/// state holds.
#[verifier::external_type_specification]
#[verifier::external_body]
pub struct ExXoshiro256PlusPlus(rand_xoshiro::Xoshiro256PlusPlus);

/// The state in which `Xoshiro256PlusPlus::seed_from_u64` leaves a new
/// generator.
pub uninterp spec fn seeded_state(seed: u64) -> Xoshiro256PlusPlus;

/// The word that a generator in the state `state` yields next.
pub uninterp spec fn word_of(state: Xoshiro256PlusPlus) -> u64;

/// The state of a generator after it has yielded one word from `state`.
pub uninterp spec fn state_after(state: Xoshiro256PlusPlus) -> Xoshiro256PlusPlus;

/// `Xoshiro256PlusPlus::seed_from_u64`: a generator seeded with `seed`. It
/// computes the state from the seed alone, with wrapping integer
/// arithmetic: the same seed gives the same state.
#[verifier::external_body]
fn seeded_generator(seed: u64) -> (rng: Xoshiro256PlusPlus)
    ensures
        rng == seeded_state(seed),
{
    Xoshiro256PlusPlus::seed_from_u64(seed)
}

/// `Rng::gen::<u64>` on the seeded generator, which is its `next_u64`: the
/// next 64-bit word. The word and the state that is left are computed from
/// the state alone.
#[verifier::external_body]
fn next_word(rng: &mut Xoshiro256PlusPlus) -> (word: u64)
    ensures
        word == word_of(*old(rng)),
        *final(rng) == state_after(*old(rng)),
{
    rng.gen::<u64>()
}

/// `rand::random::<u64>`: a 64-bit word from the thread's generator.
/// Nothing is claimed of the word. The thread's generator is seeded from
/// the operating system when it is first used, and seeded again after every
/// 64 KiB that it has yielded and after a fork of the process; the call
/// panics if the system has no entropy to give at one of these times.
#[verifier::external_body]
fn thread_word() -> (word: u64) {
    rand::random::<u64>()
}

/// The state of a generator after it has yielded `n` words from `state`.
pub open spec fn state_after_words(state: Xoshiro256PlusPlus, n: nat) -> Xoshiro256PlusPlus
    decreases n,
{
    if n == 0 {
        state
    } else {
        state_after(state_after_words(state, (n - 1) as nat))
    }
}

/// Yielding `a` words and then `b` words is yielding `a + b` words.
pub proof fn lemma_state_after_words_adds(state: Xoshiro256PlusPlus, a: nat, b: nat)
    ensures
        state_after_words(state_after_words(state, a), b) == state_after_words(state, a + b),
    decreases b,
{
    if b > 0 {
        lemma_state_after_words_adds(state, a, (b - 1) as nat);
    }
}

/// The random word that a generator in the state `state` gives next: the
/// low 16 bits of each of its next four words, the first word lowest.
pub open spec fn magic_number_of(state: Xoshiro256PlusPlus) -> u64 {
    spliced(
        word_of(state),
        word_of(state_after_words(state, 1)),
        word_of(state_after_words(state, 2)),
        word_of(state_after_words(state, 3)),
    )
}

/// The candidate that a generator in the state `state` gives next: the
/// bits that its next three random words have in common.
pub open spec fn candidate_from(state: Xoshiro256PlusPlus) -> u64 {
    magic_number_of(state) & magic_number_of(state_after_words(state, 4)) & magic_number_of(
        state_after_words(state, 8),
    )
}

/// The number of words that a generator yields for one candidate.
pub open spec fn words_per_candidate() -> nat {
    12
}

/// The `k`-th candidate of a search that is seeded with `seed`, counted
/// from 0.
pub open spec fn candidate_of(seed: u64, k: nat) -> u64 {
    candidate_from(state_after_words(seeded_state(seed), k * words_per_candidate()))
}

/// The word made of the low 16 bits of each of four words, `w0` lowest.
pub open spec fn spliced(w0: u64, w1: u64, w2: u64, w3: u64) -> u64 {
    (w0 & 0xFFFF) | ((w1 & 0xFFFF) << 16) | ((w2 & 0xFFFF) << 32) | ((w3 & 0xFFFF) << 48)
}

/// Joins the low 16 bits of four words into one word: bit `t` of the
/// result is bit `t % 16` of word `t / 16`.
pub fn splice_words(w0: u64, w1: u64, w2: u64, w3: u64) -> (word: u64)
    ensures
        word == spliced(w0, w1, w2, w3),
        forall|t: int|
            0 <= t < 64 ==> (holds(word, t) <==> holds(
                if t < 16 {
                    w0
                } else if t < 32 {
                    w1
                } else if t < 48 {
                    w2
                } else {
                    w3
                },
                t % 16,
            )),
{
    let word = (w0 & 0xFFFF) | ((w1 & 0xFFFF) << 16) | ((w2 & 0xFFFF) << 32) | ((w3 & 0xFFFF)
        << 48);
    proof {
        assert forall|t: int| 0 <= t < 64 implies (holds(word, t) <==> holds(
            if t < 16 {
                w0
            } else if t < 32 {
                w1
            } else if t < 48 {
                w2
            } else {
                w3
            },
            t % 16,
        )) by {
            let u = t as u64;
            let v = (t % 16) as u64;
            let w = if t < 16 {
                w0
            } else if t < 32 {
                w1
            } else if t < 48 {
                w2
            } else {
                w3
            };
            assert(u < 64 && v == u % 16 && w == (if u < 16 {
                w0
            } else if u < 32 {
                w1
            } else if u < 48 {
                w2
            } else {
                w3
            }) ==> (((((w0 & 0xFFFF) | ((w1 & 0xFFFF) << 16) | ((w2 & 0xFFFF) << 32) | ((w3
                & 0xFFFF) << 48)) >> u) & 1 == 1) <==> ((w >> v) & 1 == 1))) by (bit_vector);
        }
    }
    word
}

/// A random 64-bit word from the thread's generator, joined from four
/// draws. Panics if the operating system has no entropy to give when the
/// generator is first seeded or when it is seeded again.
pub fn random_u64() -> u64 {
    let u1 = thread_word();
    let u2 = thread_word();
    let u3 = thread_word();
    let u4 = thread_word();
    splice_words(u1, u2, u3, u4)
}

/// A random word with few bits set: three random words and-ed together.
/// Panics if the operating system has no entropy to give when the thread's
/// generator is first seeded or when it is seeded again.
pub fn random_u64_few_bits() -> u64 {
    common_bits(random_u64(), random_u64(), random_u64())
}

/// The next random 64-bit word of a seeded generator, joined from four
/// draws.
fn random_magic_number(rng: &mut Xoshiro256PlusPlus) -> (word: u64)
    ensures
        word == magic_number_of(*old(rng)),
        *final(rng) == state_after_words(*old(rng), 4),
{
    proof {
        reveal_with_fuel(state_after_words, 5);
    }
    let u1 = next_word(rng);
    let u2 = next_word(rng);
    let u3 = next_word(rng);
    let u4 = next_word(rng);
    splice_words(u1, u2, u3, u4)
}

/// The next candidate multiplier: three random words and-ed together, so
/// that few of its bits are set.
fn sparse_candidate(rng: &mut Xoshiro256PlusPlus) -> (candidate: u64)
    ensures
        candidate == candidate_from(*old(rng)),
        *final(rng) == state_after_words(*old(rng), words_per_candidate()),
{
    proof {
        lemma_state_after_words_adds(*rng, 4, 4);
        lemma_state_after_words_adds(*rng, 8, 4);
    }
    let a = random_magic_number(rng);
    let b = random_magic_number(rng);
    let c = random_magic_number(rng);
    common_bits(a, b, c)
}

/// The bits that three words have in common: bit `t` of the result is set
/// exactly if it is set in each of the three.
pub fn common_bits(a: u64, b: u64, c: u64) -> (word: u64)
    ensures
        word == a & b & c,
        forall|t: int| holds(word, t) <==> holds(a, t) && holds(b, t) && holds(c, t),
{
    let word = a & b & c;
    proof {
        assert forall|t: int| holds(word, t) <==> holds(a, t) && holds(b, t) && holds(c, t) by {
            crate::bits::lemma_holds_and(a & b, c, t);
            crate::bits::lemma_holds_and(a, b, t);
        }
    }
    word
}

/// The table slot of an occupancy: the top `bits` bits of the product of
/// occupancy and magic, taken modulo `2^64`.
pub open spec fn transform_of(occupancy: u64, magic: u64, bits: u64) -> u64 {
    wrapping_mul(occupancy, magic) >> ((64 - bits) as u64)
}

/// A slot lies below `2^bits`.
pub proof fn lemma_transform_in_range(occupancy: u64, magic: u64, bits: u64)
    requires
        1 <= bits < 64,
    ensures
        transform_of(occupancy, magic, bits) < pow2(bits as nat),
{
    let product = wrapping_mul(occupancy, magic);
    let shift = (64 - bits) as u64;
    assert(1 <= bits < 64 && shift == 64 - bits ==> (product >> shift) < (1u64 << bits))
        by (bit_vector);
    lemma_shl_one_is_pow2(bits);
}

/// The table slot of `occupancy` under `magic`, for a table of `2^bits`
/// slots.
pub fn transform(occupancy: u64, magic: u64, bits: u64) -> (slot: u64)
    requires
        1 <= bits <= 64,
    ensures
        slot == transform_of(occupancy, magic, bits),
        bits < 64 ==> slot < pow2(bits as nat),
{
    proof {
        if bits < 64 {
            lemma_transform_in_range(occupancy, magic, bits);
        }
    }
    occupancy.wrapping_mul(magic) >> (64 - bits)
}

/// A candidate is worth checking when the top byte of `mask * magic`,
/// taken modulo `2^64`, holds at least `MIN_TOP_BITS` bits.
pub open spec fn is_promising(mask: u64, magic: u64) -> bool {
    popcount(wrapping_mul(mask, magic) & TOP_BYTE) >= MIN_TOP_BITS
}

/// Whether a candidate is worth checking.
pub fn promising(mask: u64, magic: u64) -> (yes: bool)
    ensures
        yes <==> is_promising(mask, magic),
{
    count_1s(mask.wrapping_mul(magic) & TOP_BYTE) >= MIN_TOP_BITS
}

/// No two of the occupancies share a slot unless their attack sets are
/// equal.
pub open spec fn collision_free(
    occupancies: Seq<u64>,
    attacks: Seq<u64>,
    magic: u64,
    bits: u64,
) -> bool {
    forall|i: int, j: int|
        0 <= i < occupancies.len() && 0 <= j < occupancies.len() && transform_of(
            #[trigger] occupancies[i],
            magic,
            bits,
        ) == transform_of(#[trigger] occupancies[j], magic, bits) ==> attacks[i] == attacks[j]
}

/// One of the first `upto` occupancies is sent to `slot`.
pub open spec fn slot_used(
    occupancies: Seq<u64>,
    magic: u64,
    bits: u64,
    slot: int,
    upto: int,
) -> bool {
    exists|j: int|
        0 <= j < upto && j < occupancies.len() && transform_of(
            #[trigger] occupancies[j],
            magic,
            bits,
        ) == slot
}

/// The number of slots of a table indexed by `bits` bits.
fn table_len(bits: u64) -> (len: usize)
    requires
        1 <= bits <= MAX_INDEX_BITS,
    ensures
        len == pow2(bits as nat),
        len <= 0x10000,
{
    proof {
        lemma_shl_one_is_pow2(bits);
        lemma2_to64();
        if bits < 16 {
            lemma_pow2_strictly_increases(bits as nat, 16);
        }
    }
    (1u64 << bits) as usize
}

/// Checks one candidate against every occupancy, in a table that earlier
/// checks have written to. A slot counts as filled by this check when its
/// stamp is `epoch`.
fn probe_magic(
    occupancies: &Vec<u64>,
    attacks: &Vec<u64>,
    magic: u64,
    bits: u64,
    table: &mut Vec<u64>,
    stamps: &mut Vec<u64>,
    epoch: u64,
) -> (ok: bool)
    requires
        occupancies.len() == attacks.len(),
        1 <= bits <= MAX_INDEX_BITS,
        old(table).len() == pow2(bits as nat),
        old(stamps).len() == pow2(bits as nat),
        forall|s: int| 0 <= s < old(stamps).len() ==> old(stamps)[s] < epoch,
    ensures
        final(table).len() == old(table).len(),
        final(stamps).len() == old(stamps).len(),
        forall|s: int| 0 <= s < final(stamps).len() ==> final(stamps)[s] <= epoch,
        ok <==> collision_free(occupancies@, attacks@, magic, bits),
        ok ==> forall|i: int|
            0 <= i < occupancies.len() ==> final(stamps)[transform_of(
                #[trigger] occupancies[i],
                magic,
                bits,
            ) as int] == epoch && final(table)[transform_of(occupancies[i], magic, bits) as int]
                == attacks[i],
        ok ==> forall|s: int|
            0 <= s < final(stamps).len() && #[trigger] final(stamps)[s] == epoch ==> slot_used(
                occupancies@,
                magic,
                bits,
                s,
                occupancies.len() as int,
            ),
{
    let mut i: usize = 0;
    proof {
        assert forall|k: int| 0 <= k < occupancies.len() implies transform_of(
            #[trigger] occupancies[k],
            magic,
            bits,
        ) < pow2(bits as nat) by {
            lemma_transform_in_range(occupancies[k], magic, bits);
        }
    }
    while i < occupancies.len()
        invariant
            occupancies.len() == attacks.len(),
            1 <= bits <= MAX_INDEX_BITS,
            forall|k: int|
                0 <= k < occupancies.len() ==> transform_of(
                    #[trigger] occupancies[k],
                    magic,
                    bits,
                ) < pow2(bits as nat),
            i <= occupancies.len(),
            table.len() == pow2(bits as nat),
            stamps.len() == pow2(bits as nat),
            table.len() == old(table).len(),
            stamps.len() == old(stamps).len(),
            forall|s: int| 0 <= s < stamps.len() ==> stamps[s] <= epoch,
            forall|k: int|
                0 <= k < i ==> stamps[transform_of(#[trigger] occupancies[k], magic, bits) as int]
                    == epoch && table[transform_of(occupancies[k], magic, bits) as int]
                    == attacks[k],
            forall|s: int|
                0 <= s < stamps.len() && #[trigger] stamps[s] == epoch ==> slot_used(
                    occupancies@,
                    magic,
                    bits,
                    s,
                    i as int,
                ),
        decreases occupancies.len() - i,
    {
        let slot = transform(occupancies[i], magic, bits) as usize;
        if stamps[slot] != epoch {
            proof {
                assert forall|k: int| 0 <= k < i implies transform_of(
                    #[trigger] occupancies[k],
                    magic,
                    bits,
                ) != slot by {}
            }
            stamps.set(slot, epoch);
            table.set(slot, attacks[i]);
            proof {
                assert forall|s: int|
                    0 <= s < stamps.len() && #[trigger] stamps[s] == epoch implies slot_used(
                    occupancies@,
                    magic,
                    bits,
                    s,
                    i + 1,
                ) by {
                    if s == slot {
                        assert(transform_of(occupancies[i as int], magic, bits) == slot);
                    } else {
                        assert(slot_used(occupancies@, magic, bits, s, i as int));
                    }
                }
            }
        } else if table[slot] != attacks[i] {
            proof {
                assert(slot_used(occupancies@, magic, bits, slot as int, i as int));
                let k = choose|k: int|
                    0 <= k < i && k < occupancies.len() && transform_of(
                        #[trigger] occupancies[k],
                        magic,
                        bits,
                    ) == slot;
                assert(transform_of(occupancies[i as int], magic, bits) == transform_of(
                    occupancies[k],
                    magic,
                    bits,
                ));
                assert(attacks[k] != attacks[i as int]);
            }
            return false;
        } else {
            proof {
                assert forall|s: int|
                    0 <= s < stamps.len() && #[trigger] stamps[s] == epoch implies slot_used(
                    occupancies@,
                    magic,
                    bits,
                    s,
                    i + 1,
                ) by {
                    assert(slot_used(occupancies@, magic, bits, s, i as int));
                }
            }
        }
        i = i + 1;
    }
    true
}

/// Empties the slots that the last check has not filled.
fn clear_unfilled(table: &mut Vec<u64>, stamps: &Vec<u64>, epoch: u64)
    requires
        old(table).len() == stamps.len(),
    ensures
        final(table).len() == old(table).len(),
        forall|s: int|
            0 <= s < stamps.len() ==> final(table)[s] == if stamps[s] == epoch {
                old(table)[s]
            } else {
                0
            },
{
    let mut s: usize = 0;
    while s < table.len()
        invariant
            table.len() == stamps.len(),
            table.len() == old(table).len(),
            s <= table.len(),
            forall|t: int|
                0 <= t < s ==> table[t] == if stamps[t] == epoch {
                    old(table)[t]
                } else {
                    0
                },
            forall|t: int| s <= t < table.len() ==> table[t] == old(table)[t],
        decreases table.len() - s,
    {
        if stamps[s] != epoch {
            table.set(s, 0);
        }
        s = s + 1;
    }
}

/// What a filled table holds: the attack set of every occupancy in the
/// occupancy's slot, and nothing in the slots that no occupancy is sent to.
pub open spec fn table_filled(
    table: Seq<u64>,
    occupancies: Seq<u64>,
    attacks: Seq<u64>,
    magic: u64,
    bits: u64,
) -> bool {
    &&& table.len() == pow2(bits as nat)
    &&& forall|i: int|
        0 <= i < occupancies.len() ==> table[transform_of(
            #[trigger] occupancies[i],
            magic,
            bits,
        ) as int] == attacks[i]
    &&& forall|s: int|
        0 <= s < table.len() && !slot_used(occupancies, magic, bits, s, occupancies.len() as int)
            ==> #[trigger] table[s] == 0
}

/// Empties the slots that a successful check has not filled: the table
/// then holds every attack set in its slot and nothing else.
fn settle_table(
    occupancies: &Vec<u64>,
    attacks: &Vec<u64>,
    magic: u64,
    bits: u64,
    table: &mut Vec<u64>,
    stamps: &Vec<u64>,
    epoch: u64,
)
    requires
        occupancies.len() == attacks.len(),
        1 <= bits <= MAX_INDEX_BITS,
        old(table).len() == pow2(bits as nat),
        stamps.len() == pow2(bits as nat),
        forall|i: int|
            0 <= i < occupancies.len() ==> stamps[transform_of(
                #[trigger] occupancies[i],
                magic,
                bits,
            ) as int] == epoch && old(table)[transform_of(occupancies[i], magic, bits) as int]
                == attacks[i],
        forall|s: int|
            0 <= s < stamps.len() && #[trigger] stamps[s] == epoch ==> slot_used(
                occupancies@,
                magic,
                bits,
                s,
                occupancies.len() as int,
            ),
    ensures
        table_filled(final(table)@, occupancies@, attacks@, magic, bits),
{
    let ghost probed = table@;
    clear_unfilled(table, stamps, epoch);
    proof {
        assert forall|i: int| 0 <= i < occupancies.len() implies table[transform_of(
            #[trigger] occupancies[i],
            magic,
            bits,
        ) as int] == attacks[i] by {
            lemma_transform_in_range(occupancies[i], magic, bits);
            let slot = transform_of(occupancies[i], magic, bits) as int;
            assert(stamps[slot] == epoch);
            assert(probed[slot] == attacks[i]);
        }
        assert forall|s: int|
            0 <= s < table.len() && !slot_used(
                occupancies@,
                magic,
                bits,
                s,
                occupancies.len() as int,
            ) implies #[trigger] table[s] == 0 by {
            assert(stamps[s] != epoch);
        }
    }
}

/// Checks a multiplier against a list of occupancies and their attack
/// sets. Returns the filled table if no two occupancies with different
/// attack sets share a slot, and `None` if two do.
pub fn fill_table(occupancies: &Vec<u64>, attacks: &Vec<u64>, magic: u64, bits: u64) -> (filled:
    Option<Vec<u64>>)
    requires
        occupancies.len() == attacks.len(),
        1 <= bits <= MAX_INDEX_BITS,
    ensures
        filled is Some <==> collision_free(occupancies@, attacks@, magic, bits),
        filled matches Some(table) ==> table_filled(table@, occupancies@, attacks@, magic, bits),
{
    let len = table_len(bits);
    let mut table: Vec<u64> = vec![0u64; len];
    let mut stamps: Vec<u64> = vec![0u64; len];
    if probe_magic(occupancies, attacks, magic, bits, &mut table, &mut stamps, 1) {
        settle_table(occupancies, attacks, magic, bits, &mut table, &stamps, 1);
        Some(table)
    } else {
        None
    }
}

/// The relevant-occupancy mask of the piece on `from`.
pub open spec fn mask_of(is_bishop: bool, from: int) -> u64 {
    if is_bishop {
        bishop_mask_of(from)
    } else {
        rook_mask_of(from)
    }
}

/// The squares that the piece on `from` attacks under `occupancy`.
pub open spec fn attack_set(is_bishop: bool, from: int, occupancy: u64) -> u64 {
    if is_bishop {
        bishop_attack_set(from, occupancy)
    } else {
        rook_attack_set(from, occupancy)
    }
}

/// A mask that a search can work on: it holds a square, not the piece's
/// own, and no more squares than can be enumerated.
pub open spec fn mask_well_formed(square: u64, mask: u64) -> bool {
    &&& mask != 0
    &&& !holds(mask, square as int)
    &&& popcount(mask) <= MAX_MASK_SQUARES
}

/// `magic` is a magic for the piece on `square` with `bits` index bits: two
/// occupancies of the mask share a slot only if the attack sets are equal.
pub open spec fn is_magic(is_bishop: bool, square: int, magic: u64, bits: u64) -> bool {
    forall|a: u64, b: u64|
        #![trigger
            subset_of(a, mask_of(is_bishop, square)),
            subset_of(b, mask_of(is_bishop, square))
        ]
        subset_of(a, mask_of(is_bishop, square)) && subset_of(b, mask_of(is_bishop, square))
            && transform_of(a, magic, bits) == transform_of(b, magic, bits) ==> attack_set(
            is_bishop,
            square,
            a,
        ) == attack_set(is_bishop, square, b)
}

/// Accepts the masks that are well formed for `square`.
pub fn check_mask(square: u64, mask: u64) -> (checked: Result<(), BuildError>)
    ensures
        mask_well_formed(square, mask) ==> checked is Ok,
        !mask_well_formed(square, mask) ==> checked == Err::<(), BuildError>(
            (BuildError::MalformedMask { square }),
        ),
{
    if mask == 0 || (square < 64 && (mask >> square) & 1 == 1) || count_1s(mask)
        > MAX_MASK_SQUARES {
        Err(BuildError::MalformedMask { square })
    } else {
        Ok(())
    }
}

/// The magic of one square for one sliding piece, with the attack table
/// that it indexes.
#[derive(Debug, Clone, PartialEq, Eq)]
pub struct MagicEntry {
    /// The relevant-occupancy mask of the square.
    pub mask: u64,
    /// The multiplier.
    pub magic: u64,
    /// The number of index bits: the table has `2^index_bits` slots.
    pub index_bits: u8,
    /// The attack set of each occupancy of the mask, in the occupancy's slot.
    pub table: Vec<u64>,
}

impl MagicEntry {
    /// The table has the size that the index width asks for.
    pub open spec fn well_formed(&self) -> bool {
        &&& 1 <= self.index_bits <= MAX_INDEX_BITS
        &&& self.table.len() == pow2(self.index_bits as nat)
    }

    /// The slot in which the entry looks up a board occupancy.
    pub open spec fn slot_of(&self, occupancy: u64) -> int {
        transform_of(occupancy & self.mask, self.magic, self.index_bits as u64) as int
    }

    /// No occupancy of the mask is sent to `slot`.
    pub open spec fn slot_unused(&self, slot: int) -> bool {
        forall|occupancy: u64| #[trigger]
            subset_of(occupancy, self.mask) ==> transform_of(
                occupancy,
                self.magic,
                self.index_bits as u64,
            ) != slot
    }

    /// The entry answers for the piece on `square`: its mask is the piece's
    /// mask there, for every occupancy of the mask the slot of the
    /// occupancy lies in the table and holds the piece's attack set, and
    /// the slots of no occupancy are empty.
    pub open spec fn serves(&self, square: int, is_bishop: bool) -> bool {
        &&& self.well_formed()
        &&& self.mask == mask_of(is_bishop, square)
        &&& forall|occupancy: u64| #[trigger]
            subset_of(occupancy, self.mask) ==> {
                &&& 0 <= transform_of(occupancy, self.magic, self.index_bits as u64)
                    < self.table.len()
                &&& self.table[transform_of(occupancy, self.magic, self.index_bits as u64) as int]
                    == attack_set(is_bishop, square, occupancy)
            }
        &&& forall|slot: int|
            0 <= slot < self.table.len() && self.slot_unused(slot) ==> #[trigger] self.table[slot]
                == 0
    }

    /// What the table holds for the board occupancy `occupancy`: the slot
    /// of the part of the occupancy that lies in the mask.
    pub fn attacks(&self, occupancy: u64) -> (found: u64)
        requires
            self.well_formed(),
        ensures
            0 <= self.slot_of(occupancy) < self.table.len(),
            found == self.table[self.slot_of(occupancy)],
    {
        let slot = transform(occupancy & self.mask, self.magic, self.index_bits as u64);
        self.table[slot as usize]
    }
}

/// The part of an occupancy that lies in a mask is a subset of the mask.
pub proof fn lemma_masked_is_subset(occupancy: u64, mask: u64)
    ensures
        subset_of(occupancy & mask, mask),
{
    assert((occupancy & mask) & mask == occupancy & mask) by (bit_vector);
}

/// An entry that serves a square answers for every board: the slot of a
/// board occupancy lies in the table and holds the squares that the piece
/// attacks on that board, whatever stands outside the mask.
pub proof fn lemma_entry_answers(entry: MagicEntry, square: int, is_bishop: bool, occupancy: u64)
    requires
        0 <= square < 64,
        entry.serves(square, is_bishop),
    ensures
        0 <= entry.slot_of(occupancy) < entry.table.len(),
        entry.table[entry.slot_of(occupancy)] == attack_set(
            is_bishop,
            square,
            occupancy & entry.mask,
        ),
        entry.table[entry.slot_of(occupancy)] == attack_set(is_bishop, square, occupancy),
{
    lemma_masked_is_subset(occupancy, entry.mask);
    assert(subset_of(occupancy & entry.mask, entry.mask));
    if is_bishop {
        lemma_bishop_mask_suffices(square, occupancy);
    } else {
        lemma_rook_mask_suffices(square, occupancy);
    }
}

/// An entry that serves a square holds a magic for it.
pub proof fn lemma_entry_holds_magic(entry: MagicEntry, square: int, is_bishop: bool)
    requires
        entry.serves(square, is_bishop),
    ensures
        is_magic(is_bishop, square, entry.magic, entry.index_bits as u64),
{
}

/// The occupancies and attack sets are those of the piece on `square`:
/// every occupancy of the mask stands in the list, at the index that
/// selects it, with its attack set beside it.
pub open spec fn enumerates(
    occupancies: Seq<u64>,
    attacks: Seq<u64>,
    is_bishop: bool,
    square: int,
) -> bool {
    &&& attacks.len() == occupancies.len()
    &&& forall|i: int|
        0 <= i < occupancies.len() ==> subset_of(
            #[trigger] occupancies[i],
            mask_of(is_bishop, square),
        )
    &&& forall|i: int|
        0 <= i < attacks.len() ==> #[trigger] attacks[i] == attack_set(
            is_bishop,
            square,
            occupancies[i],
        )
    &&& forall|occ: u64|
        subset_of(occ, mask_of(is_bishop, square)) ==> 0 <= index_of(
            occ,
            mask_of(is_bishop, square),
        ) < occupancies.len() && occupancies[index_of(occ, mask_of(is_bishop, square)) as int]
            == occ
}

/// The attack set of each of the occupancies, in their order.
fn reference_attacks(square: u64, is_bishop: bool, occupancies: &Vec<u64>) -> (attacks: Vec<u64>)
    requires
        square < 64,
    ensures
        attacks.len() == occupancies.len(),
        forall|i: int|
            0 <= i < attacks.len() ==> #[trigger] attacks[i] == attack_set(
                is_bishop,
                square as int,
                occupancies[i],
            ),
{
    let mut attacks: Vec<u64> = Vec::new();
    let mut i: usize = 0;
    while i < occupancies.len()
        invariant
            square < 64,
            i <= occupancies.len(),
            attacks.len() == i,
            forall|k: int|
                0 <= k < i ==> #[trigger] attacks[k] == attack_set(
                    is_bishop,
                    square as int,
                    occupancies[k],
                ),
        decreases occupancies.len() - i,
    {
        let found = if is_bishop {
            bishop_attacks(square, occupancies[i])
        } else {
            rook_attacks(square, occupancies[i])
        };
        attacks.push(found);
        i = i + 1;
    }
    attacks
}

/// The masks that `rook_mask` and `bishop_mask` compute are well formed on
/// every square of the board.
pub proof fn lemma_masks_well_formed(square: u64, is_bishop: bool)
    requires
        square < 64,
    ensures
        mask_well_formed(square, mask_of(is_bishop, square as int)),
{
    lemma_masks_exclude_origin(square as int);
    if is_bishop {
        lemma_bishop_mask_size(square as int);
    } else {
        lemma_rook_mask_size(square as int);
    }
    let mask = mask_of(is_bishop, square as int);
    if mask == 0 {
        assert(popcount(mask) == 0) by {
            lemma_popcount_zero();
        }
    }
}

/// The mask of the piece on `square`, every occupancy of the mask, and the
/// attack set of each.
fn reference_for(square: u64, is_bishop: bool) -> (reference: (u64, Vec<u64>, Vec<u64>))
    requires
        square < 64,
    ensures
        reference.0 == mask_of(is_bishop, square as int),
        enumerates(reference.1@, reference.2@, is_bishop, square as int),
{
    let mask = if is_bishop {
        bishop_mask(square)
    } else {
        rook_mask(square)
    };
    proof {
        lemma_masks_well_formed(square, is_bishop);
    }
    let occupancies = enumerate_occupancies(mask);
    let attacks = reference_attacks(square, is_bishop, &occupancies);
    (mask, occupancies, attacks)
}

/// Over the occupancies of the mask and their attack sets, a multiplier is
/// free of collisions exactly if it is a magic.
proof fn lemma_collision_free_is_magic(
    occupancies: Seq<u64>,
    attacks: Seq<u64>,
    is_bishop: bool,
    square: int,
    magic: u64,
    bits: u64,
)
    requires
        enumerates(occupancies, attacks, is_bishop, square),
    ensures
        collision_free(occupancies, attacks, magic, bits) <==> is_magic(
            is_bishop,
            square,
            magic,
            bits,
        ),
{
    let mask = mask_of(is_bishop, square);
    if collision_free(occupancies, attacks, magic, bits) {
        assert forall|a: u64, b: u64|
            subset_of(a, mask) && subset_of(b, mask) && transform_of(a, magic, bits)
                == transform_of(b, magic, bits) implies attack_set(is_bishop, square, a)
            == attack_set(is_bishop, square, b) by {
            let i = index_of(a, mask) as int;
            let j = index_of(b, mask) as int;
            assert(occupancies[i] == a && occupancies[j] == b);
            assert(attacks[i] == attacks[j]);
        }
    }
    if is_magic(is_bishop, square, magic, bits) {
        assert forall|i: int, j: int|
            0 <= i < occupancies.len() && 0 <= j < occupancies.len() && transform_of(
                #[trigger] occupancies[i],
                magic,
                bits,
            ) == transform_of(#[trigger] occupancies[j], magic, bits) implies attacks[i]
            == attacks[j] by {
            assert(subset_of(occupancies[i], mask) && subset_of(occupancies[j], mask));
        }
    }
}

/// An entry whose table is filled from the occupancies and attack sets of
/// the piece on `square` serves the square.
proof fn lemma_filled_table_serves(
    entry: MagicEntry,
    occupancies: Seq<u64>,
    attacks: Seq<u64>,
    square: int,
    is_bishop: bool,
)
    requires
        1 <= entry.index_bits <= MAX_INDEX_BITS,
        entry.mask == mask_of(is_bishop, square),
        enumerates(occupancies, attacks, is_bishop, square),
        table_filled(entry.table@, occupancies, attacks, entry.magic, entry.index_bits as u64),
    ensures
        entry.serves(square, is_bishop),
{
    let bits = entry.index_bits as u64;
    assert forall|occ: u64| #[trigger] subset_of(occ, entry.mask) implies 0 <= transform_of(
        occ,
        entry.magic,
        bits,
    ) < entry.table.len() && entry.table[transform_of(occ, entry.magic, bits) as int]
        == attack_set(is_bishop, square, occ) by {
        let i = index_of(occ, entry.mask) as int;
        assert(occupancies[i] == occ);
        lemma_transform_in_range(occ, entry.magic, bits);
    }
    assert forall|slot: int|
        0 <= slot < entry.table.len() && entry.slot_unused(slot) implies
        #[trigger] entry.table[slot] == 0 by {
        if slot_used(occupancies, entry.magic, bits, slot, occupancies.len() as int) {
            let j = choose|j: int|
                0 <= j < occupancies.len() && transform_of(
                    #[trigger] occupancies[j],
                    entry.magic,
                    bits,
                ) == slot;
            assert(subset_of(occupancies[j], entry.mask));
        } else {
            assert(entry.table@[slot] == 0);
        }
    }
}

/// What a search returns when it finds no magic: the square is off the
/// board, or else the budget is spent.
pub open spec fn search_failure(square: u64) -> BuildError {
    if square >= 64 {
        BuildError::OutOfRangeSquare { square }
    } else {
        BuildError::MagicSearchExhausted { square }
    }
}

/// The entry of a given multiplier for the rook, or the bishop, on
/// `square`, if the multiplier is a magic with `mask_bits` index bits; none
/// if it is not, or if the square is off the board.
pub fn entry_for_magic(square: u64, mask_bits: u64, is_bishop: bool, magic: u64) -> (made: Option<
    MagicEntry,
>)
    requires
        1 <= mask_bits <= MAX_INDEX_BITS,
    ensures
        made is Some <==> square < 64 && is_magic(is_bishop, square as int, magic, mask_bits),
        made matches Some(entry) ==> {
            &&& entry.serves(square as int, is_bishop)
            &&& entry.magic == magic
            &&& entry.index_bits == mask_bits
        },
{
    if square >= 64 {
        return None;
    }
    let (mask, occupancies, attacks) = reference_for(square, is_bishop);
    proof {
        lemma_collision_free_is_magic(
            occupancies@,
            attacks@,
            is_bishop,
            square as int,
            magic,
            mask_bits,
        );
    }
    match fill_table(&occupancies, &attacks, magic, mask_bits) {
        Some(table) => {
            let entry = MagicEntry { mask, magic, index_bits: mask_bits as u8, table };
            proof {
                lemma_filled_table_serves(entry, occupancies@, attacks@, square as int, is_bishop);
            }
            Some(entry)
        },
        None => None,
    }
}

/// A search accepts `candidate` for the piece on `square`: the candidate is
/// promising and a magic with `mask_bits` index bits.
pub open spec fn acceptable(is_bishop: bool, square: int, mask_bits: u64, candidate: u64) -> bool {
    is_promising(mask_of(is_bishop, square), candidate) && is_magic(
        is_bishop,
        square,
        candidate,
        mask_bits,
    )
}

/// Checks one candidate of a search, in a table that earlier checks have
/// written to: the candidate is accepted if it is promising and free of
/// collisions, and the table is then filled for it.
fn try_candidate(
    mask: u64,
    occupancies: &Vec<u64>,
    attacks: &Vec<u64>,
    candidate: u64,
    bits: u64,
    table: &mut Vec<u64>,
    stamps: &mut Vec<u64>,
    epoch: u64,
) -> (accepted: bool)
    requires
        occupancies.len() == attacks.len(),
        1 <= bits <= MAX_INDEX_BITS,
        old(table).len() == pow2(bits as nat),
        old(stamps).len() == pow2(bits as nat),
        forall|s: int| 0 <= s < old(stamps).len() ==> old(stamps)[s] < epoch,
    ensures
        final(table).len() == old(table).len(),
        final(stamps).len() == old(stamps).len(),
        forall|s: int| 0 <= s < final(stamps).len() ==> final(stamps)[s] <= epoch,
        accepted <==> is_promising(mask, candidate) && collision_free(
            occupancies@,
            attacks@,
            candidate,
            bits,
        ),
        accepted ==> table_filled(final(table)@, occupancies@, attacks@, candidate, bits),
{
    if !promising(mask, candidate) {
        return false;
    }
    if !probe_magic(occupancies, attacks, candidate, bits, table, stamps, epoch) {
        return false;
    }
    settle_table(occupancies, attacks, candidate, bits, table, stamps, epoch);
    true
}

/// What a search makes of one candidate: the entry of the candidate, if the
/// candidate is acceptable; none if it is not, or if the square is off the
/// board.
pub fn candidate_entry(square: u64, mask_bits: u64, is_bishop: bool, candidate: u64) -> (made:
    Option<MagicEntry>)
    requires
        1 <= mask_bits <= MAX_INDEX_BITS,
    ensures
        made is Some <==> square < 64 && acceptable(
            is_bishop,
            square as int,
            mask_bits,
            candidate,
        ),
        made matches Some(entry) ==> {
            &&& entry.serves(square as int, is_bishop)
            &&& entry.magic == candidate
            &&& entry.index_bits == mask_bits
        },
{
    if square >= 64 {
        return None;
    }
    let (mask, occupancies, attacks) = reference_for(square, is_bishop);
    let len = table_len(mask_bits);
    let mut table: Vec<u64> = vec![0u64; len];
    let mut stamps: Vec<u64> = vec![0u64; len];
    proof {
        lemma_collision_free_is_magic(
            occupancies@,
            attacks@,
            is_bishop,
            square as int,
            candidate,
            mask_bits,
        );
    }
    let fits = try_candidate(
        mask,
        &occupancies,
        &attacks,
        candidate,
        mask_bits,
        &mut table,
        &mut stamps,
        1,
    );
    if fits {
        let entry = MagicEntry { mask, magic: candidate, index_bits: mask_bits as u8, table };
        proof {
            lemma_filled_table_serves(entry, occupancies@, attacks@, square as int, is_bishop);
        }
        Some(entry)
    } else {
        None
    }
}

/// The search accepts its `k`-th candidate.
pub open spec fn accepted(is_bishop: bool, square: int, mask_bits: u64, seed: u64, k: nat) -> bool {
    acceptable(is_bishop, square, mask_bits, candidate_of(seed, k))
}

/// One of the first `attempts` candidates of the search is accepted.
pub open spec fn succeeds(
    is_bishop: bool,
    square: int,
    mask_bits: u64,
    seed: u64,
    attempts: u64,
) -> bool {
    exists|k: nat| k < attempts && #[trigger] accepted(is_bishop, square, mask_bits, seed, k)
}

/// `magic` is the first candidate of the search that is accepted, and one
/// of the first `attempts`.
pub open spec fn first_accepted(
    is_bishop: bool,
    square: int,
    mask_bits: u64,
    seed: u64,
    attempts: u64,
    magic: u64,
) -> bool {
    exists|k: nat|
        k < attempts && magic == candidate_of(seed, k) && #[trigger] accepted(
            is_bishop,
            square,
            mask_bits,
            seed,
            k,
        ) && forall|j: nat| j < k ==> !#[trigger] accepted(is_bishop, square, mask_bits, seed, j)
}

/// `found` is what the search for the piece on `square` returns, from the
/// seed `seed` and with a budget of `attempts` candidates: the entry of the
/// first accepted candidate if there is one among the first `attempts`,
/// and else the error of the square.
pub open spec fn found_by_search(
    found: Result<MagicEntry, BuildError>,
    is_bishop: bool,
    square: u64,
    mask_bits: u64,
    seed: u64,
    attempts: u64,
) -> bool {
    &&& found is Ok <==> square < 64 && succeeds(
        is_bishop,
        square as int,
        mask_bits,
        seed,
        attempts,
    )
    &&& found matches Ok(entry) ==> {
        &&& entry.serves(square as int, is_bishop)
        &&& entry.index_bits == mask_bits
        &&& first_accepted(is_bishop, square as int, mask_bits, seed, attempts, entry.magic)
    }
    &&& found matches Err(error) ==> error == search_failure(square)
}

/// What follows for the outcome of a search: if none of the first
/// `attempts` candidates is accepted, the search on a square of the board
/// ends with `MagicSearchExhausted` for that square and reports no magic;
/// and a magic that it does report is promising and sends two occupancies
/// of the mask to one slot only if their attack sets are equal.
pub proof fn lemma_search_outcome(
    found: Result<MagicEntry, BuildError>,
    is_bishop: bool,
    square: u64,
    mask_bits: u64,
    seed: u64,
    attempts: u64,
)
    requires
        found_by_search(found, is_bishop, square, mask_bits, seed, attempts),
    ensures
        square < 64 && (forall|k: nat|
            k < attempts ==> !#[trigger] accepted(is_bishop, square as int, mask_bits, seed, k))
            ==> found == Err::<MagicEntry, BuildError>(
            (BuildError::MagicSearchExhausted { square }),
        ),
        found matches Ok(entry) ==> is_magic(is_bishop, square as int, entry.magic, mask_bits)
            && is_promising(mask_of(is_bishop, square as int), entry.magic),
{
}

/// Searches a magic with `mask_bits` index bits for the rook, or the
/// bishop, on `square`. The candidates come from a generator that is
/// seeded with `seed`, twelve words for each; they are checked in their
/// order, at most `attempts` of them, and the first that is accepted gives
/// the entry. The search fails if the square is off the board, or if none
/// of the first `attempts` candidates is accepted: so it does where no
/// magic exists, and where the budget is 0.
pub fn find_magic_entry(
    square: u64,
    mask_bits: u64,
    is_bishop: bool,
    seed: u64,
    attempts: u64,
) -> (found: Result<MagicEntry, BuildError>)
    requires
        1 <= mask_bits <= MAX_INDEX_BITS,
    ensures
        found_by_search(found, is_bishop, square, mask_bits, seed, attempts),
        (forall|magic: u64| !is_magic(is_bishop, square as int, magic, mask_bits)) ==> found
            is Err,
{
    if square >= 64 {
        return Err(BuildError::OutOfRangeSquare { square });
    }
    let (mask, occupancies, attacks) = reference_for(square, is_bishop);
    let len = table_len(mask_bits);
    let mut table: Vec<u64> = vec![0u64; len];
    let mut stamps: Vec<u64> = vec![0u64; len];
    let mut rng = seeded_generator(seed);
    let mut attempt: u64 = 0;
    while attempt < attempts
        invariant
            square < 64,
            1 <= mask_bits <= MAX_INDEX_BITS,
            mask == mask_of(is_bishop, square as int),
            enumerates(occupancies@, attacks@, is_bishop, square as int),
            attempt <= attempts,
            table.len() == pow2(mask_bits as nat),
            stamps.len() == pow2(mask_bits as nat),
            forall|s: int| 0 <= s < stamps.len() ==> stamps[s] <= attempt,
            rng == state_after_words(seeded_state(seed), attempt as nat * words_per_candidate()),
            forall|j: nat|
                j < attempt ==> !#[trigger] accepted(is_bishop, square as int, mask_bits, seed, j),
        decreases attempts - attempt,
    {
        let ghost k = attempt as nat;
        proof {
            lemma_state_after_words_adds(
                seeded_state(seed),
                k * words_per_candidate(),
                words_per_candidate(),
            );
        }
        let candidate = sparse_candidate(&mut rng);
        attempt = attempt + 1;
        proof {
            assert(candidate == candidate_of(seed, k));
            lemma_collision_free_is_magic(
                occupancies@,
                attacks@,
                is_bishop,
                square as int,
                candidate,
                mask_bits,
            );
        }
        let fits = try_candidate(
            mask,
            &occupancies,
            &attacks,
            candidate,
            mask_bits,
            &mut table,
            &mut stamps,
            attempt,
        );
        proof {
            assert(fits <==> accepted(is_bishop, square as int, mask_bits, seed, k));
        }
        if fits {
            let entry = MagicEntry { mask, magic: candidate, index_bits: mask_bits as u8, table };
            proof {
                lemma_filled_table_serves(entry, occupancies@, attacks@, square as int, is_bishop);
            }
            return Ok(entry);
        }
    }
    Err(BuildError::MagicSearchExhausted { square })
}

/// The seed of the search that `find_magic` makes on `square`: the
/// bitboard of the square alone.
pub open spec fn own_seed(square: u64) -> u64 {
    if square < 64 {
        1u64 << square
    } else {
        0
    }
}

/// Searches a magic with `mask_bits` index bits for the rook, or the
/// bishop, on `square`, with the square's own seed and the default budget:
/// the first accepted candidate of that search, if one of the first
/// `DEFAULT_ATTEMPTS` is accepted, and else the error of the square.
pub fn find_magic(square: u64, mask_bits: u64, is_bishop: bool) -> (found: Result<u64, BuildError>)
    requires
        1 <= mask_bits <= MAX_INDEX_BITS,
    ensures
        found is Ok <==> square < 64 && succeeds(
            is_bishop,
            square as int,
            mask_bits,
            own_seed(square),
            DEFAULT_ATTEMPTS,
        ),
        found matches Ok(magic) ==> {
            &&& first_accepted(
                is_bishop,
                square as int,
                mask_bits,
                own_seed(square),
                DEFAULT_ATTEMPTS,
                magic,
            )
            &&& is_magic(is_bishop, square as int, magic, mask_bits)
            &&& is_promising(mask_of(is_bishop, square as int), magic)
        },
        found matches Err(error) ==> error == search_failure(square),
        (forall|magic: u64| !is_magic(is_bishop, square as int, magic, mask_bits)) ==> found
            is Err,
{
    let seed = if square < 64 {
        1u64 << square
    } else {
        0
    };
    match find_magic_entry(square, mask_bits, is_bishop, seed, DEFAULT_ATTEMPTS) {
        Ok(entry) => Ok(entry.magic),
        Err(error) => Err(error),
    }
}

} // verus!
