use magic_bitboards::bits::count_1s;
use magic_bitboards::errors::BuildError;
use magic_bitboards::magic::{
    candidate_entry, check_mask, common_bits, entry_for_magic, fill_table, find_magic,
    find_magic_entry,
    promising, random_u64, random_u64_few_bits, splice_words, transform, MagicEntry,
    MAX_INDEX_BITS,
};
use magic_bitboards::occupancy::{generate_bishop_occupancy_masks, generate_rook_occupancy_masks};
use magic_bitboards::sliders::{bishop_attacks, bishop_mask, rook_attacks, rook_mask};
use rand::{Rng, SeedableRng};
use rand_xoshiro::Xoshiro256PlusPlus;

#[test]
fn transform_takes_the_top_bits_of_the_wrapped_product() {
    assert_eq!(transform(0x0101_0101_0101_0100, 0x8000_4000_2000_1000, 12), 1799);
    assert_eq!(transform(3, 0x8000_0000_0000_0001, 4), 8);
    assert_eq!(transform(u64::MAX, u64::MAX, 64), 1);
    assert_eq!(transform(0, 0x1234_5678_9abc_def0, 12), 0);
    assert_eq!(transform(1, u64::MAX, 1), 1);
    assert_eq!(transform(0x0001_0101_0101_017e, u64::MAX, 12), 0xfff);
}

#[test]
fn transform_stays_below_the_table_size() {
    let mut state = 0x2545_f491_4f6c_dd1du64;
    for _ in 0..1000 {
        state ^= state << 13;
        state ^= state >> 7;
        state ^= state << 17;
        for bits in 1..=16 {
            assert!(transform(state, state.rotate_left(31), bits) < 1 << bits);
        }
    }
}

#[test]
fn splice_words_joins_the_low_sixteen_bits_of_each_word() {
    assert_eq!(
        splice_words(
            0x1111_2222_3333_4444,
            0xaaaa_bbbb_cccc_dddd,
            0x0123_4567_89ab_cdef,
            0xfedc_ba98_7654_3210
        ),
        0x3210_cdef_dddd_4444
    );
    assert_eq!(splice_words(0, 0, 0, 0), 0);
    assert_eq!(splice_words(u64::MAX, 0, u64::MAX, 0), 0x0000_ffff_0000_ffff);
}

#[test]
fn random_words_can_be_drawn() {
    let mut any = 0u64;
    let mut few = 0u64;
    for _ in 0..64 {
        any |= random_u64();
        few |= random_u64_few_bits();
    }
    assert_ne!(any, 0);
    assert_ne!(few, 0);
}

#[test]
fn promising_asks_for_six_bits_in_the_top_byte() {
    assert!(promising(1, 0xff00_0000_0000_0000));
    assert!(promising(1, 0x3f00_0000_0000_0000));
    assert!(!promising(1, 0x1f00_0000_0000_0000));
    assert!(promising(0xff, 0x0100_0000_0000_0000));
    assert!(!promising(u64::MAX, 0xff00_0000_0000_0000));
    assert!(!promising(rook_mask(0), 0x0080_0010_2040_0080));
}

#[test]
fn check_mask_rejects_the_empty_mask() {
    assert_eq!(check_mask(3, 0), Err(BuildError::MalformedMask { square: 3 }));
}

#[test]
fn check_mask_rejects_a_mask_with_the_own_square() {
    assert_eq!(
        check_mask(3, 0b1110),
        Err(BuildError::MalformedMask { square: 3 })
    );
}

#[test]
fn check_mask_rejects_a_mask_with_too_many_squares() {
    assert_eq!(
        check_mask(0, 0x0003_fffe),
        Err(BuildError::MalformedMask { square: 0 })
    );
    assert_eq!(check_mask(0, 0x0001_fffe), Ok(()));
}

#[test]
fn check_mask_accepts_every_computed_mask() {
    for square in 0..64 {
        assert_eq!(check_mask(square, rook_mask(square)), Ok(()));
        assert_eq!(check_mask(square, bishop_mask(square)), Ok(()));
    }
}

#[test]
fn fill_table_puts_each_attack_set_in_its_slot() {
    let occupancies = vec![0u64, 1, 2, 3];
    let attacks = vec![10u64, 11, 12, 13];
    let magic = 1u64 << 62;
    let table = fill_table(&occupancies, &attacks, magic, 2).expect("no two share a slot");
    assert_eq!(table, vec![10, 11, 12, 13]);
}

#[test]
fn fill_table_leaves_unused_slots_empty() {
    let occupancies = vec![0u64, 1];
    let attacks = vec![7u64, 9];
    let table = fill_table(&occupancies, &attacks, 1 << 62, 3).expect("no two share a slot");
    assert_eq!(table, vec![7, 0, 9, 0, 0, 0, 0, 0]);
}

#[test]
fn fill_table_accepts_a_shared_slot_with_equal_attacks() {
    let occupancies = vec![0u64, 4, 1];
    let attacks = vec![5u64, 5, 6];
    let table = fill_table(&occupancies, &attacks, 1 << 62, 2).expect("equal attacks may share");
    assert_eq!(table, vec![5, 6, 0, 0]);
}

#[test]
fn fill_table_rejects_a_shared_slot_with_different_attacks() {
    let occupancies = vec![0u64, 4, 1];
    let attacks = vec![5u64, 6, 7];
    assert_eq!(fill_table(&occupancies, &attacks, 1 << 62, 2), None);
}

#[test]
fn fill_table_accepts_a_zero_attack_set() {
    let occupancies = vec![1u64, 2];
    let attacks = vec![0u64, 3];
    let table = fill_table(&occupancies, &attacks, 1 << 62, 2).expect("no two share a slot");
    assert_eq!(table, vec![0, 0, 3, 0]);
}

fn assert_serves(entry: &MagicEntry, square: u64, is_bishop: bool) {
    let occupancies = if is_bishop {
        generate_bishop_occupancy_masks(square)
    } else {
        generate_rook_occupancy_masks(square)
    };
    let bits = entry.index_bits as u64;
    assert_eq!(entry.table.len(), 1usize << bits);
    for occupancy in occupancies {
        let slot = transform(occupancy, entry.magic, bits);
        assert!(slot < 1 << bits);
        let expected = if is_bishop {
            bishop_attacks(square, occupancy)
        } else {
            rook_attacks(square, occupancy)
        };
        assert_eq!(entry.table[slot as usize], expected);
    }
}

#[test]
fn a_found_rook_entry_answers_for_every_occupancy() {
    let entry = find_magic_entry(0, 12, false, 1, 100_000_000).expect("a magic for a1");
    assert_eq!(entry.mask, rook_mask(0));
    assert_eq!(entry.index_bits, 12);
    assert_serves(&entry, 0, false);
}

#[test]
fn a_found_bishop_entry_answers_for_every_occupancy() {
    let entry = find_magic_entry(27, 9, true, 1, 100_000_000).expect("a magic for d4");
    assert_eq!(entry.mask, bishop_mask(27));
    assert_eq!(entry.index_bits, 9);
    assert_serves(&entry, 27, true);
}

#[test]
fn a_wider_table_than_needed_is_served_too() {
    let entry = find_magic_entry(27, 12, true, 5, 100_000_000).expect("a magic for d4");
    assert_eq!(entry.table.len(), 4096);
    assert_serves(&entry, 27, true);
}

#[test]
fn the_widest_table_is_accepted() {
    let entry =
        find_magic_entry(9, MAX_INDEX_BITS, false, 3, 100_000_000).expect("a magic for b2");
    assert_eq!(entry.table.len(), 65536);
    assert_serves(&entry, 9, false);
}

#[test]
fn the_same_seed_finds_the_same_magic() {
    let first = find_magic_entry(36, 10, false, 42, 100_000_000);
    let second = find_magic_entry(36, 10, false, 42, 100_000_000);
    assert!(first.is_ok());
    assert_eq!(first, second);
}

#[test]
fn a_found_entry_passes_the_check_of_its_magic() {
    let entry = find_magic_entry(7, 12, false, 11, 100_000_000).expect("a magic for h1");
    let occupancies = generate_rook_occupancy_masks(7);
    let attacks: Vec<u64> = occupancies.iter().map(|&o| rook_attacks(7, o)).collect();
    assert!(promising(entry.mask, entry.magic));
    assert_eq!(
        fill_table(&occupancies, &attacks, entry.magic, 12),
        Some(entry.table)
    );
}

#[test]
fn entry_lookup_masks_the_occupancy() {
    let entry = find_magic_entry(28, 10, false, 9, 100_000_000).expect("a magic for e4");
    let occupancy = 0xffff_0000_1248_ffffu64;
    assert_eq!(entry.attacks(occupancy), rook_attacks(28, occupancy));
    assert_eq!(entry.attacks(0), rook_attacks(28, 0));
    assert_eq!(entry.attacks(u64::MAX), rook_attacks(28, u64::MAX));
}

#[test]
fn find_magic_finds_a_magic_for_every_rook_square() {
    for square in 0..64u64 {
        let bits = count_1s(rook_mask(square));
        let magic = find_magic(square, bits, false).expect("a rook magic");
        let occupancies = generate_rook_occupancy_masks(square);
        let attacks: Vec<u64> = occupancies.iter().map(|&o| rook_attacks(square, o)).collect();
        assert!(fill_table(&occupancies, &attacks, magic, bits).is_some());
    }
}

#[test]
fn find_magic_finds_a_magic_for_every_bishop_square() {
    for square in 0..64u64 {
        let bits = count_1s(bishop_mask(square));
        let magic = find_magic(square, bits, true).expect("a bishop magic");
        let occupancies = generate_bishop_occupancy_masks(square);
        let attacks: Vec<u64> = occupancies
            .iter()
            .map(|&o| bishop_attacks(square, o))
            .collect();
        assert!(fill_table(&occupancies, &attacks, magic, bits).is_some());
    }
}

#[test]
fn a_search_in_which_every_candidate_collides_exhausts_its_budget() {
    assert_eq!(
        find_magic_entry(0, 1, false, 7, 1000),
        Err(BuildError::MagicSearchExhausted { square: 0 })
    );
    assert_eq!(
        find_magic_entry(27, 2, true, 7, 1000),
        Err(BuildError::MagicSearchExhausted { square: 27 })
    );
}

#[test]
fn a_search_without_budget_is_exhausted_at_once() {
    assert_eq!(
        find_magic_entry(12, 11, false, 0, 0),
        Err(BuildError::MagicSearchExhausted { square: 12 })
    );
}

#[test]
fn a_search_off_the_board_is_refused() {
    assert_eq!(
        find_magic_entry(64, 10, false, 0, 10),
        Err(BuildError::OutOfRangeSquare { square: 64 })
    );
    assert_eq!(
        find_magic(u64::MAX, 5, true),
        Err(BuildError::OutOfRangeSquare { square: u64::MAX })
    );
}

#[test]
fn a_found_magic_gives_the_same_entry_again() {
    let found = find_magic_entry(63, 12, false, 21, 100_000_000).expect("a magic for h8");
    assert_eq!(entry_for_magic(63, 12, false, found.magic).as_ref(), Some(&found));
    assert_eq!(candidate_entry(63, 12, false, found.magic), Some(found));
}

#[test]
fn a_multiplier_that_is_no_magic_gives_no_entry() {
    assert_eq!(entry_for_magic(0, 12, false, 0), None);
    assert_eq!(entry_for_magic(0, 12, false, 1), None);
    assert_eq!(entry_for_magic(27, 9, true, u64::MAX), None);
    assert_eq!(candidate_entry(0, 12, false, 0), None);
}

#[test]
fn no_entry_is_made_off_the_board() {
    assert_eq!(entry_for_magic(64, 12, false, 0x0080_0010_2040_0080), None);
    assert_eq!(candidate_entry(64, 12, false, 0x0080_0010_2040_0080), None);
}

#[test]
fn a_magic_that_is_not_promising_is_no_candidate() {
    let mask = bishop_mask(0);
    let mut state = 0x0123_4567_89ab_cdefu64;
    let mut seen = false;
    for _ in 0..100_000 {
        state ^= state << 13;
        state ^= state >> 7;
        state ^= state << 17;
        if promising(mask, state) {
            continue;
        }
        if let Some(entry) = entry_for_magic(0, 16, true, state) {
            assert_serves(&entry, 0, true);
            assert_eq!(candidate_entry(0, 16, true, state), None);
            seen = true;
            break;
        }
    }
    assert!(seen);
}

#[test]
fn common_bits_keeps_what_all_three_words_hold() {
    assert_eq!(common_bits(0b1110, 0b0111, 0b1101), 0b0100);
    assert_eq!(common_bits(u64::MAX, u64::MAX, u64::MAX), u64::MAX);
    assert_eq!(
        common_bits(u64::MAX, 0x00ff_00ff_00ff_00ff, 0x0f0f_0f0f_0f0f_0f0f),
        0x000f_000f_000f_000f
    );
    assert_eq!(common_bits(0x8000_0000_0000_0001, 0x8000_0000_0000_0000, u64::MAX), 1 << 63);
    assert_eq!(common_bits(0, u64::MAX, u64::MAX), 0);
    assert_eq!(common_bits(u64::MAX, 0, u64::MAX), 0);
    assert_eq!(common_bits(u64::MAX, u64::MAX, 0), 0);
}

fn drawn_word(rng: &mut Xoshiro256PlusPlus) -> u64 {
    let w0: u64 = rng.gen();
    let w1: u64 = rng.gen();
    let w2: u64 = rng.gen();
    let w3: u64 = rng.gen();
    splice_words(w0, w1, w2, w3)
}

fn drawn_candidates(seed: u64, count: usize) -> Vec<u64> {
    let mut rng = Xoshiro256PlusPlus::seed_from_u64(seed);
    let mut candidates = Vec::new();
    for _ in 0..count {
        let a = drawn_word(&mut rng);
        let b = drawn_word(&mut rng);
        let c = drawn_word(&mut rng);
        candidates.push(common_bits(a, b, c));
    }
    candidates
}

fn first_accepted(square: u64, bits: u64, seed: u64) -> (usize, u64) {
    let mask = bishop_mask(square);
    let candidates = drawn_candidates(seed, 3_000_000);
    let k = candidates
        .iter()
        .position(|&candidate| {
            promising(mask, candidate) && candidate_entry(square, bits, true, candidate).is_some()
        })
        .expect("an accepted candidate");
    (k, candidates[k])
}

#[test]
fn the_search_returns_the_first_accepted_candidate_of_its_seed() {
    for (square, bits, seed) in [(0u64, 6u64, 1u64), (27, 9, 99), (63, 6, 0), (36, 9, 1 << 36)] {
        let (_, candidate) = first_accepted(square, bits, seed);
        let found = find_magic_entry(square, bits, true, seed, 3_000_000).expect("a magic");
        assert_eq!(found.magic, candidate);
        assert_eq!(candidate_entry(square, bits, true, candidate), Some(found));
    }
}

#[test]
fn the_search_succeeds_exactly_if_the_budget_reaches_the_first_accepted_candidate() {
    let (k, candidate) = first_accepted(9, 5, 17);
    let found = find_magic_entry(9, 5, true, 17, k as u64 + 1).expect("a magic");
    assert_eq!(found.magic, candidate);
    assert_eq!(
        find_magic_entry(9, 5, true, 17, k as u64),
        Err(BuildError::MagicSearchExhausted { square: 9 })
    );
    assert_eq!(Ok(found), find_magic_entry(9, 5, true, 17, u64::MAX));
}

#[test]
fn different_seeds_draw_different_candidates() {
    assert_ne!(drawn_candidates(1, 4), drawn_candidates(2, 4));
    let first = find_magic_entry(0, 12, false, 1, 100_000_000).expect("a magic");
    let second = find_magic_entry(0, 12, false, 2, 100_000_000).expect("a magic");
    assert_ne!(first.magic, second.magic);
}

#[test]
fn find_magic_searches_with_the_bitboard_of_the_square_as_seed() {
    for square in [0u64, 7, 28, 63] {
        let bits = count_1s(rook_mask(square));
        let entry = find_magic_entry(square, bits, false, 1 << square, 1_000_000_000_000);
        assert_eq!(find_magic(square, bits, false), entry.map(|entry| entry.magic));
    }
}
