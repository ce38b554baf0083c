use magic_bitboards::errors::BuildError;
use magic_bitboards::leapers::{king_attacks, knight_attacks, w_pawn_attacks, b_pawn_attacks};
use magic_bitboards::lookup::{
    bishop_index_bits, build_lookup, rook_index_bits, LookUp, MagicNumbers,
};
use magic_bitboards::magic::{find_magic_entry, transform};
use magic_bitboards::occupancy::{generate_bishop_occupancy_masks, generate_rook_occupancy_masks};
use magic_bitboards::pieces::Color;
use magic_bitboards::sliders::{bishop_attacks, bishop_mask, rook_attacks, rook_mask};

#[test]
fn index_widths_are_the_fixed_tables() {
    let bishop_bits = [
        6, 5, 5, 5, 5, 5, 5, 6, 5, 5, 5, 5, 5, 5, 5, 5, 5, 5, 7, 7, 7, 7, 5, 5, 5, 5, 7, 9, 9, 7,
        5, 5, 5, 5, 7, 9, 9, 7, 5, 5, 5, 5, 7, 7, 7, 7, 5, 5, 5, 5, 5, 5, 5, 5, 5, 5, 6, 5, 5, 5,
        5, 5, 5, 6,
    ];
    let rook_bits = [
        12, 11, 11, 11, 11, 11, 11, 12, 11, 10, 10, 10, 10, 10, 10, 11, 11, 10, 10, 10, 10, 10,
        10, 11, 11, 10, 10, 10, 10, 10, 10, 11, 11, 10, 10, 10, 10, 10, 10, 11, 11, 10, 10, 10,
        10, 10, 10, 11, 11, 10, 10, 10, 10, 10, 10, 11, 12, 11, 11, 11, 11, 11, 11, 12,
    ];
    for square in 0..64u64 {
        assert_eq!(rook_index_bits(square), rook_bits[square as usize]);
        assert_eq!(bishop_index_bits(square), bishop_bits[square as usize]);
    }
}

#[test]
fn every_slot_of_every_table_holds_the_true_attack_set() {
    let lookup = LookUp::init().expect("tables");
    let magics = lookup.magics();
    for square in 0..64u64 {
        let rook = magics.rook_entry(square).as_ref().expect("a rook entry");
        assert_eq!(rook.mask, rook_mask(square));
        assert_eq!(rook.index_bits as u64, rook_index_bits(square));
        assert_eq!(rook.table.len(), 1usize << rook.index_bits);
        for occupancy in generate_rook_occupancy_masks(square) {
            let slot = transform(occupancy, rook.magic, rook.index_bits as u64);
            assert!(slot < 1 << rook.index_bits);
            assert_eq!(rook.table[slot as usize], rook_attacks(square, occupancy));
        }
        let bishop = magics.bishop_entry(square).as_ref().expect("a bishop entry");
        assert_eq!(bishop.mask, bishop_mask(square));
        assert_eq!(bishop.index_bits as u64, bishop_index_bits(square));
        assert_eq!(bishop.table.len(), 1usize << bishop.index_bits);
        for occupancy in generate_bishop_occupancy_masks(square) {
            let slot = transform(occupancy, bishop.magic, bishop.index_bits as u64);
            assert!(slot < 1 << bishop.index_bits);
            assert_eq!(bishop.table[slot as usize], bishop_attacks(square, occupancy));
        }
    }
}

#[test]
fn queries_agree_with_the_ray_walk_on_10000_random_boards() {
    let lookup = build_lookup(2024, 100_000_000).expect("tables");
    let magics = lookup.magics();
    let mut state = 0x1234_5678_9abc_def1u64;
    for _ in 0..10_000 {
        state ^= state << 13;
        state ^= state >> 7;
        state ^= state << 17;
        let square = state >> 58;
        let occupancy = state.rotate_left(17) ^ state.wrapping_mul(0x9e37_79b9_7f4a_7c15);
        let rook = magics.rook_entry(square).as_ref().expect("a rook entry");
        let slot = transform(occupancy & rook.mask, rook.magic, rook.index_bits as u64);
        assert_eq!(
            rook.table[slot as usize],
            rook_attacks(square, occupancy & rook.mask)
        );
        assert_eq!(
            lookup.query_rook_attacks(square, occupancy),
            rook_attacks(square, occupancy)
        );
        let bishop = magics.bishop_entry(square).as_ref().expect("a bishop entry");
        let slot = transform(occupancy & bishop.mask, bishop.magic, bishop.index_bits as u64);
        assert_eq!(
            bishop.table[slot as usize],
            bishop_attacks(square, occupancy & bishop.mask)
        );
        assert_eq!(
            lookup.query_bishop_attacks(square, occupancy),
            bishop_attacks(square, occupancy)
        );
    }
}

#[test]
fn slider_queries_of_the_named_positions() {
    let lookup = LookUp::init().expect("tables");
    assert_eq!(lookup.query_rook_attacks(0, 0), 0x0101_0101_0101_01fe);
    assert_eq!(
        lookup.query_bishop_attacks(27, 1 << 45),
        0x0001_2214_0014_2241
    );
    assert_eq!(
        lookup.query_rook_attacks(27, (1 << 43) | (1 << 25) | (1 << 30)),
        0x0000_0808_7608_0808
    );
}

#[test]
fn leaper_queries_read_the_attack_sets() {
    let lookup = LookUp::init().expect("tables");
    assert_eq!(lookup.query_king_attacks(28), 0x0000_0038_2838_0000);
    assert_eq!(lookup.query_king_attacks(0), 0x0000_0000_0000_0302);
    assert_eq!(lookup.query_knight_attacks(0), 0x0000_0000_0002_0400);
    assert_eq!(lookup.query_knight_attacks(27), 0x0000_1422_0022_1400);
    assert_eq!(lookup.query_pawn_attacks(Color::White, 28), 0x0000_0028_0000_0000);
    assert_eq!(lookup.query_pawn_attacks(Color::Black, 28), 0x0000_0000_0028_0000);
    for square in 0..64u64 {
        assert_eq!(lookup.query_king_attacks(square), king_attacks(1 << square));
        assert_eq!(lookup.query_knight_attacks(square), knight_attacks(1 << square));
        assert_eq!(
            lookup.query_pawn_attacks(Color::White, square),
            w_pawn_attacks(1 << square)
        );
        assert_eq!(
            lookup.query_pawn_attacks(Color::Black, square),
            b_pawn_attacks(1 << square)
        );
    }
}

#[test]
fn the_same_seed_builds_the_same_magics() {
    let first = MagicNumbers::search(77, 100_000_000);
    let second = MagicNumbers::search(77, 100_000_000);
    for square in 0..64 {
        assert!(first.rook_magic(square).is_ok());
        assert_eq!(first.rook_magic(square), second.rook_magic(square));
        assert_eq!(first.bishop_magic(square), second.bishop_magic(square));
        assert_eq!(first.rook_entry(square), second.rook_entry(square));
    }
    assert_eq!(first.first_failure(), None);
}

#[test]
fn init_searches_with_each_squares_own_seed() {
    let magics = MagicNumbers::init();
    let seeded = MagicNumbers::search(0, 1_000_000_000_000);
    assert_eq!(magics.first_failure(), None);
    for square in 0..64 {
        assert_eq!(magics.rook_magic(square), seeded.rook_magic(square));
        assert_eq!(magics.bishop_magic(square), seeded.bishop_magic(square));
    }
}

#[test]
fn a_build_without_budget_reports_the_first_square() {
    assert_eq!(
        build_lookup(1, 0).err(),
        Some(BuildError::MagicSearchExhausted { square: 0 })
    );
}

#[test]
fn a_failed_square_leaves_the_other_squares_usable() {
    let magics = MagicNumbers::search(5, 40);
    let mut found = 0;
    let mut failed = 0;
    let mut first = None;
    for square in 0..64u64 {
        for (is_bishop, slot) in [
            (true, magics.bishop_entry(square)),
            (false, magics.rook_entry(square)),
        ] {
            match slot {
                Ok(entry) => {
                    found += 1;
                    let expected = if is_bishop {
                        bishop_attacks(square, 0x0042_0000_1800_2400)
                    } else {
                        rook_attacks(square, 0x0042_0000_1800_2400)
                    };
                    assert_eq!(entry.attacks(0x0042_0000_1800_2400), expected);
                }
                Err(error) => {
                    failed += 1;
                    assert_eq!(*error, BuildError::MagicSearchExhausted { square });
                    first = first.or(Some(*error));
                }
            }
        }
    }
    assert!(found > 0);
    assert!(failed > 0);
    assert_eq!(magics.first_failure(), first);
    assert_eq!(LookUp::from_magics(magics).err(), first);
}

#[test]
fn each_slot_holds_what_the_search_of_its_square_returns() {
    let magics = MagicNumbers::search(31, 60);
    for square in 0..64u64 {
        assert_eq!(
            *magics.rook_entry(square),
            find_magic_entry(square, rook_index_bits(square), false, 31 ^ (1 << square), 60)
        );
        assert_eq!(
            *magics.bishop_entry(square),
            find_magic_entry(square, bishop_index_bits(square), true, 31 ^ (1 << square), 60)
        );
    }
}

#[test]
fn a_failed_build_names_the_lowest_failing_square() {
    let magics = MagicNumbers::search(5, 40);
    let lowest = (0..64u64)
        .find(|&square| magics.rook_entry(square).is_err() || magics.bishop_entry(square).is_err())
        .expect("a failing square");
    assert_eq!(
        build_lookup(5, 40).err(),
        Some(BuildError::MagicSearchExhausted { square: lowest })
    );
}
