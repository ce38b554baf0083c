use magic_bitboards::bits::count_1s;
use magic_bitboards::occupancy::{
    enumerate_occupancies, generate_bishop_occupancy_masks, generate_rook_occupancy_masks,
    index_to_u64,
};
use magic_bitboards::sliders::{bishop_mask, rook_mask};

#[test]
fn bit_j_of_the_index_selects_the_jth_square_of_the_mask() {
    assert_eq!(index_to_u64(0b10, 2, 0b1010), 0b1000);
    assert_eq!(index_to_u64(0b01, 2, 0b1010), 0b0010);
    assert_eq!(index_to_u64(0b11, 2, 0b1010), 0b1010);
    assert_eq!(index_to_u64(0b101, 3, 0x1300), 0x1100);
}

#[test]
fn index_zero_selects_nothing_and_the_last_index_everything() {
    let mask = rook_mask(27);
    let bits = count_1s(mask);
    assert_eq!(index_to_u64(0, bits, mask), 0);
    assert_eq!(index_to_u64((1 << bits) - 1, bits, mask), mask);
}

#[test]
fn index_bits_beyond_the_width_are_ignored() {
    assert_eq!(index_to_u64(0b11, 1, 0b1010), 0b0010);
    assert_eq!(index_to_u64(u64::MAX, 0, 0b1010), 0);
    assert_eq!(index_to_u64(u64::MAX, 64, u64::MAX), u64::MAX);
    assert_eq!(index_to_u64(0xf0, 4, 0b1111_0000), 0);
}

#[test]
fn the_empty_mask_has_one_occupancy() {
    assert_eq!(enumerate_occupancies(0), vec![0]);
}

#[test]
fn a_mask_of_two_squares_has_four_occupancies() {
    assert_eq!(
        enumerate_occupancies(0b1010),
        vec![0b0000, 0b0010, 0b1000, 0b1010]
    );
}

fn assert_is_every_subset_once(all: &[u64], mask: u64) {
    assert_eq!(all.len(), 1usize << count_1s(mask));
    assert_eq!(all[0], 0);
    assert_eq!(all[all.len() - 1], mask);
    let mut sorted = all.to_vec();
    sorted.sort();
    sorted.dedup();
    assert_eq!(sorted.len(), all.len());
    for &occupancy in all {
        assert_eq!(occupancy & mask, occupancy);
    }
}

#[test]
fn rook_occupancies_of_a1_are_the_4096_subsets_of_the_mask() {
    let all = generate_rook_occupancy_masks(0);
    assert_eq!(all.len(), 4096);
    assert_is_every_subset_once(&all, rook_mask(0));
}

#[test]
fn bishop_occupancies_of_d4_are_the_512_subsets_of_the_mask() {
    let all = generate_bishop_occupancy_masks(27);
    assert_eq!(all.len(), 512);
    assert_is_every_subset_once(&all, bishop_mask(27));
}

#[test]
fn occupancies_of_every_square_are_every_subset_once() {
    for square in 0..64 {
        assert_is_every_subset_once(&generate_rook_occupancy_masks(square), rook_mask(square));
        assert_is_every_subset_once(
            &generate_bishop_occupancy_masks(square),
            bishop_mask(square),
        );
    }
}

#[test]
fn a_mask_of_sixteen_squares_has_65536_occupancies() {
    let mask = 0x0f0f_0000_0000_0f0fu64;
    let all = enumerate_occupancies(mask);
    assert_is_every_subset_once(&all, mask);
    assert_eq!(all[0x8001], (1 << 59) | 1);
}
