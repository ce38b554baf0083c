use magic_bitboards::bits::count_1s;
use magic_bitboards::leapers::{
    b_pawn_attacks, b_pawn_east_attacks, b_pawn_west_attacks, king_attacks, king_attacks_from,
    knight_attacks, knight_attacks_from, pawn_attacks_from, w_pawn_attacks, w_pawn_east_attacks,
    w_pawn_west_attacks,
};

const A1: u64 = 0;
const D4: u64 = 27;
const E4: u64 = 28;
const H8: u64 = 63;

#[test]
fn king_on_e4_attacks_eight_squares() {
    let attacks = king_attacks(1 << E4);
    assert_eq!(count_1s(attacks), 8);
    assert_eq!(attacks, 0x0000_0038_2838_0000);
}

#[test]
fn king_on_a1_attacks_three_squares() {
    let attacks = king_attacks(1 << A1);
    assert_eq!(count_1s(attacks), 3);
    assert_eq!(attacks, 0x0000_0000_0000_0302);
}

#[test]
fn king_on_h8_attacks_three_squares() {
    assert_eq!(king_attacks(1 << H8), 0x40c0_0000_0000_0000);
}

#[test]
fn two_kings_attack_the_union() {
    assert_eq!(
        king_attacks((1 << A1) | (1 << H8)),
        0x40c0_0000_0000_0302
    );
}

#[test]
fn knight_on_a1_attacks_two_squares() {
    let attacks = knight_attacks(1 << A1);
    assert_eq!(count_1s(attacks), 2);
    assert_eq!(attacks, 0x0000_0000_0002_0400);
}

#[test]
fn knight_on_d4_attacks_eight_squares() {
    let attacks = knight_attacks(1 << D4);
    assert_eq!(count_1s(attacks), 8);
    assert_eq!(attacks, 0x0000_1422_0022_1400);
}

#[test]
fn knight_on_h8_attacks_two_squares() {
    assert_eq!(knight_attacks(1 << H8), 0x0020_4000_0000_0000);
}

#[test]
fn no_piece_attacks_nothing() {
    assert_eq!(king_attacks(0), 0);
    assert_eq!(knight_attacks(0), 0);
    assert_eq!(w_pawn_attacks(0), 0);
    assert_eq!(b_pawn_attacks(0), 0);
}

#[test]
fn white_pawn_on_e4_attacks_d5_and_f5() {
    assert_eq!(w_pawn_east_attacks(1 << E4), 1 << 37);
    assert_eq!(w_pawn_west_attacks(1 << E4), 1 << 35);
    assert_eq!(w_pawn_attacks(1 << E4), 0x0000_0028_0000_0000);
}

#[test]
fn black_pawn_on_e4_attacks_d3_and_f3() {
    assert_eq!(b_pawn_east_attacks(1 << E4), 1 << 21);
    assert_eq!(b_pawn_west_attacks(1 << E4), 1 << 19);
    assert_eq!(b_pawn_attacks(1 << E4), 0x0000_0000_0028_0000);
}

#[test]
fn pawns_on_the_edge_files_attack_one_square() {
    assert_eq!(w_pawn_attacks(1 << 8), 1 << 17);
    assert_eq!(w_pawn_attacks(1 << 55), 1 << 62);
    assert_eq!(b_pawn_attacks(1 << 48), 1 << 41);
    assert_eq!(b_pawn_attacks(1 << 15), 1 << 6);
}

#[test]
fn pawns_on_their_last_rank_attack_nothing() {
    assert_eq!(w_pawn_attacks(0xff00_0000_0000_0000), 0);
    assert_eq!(b_pawn_attacks(0x0000_0000_0000_00ff), 0);
}

#[test]
fn single_piece_functions_agree_with_the_set_functions() {
    for square in 0..64u64 {
        assert_eq!(king_attacks_from(square), king_attacks(1 << square));
        assert_eq!(knight_attacks_from(square), knight_attacks(1 << square));
        assert_eq!(pawn_attacks_from(true, square), w_pawn_attacks(1 << square));
        assert_eq!(pawn_attacks_from(false, square), b_pawn_attacks(1 << square));
    }
}

#[test]
fn leaper_attacks_are_symmetric() {
    for from in 0..64u64 {
        for to in 0..64u64 {
            let king = king_attacks_from(from) >> to & 1;
            assert_eq!(king, king_attacks_from(to) >> from & 1);
            let knight = knight_attacks_from(from) >> to & 1;
            assert_eq!(knight, knight_attacks_from(to) >> from & 1);
            let white = pawn_attacks_from(true, from) >> to & 1;
            assert_eq!(white, pawn_attacks_from(false, to) >> from & 1);
        }
    }
}
