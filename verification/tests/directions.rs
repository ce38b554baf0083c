use magic_bitboards::directions::{
    east_one, no_ea_one, no_we_one, nort_one, so_ea_one, so_we_one, sout_one, west_one,
    NOT_A_FILE, NOT_H_FILE,
};

const E4: u64 = 1 << 28;
const A1: u64 = 1;
const H1: u64 = 1 << 7;
const A8: u64 = 1 << 56;
const H8: u64 = 1 << 63;

#[test]
fn steps_from_a_central_square() {
    assert_eq!(nort_one(E4), 1 << 36);
    assert_eq!(sout_one(E4), 1 << 20);
    assert_eq!(east_one(E4), 1 << 29);
    assert_eq!(west_one(E4), 1 << 27);
    assert_eq!(no_ea_one(E4), 1 << 37);
    assert_eq!(no_we_one(E4), 1 << 35);
    assert_eq!(so_ea_one(E4), 1 << 21);
    assert_eq!(so_we_one(E4), 1 << 19);
}

#[test]
fn eastward_steps_do_not_wrap_over_the_h_file() {
    assert_eq!(east_one(H1), 0);
    assert_eq!(no_ea_one(H1), 0);
    assert_eq!(so_ea_one(H8), 0);
    assert_eq!(east_one(H8), 0);
}

#[test]
fn westward_steps_do_not_wrap_over_the_a_file() {
    assert_eq!(west_one(A1), 0);
    assert_eq!(no_we_one(A1), 0);
    assert_eq!(so_we_one(A8), 0);
    assert_eq!(west_one(A8), 0);
}

#[test]
fn steps_off_the_first_and_eighth_rank_vanish() {
    assert_eq!(sout_one(A1), 0);
    assert_eq!(so_ea_one(A1), 0);
    assert_eq!(so_we_one(H1), 0);
    assert_eq!(nort_one(H8), 0);
    assert_eq!(no_ea_one(A8), 0);
    assert_eq!(no_we_one(H8), 0);
}

#[test]
fn a_full_board_steps_to_the_board_without_one_edge() {
    assert_eq!(nort_one(u64::MAX), 0xffff_ffff_ffff_ff00);
    assert_eq!(sout_one(u64::MAX), 0x00ff_ffff_ffff_ffff);
    assert_eq!(east_one(u64::MAX), NOT_A_FILE);
    assert_eq!(west_one(u64::MAX), NOT_H_FILE);
    assert_eq!(no_ea_one(u64::MAX), 0xfefe_fefe_fefe_fe00);
    assert_eq!(no_we_one(u64::MAX), 0x7f7f_7f7f_7f7f_7f00);
    assert_eq!(so_ea_one(u64::MAX), 0x00fe_fefe_fefe_fefe);
    assert_eq!(so_we_one(u64::MAX), 0x007f_7f7f_7f7f_7f7f);
}

#[test]
fn opposite_steps_cancel_away_from_the_edges() {
    for square in 0..64u64 {
        let rank = square / 8;
        let file = square % 8;
        if rank == 0 || rank == 7 || file == 0 || file == 7 {
            continue;
        }
        let b = 1u64 << square;
        assert_eq!(sout_one(nort_one(b)), b);
        assert_eq!(west_one(east_one(b)), b);
        assert_eq!(so_we_one(no_ea_one(b)), b);
        assert_eq!(so_ea_one(no_we_one(b)), b);
    }
}
