use magic_bitboards::pieces::{Color, Piece, PieceType};
use magic_bitboards::squares::Square;

#[test]
fn squares_are_numbered_from_a1_to_h8() {
    assert_eq!(Square::A1.index(), 0);
    assert_eq!(Square::H1.index(), 7);
    assert_eq!(Square::A2.index(), 8);
    assert_eq!(Square::E4.index(), 28);
    assert_eq!(Square::A8.index(), 56);
    assert_eq!(Square::H8.index(), 63);
}

#[test]
fn from_index_inverts_index() {
    for index in 0..64 {
        let square = Square::from_index(index).expect("a square");
        assert_eq!(square.index(), index);
    }
    assert_eq!(Square::from_index(28), Some(Square::E4));
}

#[test]
fn from_index_refuses_an_index_off_the_board() {
    assert_eq!(Square::from_index(64), None);
    assert_eq!(Square::from_index(u64::MAX), None);
}

#[test]
fn from_str_reads_a_file_and_a_rank() {
    assert_eq!(Square::from_str("a1"), Some(Square::A1));
    assert_eq!(Square::from_str("e4"), Some(Square::E4));
    assert_eq!(Square::from_str("h8"), Some(Square::H8));
    assert_eq!(Square::from_str("E3"), Some(Square::E3));
    assert_eq!(Square::from_str("H1"), Some(Square::H1));
}

#[test]
fn from_str_refuses_everything_else() {
    assert_eq!(Square::from_str("-"), None);
    assert_eq!(Square::from_str(""), None);
    assert_eq!(Square::from_str("e"), None);
    assert_eq!(Square::from_str("e44"), None);
    assert_eq!(Square::from_str("i1"), None);
    assert_eq!(Square::from_str("a0"), None);
    assert_eq!(Square::from_str("a9"), None);
    assert_eq!(Square::from_str("4e"), None);
    assert_eq!(Square::from_str("\u{e9}"), None);
}

#[test]
fn from_bytes_agrees_with_from_str() {
    assert_eq!(Square::from_bytes(b"c6"), Some(Square::C6));
    assert_eq!(Square::from_bytes(b"c"), None);
    assert_eq!(Square::from_bytes(&[0x60, 0x31]), None);
    assert_eq!(Square::from_bytes(&[0x69, 0x31]), None);
}

#[test]
fn colors_index_the_pawn_tables() {
    assert_eq!(Color::White.index(), 0);
    assert_eq!(Color::Black.index(), 1);
    assert_ne!(Color::White, Color::Black);
}

#[test]
fn pieces_compare_by_kind_and_color() {
    let rook = Piece { kind: PieceType::Rook, color: Color::White };
    assert_eq!(rook, Piece { kind: PieceType::Rook, color: Color::White });
    assert_ne!(rook, Piece { kind: PieceType::Rook, color: Color::Black });
    assert_ne!(rook, Piece { kind: PieceType::Queen, color: Color::White });
}
