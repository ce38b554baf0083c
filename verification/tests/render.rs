use magic_bitboards::board::{piece_for, Board};
use magic_bitboards::pieces::{Color, Piece, PieceType};
use magic_bitboards::render::{bitboard_text, board_text, symbol};

#[test]
fn symbols_are_the_fen_letters() {
    assert_eq!(symbol(Piece { kind: PieceType::Pawn, color: Color::White }), b'P');
    assert_eq!(symbol(Piece { kind: PieceType::Bishop, color: Color::White }), b'B');
    assert_eq!(symbol(Piece { kind: PieceType::Knight, color: Color::Black }), b'n');
    assert_eq!(symbol(Piece { kind: PieceType::Rook, color: Color::Black }), b'r');
    assert_eq!(symbol(Piece { kind: PieceType::Queen, color: Color::White }), b'Q');
    assert_eq!(symbol(Piece { kind: PieceType::King, color: Color::Black }), b'k');
}

#[test]
fn symbols_read_back_as_their_pieces() {
    for kind in [
        PieceType::Pawn,
        PieceType::Bishop,
        PieceType::Knight,
        PieceType::Rook,
        PieceType::Queen,
        PieceType::King,
    ] {
        for color in [Color::White, Color::Black] {
            let piece = Piece { kind, color };
            assert_eq!(piece_for(symbol(piece)), Some(piece));
        }
    }
}

#[test]
fn a_bitboard_is_shown_with_the_eighth_rank_first() {
    let text = String::from_utf8(bitboard_text(0x8000_0000_0000_0103)).expect("text");
    assert_eq!(
        text,
        "0 0 0 0 0 0 0 1 \n\
         0 0 0 0 0 0 0 0 \n\
         0 0 0 0 0 0 0 0 \n\
         0 0 0 0 0 0 0 0 \n\
         0 0 0 0 0 0 0 0 \n\
         0 0 0 0 0 0 0 0 \n\
         1 0 0 0 0 0 0 0 \n\
         1 1 0 0 0 0 0 0 \n"
    );
}

#[test]
fn the_starting_position_is_shown_with_black_on_top() {
    let text = String::from_utf8(board_text(&Board::default())).expect("text");
    assert_eq!(
        text,
        "r n b q k b n r \n\
         p p p p p p p p \n\
         . . . . . . . . \n\
         . . . . . . . . \n\
         . . . . . . . . \n\
         . . . . . . . . \n\
         P P P P P P P P \n\
         R N B Q K B N R \n"
    );
}
