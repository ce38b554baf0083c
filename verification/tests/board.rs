use magic_bitboards::board::{piece_for, Board, FenError, START_RECORD};
use magic_bitboards::castling::CastlingRights;
use magic_bitboards::fen::{parse_clock, split_fields};
use magic_bitboards::pieces::{Color, Piece, PieceType};
use magic_bitboards::squares::Square;

fn piece(kind: PieceType, color: Color) -> Option<Piece> {
    Some(Piece { kind, color })
}

#[test]
fn split_fields_cuts_at_every_space() {
    assert_eq!(
        split_fields(b"ab c  d"),
        vec![b"ab".to_vec(), b"c".to_vec(), b"".to_vec(), b"d".to_vec()]
    );
    assert_eq!(split_fields(b""), vec![b"".to_vec()]);
    assert_eq!(split_fields(b" "), vec![b"".to_vec(), b"".to_vec()]);
    assert_eq!(split_fields(b"abc"), vec![b"abc".to_vec()]);
}

#[test]
fn parse_clock_reads_decimal_numbers() {
    assert_eq!(parse_clock(b"0"), Some(0));
    assert_eq!(parse_clock(b"1"), Some(1));
    assert_eq!(parse_clock(b"50"), Some(50));
    assert_eq!(parse_clock(b"007"), Some(7));
    assert_eq!(parse_clock(b"+12"), Some(12));
    assert_eq!(parse_clock(b"65535"), Some(65535));
}

#[test]
fn parse_clock_refuses_what_is_no_clock() {
    assert_eq!(parse_clock(b""), None);
    assert_eq!(parse_clock(b"+"), None);
    assert_eq!(parse_clock(b"-1"), None);
    assert_eq!(parse_clock(b"1a"), None);
    assert_eq!(parse_clock(b" 1"), None);
    assert_eq!(parse_clock(b"65536"), None);
    assert_eq!(parse_clock(b"99999999999999999999"), None);
}

#[test]
fn parse_clock_agrees_with_the_standard_parser() {
    for text in ["0", "9", "10", "+5", "65535", "65536", "", "+", "x", "1 ", "0x10", "++1"] {
        assert_eq!(parse_clock(text.as_bytes()), text.parse::<u16>().ok(), "{}", text);
    }
}

#[test]
fn piece_letters() {
    assert_eq!(piece_for(b'P'), piece(PieceType::Pawn, Color::White));
    assert_eq!(piece_for(b'n'), piece(PieceType::Knight, Color::Black));
    assert_eq!(piece_for(b'B'), piece(PieceType::Bishop, Color::White));
    assert_eq!(piece_for(b'r'), piece(PieceType::Rook, Color::Black));
    assert_eq!(piece_for(b'Q'), piece(PieceType::Queen, Color::White));
    assert_eq!(piece_for(b'k'), piece(PieceType::King, Color::Black));
    assert_eq!(piece_for(b'x'), None);
    assert_eq!(piece_for(b'/'), None);
    assert_eq!(piece_for(b'1'), None);
}

#[test]
fn the_empty_board_has_no_pieces() {
    let board = Board::empty();
    assert!(board.squares.iter().all(|square| square.is_none()));
    assert_eq!(board.pieces, [0; 6]);
    assert_eq!(board.colors, [0; 2]);
    assert_eq!(board.active_color, Color::White);
    assert_eq!(board.castling_rights, CastlingRights::none());
    assert_eq!(board.en_passant, None);
    assert_eq!(board.halfmove_clock, 0);
    assert_eq!(board.fullmove_clock, 1);
}

#[test]
fn the_default_board_is_the_starting_position() {
    let board = Board::default();
    assert_eq!(board.squares[0], piece(PieceType::Rook, Color::White));
    assert_eq!(board.squares[4], piece(PieceType::King, Color::White));
    assert_eq!(board.squares[3], piece(PieceType::Queen, Color::White));
    assert_eq!(board.squares[12], piece(PieceType::Pawn, Color::White));
    assert_eq!(board.squares[28], None);
    assert_eq!(board.squares[52], piece(PieceType::Pawn, Color::Black));
    assert_eq!(board.squares[57], piece(PieceType::Knight, Color::Black));
    assert_eq!(board.squares[60], piece(PieceType::King, Color::Black));
    assert_eq!(board.squares[63], piece(PieceType::Rook, Color::Black));
    assert_eq!(board.pieces[PieceType::Pawn.index()], 0x00ff_0000_0000_ff00);
    assert_eq!(board.pieces[PieceType::Bishop.index()], 0x2400_0000_0000_0024);
    assert_eq!(board.pieces[PieceType::Knight.index()], 0x4200_0000_0000_0042);
    assert_eq!(board.pieces[PieceType::Rook.index()], 0x8100_0000_0000_0081);
    assert_eq!(board.pieces[PieceType::Queen.index()], 0x0800_0000_0000_0008);
    assert_eq!(board.pieces[PieceType::King.index()], 0x1000_0000_0000_0010);
    assert_eq!(board.colors[Color::White.index()], 0x0000_0000_0000_ffff);
    assert_eq!(board.colors[Color::Black.index()], 0xffff_0000_0000_0000);
    assert_eq!(board.active_color, Color::White);
    assert_eq!(board.castling_rights, CastlingRights::all());
    assert_eq!(board.en_passant, None);
    assert_eq!(board.halfmove_clock, 0);
    assert_eq!(board.fullmove_clock, 1);
}

#[test]
fn the_starting_record_reads_as_the_default_board() {
    assert_eq!(Board::from_fen(START_RECORD), Ok(Board::default()));
    assert_eq!(Board::starting(), Board::default());
}

#[test]
fn a_record_after_1_e4_c5_2_nf3() {
    let board =
        Board::from_fen("rnbqkbnr/pp1ppppp/8/2p5/4P3/5N2/PPPP1PPP/RNBQKB1R b KQkq - 1 2")
            .expect("a board");
    assert_eq!(board.squares[28], piece(PieceType::Pawn, Color::White));
    assert_eq!(board.squares[12], None);
    assert_eq!(board.squares[34], piece(PieceType::Pawn, Color::Black));
    assert_eq!(board.squares[21], piece(PieceType::Knight, Color::White));
    assert_eq!(board.squares[6], None);
    assert_eq!(board.active_color, Color::Black);
    assert_eq!(board.castling_rights, CastlingRights::all());
    assert_eq!(board.halfmove_clock, 1);
    assert_eq!(board.fullmove_clock, 2);
    assert_eq!(board.colors[0] & board.colors[1], 0);
    assert_eq!(board.colors[0].count_ones(), 16);
    assert_eq!(board.colors[1].count_ones(), 16);
}

#[test]
fn a_record_with_an_en_passant_square_and_partial_castling() {
    let board = Board::from_fen("4k3/8/8/8/4P3/8/8/R3K3 b Q e3 0 30").expect("a board");
    assert_eq!(board.en_passant, Some(Square::E3));
    assert_eq!(
        board.castling_rights,
        CastlingRights {
            white_kingside: false,
            white_queenside: true,
            black_kingside: false,
            black_queenside: false,
        }
    );
    assert_eq!(board.castling_rights.bits(), 2);
    assert_eq!(board.fullmove_clock, 30);
    assert_eq!(board.pieces[PieceType::King.index()], (1 << 60) | (1 << 4));
    assert_eq!(board.pieces[PieceType::Rook.index()], 1);
}

#[test]
fn a_record_needs_six_fields() {
    assert_eq!(Board::from_fen(""), Err(FenError::FieldCount));
    assert_eq!(
        Board::from_fen("8/8/8/8/8/8/8/8 w - - 0"),
        Err(FenError::FieldCount)
    );
    assert_eq!(
        Board::from_fen("8/8/8/8/8/8/8/8 w - - 0 1 x"),
        Err(FenError::FieldCount)
    );
    assert_eq!(
        Board::from_fen("8/8/8/8/8/8/8/8  w - - 0 1"),
        Err(FenError::FieldCount)
    );
}

#[test]
fn a_record_needs_two_clocks() {
    assert_eq!(
        Board::from_fen("8/8/8/8/8/8/8/8 w - - x 1"),
        Err(FenError::Clock)
    );
    assert_eq!(
        Board::from_fen("8/8/8/8/8/8/8/8 w - - 0 70000"),
        Err(FenError::Clock)
    );
    assert_eq!(
        Board::from_fen("8/8/8/8/8/8/8/8 w - - 0 "),
        Err(FenError::Clock)
    );
}

#[test]
fn unknown_fields_keep_the_defaults() {
    let board = Board::from_fen("8/8/8/8/8/8/8/8 x - zz 3 4").expect("a board");
    assert_eq!(board.active_color, Color::White);
    assert_eq!(board.castling_rights, CastlingRights::none());
    assert_eq!(board.en_passant, None);
    assert_eq!(board.halfmove_clock, 3);
    assert_eq!(board.fullmove_clock, 4);
    assert_eq!(board.squares, Board::empty().squares);
}

#[test]
fn placement_passes_over_what_it_cannot_place() {
    let mut board = Board::empty();
    board.parse_pieces("rx?r/9K/PPPPPPPPPP");
    assert_eq!(board.squares[56], piece(PieceType::Rook, Color::Black));
    assert_eq!(board.squares[57], piece(PieceType::Rook, Color::Black));
    assert_eq!(board.pieces[PieceType::King.index()], 0);
    assert_eq!(board.pieces[PieceType::Pawn.index()], 0x0000_ff00_0000_0000);
    assert_eq!(board.colors[0], 0x0000_ff00_0000_0000);
    assert_eq!(board.colors[1], 0x0300_0000_0000_0000);
}

#[test]
fn slashes_after_the_eighth_row_are_passed_over() {
    let mut board = Board::empty();
    board.parse_pieces("8/8/8/8/8/8/8/K/q/r");
    assert_eq!(board.squares[0], piece(PieceType::King, Color::White));
    assert_eq!(board.squares[1], piece(PieceType::Queen, Color::Black));
    assert_eq!(board.squares[2], piece(PieceType::Rook, Color::Black));
    assert_eq!(board.colors[0] | board.colors[1], 0b111);
}

#[test]
fn put_replaces_the_piece_on_a_square() {
    let mut board = Board::default();
    board.put(0, Piece { kind: PieceType::Queen, color: Color::Black });
    assert_eq!(board.squares[0], piece(PieceType::Queen, Color::Black));
    assert_eq!(board.pieces[PieceType::Rook.index()], 0x8100_0000_0000_0080);
    assert_eq!(board.pieces[PieceType::Queen.index()], 0x0800_0000_0000_0009);
    assert_eq!(board.colors[0], 0x0000_0000_0000_fffe);
    assert_eq!(board.colors[1], 0xffff_0000_0000_0001);
}

#[test]
fn field_parsers_change_one_field_each() {
    let mut board = Board::default();
    board.parse_active_color("b");
    assert_eq!(board.active_color, Color::Black);
    board.parse_active_color("?");
    assert_eq!(board.active_color, Color::Black);
    board.parse_active_color("w");
    assert_eq!(board.active_color, Color::White);
    board.parse_castling_availabilty("");
    assert_eq!(board.castling_rights, CastlingRights::none());
    board.parse_castling_availabilty("-");
    assert_eq!(board.castling_rights, CastlingRights::none());
    board.parse_castling_availabilty("kQ");
    assert_eq!(board.castling_rights.bits(), 6);
    board.parse_castling_availabilty("K");
    assert_eq!(board.castling_rights.bits(), 7);
    board.parse_castling_availabilty("KQkq");
    assert_eq!(board.castling_rights, CastlingRights::all());
    board.parse_enpassant("c6");
    assert_eq!(board.en_passant, Some(Square::C6));
    board.parse_enpassant("-");
    assert_eq!(board.en_passant, None);
    assert_eq!(board.parse_halfmove_clock("17"), Ok(()));
    assert_eq!(board.halfmove_clock, 17);
    assert_eq!(board.parse_halfmove_clock("?"), Err(FenError::Clock));
    assert_eq!(board.halfmove_clock, 17);
    assert_eq!(board.parse_fullmove_clock("200"), Ok(()));
    assert_eq!(board.fullmove_clock, 200);
    assert_eq!(board.parse_fullmove_clock(""), Err(FenError::Clock));
    assert_eq!(board.fullmove_clock, 200);
    assert_eq!(board.squares, Board::default().squares);
}

#[test]
fn castling_rights_combine() {
    let white = CastlingRights {
        white_kingside: true,
        white_queenside: true,
        black_kingside: false,
        black_queenside: false,
    };
    let black = CastlingRights {
        white_kingside: false,
        white_queenside: false,
        black_kingside: true,
        black_queenside: true,
    };
    assert_eq!(white.bits(), 3);
    assert_eq!(black.bits(), 12);
    assert_eq!(white.union(black), CastlingRights::all());
    assert_eq!(CastlingRights::none().bits(), 0);
    assert_eq!(CastlingRights::all().bits(), 15);
    assert!(CastlingRights::all().contains(white));
    assert!(white.contains(CastlingRights::none()));
    assert!(!white.contains(black));
    assert!(white.contains(white));
}
