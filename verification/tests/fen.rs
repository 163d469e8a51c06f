use hyperchess::board::Board;
use hyperchess::fen::{char_to_piece, parse_castling, parse_en_passant, parse_u16, FenError};
use hyperchess::models::{Piece, PieceType, Player};

#[test]
fn test_startpos() {
    let board =
        Board::from_fen("rnbqkbnr/pppppppp/8/8/8/8/PPPPPPPP/RNBQKBNR w KQkq - 0 1").unwrap();

    // White pieces on rank 0
    let expected = Board::new(2, 8);
    for idx in 0..64 {
        assert_eq!(
            board.pieces.get_piece_at_index(idx),
            expected.pieces.get_piece_at_index(idx),
            "Mismatch at index {idx}"
        );
    }
    assert_eq!(board.state.castling_rights, 0xF);
    assert_eq!(board.state.en_passant_target, None);
    assert_eq!(board.state.halfmove_clock, 0);
    assert_eq!(board.state.fullmove_number, 1);
}

#[test]
fn test_after_e4() {
    let board =
        Board::from_fen("rnbqkbnr/pppppppp/8/8/4P3/8/PPPP1PPP/RNBQKBNR b KQkq e3 0 1").unwrap();

    // e4 pawn at [3, 4] → index = 3 + 4*8 = 35
    let piece = board.pieces.get_piece_at_index(3 + 4 * 8).unwrap();
    assert_eq!(piece.piece_type, PieceType::Pawn);
    assert_eq!(piece.owner, Player::White);

    // e2 should be empty: [1, 4] → index = 1 + 4*8 = 33
    assert!(board.pieces.get_piece_at_index(1 + 4 * 8).is_none());

    // En passant target is e3 = [2, 4] → 2 + 4*8 = 34
    // victim is e4 = [3, 4] → 3 + 4*8 = 35
    assert_eq!(board.state.en_passant_target, Some((34, 35)));
}

#[test]
fn test_partial_castling() {
    let board =
        Board::from_fen("rnbqkbnr/pppppppp/8/8/8/8/PPPPPPPP/RNBQKBNR w Kq - 0 1").unwrap();
    assert_eq!(board.state.castling_rights, 0x1 | 0x8); // WK + Bq
}

#[test]
fn test_no_castling() {
    let board =
        Board::from_fen("rnbqkbnr/pppppppp/8/8/8/8/PPPPPPPP/RNBQKBNR w - - 0 1").unwrap();
    assert_eq!(board.state.castling_rights, 0);
}

#[test]
fn test_kiwipete() {
    // A famous test position
    let board =
        Board::from_fen("r3k2r/p1ppqpb1/bn2pnp1/3PN3/1p2P3/2N2Q1p/PPPBBPPP/R3K2R w KQkq - 0 1")
            .unwrap();

    // White knight on e5 = [4, 4] → index = 4 + 4*8 = 36
    let piece = board.pieces.get_piece_at_index(4 + 4 * 8).unwrap();
    assert_eq!(piece.piece_type, PieceType::Knight);
    assert_eq!(piece.owner, Player::White);

    // Black bishop on a6 = [5, 0] → index = 5 + 0*8 = 5
    let piece = board.pieces.get_piece_at_index(5).unwrap();
    assert_eq!(piece.piece_type, PieceType::Bishop);
    assert_eq!(piece.owner, Player::Black);
}

#[test]
fn test_invalid_fen_field_count() {
    assert!(Board::from_fen("rnbqkbnr/pppppppp/8/8/8/8/PPPPPPPP/RNBQKBNR w").is_err());
}

#[test]
fn test_invalid_piece_char() {
    assert!(
        Board::from_fen("xnbqkbnr/pppppppp/8/8/8/8/PPPPPPPP/RNBQKBNR w KQkq - 0 1").is_err()
    );
}

#[test]
fn fen_error_kinds() {
    assert!(matches!(
        Board::from_fen("8/8/8/8/8/8/8 w - - 0 1"),
        Err(FenError::InvalidRankCount { expected: 8, got: 7 })
    ));
    assert!(matches!(
        Board::from_fen("9p/8/8/8/8/8/8/8 w - - 0 1"),
        Err(FenError::RankOverflow { rank: 7, file: 9 })
    ));
    match Board::from_fen("8/8/8/8/8/8/8/8 x - - 0 1") {
        Err(FenError::InvalidSideToMove(s)) => assert_eq!(s, "x"),
        _ => panic!("expected a side-to-move error"),
    }
    assert!(matches!(
        Board::from_fen("8/8/8/8/8/8/8/8 w KX - 0 1"),
        Err(FenError::InvalidCastling('X'))
    ));
    match Board::from_fen("8/8/8/8/8/8/8/8 w - e4 0 1") {
        Err(FenError::InvalidEnPassant(s)) => assert_eq!(s, "e4"),
        _ => panic!("expected an en-passant error"),
    }
    match Board::from_fen("8/8/8/8/8/8/8/8 w - - 70000 1") {
        Err(FenError::InvalidHalfmoveClock(s)) => assert_eq!(s, "70000"),
        _ => panic!("expected a halfmove error"),
    }
    match Board::from_fen("8/8/8/8/8/8/8/8 w - - 0 -1") {
        Err(FenError::InvalidFullmoveNumber(s)) => assert_eq!(s, "-1"),
        _ => panic!("expected a fullmove error"),
    }
}

#[test]
fn fen_fields_split_on_any_whitespace() {
    let board = Board::from_fen("  4k3/8/8/8/8/8/8/4K3\tb\u{a0}-  -\n+7 12 ").unwrap();
    assert_eq!(board.state.halfmove_clock, 7);
    assert_eq!(board.state.fullmove_number, 12);
    let king = board.pieces.get_piece_at_index(4 * 8).unwrap();
    assert_eq!(king, Piece { piece_type: PieceType::King, owner: Player::White });
}

#[test]
fn fen_field_parsers() {
    assert_eq!(char_to_piece('q').unwrap(), Piece { piece_type: PieceType::Queen, owner: Player::Black });
    assert_eq!(char_to_piece('N').unwrap(), Piece { piece_type: PieceType::Knight, owner: Player::White });
    assert!(matches!(char_to_piece('z'), Err(FenError::InvalidPiece('z'))));
    assert_eq!(parse_castling("-").unwrap(), 0);
    assert_eq!(parse_castling("Qk").unwrap(), 6);
    assert_eq!(parse_en_passant("-").unwrap(), None);
    assert_eq!(parse_en_passant("a6").unwrap(), Some((5, 4)));
    assert_eq!(parse_en_passant("h3").unwrap(), Some((2 + 7 * 8, 3 + 7 * 8)));
    assert!(parse_en_passant("i3").is_err());
    assert_eq!(parse_u16("65535"), Some(65535));
    assert_eq!(parse_u16("+12"), Some(12));
    assert_eq!(parse_u16("65536"), None);
    assert_eq!(parse_u16("+"), None);
    assert_eq!(parse_u16(""), None);
    assert_eq!(parse_u16("1a"), None);
}
