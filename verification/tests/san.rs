use hyperchess::board::Board;
use hyperchess::models::{PieceType, Player};
use hyperchess::san::{parse_san, SanError};

#[test]
fn test_parse_pawn_move() {
    let mut board =
        Board::from_fen("rnbqkbnr/pppppppp/8/8/8/8/PPPPPPPP/RNBQKBNR w KQkq - 0 1").unwrap();
    let mv = parse_san(&mut board, Player::White, "e4").unwrap();
    assert_eq!(mv.from.values.get(1), 4); // e-file
    assert_eq!(mv.from.values.get(0), 1); // rank 2
    assert_eq!(mv.to.values.get(1), 4); // e-file
    assert_eq!(mv.to.values.get(0), 3); // rank 4
}

#[test]
fn test_parse_knight_move() {
    let mut board =
        Board::from_fen("rnbqkbnr/pppppppp/8/8/8/8/PPPPPPPP/RNBQKBNR w KQkq - 0 1").unwrap();
    let mv = parse_san(&mut board, Player::White, "Nf3").unwrap();
    assert_eq!(mv.from.values.get(1), 6); // g-file
    assert_eq!(mv.to.values.get(1), 5); // f-file
    assert_eq!(mv.to.values.get(0), 2); // rank 3
}

#[test]
fn test_parse_capture() {
    // Position where pawn can capture
    let mut board =
        Board::from_fen("rnbqkbnr/ppp1pppp/8/3p4/4P3/8/PPPP1PPP/RNBQKBNR w KQkq d6 0 2").unwrap();
    let mv = parse_san(&mut board, Player::White, "exd5").unwrap();
    assert_eq!(mv.from.values.get(1), 4); // e-file
    assert_eq!(mv.to.values.get(1), 3); // d-file
    assert_eq!(mv.to.values.get(0), 4); // rank 5
}

#[test]
fn test_parse_castling_kingside() {
    let mut board = Board::from_fen("r3k2r/pppppppp/8/8/8/8/PPPPPPPP/R3K2R w KQkq - 0 1").unwrap();
    let mv = parse_san(&mut board, Player::White, "O-O").unwrap();
    assert_eq!(mv.from.values.get(1), 4); // king from e1
    assert_eq!(mv.to.values.get(1), 6); // king to g1
}

#[test]
fn test_parse_castling_queenside() {
    let mut board = Board::from_fen("r3k2r/pppppppp/8/8/8/8/PPPPPPPP/R3K2R w KQkq - 0 1").unwrap();
    let mv = parse_san(&mut board, Player::White, "O-O-O").unwrap();
    assert_eq!(mv.from.values.get(1), 4); // king from e1
    assert_eq!(mv.to.values.get(1), 2); // king to c1
}

#[test]
fn test_parse_promotion() {
    let mut board = Board::from_fen("8/4P3/8/8/8/8/8/4K2k w - - 0 1").unwrap();
    let mv = parse_san(&mut board, Player::White, "e8=Q").unwrap();
    assert_eq!(mv.to.values.get(0), 7); // rank 8
    assert_eq!(mv.promotion, Some(PieceType::Queen));
}

#[test]
fn test_parse_promotion_without_equals() {
    let mut board = Board::from_fen("8/4P3/8/8/8/8/8/4K2k w - - 0 1").unwrap();
    let mv = parse_san(&mut board, Player::White, "e8Q").unwrap();
    assert_eq!(mv.promotion, Some(PieceType::Queen));
}

#[test]
fn test_parse_with_check_annotation() {
    let mut board =
        Board::from_fen("rnbqkbnr/pppppppp/8/8/8/8/PPPPPPPP/RNBQKBNR w KQkq - 0 1").unwrap();
    // Nf3 with check annotation should still parse
    let mv = parse_san(&mut board, Player::White, "Nf3+");
    assert!(mv.is_ok());
}

#[test]
fn test_no_matching_move() {
    let mut board =
        Board::from_fen("rnbqkbnr/pppppppp/8/8/8/8/PPPPPPPP/RNBQKBNR w KQkq - 0 1").unwrap();
    assert!(parse_san(&mut board, Player::White, "Qd4").is_err());
}

#[test]
fn san_error_kinds() {
    let mut board =
        Board::from_fen("rnbqkbnr/pppppppp/8/8/8/8/PPPPPPPP/RNBQKBNR w KQkq - 0 1").unwrap();
    assert!(matches!(parse_san(&mut board, Player::White, "+#"), Err(SanError::InvalidFormat(_))));
    assert!(matches!(parse_san(&mut board, Player::White, "Xe4"), Err(SanError::InvalidFormat(_))));
    assert!(matches!(parse_san(&mut board, Player::White, "e9"), Err(SanError::InvalidFormat(_))));
    assert!(matches!(parse_san(&mut board, Player::White, "O-O"), Err(SanError::NoMatchingMove(_))));
    // Two knights can reach d2 once the pawn has moved: ambiguous without a source file.
    let mut b2 =
        Board::from_fen("rnbqkbnr/pppppppp/8/8/8/5N2/PPP1PPPP/RNBQKB1R w KQkq - 0 1").unwrap();
    assert!(matches!(parse_san(&mut b2, Player::White, "Nd2"), Err(SanError::AmbiguousMove(_))));
    let mv = parse_san(&mut b2, Player::White, "Nbd2").unwrap();
    assert_eq!(mv.from.values.get(1), 1);
    let mv = parse_san(&mut b2, Player::White, "Nfd2").unwrap();
    assert_eq!(mv.from.values.get(1), 5);
}

#[test]
fn legal_moves_of_the_start_position() {
    let mut board =
        Board::from_fen("rnbqkbnr/pppppppp/8/8/8/8/PPPPPPPP/RNBQKBNR w KQkq - 0 1").unwrap();
    let before = board.state.hash;
    let moves = board.generate_legal_moves(Player::White);
    assert_eq!(moves.len(), 20);
    assert_eq!(board.state.hash, before);
    let loud = board.generate_loud_moves(Player::White);
    assert_eq!(loud.len(), 0);
}

#[test]
fn pinned_piece_cannot_move() {
    // The white knight on e2 is pinned by the rook on e8.
    let mut board = Board::from_fen("4r2k/8/8/8/8/8/4N3/4K3 w - - 0 1").unwrap();
    let moves = board.generate_legal_moves(Player::White).into_vec();
    assert!(moves.iter().all(|m| !(m.from.values.get(0) == 1 && m.from.values.get(1) == 4)));
}
