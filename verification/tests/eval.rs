use hyperchess::board::Board;
use hyperchess::eval::Evaluator;
use hyperchess::geometry::shape_supported;
use hyperchess::mobility::count_piece_mobility;
use hyperchess::models::{Coordinate, Move, PieceType, Player};
use hyperchess::see::SEE;

fn coord(rank: u8, file: u8) -> Coordinate {
    Coordinate::new(vec![rank, file])
}

fn capture(from: (u8, u8), to: (u8, u8)) -> Move {
    Move { from: coord(from.0, from.1), to: coord(to.0, to.1), promotion: None }
}

#[test]
fn start_position_is_balanced() {
    let board = Board::new(2, 8);
    assert_eq!(Evaluator::evaluate(&board), 0);
}

#[test]
fn mirrored_material_edge_changes_sign() {
    let white_up = Board::from_fen("rnb1kbnr/pppppppp/8/8/8/8/PPPPPPPP/RNBQKBNR w KQkq - 0 1").unwrap();
    let black_up = Board::from_fen("rnbqkbnr/pppppppp/8/8/8/8/PPPPPPPP/RNB1KBNR w KQkq - 0 1").unwrap();
    let w = Evaluator::evaluate(&white_up);
    let b = Evaluator::evaluate(&black_up);
    assert!(w > 0);
    assert!(b < 0);
    assert_eq!(w, -b);
}

#[test]
fn middlegame_piece_values() {
    assert_eq!(Evaluator::piece_value_mg(PieceType::Knight), 320);
    assert_eq!(Evaluator::piece_value_mg(PieceType::Bishop), 330);
    assert_eq!(Evaluator::piece_value_mg(PieceType::Rook), 500);
    assert_eq!(Evaluator::piece_value_mg(PieceType::Queen), 900);
    assert_eq!(Evaluator::piece_value_mg(PieceType::Pawn), 0);
    assert_eq!(Evaluator::piece_value_mg(PieceType::King), 0);
}

#[test]
fn knight_mobility_from_the_corner_rank() {
    let board = Board::new(2, 8);
    // The knight on b1: cell [0, 1] = 0 + 1 * 8.
    assert_eq!(count_piece_mobility(&board, 8, PieceType::Knight), 2);
    // A rook boxed in by its own pieces has no move.
    assert_eq!(count_piece_mobility(&board, 0, PieceType::Rook), 0);
}

#[test]
fn exchange_of_an_undefended_pawn() {
    let board = Board::from_fen("4k3/8/8/3p4/4P3/8/8/4K3 w - - 0 1").unwrap();
    assert_eq!(SEE::static_exchange_evaluation(&board, &capture((3, 4), (4, 3))), 100);
}

#[test]
fn exchange_of_a_defended_pawn() {
    // d5 is defended by the knight on f6.
    let pawn_takes = Board::from_fen("4k3/8/5n2/3p4/4P3/8/8/4K3 w - - 0 1").unwrap();
    assert_eq!(SEE::static_exchange_evaluation(&pawn_takes, &capture((3, 4), (4, 3))), 0);
    let knight_takes = Board::from_fen("4k3/8/5n2/3p4/8/2N5/8/4K3 w - - 0 1").unwrap();
    assert_eq!(SEE::static_exchange_evaluation(&knight_takes, &capture((2, 2), (4, 3))), -220);
}

#[test]
fn quiet_move_has_no_exchange() {
    let board = Board::new(2, 8);
    assert_eq!(SEE::static_exchange_evaluation(&board, &capture((1, 4), (3, 4))), 0);
}

#[test]
fn cheapest_attacker_comes_first() {
    let board = Board::from_fen("4k3/8/5n2/3p4/8/2N5/8/3QK3 w - - 0 1").unwrap();
    // d5 ([4, 3]) is attacked by the knight on c3 ([2, 2]) and the queen on d1 ([0, 3]).
    assert_eq!(board.get_smallest_attacker(&coord(4, 3), Player::White), Some((320, 2 + 2 * 8)));
    // e4 ([3, 4]) is attacked by the pawn on d5 ([4, 3]) and the knight on f6 ([5, 5]).
    assert_eq!(board.get_smallest_attacker(&coord(3, 4), Player::Black), Some((100, 4 + 3 * 8)));
    // c4 ([3, 2]) is attacked by the pawn on d5 only.
    assert_eq!(board.get_smallest_attacker(&coord(3, 2), Player::Black), Some((100, 4 + 3 * 8)));
    // Nothing of Black's reaches d4 ([3, 3]).
    assert_eq!(board.get_smallest_attacker(&coord(3, 3), Player::Black), None);
}

#[test]
fn evaluation_checks() {
    let board = Board::new(2, 8);
    assert!(Evaluator::fits(&board));
    assert_eq!(Evaluator::try_evaluate(&board), Some(0));
    let copy = board.duplicate();
    assert_eq!(Evaluator::evaluate(&copy), 0);
    assert!(board.is_sound());
}

#[test]
fn supported_shapes() {
    assert!(shape_supported(2, 8));
    assert!(shape_supported(4, 8));
    assert!(!shape_supported(1, 8));
    assert!(!shape_supported(2, 0));
    assert!(!shape_supported(2, 257));
    assert!(!shape_supported(17, 2));
    // 8^8 cells is past the 2^22 the library handles.
    assert!(!shape_supported(8, 8));
}

#[test]
fn pawn_attackers_are_found() {
    let board = Board::from_fen("4k3/8/2p5/3n4/4P3/8/8/4K3 w - - 0 1").unwrap();
    // d5 ([4, 3]) is attacked by the black pawn on c6 ([5, 2]) and the white pawn on e4 ([3, 4]).
    assert_eq!(board.get_smallest_attacker(&coord(4, 3), Player::Black), Some((100, 5 + 2 * 8)));
    assert_eq!(board.get_smallest_attacker(&coord(4, 3), Player::White), Some((100, 3 + 4 * 8)));
    // exd5 wins the knight, c6xd5 wins the pawn back.
    assert_eq!(SEE::static_exchange_evaluation(&board, &capture((3, 4), (4, 3))), 220);
}
