use hyperchess::board::Board;
use hyperchess::minimax::{get_best_move, minimax, search_subset, update_history, SearchTables, LMR_TABLE_SIZE};
use hyperchess::models::{Coordinate, Move, Piece, Player};
use hyperchess::search_core::{get_piece_value, minimax_shallow, q_search, SCORE_LIMIT};
use hyperchess::transposition::LockFreeTT;
use std::sync::atomic::{AtomicBool, AtomicUsize};

fn snapshot(board: &Board) -> (u64, Vec<Option<Piece>>) {
    (board.state.hash, (0..board.total_cells()).map(|i| board.get_piece_at_index(i)).collect())
}

fn squares(m: &Move) -> (Vec<u8>, Vec<u8>) {
    ((0..m.from.values.dim()).map(|d| m.from.values.get(d)).collect(), (0..m.to.values.dim()).map(|d| m.to.values.get(d)).collect())
}

fn lmr() -> Vec<Vec<i32>> {
    vec![vec![1; LMR_TABLE_SIZE]; LMR_TABLE_SIZE]
}

#[test]
fn piece_values_by_kind() {
    let board = Board::new(2, 8);
    // a1 holds a rook, b1 a knight, e1 the king, a2 a pawn, d4 nothing.
    assert_eq!(get_piece_value(&board, 0), 500);
    assert_eq!(get_piece_value(&board, 8), 320);
    assert_eq!(get_piece_value(&board, 32), 20000);
    assert_eq!(get_piece_value(&board, 1), 100);
    assert_eq!(get_piece_value(&board, 3 + 3 * 8), 0);
}

#[test]
fn history_bonus_and_gravity() {
    assert_eq!(update_history(0, 100), 100);
    assert_eq!(update_history(7183, 7183), 7183);
    // 1000 + 500 - 1000 * 500 / 7183 (69).
    assert_eq!(update_history(1000, 500), 1431);
    assert_eq!(update_history(-1000, -500), -1431);
    assert_eq!(update_history(0, 99_999), 7183);
}

#[test]
fn mated_side_scores_the_mate() {
    // After 1. f3 e5 2. g4 Qh4#, White is mated.
    let mut board = Board::from_fen("rnb1kbnr/pppp1ppp/8/4p3/6Pq/5P2/PPPPP2P/RNBQKBNR w KQkq - 1 3").unwrap();
    let nodes = AtomicUsize::new(0);
    let stop = AtomicBool::new(false);
    let (r, stopped) = minimax_shallow(&mut board, 2, -SCORE_LIMIT, SCORE_LIMIT, Player::White, &nodes, &stop, None);
    assert!(!stopped);
    assert_eq!(r, -30000 + 98);
    let tt = LockFreeTT::new(1);
    let mut tables = SearchTables::new(4, board.total_cells());
    let (r, _) = minimax(&mut board, 2, -SCORE_LIMIT, SCORE_LIMIT, Player::White, 3, true, Some(&tt), &lmr(), &mut tables, &nodes, &stop);
    assert_eq!(r, -30000 + 3);
    let (none, _) = get_best_move(&mut board, Player::White, 2, Some(&tt), &lmr(), &mut tables, &nodes, &stop);
    assert!(none.is_none());
}

#[test]
fn stalemate_is_a_draw() {
    let mut board = Board::from_fen("7k/5Q2/6K1/8/8/8/8/8 b - - 0 1").unwrap();
    let nodes = AtomicUsize::new(0);
    let stop = AtomicBool::new(false);
    assert_eq!(minimax_shallow(&mut board, 1, -SCORE_LIMIT, SCORE_LIMIT, Player::Black, &nodes, &stop, None).0, 0);
    let tt = LockFreeTT::new(1);
    let mut tables = SearchTables::new(4, board.total_cells());
    let (r, _) = minimax(&mut board, 2, -SCORE_LIMIT, SCORE_LIMIT, Player::Black, 0, false, Some(&tt), &lmr(), &mut tables, &nodes, &stop);
    assert_eq!(r, 0);
}

#[test]
fn engine_finds_back_rank_mate() {
    let mut board = Board::from_fen("6k1/5ppp/8/8/8/8/5PPP/R5K1 w - - 0 1").unwrap();
    let before = snapshot(&board);
    let nodes = AtomicUsize::new(0);
    let stop = AtomicBool::new(false);
    let tt = LockFreeTT::new(1);
    let mut tables = SearchTables::new(3, board.total_cells());
    let mv = get_best_move(&mut board, Player::White, 3, Some(&tt), &lmr(), &mut tables, &nodes, &stop).0.unwrap();
    assert_eq!(squares(&mv), (vec![0, 0], vec![7, 0]));
    assert_eq!(snapshot(&board), before);
}

#[test]
fn quiescence_keeps_the_position() {
    let mut board = Board::from_fen("4k3/8/2p5/3n4/4P3/8/8/4K3 w - - 0 1").unwrap();
    let before = snapshot(&board);
    let nodes = AtomicUsize::new(0);
    let stop = AtomicBool::new(false);
    let (r, _) = q_search(&mut board, -SCORE_LIMIT, SCORE_LIMIT, Player::White, &nodes, &stop, None);
    assert!(r >= -SCORE_LIMIT && r <= SCORE_LIMIT);
    assert_eq!(snapshot(&board), before);
}

#[test]
fn subset_search_picks_among_given_moves() {
    let board = Board::from_fen("6k1/5ppp/8/8/8/8/5PPP/R5K1 w - - 0 1").unwrap();
    let nodes = AtomicUsize::new(0);
    let stop = AtomicBool::new(false);
    let tt = LockFreeTT::new(1);
    let mut tables = SearchTables::new(2, board.total_cells());
    let quiet = Move { from: Coordinate::new(vec![0, 0]), to: Coordinate::new(vec![1, 0]), promotion: None };
    let mate = Move { from: Coordinate::new(vec![0, 0]), to: Coordinate::new(vec![7, 0]), promotion: None };
    let (i, score, stopped) = search_subset(&board, Player::White, &vec![quiet, mate], 2, Some(&tt), &lmr(), &mut tables, &nodes, &stop).unwrap();
    assert_eq!(i, 1);
    assert_eq!(score, 30000 - 1);
    assert!(!stopped);
    assert!(search_subset(&board, Player::White, &vec![], 2, Some(&tt), &lmr(), &mut tables, &nodes, &stop).is_none());
}

#[test]
fn deeper_search_keeps_the_mate_and_the_position() {
    let mut board = Board::from_fen("6k1/5ppp/8/8/8/8/5PPP/R5K1 w - - 0 1").unwrap();
    let before = snapshot(&board);
    let nodes = AtomicUsize::new(0);
    let stop = AtomicBool::new(false);
    let tt = LockFreeTT::new(4);
    let mut tables = SearchTables::new(6, board.total_cells());
    let mv = get_best_move(&mut board, Player::White, 5, Some(&tt), &lmr(), &mut tables, &nodes, &stop).0.unwrap();
    assert_eq!(squares(&mv), (vec![0, 0], vec![7, 0]));
    assert_eq!(snapshot(&board), before);
    assert!(nodes.load(std::sync::atomic::Ordering::Relaxed) > 0);
}

#[test]
fn stop_request_answers_zero() {
    let mut board = Board::new(2, 8);
    let nodes = AtomicUsize::new(0);
    let stop = AtomicBool::new(true);
    let tt = LockFreeTT::new(1);
    let mut tables = SearchTables::new(4, board.total_cells());
    let r = minimax(&mut board, 3, -SCORE_LIMIT, SCORE_LIMIT, Player::White, 0, true, Some(&tt), &lmr(), &mut tables, &nodes, &stop);
    assert_eq!(r, (0, true));
    let (q, q_stopped) = q_search(&mut board, -SCORE_LIMIT, SCORE_LIMIT, Player::White, &nodes, &stop, None);
    assert!(q_stopped || q == 0 || q >= -SCORE_LIMIT);
    assert_eq!(minimax_shallow(&mut board, 2, -i32::MAX, i32::MAX, Player::White, &nodes, &stop, None), (0, true));
}

#[test]
fn shallow_search_full_window_mate_and_stalemate() {
    let nodes = AtomicUsize::new(0);
    let stop = AtomicBool::new(false);
    let mut mated = Board::from_fen("R5k1/5ppp/8/8/8/8/8/6K1 b - - 0 1").unwrap();
    let mut stalemated = Board::from_fen("7k/5Q2/6K1/8/8/8/8/8 b - - 0 1").unwrap();
    assert_eq!(minimax_shallow(&mut mated, 1, -i32::MAX, i32::MAX, Player::Black, &nodes, &stop, None), (-30000 + (100 - 1), false));
    assert_eq!(minimax_shallow(&mut stalemated, 1, -i32::MAX, i32::MAX, Player::Black, &nodes, &stop, None), (0, false));
}

#[test]
fn principal_search_without_table() {
    let mut board = Board::from_fen("6k1/5ppp/8/8/8/8/5PPP/R5K1 w - - 0 1").unwrap();
    let before = snapshot(&board);
    let nodes = AtomicUsize::new(0);
    let stop = AtomicBool::new(false);
    let mut tables = SearchTables::new(4, board.total_cells());
    // Ra1-a8 mates at once: the root side scores mating one ply deeper.
    let (r, stopped) = minimax(&mut board, 2, -i32::MAX, i32::MAX, Player::White, 0, true, None, &lmr(), &mut tables, &nodes, &stop);
    assert!(!stopped);
    assert_eq!(r, 30000 - 1);
    assert_eq!(snapshot(&board), before);
    let (mv, stopped) = get_best_move(&mut board, Player::White, 3, None, &lmr(), &mut tables, &nodes, &stop);
    assert!(!stopped);
    let mv = mv.unwrap();
    assert_eq!(squares(&mv), (vec![0, 0], vec![7, 0]));
}

#[test]
fn quiescence_takes_a_hanging_queen() {
    // White to move takes the undefended queen on d5 with the pawn on e4.
    let mut board = Board::from_fen("4k3/8/8/3q4/4P3/8/8/4K3 w - - 0 1").unwrap();
    let nodes = AtomicUsize::new(0);
    let stop = AtomicBool::new(false);
    let (stand, _) = q_search(&mut board, i32::MAX - 1, i32::MAX, Player::White, &nodes, &stop, None);
    assert_eq!(stand, i32::MAX - 1);
    let (lo, _) = q_search(&mut board, -i32::MAX, i32::MAX, Player::White, &nodes, &stop, None);
    let (hi, _) = q_search(&mut board, -i32::MAX, i32::MAX, Player::Black, &nodes, &stop, None);
    // Without the capture White would stand a queen down; Black to move keeps the queen.
    assert!(lo > -500);
    assert!(hi > 500);
}
