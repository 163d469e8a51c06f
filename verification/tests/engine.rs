use hyperchess::bitboard_large::BitBoardLarge;
use hyperchess::pieces::PieceMap;
use hyperchess::board::Board;
use hyperchess::coords::{coords_to_index, index_to_coords};
use hyperchess::game::{Game, GameError};
use hyperchess::models::{Coordinate, GameResult, Move, Piece, PieceType, Player};
use hyperchess::rules::Rules;
use hyperchess::transposition::{Flag, LockFreeTT, PackedMove};

#[test]
fn packed_move_round_trip() {
    let m = PackedMove { from_idx: 12, to_idx: 345, promotion: 0 };
    let w = m.to_u32();
    assert_eq!(w, 12 | (345 << 16));
    let back = PackedMove::from_u32(w);
    assert_eq!(back.from_idx, 12);
    assert_eq!(back.to_idx, 345);
    assert_eq!(back.promotion, 0);
}

#[test]
fn entry_round_trip_and_clamping() {
    let m = PackedMove { from_idx: 7, to_idx: 1000, promotion: 3 };
    let data = LockFreeTT::encode_data(40000, 9, Flag::LowerBound, Some(m), true, 70);
    let (score, depth, flag, mv) = LockFreeTT::decode_data(data);
    assert_eq!(score, 32766);
    assert_eq!(depth, 9);
    assert_eq!(flag, Flag::LowerBound);
    let mv = mv.unwrap();
    assert_eq!((mv.from_idx, mv.to_idx, mv.promotion), (7, 1000, 3));
    assert_eq!(LockFreeTT::extract_generation(data), 70 & 0x3F);
    let data = LockFreeTT::encode_data(-40000, 0, Flag::UpperBound, None, false, 0);
    let (score, _, flag, mv) = LockFreeTT::decode_data(data);
    assert_eq!(score, -32767);
    assert_eq!(flag, Flag::UpperBound);
    assert!(mv.is_none());
}

#[test]
fn table_store_and_probe() {
    let mut tt = LockFreeTT::new(1);
    assert_eq!(tt.generation(), 0);
    assert!(tt.get(42).is_none());
    tt.store(42, -15, 6, Flag::Exact, Some(PackedMove { from_idx: 1, to_idx: 2, promotion: 0 }));
    let (score, depth, flag, mv) = tt.get(42).unwrap();
    assert_eq!((score, depth, flag), (-15, 6, Flag::Exact));
    assert_eq!(mv.unwrap().to_idx, 2);
    tt.store_with_pv(43, 5, 1, Flag::Exact, None, true);
    let full = tt.get_full(43).unwrap();
    assert!(full.4);
    assert!(tt.hashfull() <= 1000);
    tt.new_search();
    assert_eq!(tt.generation(), 1);
    assert_eq!(tt.relative_age(0), 1);
    for _ in 0..63 {
        tt.new_search();
    }
    assert_eq!(tt.generation(), 0);
}

#[test]
fn coordinates_and_cells() {
    assert_eq!(index_to_coords(35, 2, 8), vec![3, 4]);
    assert_eq!(coords_to_index(&[3, 4], 8), Some(35));
    assert_eq!(coords_to_index(&[8, 0], 8), None);
    assert_eq!(coords_to_index(&[], 8), Some(0));
    for i in 0..512 {
        let c = index_to_coords(i, 3, 8);
        assert_eq!(coords_to_index(&c, 8), Some(i));
    }
}

#[test]
fn direction_tables() {
    assert_eq!(Rules::get_rook_directions(3).len(), 6);
    assert_eq!(Rules::get_rook_directions_calc(2), vec![vec![1, 0], vec![-1, 0], vec![0, 1], vec![0, -1]]);
    assert_eq!(Rules::get_bishop_directions(2).len(), 4);
    assert_eq!(Rules::get_bishop_directions_calc(3).len(), 12);
    assert_eq!(Rules::get_king_offsets(2).len(), 8);
    assert_eq!(Rules::get_king_offsets_calc(3).len(), 26);
    assert_eq!(Rules::get_knight_offsets(2).len(), 8);
    assert_eq!(Rules::get_knight_offsets_calc(3).len(), 24);
    assert_eq!(
        Rules::get_pawn_capture_offsets_for_target(2, Player::White),
        vec![vec![-1, -1], vec![-1, 1]]
    );
    // Forward along axis 0 or axis 2, sideways along either other axis.
    assert_eq!(
        Rules::get_pawn_capture_offsets_calc(3, Player::Black),
        vec![
            vec![1, -1, 0],
            vec![1, 1, 0],
            vec![1, 0, -1],
            vec![1, 0, 1],
            vec![-1, 0, 1],
            vec![1, 0, 1],
            vec![0, -1, 1],
            vec![0, 1, 1],
        ]
    );
}

#[test]
fn pawns_attack_along_height() {
    let mut board = Board::new_empty(3, 8);
    let pawn = Piece { piece_type: PieceType::Pawn, owner: Player::White };
    board.set_piece(&Coordinate::new(vec![1, 1, 1]), pawn).unwrap();
    // Forward along axis 2 and sideways along axis 1.
    assert!(board.is_square_attacked(&Coordinate::new(vec![1, 2, 2]), Player::White));
    // Forward along axis 0 and sideways along axis 2.
    assert!(board.is_square_attacked(&Coordinate::new(vec![2, 1, 2]), Player::White));
    // A push is no capture.
    assert!(!board.is_square_attacked(&Coordinate::new(vec![1, 1, 2]), Player::White));
    assert!(!board.is_square_attacked(&Coordinate::new(vec![0, 2, 1]), Player::White));
}

fn mv(from: [u8; 2], to: [u8; 2]) -> Move {
    Move { from: Coordinate::new(from.to_vec()), to: Coordinate::new(to.to_vec()), promotion: None }
}

#[test]
fn game_turns() {
    let mut game = Game::new(Board::new(2, 8));
    game.start();
    assert_eq!(game.current_turn(), Player::White);
    // e2-e4 then e7-e5
    assert_eq!(game.play_turn(mv([1, 4], [3, 4])).unwrap(), GameResult::InProgress);
    assert_eq!(game.current_turn(), Player::Black);
    assert_eq!(game.play_turn(mv([6, 4], [4, 4])).unwrap(), GameResult::InProgress);
    assert_eq!(game.move_history().len(), 2);
    assert_eq!(game.status(), GameResult::InProgress);
    let p = game.board().pieces.get_piece_at_index(3 + 4 * 8).unwrap();
    assert_eq!(p.piece_type, PieceType::Pawn);
    // No piece on e3.
    match game.play_turn(mv([2, 4], [3, 4])) {
        Err(GameError::InvalidMove(msg)) => assert_eq!(msg, "No piece at from"),
        _ => panic!("expected a refused move"),
    }
    match game.play_turn(mv([9, 4], [3, 4])) {
        Err(GameError::InvalidMove(msg)) => assert_eq!(msg, "Invalid from"),
        _ => panic!("expected a refused move"),
    }
    assert_eq!(game.move_history().len(), 2);
}

#[test]
fn table_use_in_thousandths() {
    let tt = LockFreeTT::new(1);
    assert_eq!(tt.hashfull(), 0);
    // Filling every slot of the first bucket: 3 of the 3000 sampled slots.
    tt.store(0x10000, 1, 1, Flag::Exact, None);
    tt.store(0x20000, 1, 1, Flag::Exact, None);
    tt.store(0x30000, 1, 1, Flag::Exact, None);
    assert_eq!(tt.hashfull(), 1);
    assert!(tt.get_full(0x10000).is_some());
    assert!(tt.get(0x40000).is_none());
}

#[test]
fn knight_moves_jump() {
    let board = Board::new(2, 8);
    // The knight on b1, cell [0, 1].
    let moves = board.moves_of_kind(8, Player::White, PieceType::Knight).into_vec();
    assert_eq!(moves.len(), 2);
    for m in &moves {
        let dr = (m.to.values.get(0) as i32 - m.from.values.get(0) as i32).abs();
        let df = (m.to.values.get(1) as i32 - m.from.values.get(1) as i32).abs();
        assert!((dr == 2 && df == 1) || (dr == 1 && df == 2));
    }
}

fn axis_changes(m: &Move, dim: usize) -> Vec<i32> {
    (0..dim).map(|d| m.to.values.get(d) as i32 - m.from.values.get(d) as i32).collect()
}

#[test]
fn sliders_move_along_lines() {
    let board = Board::from_fen("4k3/8/8/8/3Q4/8/8/4K3 w - - 0 1").unwrap();
    // The queen on d4, cell [3, 3].
    let rook_like = board.moves_of_kind(3 + 3 * 8, Player::White, PieceType::Rook).into_vec();
    assert_eq!(rook_like.len(), 14);
    for m in &rook_like {
        assert_eq!(axis_changes(m, 2).iter().filter(|x| **x != 0).count(), 1);
    }
    let bishop_like = board.moves_of_kind(3 + 3 * 8, Player::White, PieceType::Bishop).into_vec();
    assert_eq!(bishop_like.len(), 13);
    for m in &bishop_like {
        let c = axis_changes(m, 2);
        assert!(c[0] != 0 && c[0].abs() == c[1].abs());
    }
}

#[test]
fn king_steps_one_square() {
    let board = Board::from_fen("4k3/8/8/8/8/8/8/4K3 w - - 0 1").unwrap();
    let moves = board.generate_pseudo_legal_moves(Player::White).into_vec();
    assert_eq!(moves.len(), 5);
    for m in &moves {
        let c = axis_changes(m, 2);
        assert!(c.iter().all(|x| x.abs() <= 1) && c.iter().any(|x| *x != 0));
    }
}

#[test]
fn blocked_pawn_still_captures() {
    // The white pawn on e4 ([3, 4]) faces the black pawn on e5 and can take the one on d5.
    let board = Board::from_fen("4k3/8/8/3pp3/4P3/8/8/4K3 w - - 0 1").unwrap();
    let moves = board.generate_pseudo_legal_moves(Player::White).into_vec();
    let pawn: Vec<Vec<i32>> = moves
        .iter()
        .filter(|m| m.from.values.get(0) == 3 && m.from.values.get(1) == 4)
        .map(|m| axis_changes(m, 2))
        .collect();
    assert_eq!(pawn, vec![vec![1, -1]]);
}

#[test]
fn king_cache_follows_the_king() {
    let mut board = Board::from_fen("4k3/8/8/8/8/8/8/4K3 w - - 0 1").unwrap();
    // e1 = [0, 4] is cell 32; e2 = [1, 4] is cell 33.
    assert_eq!(board.pieces.king_index(Player::White), Some(32));
    let step = Move { from: Coordinate::new(vec![0, 4]), to: Coordinate::new(vec![1, 4]), promotion: None };
    let info = board.apply_move(&step).unwrap();
    assert_eq!(board.pieces.king_index(Player::White), Some(33));
    board.unmake_move(&step, info);
    assert_eq!(board.pieces.king_index(Player::White), Some(32));
    assert_eq!(board.pieces.king_index(Player::Black), Some(39));
}

#[test]
fn black_hash_toggles_the_side_key() {
    let board = Board::new(3, 4);
    let total = board.total_cells();
    let white = board.zobrist.get_hash_with_player(&board.pieces, &board.state, total, Player::White);
    let black = board.zobrist.get_hash_with_player(&board.pieces, &board.state, total, Player::Black);
    assert_eq!(black, white ^ board.zobrist.black_to_move);
}

#[test]
fn legal_moves_start_on_own_pieces() {
    let mut board = Board::new(2, 8);
    let moves = board.generate_legal_moves(Player::White).into_vec();
    assert_eq!(moves.len(), 20);
    for m in &moves {
        let piece = board.get_piece(&m.from).unwrap();
        assert_eq!(piece.owner, Player::White);
    }
}

#[test]
fn cell_coordinates_read_back() {
    for index in 0..64usize {
        let c = index_to_coords(index, 3, 4);
        assert!(c.iter().all(|v| *v < 4));
        assert_eq!(coords_to_index(&c, 4), Some(index));
    }
}

#[test]
fn placed_piece_reads_back() {
    let mut board = Board::new_empty(2, 8);
    let knight = Piece { piece_type: PieceType::Knight, owner: Player::Black };
    assert_eq!(board.pieces.get_piece_at_index(10), None);
    board.pieces.place_piece_at_index(10, knight);
    assert_eq!(board.pieces.get_piece_at_index(10), Some(knight));
    board.pieces.remove_piece_at_index(10);
    assert_eq!(board.pieces.get_piece_at_index(10), None);
}

#[test]
fn piece_map_history_keeps_kings_and_occupancy() {
    let mut m: PieceMap<BitBoardLarge> = PieceMap::new_empty(2, 8);
    let wk = Piece { piece_type: PieceType::King, owner: Player::White };
    let bq = Piece { piece_type: PieceType::Queen, owner: Player::Black };
    assert_eq!(m.king_index(Player::White), None);
    m.place_piece_at_index(4, wk);
    m.place_piece_at_index(60, bq);
    assert_eq!(m.get_piece_at_index(4), Some(wk));
    assert_eq!(m.get_piece_at_index(60), Some(bq));
    assert_eq!(m.king_index(Player::White), Some(4));
    assert_eq!(m.king_index(Player::Black), None);
    assert!(m.all_occupancy.get_bit(60) && m.black_occupancy.get_bit(60) && !m.white_occupancy.get_bit(60));
    m.remove_piece_at_index(4);
    assert_eq!(m.get_piece_at_index(4), None);
    assert_eq!(m.king_index(Player::White), None);
    assert!(!m.all_occupancy.get_bit(4));
    assert_eq!(m.get_piece_at_index(60), Some(bq));
}

#[test]
fn make_and_unmake_give_back_the_position() {
    let mut board = Board::from_fen("r3k2r/pppq1ppp/2n5/3pp3/4P3/2N5/PPPQ1PPP/R3K2R w KQkq d6 0 1").unwrap();
    let before: Vec<Option<Piece>> = (0..board.total_cells()).map(|i| board.get_piece_at_index(i)).collect();
    let hash = board.state.hash;
    // e4xd5 takes a pawn.
    let mv = Move { from: Coordinate::new(vec![3, 4]), to: Coordinate::new(vec![4, 3]), promotion: None };
    let info = board.apply_move(&mv).unwrap();
    assert_ne!(board.state.hash, hash);
    board.unmake_move(&mv, info);
    let after: Vec<Option<Piece>> = (0..board.total_cells()).map(|i| board.get_piece_at_index(i)).collect();
    assert_eq!(after, before);
    assert_eq!(board.state.hash, hash);
    assert_eq!(board.state.castling_rights, 15);
}

#[test]
fn large_bitboards_compare_by_words() {
    let mut a = BitBoardLarge::new(2);
    let mut b = BitBoardLarge::new(2);
    assert!(a == b);
    a.set_bit(70);
    assert!(a != b);
    b.set_bit(70);
    assert!(a == b);
    assert!(BitBoardLarge::new(1) != BitBoardLarge::new(2));
}
