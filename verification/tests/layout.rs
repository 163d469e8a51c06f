use hyperchess::api::{choose_move, parse_mode, BotConfig, MoveConsequence, RedisSession};
use hyperchess::board::Board;
use hyperchess::display::{build_metrics_table, calculate_metrics, flag_index};
use hyperchess::game::Game;
use hyperchess::models::Player;
use hyperchess::symmetries::SymmetryHandler;

#[test]
fn symmetries_of_a_small_square() {
    let handler = SymmetryHandler::new(2, 3);
    // 2! orders of the axes times 2^2 mirror masks.
    assert_eq!(handler.maps.len(), 8);
    assert_eq!(handler.maps[0], (0..9).collect::<Vec<usize>>());
    // Mask 1 mirrors axis 0: cell [0, 0] goes to [2, 0].
    assert_eq!(handler.maps[1][0], 2);
    // The second order swaps the axes: cell [1, 0] = 1 goes to [0, 1] = 3.
    assert_eq!(handler.maps[4][1], 3);
    for map in &handler.maps {
        let mut seen = map.clone();
        seen.sort();
        assert_eq!(seen, (0..9).collect::<Vec<usize>>());
    }
}

#[test]
fn symmetries_of_a_cube_count() {
    let handler = SymmetryHandler::new(3, 2);
    assert_eq!(handler.maps.len(), 6 * 8);
}

#[test]
fn game_modes() {
    assert_eq!(parse_mode("cc"), Some((true, true)));
    assert_eq!(parse_mode("hC"), Some((false, true)));
    assert_eq!(parse_mode("CH"), Some((true, false)));
    assert_eq!(parse_mode("hh"), Some((false, false)));
    assert_eq!(parse_mode("hx"), None);
    assert_eq!(parse_mode("h"), None);
    assert_eq!(parse_mode("hhh"), None);
}

#[test]
fn bot_turns() {
    let game = Game::new(Board::new(2, 8));
    let session = RedisSession {
        game,
        white_bot_config: None,
        black_bot_config: Some(BotConfig { dimension: 2, side: 8 }),
    };
    assert!(!session.is_bot_turn());
    assert_eq!(session.game.current_turn(), Player::White);
    assert_ne!(MoveConsequence::Capture, MoveConsequence::Victory);
}

#[test]
fn picking_a_requested_move() {
    let mut board = Board::new(2, 8);
    let moves = board.generate_legal_moves(Player::White);
    let chosen = choose_move(&moves, &vec![1, 4], &vec![3, 4]).unwrap();
    assert_eq!(chosen.to.values.get(0), 3);
    assert_eq!(chosen.to.values.get(1), 4);
    assert!(choose_move(&moves, &vec![1, 4], &vec![4, 4]).is_none());
    // Values are cut to a byte: 257 reads as 1.
    assert!(choose_move(&moves, &vec![257, 4], &vec![3, 4]).is_some());
}

#[test]
fn layout_metrics() {
    assert_eq!(flag_index(true, true), 3);
    assert_eq!(flag_index(false, true), 1);
    // A plain chess board: 15 columns of squares and spaces plus 2 for the rank letters,
    // 8 rows plus 1 for the file numbers.
    assert_eq!(calculate_metrics(2, 8, true, true), (17, 9, 2, 1));
    assert_eq!(calculate_metrics(2, 8, false, false), (15, 8, 0, 0));
    // Three axes of 4: four 2-D grids side by side, 2 columns apart.
    assert_eq!(calculate_metrics(3, 4, false, false), (7 + 3 * (7 + 2), 4, 0, 0));
    let table = build_metrics_table(4, 3);
    assert_eq!(table.len(), 5);
    assert_eq!(table[1][0], (3, 1, 0, 0));
}

#[test]
fn every_symmetry_permutes_the_cells() {
    let handler = SymmetryHandler::new(3, 3);
    assert_eq!(handler.maps.len(), 6 * 8);
    for map in &handler.maps {
        let mut seen = vec![false; 27];
        for &c in map {
            assert!(c < 27);
            assert!(!seen[c]);
            seen[c] = true;
        }
    }
}
