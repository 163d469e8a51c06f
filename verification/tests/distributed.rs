use hyperchess::config::AppConfig;
use hyperchess::distributed::{partition_moves, DistributedSearch, WorkerDiscovery};
use hyperchess::models::{Coordinate, Move};

fn make_move(from: usize, to: usize) -> Move {
    Move {
        from: Coordinate::new(vec![from as u8]),
        to: Coordinate::new(vec![to as u8]),
        promotion: None,
    }
}

#[test]
fn test_partition_moves_even_split() {
    let moves: Vec<Move> = (0..6).map(|i| make_move(i, i + 1)).collect();
    let chunks = partition_moves(moves, 3);

    assert_eq!(chunks.len(), 3);
    assert_eq!(chunks[0].len(), 2);
    assert_eq!(chunks[1].len(), 2);
    assert_eq!(chunks[2].len(), 2);
}

#[test]
fn test_partition_moves_uneven_split() {
    let moves: Vec<Move> = (0..7).map(|i| make_move(i, i + 1)).collect();
    let chunks = partition_moves(moves, 3);

    assert_eq!(chunks.len(), 3);
    // 7 moves across 3 partitions: 3, 2, 2
    assert_eq!(chunks[0].len(), 3);
    assert_eq!(chunks[1].len(), 2);
    assert_eq!(chunks[2].len(), 2);
}

#[test]
fn test_partition_moves_single_partition() {
    let moves: Vec<Move> = (0..5).map(|i| make_move(i, i + 1)).collect();
    let chunks = partition_moves(moves, 1);

    assert_eq!(chunks.len(), 1);
    assert_eq!(chunks[0].len(), 5);
}

#[test]
fn test_partition_moves_more_partitions_than_moves() {
    let moves: Vec<Move> = (0..2).map(|i| make_move(i, i + 1)).collect();
    let chunks = partition_moves(moves, 5);

    assert_eq!(chunks.len(), 5);
    let total: usize = chunks.iter().map(|c| c.len()).sum();
    assert_eq!(total, 2);
}

#[test]
fn test_partition_moves_empty() {
    let moves: Vec<Move> = Vec::new();
    let chunks = partition_moves(moves, 3);

    assert_eq!(chunks.len(), 3);
    assert!(chunks.iter().all(|c| c.is_empty()));
}

#[test]
fn test_partition_moves_preserves_all_moves() {
    let moves: Vec<Move> = (0..20).map(|i| make_move(i, i + 1)).collect();
    let original_len = moves.len();
    let chunks = partition_moves(moves, 4);

    let total: usize = chunks.iter().map(|c| c.len()).sum();
    assert_eq!(total, original_len);
}

#[test]
fn partition_deals_round_robin() {
    let moves: Vec<Move> = (0..7).map(|i| make_move(i, i + 1)).collect();
    let chunks = partition_moves(moves, 3);
    let firsts: Vec<u8> = chunks[1].iter().map(|m| m.from.values.get(0)).collect();
    assert_eq!(firsts, vec![1, 4]);
}

#[test]
fn discovery_leaves_out_own_pod() {
    let d = WorkerDiscovery::new("workers.svc".to_string(), 50051, "10.0.0.7".to_string());
    assert!(!d.is_other_worker("10.0.0.7"));
    assert!(d.is_other_worker("10.0.0.8"));
    assert_eq!(d.grpc_port(), 50051);
    let config = AppConfig::default();
    let s = DistributedSearch::new(&config, "10.0.0.1".to_string());
    assert_eq!(s.discovery.grpc_port(), 50051);
    assert_eq!(s.discovery.service_dns(), "");
}
