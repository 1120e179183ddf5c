use shapeshifter::model::board::Board;
use shapeshifter::model::piece::Piece;
use shapeshifter::solver::pruning::partition::PartitionReachability;

#[test]
fn creates_small_board_partitions() {
    let piece = Piece::from_grid(&[&[true]]);
    let pieces = vec![piece];
    let piece_order = vec![0];
    let reachability = PartitionReachability::precompute(&pieces, &piece_order, 3, 3);
    assert_eq!(reachability.partition_count(), 3);
}

#[test]
fn creates_modulo_three_partitions_for_large_boards() {
    let piece = Piece::from_grid(&[&[true]]);
    let pieces = vec![piece];
    let piece_order = vec![0];
    let reachability = PartitionReachability::precompute(&pieces, &piece_order, 6, 6);
    assert_eq!(reachability.partition_count(), 15);
}

#[test]
fn partition_allows_solved_board() {
    let board = Board::new_solved(3, 3, 2);
    let piece = Piece::from_grid(&[&[true]]);
    let pieces = vec![piece];
    let piece_order = vec![0];
    let reachability = PartitionReachability::precompute(&pieces, &piece_order, 3, 3);
    assert!(reachability.allows(&board, 0, 2, 1));
}

#[test]
fn rejects_checkerboard_deficit_a_domino_cannot_split() {
    let board = Board::from_grid(&[&[1, 0, 1], &[0, 0, 0], &[0, 0, 0]], 3);
    let domino = Piece::from_grid(&[&[true, true]]);
    let pieces = vec![domino];
    let piece_order = vec![0];
    let reachability = PartitionReachability::precompute(&pieces, &piece_order, 3, 3);
    assert!(!reachability.allows(&board, 0, 3, 2));
}
