use shapeshifter::model::bitboard::Bitboard;
use shapeshifter::model::board::Board;
use shapeshifter::model::piece::Piece;
use shapeshifter::solver::prune::coverage::CoveragePrune;
use shapeshifter::solver::prune::total_deficit::TotalDeficitPrune;

#[test]
fn test_precompute_basic() {
    let p1 = Piece::from_grid(&[&[true]]);
    let p2 = Piece::from_grid(&[&[true, true]]);
    let pieces = vec![p1, p2];
    let order = vec![0, 1];
    let td = TotalDeficitPrune::precompute(&pieces, &order);
    assert_eq!(td.remaining_bits(0), 3);
    assert_eq!(td.remaining_bits(1), 2);
    assert_eq!(td.remaining_bits(2), 0);
}

#[test]
fn test_precompute_reordered() {
    let p1 = Piece::from_grid(&[&[true]]);
    let p2 = Piece::from_grid(&[&[true, true]]);
    let p3 = Piece::from_grid(&[&[true, true, true]]);
    let pieces = vec![p1, p2, p3];
    let order = vec![2, 0, 1];
    let td = TotalDeficitPrune::precompute(&pieces, &order);
    assert_eq!(td.remaining_bits(0), 6);
    assert_eq!(td.remaining_bits(1), 3);
    assert_eq!(td.remaining_bits(2), 2);
}

#[test]
fn test_try_prune_feasible() {
    let grid: &[&[u8]] = &[&[1, 1, 1], &[0, 0, 0], &[0, 0, 0]];
    let board = Board::from_grid(grid, 2);
    assert_eq!(board.total_deficit(), 3);
    let p1 = Piece::from_grid(&[&[true, true]]);
    let p2 = Piece::from_grid(&[&[true, true]]);
    let pieces = vec![p1, p2];
    let order = vec![0, 1];
    let td = TotalDeficitPrune::precompute(&pieces, &order);
    assert!(td.try_prune(&board, 0));
}

#[test]
fn test_try_prune_infeasible() {
    let grid: &[&[u8]] = &[&[1, 1, 1], &[1, 1, 0], &[0, 0, 0]];
    let board = Board::from_grid(grid, 2);
    assert_eq!(board.total_deficit(), 5);
    let p1 = Piece::from_grid(&[&[true, true]]);
    let pieces = vec![p1];
    let order = vec![0];
    let td = TotalDeficitPrune::precompute(&pieces, &order);
    assert!(!td.try_prune(&board, 0));
}

#[test]
fn test_try_prune_exact_match() {
    let grid: &[&[u8]] = &[&[1, 1, 0], &[0, 0, 0], &[0, 0, 0]];
    let board = Board::from_grid(grid, 2);
    assert_eq!(board.total_deficit(), 2);
    let p1 = Piece::from_grid(&[&[true, true]]);
    let pieces = vec![p1];
    let order = vec![0];
    let td = TotalDeficitPrune::precompute(&pieces, &order);
    assert!(td.try_prune(&board, 0));
}

#[test]
fn test_solved_board_passes() {
    let p = Piece::from_grid(&[&[true]]);
    let placements = vec![p.placements(3, 3)];
    let cp = CoveragePrune::precompute(&placements, 2);
    let board = Board::new_solved(3, 3, 2);
    assert!(cp.try_prune(&board, 0));
}

#[test]
fn test_unreachable_corner_pruned() {
    let grid: &[&[u8]] = &[&[2, 0, 0], &[0, 0, 0], &[0, 0, 0]];
    let board = Board::from_grid(grid, 3);
    let p1 = Piece::from_grid(&[&[true]]);
    let placements = vec![p1.placements(3, 3)];
    let cp = CoveragePrune::precompute(&placements, 3);
    assert!(!cp.try_prune(&board, 0));
}

#[test]
fn test_reachable_cell_passes() {
    let grid: &[&[u8]] = &[&[2, 0, 0], &[0, 0, 0], &[0, 0, 0]];
    let board = Board::from_grid(grid, 3);
    let p1 = Piece::from_grid(&[&[true]]);
    let placements = vec![p1.placements(3, 3), p1.placements(3, 3)];
    let cp = CoveragePrune::precompute(&placements, 3);
    assert!(cp.try_prune(&board, 0));
}

#[test]
fn test_suffix_semantics() {
    let p_full = Piece::from_grid(&[&[true, true, true], &[true, true, true], &[true, true, true]]);
    let p1 = Piece::from_grid(&[&[true]]);
    let placements = vec![p_full.placements(3, 3), p1.placements(3, 3)];
    let cp = CoveragePrune::precompute(&placements, 3);
    let grid: &[&[u8]] = &[&[2, 0, 0], &[0, 0, 0], &[0, 0, 0]];
    let board = Board::from_grid(grid, 3);
    assert!(cp.try_prune(&board, 0));
    assert!(!cp.try_prune(&board, 1));
}

#[test]
fn test_consistent_with_total_deficit() {
    let placements: Vec<Vec<(usize, usize, Bitboard)>> = vec![];
    let cp = CoveragePrune::precompute(&placements, 2);
    let board = Board::new_solved(3, 3, 2);
    assert!(cp.try_prune(&board, 0));
}

#[test]
fn coverage_prune_counts_pieces_not_placements() {
    // One piece with many placements reaching cell (1,1) still counts once.
    let grid: &[&[u8]] = &[&[0, 0, 0], &[0, 2, 0], &[0, 0, 0]];
    let board = Board::from_grid(grid, 3);
    let p = Piece::from_grid(&[&[true, true], &[true, true]]);
    let cp = CoveragePrune::precompute(&vec![p.placements(3, 3)], 3);
    assert!(!cp.try_prune(&board, 0));
    let cp2 = CoveragePrune::precompute(&vec![p.placements(3, 3), p.placements(3, 3)], 3);
    assert!(cp2.try_prune(&board, 0));
}
