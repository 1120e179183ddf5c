use shapeshifter::model::board::Board;
use shapeshifter::model::piece::Piece;
use shapeshifter::solver::prune::cell_interval::CellIntervalPrune;

fn full_square() -> Piece {
    Piece::from_grid(&[&[true, true, true], &[true, true, true], &[true, true, true]])
}

#[test]
fn rejects_fixed_hit_with_wrong_residue() {
    let piece = full_square();
    let placements = vec![piece.placements(3, 3)];
    let board = Board::new_solved(3, 3, 3);
    let prune = CellIntervalPrune::precompute(&placements, 3, board.valid_mask());
    assert!(!prune.try_prune::<3>(&board, 0));
}

#[test]
fn accepts_fixed_hit_with_matching_residue() {
    let piece = full_square();
    let placements = vec![piece.placements(3, 3)];
    let grid: &[&[u8]] = &[&[1, 1, 1], &[1, 1, 1], &[1, 1, 1]];
    let board = Board::from_grid(grid, 3);
    let prune = CellIntervalPrune::precompute(&placements, 3, board.valid_mask());
    assert!(prune.try_prune::<3>(&board, 0));
}

#[test]
fn rejects_deficit_above_possible_coverage() {
    let piece = Piece::from_grid(&[&[true]]);
    let placements = vec![piece.placements(3, 3)];
    let grid: &[&[u8]] = &[&[2, 0, 0], &[0, 0, 0], &[0, 0, 0]];
    let board = Board::from_grid(grid, 3);
    let prune = CellIntervalPrune::precompute(&placements, 3, board.valid_mask());
    assert!(!prune.try_prune::<3>(&board, 0));
}

#[test]
fn forces_coverage_needed_by_the_suffix() {
    let piece = Piece::from_grid(&[&[true]]);
    let placements = vec![piece.placements(3, 3), piece.placements(3, 3)];
    let grid: &[&[u8]] = &[&[2, 0, 0], &[0, 0, 0], &[0, 0, 0]];
    let board = Board::from_grid(grid, 3);
    let prune = CellIntervalPrune::precompute(&placements, 3, board.valid_mask());
    let (required, forbidden) = prune.placement_constraints::<3>(&board, 1);
    assert!(required.get_bit(0));
    assert!(!forbidden.get_bit(0));
}

#[test]
fn exhausted_pieces_leave_only_zero_cells_feasible() {
    // With no pieces left every nonzero cell is infeasible and zero cells pass.
    let piece = Piece::from_grid(&[&[true]]);
    let placements = vec![piece.placements(3, 3)];
    let solved = Board::new_solved(3, 3, 3);
    let prune = CellIntervalPrune::precompute(&placements, 3, solved.valid_mask());
    assert!(prune.try_prune::<3>(&solved, 1));
    let grid: &[&[u8]] = &[&[0, 0, 0], &[0, 1, 0], &[0, 0, 0]];
    let board = Board::from_grid(grid, 3);
    assert!(!prune.try_prune::<3>(&board, 1));
    // At depth 0 the single-cell piece can still hit that cell once.
    assert!(prune.try_prune::<3>(&board, 0));
}
