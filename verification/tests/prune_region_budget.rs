use shapeshifter::model::board::Board;
use shapeshifter::model::piece::Piece;
use shapeshifter::solver::prune::region_budget::RegionBudgetPrune;

#[test]
fn region_budget_prunes_a_forced_overlap() {
    // A full 3x3 piece on a solved 3x3 board with M = 2 must raise all nine
    // cells: nine cells land where none are needed, so ten must, and the
    // piece brings only nine.
    let board = Board::new_solved(3, 3, 2);
    let pieces = [Piece::from_grid(&[&[true, true, true], &[true, true, true], &[true, true, true]])];
    let placements = vec![pieces[0].placements(3, 3)];
    let prune = RegionBudgetPrune::precompute(&board, &pieces, &[0], &placements, 3, 3, 2);
    assert!(!prune.try_prune(&board, 0));
    // With no piece left nothing is forced.
    assert!(prune.try_prune(&board, 1));
}

#[test]
fn region_budget_keeps_nothing_where_the_deficit_absorbs_the_piece() {
    let board = Board::from_grid(&[&[1, 1, 1], &[1, 1, 1], &[1, 1, 1]], 2);
    let pieces = [Piece::from_grid(&[&[true, true, true], &[true, true, true], &[true, true, true]])];
    let placements = vec![pieces[0].placements(3, 3)];
    let prune = RegionBudgetPrune::precompute(&board, &pieces, &[0], &placements, 3, 3, 2);
    assert!(prune.try_prune(&board, 0));
    // Whatever the board, an empty list of checks prunes nothing.
    assert!(prune.try_prune(&Board::new_solved(3, 3, 2), 0));
}

#[test]
fn region_budget_small_piece_can_avoid_regions() {
    // A single cell can land outside any 3x3 region of a 4x4 board, and the
    // one cell the whole board needs absorbs it: nothing is forced.
    let board = Board::from_grid(&[&[0, 0, 0, 0], &[0, 1, 0, 0], &[0, 0, 0, 0], &[0, 0, 0, 0]], 3);
    let pieces = [Piece::from_grid(&[&[true]])];
    let placements = vec![pieces[0].placements(4, 4)];
    let prune = RegionBudgetPrune::precompute(&board, &pieces, &[0], &placements, 4, 4, 3);
    assert!(prune.try_prune(&board, 0));
    // On the solved board the whole-board region needs three cells (one
    // turn of M) and the piece brings one.
    let solved = Board::new_solved(4, 4, 3);
    let prune = RegionBudgetPrune::precompute(&solved, &pieces, &[0], &placements, 4, 4, 3);
    assert!(!prune.try_prune(&solved, 0));
}

#[test]
fn region_budget_on_a_larger_board_with_a_covering_piece() {
    // A full 5x5 piece on a solved 5x5 board, M = 2: every square region is
    // forced; the check fails for the piece still to place.
    let board = Board::new_solved(5, 5, 2);
    let row = [true; 5];
    let grid: Vec<&[bool]> = vec![&row; 5];
    let pieces = [Piece::from_grid(&grid)];
    let placements = vec![pieces[0].placements(5, 5)];
    let prune = RegionBudgetPrune::precompute(&board, &pieces, &[0], &placements, 5, 5, 2);
    assert!(!prune.try_prune(&board, 0));
    assert!(prune.try_prune(&board, 1));
}
