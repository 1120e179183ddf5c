use shapeshifter::model::board::Board;
use shapeshifter::piece::Piece;
use shapeshifter::solver::prune::line_family::LineFamilyPrune;

#[test]
fn test_precompute_creates_6_families() {
    let p = Piece::from_grid(&[&[true, true]]);
    let pieces = vec![p];
    let order = vec![0];
    let lf = LineFamilyPrune::precompute(&pieces, &order, 3, 3, 2);

    // Rows: 3 lines, Cols: 3 lines, Diags: 5 lines, Antidiags: 5, Zigzag: 2 each
    assert_eq!(lf.num_lines(0), 3); // rows
    assert_eq!(lf.num_lines(1), 3); // cols
    assert_eq!(lf.num_lines(2), 5); // diags
    assert_eq!(lf.num_lines(3), 5); // antidiags
    assert_eq!(lf.num_lines(4), 2); // zigzag_r
    assert_eq!(lf.num_lines(5), 2); // zigzag_l
}

#[test]
fn line_family_test_try_prune_solved_board() {
    let board = Board::new_solved(3, 3, 2);
    let p = Piece::from_grid(&[&[true]]);
    let pieces = vec![p];
    let order = vec![0];
    let lf = LineFamilyPrune::precompute(&pieces, &order, 3, 3, 2);

    assert!(lf.try_prune_rowcol(&board, 0, 2));
    assert!(lf.try_prune_diagonal(&board, 0, 2));
}

#[test]
fn test_per_line_budget_m3() {
    // M=3: per-line budgets should be enabled for rows and cols.
    let p = Piece::from_grid(&[&[true, true]]);
    let pieces = vec![p];
    let order = vec![0];
    let lf = LineFamilyPrune::precompute(&pieces, &order, 3, 3, 3);

    assert!(lf.has_per_line_budget(0)); // rows
    assert!(lf.has_per_line_budget(1)); // cols
    assert!(!lf.has_per_line_budget(2)); // diags: no per-line
}

#[test]
fn test_per_line_budget_m2_disabled() {
    let p = Piece::from_grid(&[&[true, true]]);
    let pieces = vec![p];
    let order = vec![0];
    let lf = LineFamilyPrune::precompute(&pieces, &order, 3, 3, 2);

    assert!(!lf.has_per_line_budget(0)); // M=2: disabled
    assert!(!lf.has_per_line_budget(1));
}

#[test]
fn line_families_reject_deficit_beyond_the_pieces_reach() {
    // A single domino puts at most two cells on any row, so a row with three
    // cells of deficit cannot be cleared.
    let p = Piece::from_grid(&[&[true, true]]);
    let lf = LineFamilyPrune::precompute(&[p], &[0], 3, 3, 3);
    let board = Board::from_grid(&[&[1, 1, 1], &[0, 0, 0], &[0, 0, 0]], 3);
    assert!(!lf.try_prune_rowcol(&board, 0, 3));
    let fine = Board::from_grid(&[&[1, 1, 0], &[0, 0, 0], &[0, 0, 0]], 3);
    assert!(lf.try_prune_rowcol(&fine, 0, 3));
}
