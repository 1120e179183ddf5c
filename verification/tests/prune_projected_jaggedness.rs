use shapeshifter::model::board::Board;
use shapeshifter::model::piece::Piece;
use shapeshifter::solver::prune::projected_jaggedness::{
    binary_variation, profiles, ProjectedJaggednessPrune, ProjectedState,
};

#[test]
fn binary_variation_includes_zero_boundaries() {
    assert_eq!(binary_variation(0b1_0110), 4);
    assert_eq!(binary_variation(0b11), 2);
    assert_eq!(binary_variation(0), 0);
}

#[test]
fn piece_projection_preserves_row_and_column_parity() {
    let piece = Piece::from_grid(&[&[true, true], &[true, false]]);
    let (rows, cols) = profiles(&piece);
    assert_eq!(rows.parity_mask, 0b10);
    assert_eq!(cols.parity_mask, 0b10);
}

#[test]
fn incremental_projection_matches_board_projection() {
    let grid: &[&[u8]] = &[&[0, 1, 1], &[1, 1, 0], &[1, 0, 1]];
    let mut board = Board::from_grid(grid, 2);
    let piece = Piece::from_grid(&[&[true, true], &[true, false]]);
    let prune = ProjectedJaggednessPrune::precompute(&[piece], &[0], 3, 3, 2);
    let mut projected = ProjectedState::from_board(&board);

    board.apply_piece(piece.placed_at(1, 1));
    projected.apply_piece(&prune, 0, 1, 1);

    assert_eq!(projected, ProjectedState::from_board(&board));
}

#[test]
fn prunes_when_one_profile_cannot_repair_projected_variation() {
    let piece = Piece::from_grid(&[&[true]]);
    let prune = ProjectedJaggednessPrune::precompute(&[piece], &[0], 5, 5, 2);
    let mut state = ProjectedState::default();
    state.rows = 0b01010;

    // The row projection has circular variation 4, while a translated
    // single-cell profile can contribute only 2.
    assert!(!prune.try_prune(&state, 0));
}

#[test]
fn projections_vanish_off_modulus_two() {
    let grid: &[&[u8]] = &[&[0, 1, 2], &[1, 1, 0], &[2, 0, 1]];
    let board = Board::from_grid(grid, 3);
    let state = ProjectedState::from_board(&board);
    assert_eq!(state, ProjectedState { rows: 0, cols: 0 });
    let piece = Piece::from_grid(&[&[true]]);
    let prune = ProjectedJaggednessPrune::precompute(&[piece], &[0], 3, 3, 3);
    assert!(prune.try_prune(&ProjectedState { rows: 0b1010, cols: 0b1010 }, 0));
}

#[test]
fn odd_rows_and_columns_set_projection_bits() {
    // Row sums 2, 2, 2 and column sums 2, 2, 2: all even.
    let grid: &[&[u8]] = &[&[0, 1, 1], &[1, 1, 0], &[1, 0, 1]];
    let board = Board::from_grid(grid, 2);
    assert_eq!(ProjectedState::from_board(&board), ProjectedState { rows: 0, cols: 0 });
    // One cell set at row 1, column 2.
    let grid: &[&[u8]] = &[&[0, 0, 0], &[0, 0, 1], &[0, 0, 0]];
    let board = Board::from_grid(grid, 2);
    assert_eq!(ProjectedState::from_board(&board), ProjectedState { rows: 0b010, cols: 0b100 });
}
