use shapeshifter::model::board::Board;
use shapeshifter::model::piece::Piece;
use shapeshifter::solver::prune::parity::ParityPrune;

#[test]
fn test_precompute_creates_partitions() {
    let p = Piece::from_grid(&[&[true]]);
    let pieces = vec![p];
    let order = vec![0];
    let pp = ParityPrune::precompute(&pieces, &order, 3, 3, 2);
    // 3 mod-2 partitions (checker, even_row, even_col), no mod-3 (board too small)
    assert_eq!(pp.partition_count(), 3);
}

#[test]
fn test_precompute_large_board_has_mod3() {
    let p = Piece::from_grid(&[&[true]]);
    let pieces = vec![p];
    let order = vec![0];
    let pp = ParityPrune::precompute(&pieces, &order, 6, 6, 2);
    // 3 mod-2 + 3 mod-3 row + 3 mod-3 col + 3 mod-3 diag + 3 mod-3 antidiag = 15
    assert!(pp.partition_count() > 3);
}

#[test]
fn parity_test_try_prune_solved_board() {
    let board = Board::new_solved(3, 3, 2);
    let p = Piece::from_grid(&[&[true]]);
    let pieces = vec![p];
    let order = vec![0];
    let pp = ParityPrune::precompute(&pieces, &order, 3, 3, 2);
    assert!(pp.try_prune(&board, 0, 2, 1));
}

#[test]
fn parity_rejects_an_unreachable_group_deficit() {
    // A domino always covers one cell of each checkerboard color, so a board
    // whose two deficit cells share a color cannot be solved by one domino.
    let board = Board::from_grid(&[&[1, 0, 1], &[0, 0, 0], &[0, 0, 0]], 2);
    let domino = Piece::from_grid(&[&[true, true]]);
    let pp = ParityPrune::precompute(&[domino], &[0], 3, 3, 2);
    assert!(!pp.try_prune(&board, 0, 2, 2));
}
