use shapeshifter::model::bitboard::Bitboard;
use shapeshifter::model::board::Board;
use shapeshifter::model::piece::Piece;
use shapeshifter::model::STRIDE;
use shapeshifter::solver::prune::jaggedness::{split_jaggedness, JaggednessPrune};


/// Compute total jaggedness (circular H + V) for a board.
fn jaggedness(board: &Board) -> u32 {
    let h = board.height() as usize;
    let w = board.width() as usize;
    let mut h_mask = Bitboard::zero();
    let mut v_mask = Bitboard::zero();
    for r in 0..h {
        for c in 0..w {
            let bit = (r * STRIDE + c) as u32;
            if c + 1 < w { h_mask.set_bit(bit); }
            if r + 1 < h { v_mask.set_bit(bit); }
        }
    }
    let result = match board.m() {
        2 => split_jaggedness::<2>(board, h_mask, v_mask),
        3 => split_jaggedness::<3>(board, h_mask, v_mask),
        4 => split_jaggedness::<4>(board, h_mask, v_mask),
        5 => split_jaggedness::<5>(board, h_mask, v_mask),
        _ => unreachable!(),
    };
    result.circular_h + result.circular_v
}

#[test]
fn test_precompute_perimeters() {
    let h_dom = Piece::from_grid(&[&[true, true]]);
    let v_dom = Piece::from_grid(&[&[true], &[true]]);
    assert_eq!(h_dom.h_perimeter(), 2);
    assert_eq!(h_dom.v_perimeter(), 4);
    assert_eq!(v_dom.h_perimeter(), 4);
    assert_eq!(v_dom.v_perimeter(), 2);

    let pieces = vec![h_dom, v_dom];
    let order = vec![0, 1];
    let jp = JaggednessPrune::precompute(&pieces, &order, 3, 3);

    assert_eq!(jp.remaining_h_perimeter(0), 2 + 4);
    assert_eq!(jp.remaining_v_perimeter(0), 4 + 2);
    assert_eq!(jp.remaining_h_perimeter(1), 4);
    assert_eq!(jp.remaining_v_perimeter(1), 2);
    assert_eq!(jp.remaining_h_perimeter(2), 0);
}

#[test]
fn jaggedness_test_try_prune_solved_board() {
    let board = Board::new_solved(3, 3, 2);
    let p = Piece::from_grid(&[&[true]]);
    let pieces = vec![p];
    let order = vec![0];
    let jp = JaggednessPrune::precompute(&pieces, &order, 3, 3);
    let j = split_jaggedness::<2>(&board, jp.h_mask(), jp.v_mask());
    assert!(jp.try_prune(&j, 0, 2));
}

#[test]
fn test_try_prune_uniform_nonzero() {
    let grid: &[&[u8]] = &[&[1, 1, 1], &[1, 1, 1], &[1, 1, 1]];
    let board = Board::from_grid(grid, 2);
    let p = Piece::from_grid(&[&[true]]);
    let pieces = vec![p];
    let order = vec![0];
    let jp = JaggednessPrune::precompute(&pieces, &order, 3, 3);
    let j = split_jaggedness::<2>(&board, jp.h_mask(), jp.v_mask());
    assert!(jp.try_prune(&j, 0, 2));
}

#[test]
fn test_try_prune_checkerboard_infeasible() {
    let grid: &[&[u8]] = &[&[0, 1, 0], &[1, 0, 1], &[0, 1, 0]];
    let board = Board::from_grid(grid, 2);
    let p = Piece::from_grid(&[&[true]]);
    let pieces = vec![p];
    let order = vec![0];
    let jp = JaggednessPrune::precompute(&pieces, &order, 3, 3);
    let j = split_jaggedness::<2>(&board, jp.h_mask(), jp.v_mask());
    assert!(!jp.try_prune(&j, 0, 2));
}

// --- Jaggedness computation tests (moved from core/board.rs) ---

#[test]
fn test_jaggedness_solved_board() {
    let board = Board::new_solved(3, 3, 2);
    assert_eq!(jaggedness(&board), 0);
}

#[test]
fn test_jaggedness_uniform_nonzero() {
    let grid: &[&[u8]] = &[&[1, 1, 1], &[1, 1, 1], &[1, 1, 1]];
    let board = Board::from_grid(grid, 2);
    assert_eq!(jaggedness(&board), 0);
}

#[test]
fn test_jaggedness_single_cell_different() {
    let grid: &[&[u8]] = &[&[1, 0, 0], &[0, 0, 0], &[0, 0, 0]];
    let board = Board::from_grid(grid, 2);
    assert_eq!(jaggedness(&board), 2);
}

#[test]
fn test_jaggedness_corner_cell() {
    let grid: &[&[u8]] = &[&[0, 0, 0], &[0, 0, 0], &[0, 0, 1]];
    let board = Board::from_grid(grid, 2);
    assert_eq!(jaggedness(&board), 2);
}

#[test]
fn test_jaggedness_center_cell() {
    let grid: &[&[u8]] = &[&[0, 0, 0], &[0, 1, 0], &[0, 0, 0]];
    let board = Board::from_grid(grid, 2);
    assert_eq!(jaggedness(&board), 4);
}

#[test]
fn test_jaggedness_horizontal_stripe() {
    let grid: &[&[u8]] = &[&[1, 1, 1], &[0, 0, 0], &[0, 0, 0]];
    let board = Board::from_grid(grid, 2);
    assert_eq!(jaggedness(&board), 3);
}

#[test]
fn test_jaggedness_vertical_stripe() {
    let grid: &[&[u8]] = &[&[1, 0, 0], &[1, 0, 0], &[1, 0, 0]];
    let board = Board::from_grid(grid, 2);
    assert_eq!(jaggedness(&board), 3);
}

#[test]
fn test_jaggedness_checkerboard() {
    let grid: &[&[u8]] = &[&[0, 1, 0], &[1, 0, 1], &[0, 1, 0]];
    let board = Board::from_grid(grid, 2);
    assert_eq!(jaggedness(&board), 12);
}

#[test]
fn test_jaggedness_m3_two_values() {
    let grid: &[&[u8]] = &[&[1, 2, 1], &[0, 0, 0], &[0, 0, 0]];
    let board = Board::from_grid(grid, 3);
    assert_eq!(jaggedness(&board), 5);
}

#[test]
fn test_jaggedness_m3_all_different() {
    let grid: &[&[u8]] = &[&[0, 1, 2], &[1, 2, 0], &[2, 0, 1]];
    let board = Board::from_grid(grid, 3);
    assert_eq!(jaggedness(&board), 12);
}

#[test]
fn test_jaggedness_rectangular_board() {
    let grid: &[&[u8]] = &[&[1, 1, 1], &[1, 1, 1], &[1, 1, 1], &[0, 0, 0]];
    let board = Board::from_grid(grid, 2);
    assert_eq!(jaggedness(&board), 3);
}

#[test]
fn test_jaggedness_after_apply_piece() {
    let mut board = Board::new_solved(3, 3, 2);
    assert_eq!(jaggedness(&board), 0);

    let mut piece = Bitboard::zero();
    piece.set_bit(0);
    piece.set_bit(1);
    piece.set_bit(15);
    piece.set_bit(16);
    board.apply_piece(piece);
    assert_eq!(jaggedness(&board), 4);
}

#[test]
fn test_jaggedness_two_isolated_cells() {
    let grid: &[&[u8]] = &[&[1, 0, 0], &[0, 0, 0], &[0, 0, 1]];
    let board = Board::from_grid(grid, 2);
    assert_eq!(jaggedness(&board), 4);
}

#[test]
fn test_jaggedness_m4_weighted() {
    let grid: &[&[u8]] = &[&[0, 2, 0], &[0, 0, 0], &[0, 0, 0]];
    let board = Board::from_grid(grid, 4);
    assert_eq!(jaggedness(&board), 6);
}

#[test]
fn test_jaggedness_m4_distance_1() {
    let grid: &[&[u8]] = &[&[0, 1, 0], &[0, 0, 0], &[0, 0, 0]];
    let board = Board::from_grid(grid, 4);
    assert_eq!(jaggedness(&board), 3);
}

#[test]
fn test_jaggedness_m4_wrap_around() {
    let grid: &[&[u8]] = &[&[3, 0, 0], &[0, 0, 0], &[0, 0, 0]];
    let board = Board::from_grid(grid, 4);
    assert_eq!(jaggedness(&board), 2);
}
