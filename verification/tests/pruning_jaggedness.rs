use shapeshifter::model::bitboard::Bitboard;
use shapeshifter::model::board::Board;
use shapeshifter::model::piece::Piece;
use shapeshifter::model::STRIDE;
use shapeshifter::solver::pruning::jaggedness::{measure, JaggednessBound};


fn jaggedness(board: &Board) -> u32 {
    let height = board.height() as usize;
    let width = board.width() as usize;
    let mut horizontal_mask = Bitboard::zero();
    let mut vertical_mask = Bitboard::zero();
    for row in 0..height {
        for column in 0..width {
            let bit = (row * STRIDE + column) as u32;
            if column + 1 < width {
                horizontal_mask.set_bit(bit);
            }
            if row + 1 < height {
                vertical_mask.set_bit(bit);
            }
        }
    }
    let result = match board.m() {
        2 => measure::<2>(board, horizontal_mask, vertical_mask),
        3 => measure::<3>(board, horizontal_mask, vertical_mask),
        4 => measure::<4>(board, horizontal_mask, vertical_mask),
        5 => measure::<5>(board, horizontal_mask, vertical_mask),
        _ => unreachable!(),
    };
    result.horizontal_circular_distance + result.vertical_circular_distance
}

#[test]
fn precomputes_perimeters() {
    let horizontal_domino = Piece::from_grid(&[&[true, true]]);
    let vertical_domino = Piece::from_grid(&[&[true], &[true]]);
    assert_eq!(horizontal_domino.h_perimeter(), 2);
    assert_eq!(horizontal_domino.v_perimeter(), 4);
    assert_eq!(vertical_domino.h_perimeter(), 4);
    assert_eq!(vertical_domino.v_perimeter(), 2);

    let pieces = vec![horizontal_domino, vertical_domino];
    let piece_order = vec![0, 1];
    let bound = JaggednessBound::precompute(&pieces, &piece_order, 3, 3);

    assert_eq!(bound.remaining_horizontal_perimeter(0), 2 + 4);
    assert_eq!(bound.remaining_vertical_perimeter(0), 4 + 2);
    assert_eq!(bound.remaining_horizontal_perimeter(1), 4);
    assert_eq!(bound.remaining_vertical_perimeter(1), 2);
    assert_eq!(bound.remaining_horizontal_perimeter(2), 0);
}

#[test]
fn jaggedness_allows_solved_board() {
    let board = Board::new_solved(3, 3, 2);
    let piece = Piece::from_grid(&[&[true]]);
    let pieces = vec![piece];
    let piece_order = vec![0];
    let bound = JaggednessBound::precompute(&pieces, &piece_order, 3, 3);
    let jaggedness = measure::<2>(&board, bound.horizontal_mask(), bound.vertical_mask());
    assert!(bound.allows(&jaggedness, 0, 2));
}

#[test]
fn allows_uniform_nonzero_board() {
    let grid: &[&[u8]] = &[&[1, 1, 1], &[1, 1, 1], &[1, 1, 1]];
    let board = Board::from_grid(grid, 2);
    let piece = Piece::from_grid(&[&[true]]);
    let pieces = vec![piece];
    let piece_order = vec![0];
    let bound = JaggednessBound::precompute(&pieces, &piece_order, 3, 3);
    let jaggedness = measure::<2>(&board, bound.horizontal_mask(), bound.vertical_mask());
    assert!(bound.allows(&jaggedness, 0, 2));
}

#[test]
fn rejects_checkerboard_with_insufficient_perimeter() {
    let grid: &[&[u8]] = &[&[0, 1, 0], &[1, 0, 1], &[0, 1, 0]];
    let board = Board::from_grid(grid, 2);
    let piece = Piece::from_grid(&[&[true]]);
    let pieces = vec![piece];
    let piece_order = vec![0];
    let bound = JaggednessBound::precompute(&pieces, &piece_order, 3, 3);
    let jaggedness = measure::<2>(&board, bound.horizontal_mask(), bound.vertical_mask());
    assert!(!bound.allows(&jaggedness, 0, 2));
}

#[test]
fn solved_board_has_no_jaggedness() {
    let board = Board::new_solved(3, 3, 2);
    assert_eq!(jaggedness(&board), 0);
}

#[test]
fn uniform_nonzero_board_has_no_jaggedness() {
    let grid: &[&[u8]] = &[&[1, 1, 1], &[1, 1, 1], &[1, 1, 1]];
    let board = Board::from_grid(grid, 2);
    assert_eq!(jaggedness(&board), 0);
}

#[test]
fn measures_different_single_cell() {
    let grid: &[&[u8]] = &[&[1, 0, 0], &[0, 0, 0], &[0, 0, 0]];
    let board = Board::from_grid(grid, 2);
    assert_eq!(jaggedness(&board), 2);
}

#[test]
fn measures_different_corner_cell() {
    let grid: &[&[u8]] = &[&[0, 0, 0], &[0, 0, 0], &[0, 0, 1]];
    let board = Board::from_grid(grid, 2);
    assert_eq!(jaggedness(&board), 2);
}

#[test]
fn measures_different_center_cell() {
    let grid: &[&[u8]] = &[&[0, 0, 0], &[0, 1, 0], &[0, 0, 0]];
    let board = Board::from_grid(grid, 2);
    assert_eq!(jaggedness(&board), 4);
}

#[test]
fn measures_horizontal_stripe() {
    let grid: &[&[u8]] = &[&[1, 1, 1], &[0, 0, 0], &[0, 0, 0]];
    let board = Board::from_grid(grid, 2);
    assert_eq!(jaggedness(&board), 3);
}

#[test]
fn measures_vertical_stripe() {
    let grid: &[&[u8]] = &[&[1, 0, 0], &[1, 0, 0], &[1, 0, 0]];
    let board = Board::from_grid(grid, 2);
    assert_eq!(jaggedness(&board), 3);
}

#[test]
fn measures_checkerboard() {
    let grid: &[&[u8]] = &[&[0, 1, 0], &[1, 0, 1], &[0, 1, 0]];
    let board = Board::from_grid(grid, 2);
    assert_eq!(jaggedness(&board), 12);
}

#[test]
fn measures_two_values_with_modulus_three() {
    let grid: &[&[u8]] = &[&[1, 2, 1], &[0, 0, 0], &[0, 0, 0]];
    let board = Board::from_grid(grid, 3);
    assert_eq!(jaggedness(&board), 5);
}

#[test]
fn measures_three_values_with_modulus_three() {
    let grid: &[&[u8]] = &[&[0, 1, 2], &[1, 2, 0], &[2, 0, 1]];
    let board = Board::from_grid(grid, 3);
    assert_eq!(jaggedness(&board), 12);
}

#[test]
fn measures_rectangular_board() {
    let grid: &[&[u8]] = &[&[1, 1, 1], &[1, 1, 1], &[1, 1, 1], &[0, 0, 0]];
    let board = Board::from_grid(grid, 2);
    assert_eq!(jaggedness(&board), 3);
}

#[test]
fn measures_board_after_applying_piece() {
    let mut board = Board::new_solved(3, 3, 2);
    assert_eq!(jaggedness(&board), 0);

    let mut piece = Bitboard::zero();
    piece.set_bit(0);
    piece.set_bit(1);
    piece.set_bit(15);
    piece.set_bit(16);
    board.apply_piece(piece);
    assert_eq!(jaggedness(&board), 4);
}

#[test]
fn measures_two_isolated_cells() {
    let grid: &[&[u8]] = &[&[1, 0, 0], &[0, 0, 0], &[0, 0, 1]];
    let board = Board::from_grid(grid, 2);
    assert_eq!(jaggedness(&board), 4);
}

#[test]
fn weights_distance_with_modulus_four() {
    let grid: &[&[u8]] = &[&[0, 2, 0], &[0, 0, 0], &[0, 0, 0]];
    let board = Board::from_grid(grid, 4);
    assert_eq!(jaggedness(&board), 6);
}

#[test]
fn measures_unit_distance_with_modulus_four() {
    let grid: &[&[u8]] = &[&[0, 1, 0], &[0, 0, 0], &[0, 0, 0]];
    let board = Board::from_grid(grid, 4);
    assert_eq!(jaggedness(&board), 3);
}

#[test]
fn measures_wraparound_with_modulus_four() {
    let grid: &[&[u8]] = &[&[3, 0, 0], &[0, 0, 0], &[0, 0, 0]];
    let board = Board::from_grid(grid, 4);
    assert_eq!(jaggedness(&board), 2);
}
