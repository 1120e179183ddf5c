use shapeshifter::model::bitboard::Bitboard;
use shapeshifter::model::board::Board;

fn sample_grid() -> Board {
    // 3x3 board, m=3
    let grid: &[&[u8]] = &[&[0, 1, 2], &[2, 1, 0], &[1, 0, 2]];
    Board::from_grid(grid, 3)
}

#[test]
fn test_from_grid_and_get() {
    let board = sample_grid();
    assert_eq!(board.get(0, 0), 0);
    assert_eq!(board.get(0, 1), 1);
    assert_eq!(board.get(0, 2), 2);
    assert_eq!(board.get(1, 0), 2);
    assert_eq!(board.get(1, 1), 1);
    assert_eq!(board.get(1, 2), 0);
    assert_eq!(board.get(2, 0), 1);
    assert_eq!(board.get(2, 1), 0);
    assert_eq!(board.get(2, 2), 2);
}

#[test]
fn test_dimensions() {
    let board = sample_grid();
    assert_eq!(board.height(), 3);
    assert_eq!(board.width(), 3);
    assert_eq!(board.m(), 3);
}

#[test]
fn test_new_solved() {
    let board = Board::new_solved(3, 3, 3);
    assert!(board.is_solved());
    for r in 0..3 {
        for c in 0..3 {
            assert_eq!(board.get(r, c), 0);
        }
    }
}

#[test]
fn test_is_solved() {
    let board = sample_grid();
    assert!(!board.is_solved());
    let solved = Board::new_solved(4, 4, 2);
    assert!(solved.is_solved());
}

#[test]
fn test_apply_piece_single_cell() {
    let mut board = Board::new_solved(3, 3, 3);
    let piece = Bitboard::from_bit(0);
    board.apply_piece(piece);
    assert_eq!(board.get(0, 0), 2);
    assert_eq!(board.get(0, 1), 0);
    board.apply_piece(piece);
    assert_eq!(board.get(0, 0), 1);
    board.apply_piece(piece);
    assert_eq!(board.get(0, 0), 0);
}

#[test]
fn test_apply_piece_multi_cell() {
    let mut board = Board::new_solved(3, 3, 2);
    let mut piece = Bitboard::zero();
    piece.set_bit(0);
    piece.set_bit(1);
    board.apply_piece(piece);
    assert_eq!(board.get(0, 0), 1);
    assert_eq!(board.get(0, 1), 1);
    assert_eq!(board.get(0, 2), 0);
}

#[test]
fn test_undo_piece() {
    let mut board = Board::new_solved(3, 3, 3);
    let piece = Bitboard::from_bit(0);
    board.apply_piece(piece);
    assert_eq!(board.get(0, 0), 2);
    board.undo_piece(piece);
    assert_eq!(board.get(0, 0), 0);
}

#[test]
fn test_undo_piece_restores_deficit() {
    let mut board = Board::new_solved(3, 3, 3);
    let piece = Bitboard::from_bit(0);
    board.undo_piece(piece);
    assert_eq!(board.get(0, 0), 1);
    board.apply_piece(piece);
    assert_eq!(board.get(0, 0), 0);
}

#[test]
fn test_apply_undo_roundtrip() {
    let original = sample_grid();
    let mut board = original;
    let mut piece = Bitboard::zero();
    piece.set_bit(0 * 15 + 0);
    piece.set_bit(0 * 15 + 1);
    piece.set_bit(1 * 15 + 0);
    board.apply_piece(piece);
    assert_ne!(board, original);
    board.undo_piece(piece);
    assert_eq!(board, original);
}

#[test]
fn test_valid_mask() {
    let board = Board::new_solved(3, 4, 2);
    let mask = board.valid_mask();
    for r in 0..3 {
        for c in 0..4 {
            assert!(mask.get_bit((r * 15 + c) as u32));
        }
    }
    assert!(!mask.get_bit(4));
    assert!(!mask.get_bit(14));
}

#[test]
fn test_plane() {
    let board = sample_grid();
    let p0 = board.plane(0);
    assert!(p0.get_bit(0 * 15 + 0));
    assert!(p0.get_bit(1 * 15 + 2));
    assert!(p0.get_bit(2 * 15 + 1));
    assert!(!p0.get_bit(0 * 15 + 1));
}

#[test]
fn test_m5_board() {
    let grid: &[&[u8]] = &[&[0, 1, 2], &[3, 4, 0], &[1, 2, 3]];
    let board = Board::from_grid(grid, 5);
    assert_eq!(board.get(1, 1), 4);
    let mut b = board;
    let piece = Bitboard::from_bit(1 * 15 + 1);
    b.apply_piece(piece);
    assert_eq!(b.get(1, 1), 3);
}

#[test]
fn board_total_deficit_is_sum_of_cells() {
    let board = sample_grid();
    // cells: 0+1+2 + 2+1+0 + 1+0+2 = 9
    assert_eq!(board.total_deficit(), 9);
    let mut b = board;
    let mut piece = Bitboard::zero();
    piece.set_bit(0); // value 0 wraps to 2
    piece.set_bit(1); // value 1 goes to 0
    b.apply_piece(piece);
    assert_eq!(b.total_deficit(), 9 + 2 - 1);
}

#[test]
fn board_m_applications_are_identity() {
    for m in 2u8..=5 {
        let grid: &[&[u8]] = &[&[0, 1, 0], &[1, 0, 1], &[0, 1, 0]];
        let original = Board::from_grid(grid, m);
        let mut b = original;
        let mut piece = Bitboard::zero();
        piece.set_bit(0);
        piece.set_bit(1);
        piece.set_bit(16);
        for _ in 0..m {
            b.apply_piece(piece);
        }
        assert_eq!(b, original);
        assert_eq!(b.total_deficit(), original.total_deficit());
    }
}

#[test]
fn board_planes_partition_the_board() {
    let grid: &[&[u8]] = &[&[0, 1, 2, 3], &[4, 0, 1, 2], &[3, 4, 0, 1]];
    let board = Board::from_grid(grid, 5);
    let mut union = Bitboard::zero();
    for d in 0..5u8 {
        let p = board.plane(d);
        assert!((union & p).is_zero());
        union = union | p;
    }
    assert_eq!(union, board.valid_mask());
    assert_eq!(union.count_ones(), 12);
}

#[test]
fn board_m2_undo_equals_apply() {
    let grid: &[&[u8]] = &[&[1, 0, 1], &[0, 1, 0], &[1, 1, 1]];
    let mut a = Board::from_grid(grid, 2);
    let mut b = a;
    let piece = Bitboard::from_bit(15) | Bitboard::from_bit(16);
    a.apply_piece(piece);
    b.undo_piece(piece);
    assert_eq!(a, b);
    assert_eq!(a.get(1, 0), 1);
    assert_eq!(a.get(1, 1), 0);
}

#[test]
fn board_test_debug_output() {
    let board = Board::new_solved(3, 3, 2);
    let s = board.debug_string();
    assert!(s.contains("Board(3x3, m=2)"));
}

#[test]
fn board_debug_output_lists_rows() {
    let board = Board::from_grid(&[&[0, 1, 2], &[2, 1, 0], &[1, 0, 2], &[0, 0, 0]], 3);
    assert_eq!(board.debug_string(), "Board(4x3, m=3)\n0 1 2\n2 1 0\n1 0 2\n0 0 0\n");
    let wide = Board::new_solved(3, 12, 5);
    assert!(wide.debug_string().starts_with("Board(3x12, m=5)\n0 0 0 0 0 0 0 0 0 0 0 0\n"));
}
