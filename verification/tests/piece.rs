use shapeshifter::model::piece::Piece as CorePiece;
use shapeshifter::piece::Piece as LinePiece;

#[test]
fn piece_test_single_cell_piece() {
    {
        let piece = CorePiece::from_grid(&[&[true]]);
        assert_eq!(piece.height(), 1);
        assert_eq!(piece.width(), 1);
        assert_eq!(piece.cell_count(), 1);
        assert!(piece.shape().get_bit(0));
    }
    {
        let piece = LinePiece::from_grid(&[&[true]]);
        assert_eq!(piece.height(), 1);
        assert_eq!(piece.width(), 1);
        assert_eq!(piece.cell_count(), 1);
        assert!(piece.shape().get_bit(0));
    }
}

#[test]
fn piece_test_l_shaped_piece() {
    {
        let piece = CorePiece::from_grid(&[&[true, true], &[true, false]]);
        assert_eq!(piece.height(), 2);
        assert_eq!(piece.width(), 2);
        assert_eq!(piece.cell_count(), 3);
        assert!(piece.shape().get_bit(0));
        assert!(piece.shape().get_bit(1));
        assert!(piece.shape().get_bit(15));
        assert!(!piece.shape().get_bit(16));
    }
    {
        let piece = LinePiece::from_grid(&[&[true, true], &[true, false]]);
        assert_eq!(piece.height(), 2);
        assert_eq!(piece.width(), 2);
        assert_eq!(piece.cell_count(), 3);
        assert!(piece.shape().get_bit(0));
        assert!(piece.shape().get_bit(1));
        assert!(piece.shape().get_bit(15));
        assert!(!piece.shape().get_bit(16));
    }
}

#[test]
fn piece_test_placed_at() {
    {
        let piece = CorePiece::from_grid(&[&[true, true], &[true, false]]);
        let placed = piece.placed_at(2, 3);
        assert!(placed.get_bit(2 * 15 + 3));
        assert!(placed.get_bit(2 * 15 + 4));
        assert!(placed.get_bit(3 * 15 + 3));
        assert!(!placed.get_bit(3 * 15 + 4));
        assert_eq!(placed.count_ones(), 3);
    }
    {
        let piece = LinePiece::from_grid(&[&[true, true], &[true, false]]);
        let placed = piece.placed_at(2, 3);
        assert!(placed.get_bit(2 * 15 + 3));
        assert!(placed.get_bit(2 * 15 + 4));
        assert!(placed.get_bit(3 * 15 + 3));
        assert!(!placed.get_bit(3 * 15 + 4));
        assert_eq!(placed.count_ones(), 3);
    }
}

#[test]
fn piece_test_placements_count() {
    {
        let piece = CorePiece::from_grid(&[&[true]]);
        let placements = piece.placements(3, 3);
        assert_eq!(placements.len(), 9);
    }
    {
        let piece = LinePiece::from_grid(&[&[true]]);
        let placements = piece.placements(3, 3);
        assert_eq!(placements.len(), 9);
    }
}

#[test]
fn piece_test_placements_2x2_on_3x3() {
    {
        let piece = CorePiece::from_grid(&[&[true, true], &[true, true]]);
        let placements = piece.placements(3, 3);
        assert_eq!(placements.len(), 4);
    }
    {
        let piece = LinePiece::from_grid(&[&[true, true], &[true, true]]);
        let placements = piece.placements(3, 3);
        assert_eq!(placements.len(), 4);
    }
}

#[test]
fn piece_test_placements_exact_fit() {
    {
        let piece = CorePiece::from_grid(&[&[true, true, true], &[true, true, true], &[true, true, true]]);
        let placements = piece.placements(3, 3);
        assert_eq!(placements.len(), 1);
        assert_eq!(placements[0].0, 0);
        assert_eq!(placements[0].1, 0);
    }
    {
        let piece = LinePiece::from_grid(&[&[true, true, true], &[true, true, true], &[true, true, true]]);
        let placements = piece.placements(3, 3);
        assert_eq!(placements.len(), 1);
        assert_eq!(placements[0].0, 0);
        assert_eq!(placements[0].1, 0);
    }
}

#[test]
fn piece_test_placements_positions_correct() {
    {
        let piece = CorePiece::from_grid(&[&[true]]);
        let placements = piece.placements(3, 3);
        assert!(placements.iter().any(|&(r, c, _)| r == 0 && c == 0));
        assert!(placements.iter().any(|&(r, c, _)| r == 0 && c == 2));
        assert!(placements.iter().any(|&(r, c, _)| r == 2 && c == 0));
        assert!(placements.iter().any(|&(r, c, _)| r == 2 && c == 2));
    }
    {
        let piece = LinePiece::from_grid(&[&[true]]);
        let placements = piece.placements(3, 3);
        assert!(placements.iter().any(|&(r, c, _)| r == 0 && c == 0));
        assert!(placements.iter().any(|&(r, c, _)| r == 0 && c == 2));
        assert!(placements.iter().any(|&(r, c, _)| r == 2 && c == 0));
        assert!(placements.iter().any(|&(r, c, _)| r == 2 && c == 2));
    }
}

#[test]
fn piece_test_t_shaped_piece() {
    {
        let piece = CorePiece::from_grid(&[&[true, true, true], &[false, true, false]]);
        assert_eq!(piece.height(), 2);
        assert_eq!(piece.width(), 3);
        assert_eq!(piece.cell_count(), 4);
    }
    {
        let piece = LinePiece::from_grid(&[&[true, true, true], &[false, true, false]]);
        assert_eq!(piece.height(), 2);
        assert_eq!(piece.width(), 3);
        assert_eq!(piece.cell_count(), 4);
    }
}

#[test]
fn piece_test_5x5_piece() {
    {
        let row: &[bool] = &[true, true, true, true, true];
        let piece = CorePiece::from_grid(&[row, row, row, row, row]);
        assert_eq!(piece.height(), 5);
        assert_eq!(piece.width(), 5);
        assert_eq!(piece.cell_count(), 25);
    }
    {
        let row: &[bool] = &[true, true, true, true, true];
        let piece = LinePiece::from_grid(&[row, row, row, row, row]);
        assert_eq!(piece.height(), 5);
        assert_eq!(piece.width(), 5);
        assert_eq!(piece.cell_count(), 25);
    }
}

#[test]
fn piece_test_perimeter_single_cell() {
    {
        let piece = CorePiece::from_grid(&[&[true]]);
        assert_eq!(piece.perimeter(), 4);
    }
    {
        let piece = LinePiece::from_grid(&[&[true]]);
        assert_eq!(piece.perimeter(), 4);
    }
}

#[test]
fn piece_test_perimeter_domino_horizontal() {
    {
        let piece = CorePiece::from_grid(&[&[true, true]]);
        assert_eq!(piece.perimeter(), 6);
    }
    {
        let piece = LinePiece::from_grid(&[&[true, true]]);
        assert_eq!(piece.perimeter(), 6);
    }
}

#[test]
fn piece_test_perimeter_domino_vertical() {
    {
        let piece = CorePiece::from_grid(&[&[true], &[true]]);
        assert_eq!(piece.perimeter(), 6);
    }
    {
        let piece = LinePiece::from_grid(&[&[true], &[true]]);
        assert_eq!(piece.perimeter(), 6);
    }
}

#[test]
fn piece_test_perimeter_2x2_square() {
    {
        let piece = CorePiece::from_grid(&[&[true, true], &[true, true]]);
        assert_eq!(piece.perimeter(), 8);
    }
    {
        let piece = LinePiece::from_grid(&[&[true, true], &[true, true]]);
        assert_eq!(piece.perimeter(), 8);
    }
}

#[test]
fn piece_test_perimeter_l_shape() {
    {
        let piece = CorePiece::from_grid(&[&[true, true], &[true, false]]);
        assert_eq!(piece.perimeter(), 8);
    }
    {
        let piece = LinePiece::from_grid(&[&[true, true], &[true, false]]);
        assert_eq!(piece.perimeter(), 8);
    }
}

#[test]
fn piece_test_perimeter_t_shape() {
    {
        let piece = CorePiece::from_grid(&[&[true, true, true], &[false, true, false]]);
        assert_eq!(piece.perimeter(), 10);
    }
    {
        let piece = LinePiece::from_grid(&[&[true, true, true], &[false, true, false]]);
        assert_eq!(piece.perimeter(), 10);
    }
}

#[test]
fn piece_test_perimeter_straight_line_5() {
    {
        let piece = CorePiece::from_grid(&[&[true, true, true, true, true]]);
        assert_eq!(piece.perimeter(), 12);
    }
    {
        let piece = LinePiece::from_grid(&[&[true, true, true, true, true]]);
        assert_eq!(piece.perimeter(), 12);
    }
}

#[test]
fn piece_test_perimeter_3x3_square() {
    {
        let row: &[bool] = &[true, true, true];
        let piece = CorePiece::from_grid(&[row, row, row]);
        assert_eq!(piece.perimeter(), 12);
    }
    {
        let row: &[bool] = &[true, true, true];
        let piece = LinePiece::from_grid(&[row, row, row]);
        assert_eq!(piece.perimeter(), 12);
    }
}

#[test]
fn piece_test_perimeter_plus_shape() {
    {
        let piece = CorePiece::from_grid(&[&[false, true, false], &[true, true, true], &[false, true, false]]);
        assert_eq!(piece.perimeter(), 12);
    }
    {
        let piece = LinePiece::from_grid(&[&[false, true, false], &[true, true, true], &[false, true, false]]);
        assert_eq!(piece.perimeter(), 12);
    }
}

#[test]
fn piece_test_perimeter_5x5_full() {
    {
        let row: &[bool] = &[true, true, true, true, true];
        let piece = CorePiece::from_grid(&[row, row, row, row, row]);
        assert_eq!(piece.perimeter(), 20);
    }
    {
        let row: &[bool] = &[true, true, true, true, true];
        let piece = LinePiece::from_grid(&[row, row, row, row, row]);
        assert_eq!(piece.perimeter(), 20);
    }
}

#[test]
fn piece_split_perimeters_add_up() {
    let piece = CorePiece::from_grid(&[&[true, true, true], &[false, true, false]]);
    assert_eq!(piece.h_perimeter(), 4);
    assert_eq!(piece.v_perimeter(), 6);
    assert_eq!(piece.perimeter(), 10);
}

#[test]
fn piece_spans() {
    let piece = LinePiece::from_grid(&[&[true, true, true], &[false, true, false]]);
    assert_eq!(piece.diag_span(), 4);
    assert_eq!(piece.zigzag_span(), 2);
}

#[test]
fn piece_placements_are_row_major_shifts() {
    let piece = CorePiece::from_grid(&[&[true, true], &[true, false]]);
    let placements = piece.placements(4, 5);
    assert_eq!(placements.len(), 3 * 4);
    for (k, &(r, c, mask)) in placements.iter().enumerate() {
        assert_eq!(r * 4 + c, k);
        assert_eq!(mask, piece.placed_at(r, c));
    }
    let line = LinePiece::from_grid(&[&[true, true], &[true, false]]);
    let lp = line.placements(4, 5);
    for (k, &(r, c, mask)) in lp.iter().enumerate() {
        assert_eq!(r * 4 + c, k);
        assert_eq!(mask, line.placed_at(r, c));
    }
}

#[test]
fn piece_line_thicknesses() {
    // .#.
    // ###
    // .#.
    let plus = LinePiece::from_grid(&[&[false, true, false], &[true, true, true], &[false, true, false]]);
    assert_eq!(plus.max_row_thickness(), 3);
    assert_eq!(plus.max_col_thickness(), 3);
    assert_eq!(plus.max_diag_thickness(), 2);
    assert_eq!(plus.max_antidiag_thickness(), 2);
    let line = LinePiece::from_grid(&[&[true, true, true, true, true]]);
    assert_eq!(line.max_row_thickness(), 5);
    assert_eq!(line.max_col_thickness(), 1);
    assert_eq!(line.max_diag_thickness(), 1);
    assert_eq!(line.max_antidiag_thickness(), 1);
    // Eligible cells alternate along the line, so no two share a band.
    assert_eq!(line.max_zigzag_r_thickness(), 1);
    let square = LinePiece::from_grid(&[&[true, true], &[true, true]]);
    assert_eq!(square.max_diag_thickness(), 2);
    assert_eq!(square.max_antidiag_thickness(), 2);
    assert_eq!(square.max_zigzag_r_thickness(), 2);
    assert_eq!(square.max_zigzag_l_thickness(), square.max_zigzag_r_thickness());
}

#[test]
fn piece_test_debug_output() {
    {
        let piece = CorePiece::from_grid(&[&[true, false], &[true, true]]);
        let s = piece.debug_string();
        assert!(s.contains("Piece(2x2)"));
        assert!(s.contains("#."));
        assert!(s.contains("##"));
    }
    {
        let piece = LinePiece::from_grid(&[&[true, false], &[true, true]]);
        let s = piece.debug_string();
        assert!(s.contains("Piece(2x2)"));
        assert!(s.contains("#."));
        assert!(s.contains("##"));
    }
}
