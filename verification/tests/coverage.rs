use shapeshifter::model::bitboard::Bitboard;
use shapeshifter::model::board::Board;
use shapeshifter::model::coverage::{has_sufficient_coverage, precompute_suffix_coverage, CoverageCounter};

#[test]
fn test_empty_counter() {
    let c = CoverageCounter::zero();
    assert!(c.coverage_ge(1).is_zero());
}

#[test]
fn test_add_single() {
    let mut c = CoverageCounter::zero();
    let reach = Bitboard::from_bit(5);
    c.add(reach);
    assert!(c.coverage_ge(1).get_bit(5));
    assert!(!c.coverage_ge(2).get_bit(5));
}

#[test]
fn test_add_multiple_same_cell() {
    let mut c = CoverageCounter::zero();
    let reach = Bitboard::from_bit(10);
    c.add(reach);
    c.add(reach);
    c.add(reach);
    assert!(c.coverage_ge(1).get_bit(10));
    assert!(c.coverage_ge(2).get_bit(10));
    assert!(c.coverage_ge(3).get_bit(10));
    assert!(!c.coverage_ge(4).get_bit(10));
}

#[test]
fn test_add_different_cells() {
    let mut c = CoverageCounter::zero();
    c.add(Bitboard::from_bit(0));
    c.add(Bitboard::from_bit(1));
    assert!(c.coverage_ge(1).get_bit(0));
    assert!(c.coverage_ge(1).get_bit(1));
    assert!(!c.coverage_ge(2).get_bit(0));
    assert!(!c.coverage_ge(2).get_bit(1));
}

#[test]
fn test_coverage_ge_4() {
    let mut c = CoverageCounter::zero();
    let reach = Bitboard::from_bit(7);
    for _ in 0..4 {
        c.add(reach);
    }
    assert!(c.coverage_ge(4).get_bit(7));
    let mut c2 = CoverageCounter::zero();
    for _ in 0..3 {
        c2.add(reach);
    }
    assert!(!c2.coverage_ge(4).get_bit(7));
}

#[test]
fn test_suffix_coverage() {
    let reaches = vec![Bitboard::from_bit(0), Bitboard::from_bit(0), Bitboard::from_bit(1)];
    let suffix = precompute_suffix_coverage(&reaches);
    assert!(suffix[0].coverage_ge(2).get_bit(0));
    assert!(suffix[0].coverage_ge(1).get_bit(1));
    assert!(!suffix[0].coverage_ge(2).get_bit(1));
    assert!(!suffix[2].coverage_ge(1).get_bit(0));
    assert!(suffix[2].coverage_ge(1).get_bit(1));
    assert!(suffix[3].coverage_ge(1).is_zero());
}

#[test]
fn coverage_subtract_undoes_add() {
    let mut c = CoverageCounter::zero();
    let a = Bitboard::from_bit(3) | Bitboard::from_bit(4);
    let b = Bitboard::from_bit(4);
    for _ in 0..5 {
        c.add(a);
    }
    c.add(b);
    assert!(c.coverage_ge(6).get_bit(4));
    assert!(!c.coverage_ge(6).get_bit(3));
    c.subtract(b);
    assert!(c.coverage_ge(5).get_bit(4));
    assert!(!c.coverage_ge(6).get_bit(4));
    for _ in 0..5 {
        c.subtract(a);
    }
    assert!(c.coverage_ge(1).is_zero());
}

#[test]
fn coverage_thresholds_beyond_eight() {
    let mut c = CoverageCounter::zero();
    let reach = Bitboard::from_bit(9);
    for k in 1..=63u8 {
        c.add(reach);
        assert!(c.coverage_ge(k).get_bit(9));
        assert!(!c.coverage_ge(k + 1).get_bit(9));
        assert!(!c.coverage_ge(k).get_bit(8));
    }
    assert!(c.coverage_ge(0).get_bit(200));
    assert!(c.coverage_ge(64).is_zero());
}

#[test]
fn coverage_sufficiency_against_board() {
    // m=3: a cell at value d needs d covering reaches.
    let grid: &[&[u8]] = &[&[1, 2, 0], &[0, 0, 0], &[0, 0, 0]];
    let board = Board::from_grid(grid, 3);
    let mut c = CoverageCounter::zero();
    assert!(!has_sufficient_coverage(&board, &c, 3));
    c.add(Bitboard::from_bit(0) | Bitboard::from_bit(1));
    assert!(!has_sufficient_coverage(&board, &c, 3));
    c.add(Bitboard::from_bit(1));
    assert!(has_sufficient_coverage(&board, &c, 3));
    let one: &[&[u8]] = &[&[1, 0, 0], &[0, 0, 0], &[0, 0, 0]];
    let board = Board::from_grid(one, 3);
    let mut c = CoverageCounter::zero();
    c.add(Bitboard::from_bit(0));
    assert!(has_sufficient_coverage(&board, &c, 3));
}
