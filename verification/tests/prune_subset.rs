use shapeshifter::model::bitboard::Bitboard;
use shapeshifter::model::board::Board;
use shapeshifter::solver::prune::subset::{SubsetPrune, SubsetReachability};
use shapeshifter::solver::prune::weight_tuple::{WeightTuplePrune, WeightTupleReachability};

#[test]
fn subset_test_try_prune_empty_checks() {
    let sp = SubsetPrune { checks: Vec::new() };
    let board = Board::new_solved(3, 3, 2);
    assert!(sp.try_prune(&board, 0));
}

#[test]
fn weight_tuple_test_try_prune_empty_checks() {
    let wtp = WeightTuplePrune { checks: Vec::new() };
    let board = Board::new_solved(3, 3, 2);
    assert!(wtp.try_prune(&board, 0));
}

fn two_cell_subset(reachable: Vec<u8>, first_useful: usize) -> SubsetReachability {
    let mut mask = Bitboard::zero();
    mask.set_bit(0);
    mask.set_bit(1);
    SubsetReachability { cells: vec![0, 1], m: 3, num_configs: 9, mask, reachable, first_useful }
}

#[test]
fn subset_encodes_cells_in_base_m_and_reads_the_table() {
    let board = Board::from_grid(&[&[2, 1, 0], &[0, 0, 0], &[0, 0, 0]], 3);
    // Cell 0 holds 2, cell 1 holds 1: configuration 2 + 1 * 3 = 5.
    let mut reachable = vec![0u8; 18];
    let subset = two_cell_subset(reachable.clone(), 0);
    assert_eq!(subset.encode_config(&board), 5);
    assert!(!subset.check(&board, 0));
    reachable[5] = 1;
    let subset = two_cell_subset(reachable.clone(), 0);
    assert!(subset.check(&board, 0));
    // Layer 1 is separate.
    assert!(!subset.check(&board, 1));
    // Pieces before the first useful one are not checked.
    let subset = two_cell_subset(vec![0u8; 18], 1);
    assert!(subset.check(&board, 0));
    // A subset whose cells are all zero is always fine.
    let solved = Board::new_solved(3, 3, 3);
    assert!(subset.check(&solved, 1));
}

#[test]
fn weight_tuple_indexes_group_weights() {
    let board = Board::from_grid(&[&[2, 1, 0], &[0, 1, 0], &[0, 0, 0]], 3);
    let mut row0 = Bitboard::zero();
    let mut row1 = Bitboard::zero();
    for c in 0..3 {
        row0.set_bit(c);
        row1.set_bit(15 + c);
    }
    let mut reachable = vec![0u8; 2 * 25];
    // Row 0 weighs 3 and row 1 weighs 1: index 3 * 1 + 1 * 5 = 8 in layer 1.
    reachable[25 + 8] = 1;
    let wt = WeightTupleReachability {
        group_masks: vec![row0, row1],
        num_groups: 2,
        strides: vec![1, 5],
        num_configs: 25,
        m: 3,
        reachable,
    };
    assert_eq!(wt.group_weight(&board, 0), 3);
    assert_eq!(wt.group_weight(&board, 1), 1);
    assert_eq!(wt.encode(&[3, 1]), 8);
    assert!(wt.check(&board, 1));
    assert!(!wt.check(&board, 0));
}
