use shapeshifter::model::bitboard::Bitboard;
use shapeshifter::model::board::Board;
use shapeshifter::model::piece::Piece;
use shapeshifter::solver::pruning::cell_set::{
    apply_effect, configuration_deficit, corner_cell_sets, corner_rectangle, CellSet, CellSetBound,
};

const STRIDE: usize = 15;

type PiecePlacements = Vec<(usize, usize, Bitboard)>;

fn placements(pieces: &[Piece], height: u8, width: u8) -> Vec<PiecePlacements> {
    pieces.iter().map(|piece| piece.placements(height, width)).collect()
}

#[test]
fn stores_minimum_area_committed_to_the_set() {
    let domino = Piece::from_grid(&[&[true, true]]);
    let all_placements = placements(&[domino, domino], 3, 4);
    let cells = (0..3).flat_map(|row| (0..3).map(move |column| (row * STRIDE + column) as u32)).collect();
    let set = CellSet::precompute(cells, &all_placements, 2);
    let board = Board::from_grid(&[&[0, 1, 0, 0], &[0, 0, 0, 1], &[0, 0, 0, 1]], 2);
    let config = set.encode::<2>(&board);

    assert_eq!(set.minimum_extra_cycles(0, config), 1);
    assert!(!set.allows::<2>(&board, 0, 0));
}

#[test]
fn rejects_an_unreachable_set_configuration() {
    let domino = Piece::from_grid(&[&[true, true]]);
    let all_placements = placements(&[domino], 3, 3);
    let cells = (0..3).flat_map(|row| (0..3).map(move |column| (row * STRIDE + column) as u32)).collect();
    let set = CellSet::precompute(cells, &all_placements, 2);
    let board = Board::from_grid(&[&[1, 0, 0], &[0, 0, 0], &[0, 0, 0]], 2);

    assert!(!set.allows::<2>(&board, 0, 0));
}

#[test]
fn encodes_large_base_five_cell_sets() {
    let cells = (0..2).flat_map(|row| (0..4).map(move |column| (row * STRIDE + column) as u32)).collect();
    let set = CellSet::precompute(cells, &[], 5);
    let board = Board::from_grid(&[&[4, 4, 4, 4], &[4, 4, 4, 4], &[0, 0, 0, 0]], 5);

    assert_eq!(set.encode::<5>(&board), 5usize.pow(8) - 1);
}

fn visit<const MODULUS: usize>(
    bound: &CellSetBound,
    placements: &[PiecePlacements],
    board: Board,
    next_piece: usize,
    suffix_start: usize,
    remaining_area: u32,
) {
    if next_piece == placements.len() {
        assert!(
            bound.allows::<MODULUS>(&board, suffix_start, remaining_area),
            "rejected generated solvable state: {board:?}, suffix={suffix_start}"
        );
        return;
    }
    for &(_, _, mask) in &placements[next_piece] {
        let mut predecessor = board;
        predecessor.undo_piece(mask);
        visit::<MODULUS>(bound, placements, predecessor, next_piece + 1, suffix_start, remaining_area);
    }
}

fn assert_generated_states_are_allowed<const MODULUS: usize>() {
    let pieces = [
        Piece::from_grid(&[&[true, true], &[true, false]]),
        Piece::from_grid(&[&[true, true]]),
        Piece::from_grid(&[&[true], &[true]]),
        Piece::from_grid(&[&[true]]),
    ];
    let all_placements = placements(&pieces, 3, 3);
    let rectangle = if MODULUS == 5 { (2, 2) } else { (3, 3) };
    let bound = CellSetBound::new(
        corner_cell_sets(3, 3, rectangle)
            .into_iter()
            .map(|cells| CellSet::precompute(cells, &all_placements, MODULUS as u8))
            .collect(),
    );
    for suffix_start in 0..pieces.len() {
        let remaining_area = pieces[suffix_start..].iter().map(Piece::cell_count).sum();
        visit::<MODULUS>(
            &bound,
            &all_placements,
            Board::new_solved(3, 3, MODULUS as u8),
            suffix_start,
            suffix_start,
            remaining_area,
        );
    }
}

#[test]
fn cell_set_allows_exhaustively_generated_solvable_states() {
    assert_generated_states_are_allowed::<2>();
    assert_generated_states_are_allowed::<3>();
    assert_generated_states_are_allowed::<4>();
    assert_generated_states_are_allowed::<5>();
}

#[test]
fn effect_steps_each_covered_digit_down() {
    // Base 3, two cells: config 1 + 2*3 = 7 has digits (1, 2).
    // Covering both cells gives digits (0, 1) = 3; covering only the first gives (0, 2) = 6.
    assert_eq!(apply_effect(7, 0b11, 2, 3), 3);
    assert_eq!(apply_effect(7, 0b01, 2, 3), 6);
    // A covered zero wraps to M - 1.
    assert_eq!(apply_effect(0, 0b10, 2, 3), 6);
    assert_eq!(configuration_deficit(7, 2, 3), 3);
    assert_eq!(configuration_deficit(5usize.pow(8) - 1, 8, 5), 32);
}

#[test]
fn corner_rectangles_by_modulus() {
    assert_eq!(corner_rectangle(3, 14, 2), Some((3, 4)));
    assert_eq!(corner_rectangle(9, 9, 3), Some((3, 3)));
    assert_eq!(corner_rectangle(9, 9, 4), Some((3, 3)));
    assert_eq!(corner_rectangle(9, 9, 5), None);
    // A 3x3 board has a single 3x3 corner region.
    assert_eq!(corner_cell_sets(3, 3, (3, 3)).len(), 1);
    let sets = corner_cell_sets(4, 5, (3, 3));
    assert_eq!(sets.len(), 4);
    assert_eq!(sets[0], vec![0, 1, 2, 15, 16, 17, 30, 31, 32]);
    assert_eq!(sets[3][0], (STRIDE + 2) as u32);
}

#[test]
fn bound_allows_a_solvable_state_and_rejects_an_impossible_one() {
    let domino = Piece::from_grid(&[&[true, true]]);
    let all_placements = placements(&[domino], 3, 3);
    let bound = CellSetBound::precompute(&all_placements, 3, 3, 2);
    let solvable = Board::from_grid(&[&[1, 1, 0], &[0, 0, 0], &[0, 0, 0]], 2);
    assert!(bound.allows::<2>(&solvable, 0, 2));
    let single = Board::from_grid(&[&[1, 0, 0], &[0, 0, 0], &[0, 0, 0]], 2);
    assert!(!bound.allows::<2>(&single, 0, 2));
}
