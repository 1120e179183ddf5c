use shapeshifter::model::bitboard::Bitboard;
use shapeshifter::model::board::Board;
use shapeshifter::model::piece::Piece;
use shapeshifter::solver::pruning::total_deficit::{singleton_neighbor_cover_upper_bound, TotalDeficitBound};

fn bound(pieces: &[Piece], board: &Board) -> TotalDeficitBound {
    TotalDeficitBound::precompute(
        pieces,
        &(0..pieces.len()).collect::<Vec<_>>(),
        board.height(),
        board.width(),
    )
}

#[test]
fn precomputes_remaining_cells() {
    let single = Piece::from_grid(&[&[true]]);
    let domino = Piece::from_grid(&[&[true, true]]);
    let pieces = vec![single, domino];
    let piece_order = vec![0, 1];

    let bound = TotalDeficitBound::precompute(&pieces, &piece_order, 3, 3);

    assert_eq!(bound.remaining_cells(0), 3);
    assert_eq!(bound.remaining_cells(1), 2);
    assert_eq!(bound.remaining_cells(2), 0);
}

#[test]
fn respects_solver_order() {
    let single = Piece::from_grid(&[&[true]]);
    let domino = Piece::from_grid(&[&[true, true]]);
    let tromino = Piece::from_grid(&[&[true, true, true]]);
    let pieces = vec![single, domino, tromino];
    let piece_order = vec![2, 0, 1];

    let bound = TotalDeficitBound::precompute(&pieces, &piece_order, 3, 3);

    assert_eq!(bound.remaining_cells(0), 6);
    assert_eq!(bound.remaining_cells(1), 3);
    assert_eq!(bound.remaining_cells(2), 2);
}

#[test]
fn allows_coverable_deficit() {
    let grid: &[&[u8]] = &[&[1, 1, 1], &[0, 0, 0], &[0, 0, 0]];
    let board = Board::from_grid(grid, 2);
    assert_eq!(board.total_deficit(), 3);

    let domino = Piece::from_grid(&[&[true, true]]);
    let pieces = vec![domino, domino];
    let piece_order = vec![0, 1];
    let bound = TotalDeficitBound::precompute(&pieces, &piece_order, 3, 3);

    assert!(bound.allows::<2>(&board, 0));
}

#[test]
fn rejects_uncoverable_deficit() {
    let grid: &[&[u8]] = &[&[1, 1, 1], &[1, 1, 0], &[0, 0, 0]];
    let board = Board::from_grid(grid, 2);
    assert_eq!(board.total_deficit(), 5);

    let domino = Piece::from_grid(&[&[true, true]]);
    let pieces = vec![domino];
    let piece_order = vec![0];
    let bound = TotalDeficitBound::precompute(&pieces, &piece_order, 3, 3);

    assert!(!bound.allows::<2>(&board, 0));
}

#[test]
fn allows_exact_deficit() {
    let grid: &[&[u8]] = &[&[1, 1, 0], &[0, 0, 0], &[0, 0, 0]];
    let board = Board::from_grid(grid, 2);
    assert_eq!(board.total_deficit(), 2);

    let domino = Piece::from_grid(&[&[true, true]]);
    let pieces = vec![domino];
    let piece_order = vec![0];
    let bound = TotalDeficitBound::precompute(&pieces, &piece_order, 3, 3);

    assert!(bound.allows::<2>(&board, 0));
}

#[test]
fn rejects_isolated_deficit_at_the_exact_boundary() {
    let board = Board::from_grid(&[&[0, 0, 0], &[0, 2, 0], &[0, 0, 0]], 3);
    let pieces = [Piece::from_grid(&[&[true, true]])];

    assert!(!bound(&pieces, &board).allows::<3>(&board, 0));
}

#[test]
fn rejects_isolated_deficit_beyond_the_exact_boundary() {
    let board = Board::from_grid(
        &[
            &[2, 0, 0, 0, 2, 0, 0, 0, 0],
            &[0, 0, 0, 0, 0, 0, 0, 0, 0],
            &[2, 0, 0, 0, 2, 0, 0, 0, 0],
        ],
        3,
    );
    let pieces = [
        Piece::from_grid(&[&[true, true, true, true, true]]),
        Piece::from_grid(&[&[true, true, true, true]]),
        Piece::from_grid(&[&[true, true]]),
    ];
    assert_eq!(board.total_deficit(), 8);

    assert!(!bound(&pieces, &board).allows::<3>(&board, 0));
}

#[test]
fn allows_isolated_cells_to_share_a_touched_neighbor() {
    let board = Board::from_grid(&[&[0, 2, 0, 0, 0], &[0, 0, 0, 0, 0], &[0, 2, 0, 0, 0]], 3);
    let pieces = [
        Piece::from_grid(&[&[true, true, true, true, true]]),
        Piece::from_grid(&[&[true, true]]),
    ];
    assert_eq!(board.total_deficit(), 4);

    assert!(bound(&pieces, &board).allows::<3>(&board, 0));
}

#[test]
fn leaves_disconnected_piece_states_to_other_bounds() {
    let board = Board::from_grid(&[&[1, 0, 0], &[0, 1, 0], &[0, 0, 0]], 3);
    let pieces = [Piece::from_grid(&[&[true, false], &[false, true]])];

    assert!(bound(&pieces, &board).allows::<3>(&board, 0));
}

#[test]
fn sums_all_isolated_deficits_around_a_neighbor() {
    let board = Board::from_grid(
        &[
            &[0, 0, 0, 0, 0],
            &[0, 0, 1, 0, 0],
            &[0, 3, 0, 4, 0],
            &[0, 0, 2, 0, 0],
            &[0, 0, 0, 0, 0],
        ],
        5,
    );
    let isolated = board.valid_mask() & !board.plane(0);

    assert_eq!(
        singleton_neighbor_cover_upper_bound::<5>(&board, isolated, board.valid_mask(), 1),
        10
    );
}

fn assert_generated_states_are_allowed<const MODULUS: usize>(
    pieces: &[Piece],
    height: u8,
    width: u8,
) {
    fn visit<const MODULUS: usize>(
        bound: &TotalDeficitBound,
        placements: &[Vec<(usize, usize, Bitboard)>],
        board: Board,
        next_piece: usize,
        piece_index: usize,
    ) {
        if next_piece == placements.len() {
            assert!(
                bound.allows::<MODULUS>(&board, piece_index),
                "rejected generated solvable state: {board:?}, suffix={piece_index}"
            );
            return;
        }
        for &(_, _, mask) in &placements[next_piece] {
            let mut predecessor = board;
            predecessor.undo_piece(mask);
            visit::<MODULUS>(bound, placements, predecessor, next_piece + 1, piece_index);
        }
    }

    let placements = pieces
        .iter()
        .map(|piece| piece.placements(height, width))
        .collect::<Vec<_>>();
    let bound = TotalDeficitBound::precompute(
        pieces,
        &(0..pieces.len()).collect::<Vec<_>>(),
        height,
        width,
    );
    for piece_index in 0..pieces.len() {
        visit::<MODULUS>(
            &bound,
            &placements,
            Board::new_solved(height, width, MODULUS as u8),
            piece_index,
            piece_index,
        );
    }
}

#[test]
fn total_deficit_allows_exhaustively_generated_solvable_states() {
    let single = Piece::from_grid(&[&[true]]);
    let horizontal_domino = Piece::from_grid(&[&[true, true]]);
    let vertical_domino = Piece::from_grid(&[&[true], &[true]]);
    let corner = Piece::from_grid(&[&[true, true], &[true, false]]);
    let pieces = [corner, horizontal_domino, vertical_domino, single];

    assert_generated_states_are_allowed::<2>(&pieces, 3, 3);
    assert_generated_states_are_allowed::<3>(&pieces, 3, 3);
    assert_generated_states_are_allowed::<4>(&pieces, 3, 3);
    assert_generated_states_are_allowed::<5>(&pieces, 3, 3);
}
