use shapeshifter::model::board::Board;
use shapeshifter::model::piece::Piece;
use shapeshifter::solver::prune::cell_interval::CellIntervalPrune;
use shapeshifter::solver::prune::jaggedness::{split_jaggedness, JaggednessPrune};
use shapeshifter::solver::pruning::jaggedness::{measure, JaggednessBound};
use shapeshifter::solver::prune::parity::ParityPrune;
use shapeshifter::solver::prune::region_budget::RegionBudgetPrune;
use shapeshifter::solver::pruning::cell_set::CellSetBound;
use shapeshifter::solver::pruning::partition::PartitionReachability;

/// The board that placing `pieces[k]` at `at[k]` solves: each cell holds its
/// hit count modulo `m`.
fn finishable_board(h: usize, w: usize, m: u8, pieces: &[Piece], at: &[(usize, usize)]) -> Board {
    let mut grid = vec![vec![0u8; w]; h];
    for (piece, &(row, col)) in pieces.iter().zip(at) {
        let mask = piece.placed_at(row, col);
        for r in 0..h {
            for c in 0..w {
                if mask.get_bit((15 * r + c) as u32) {
                    grid[r][c] = (grid[r][c] + 1) % m;
                }
            }
        }
    }
    let rows: Vec<&[u8]> = grid.iter().map(|r| r.as_slice()).collect();
    Board::from_grid(&rows, m)
}

fn sample_pieces() -> Vec<Piece> {
    vec![
        Piece::from_grid(&[&[true, true], &[true, false]]),
        Piece::from_grid(&[&[true, true, true]]),
        Piece::from_grid(&[&[true, true], &[true, true]]),
        Piece::from_grid(&[&[false, true], &[true, true], &[false, true]]),
    ]
}

fn total_cells(pieces: &[Piece]) -> u32 {
    pieces.iter().map(|p| p.cell_count()).sum()
}

#[test]
fn partitions_allow_a_finishable_board() {
    let pieces = sample_pieces();
    let at = [(0, 0), (2, 3), (4, 4), (1, 1)];
    for m in 2..=4u8 {
        let board = finishable_board(6, 6, m, &pieces, &at);
        let order: Vec<usize> = (0..pieces.len()).collect();
        let reachability = PartitionReachability::precompute(&pieces, &order, 6, 6);
        assert_eq!(reachability.partition_count(), 15);
        assert!(reachability.allows(&board, 0, m, total_cells(&pieces)));
        let parity = ParityPrune::precompute(&pieces, &order, 6, 6, m);
        assert!(parity.try_prune(&board, 0, m, total_cells(&pieces)));
        // After the first piece is placed, the rest still finish the board
        // it leaves.
        let rest = &pieces[1..];
        let board_after = finishable_board(6, 6, m, rest, &at[1..]);
        assert!(reachability.allows(&board_after, 1, m, total_cells(rest)));
        assert!(parity.try_prune(&board_after, 1, m, total_cells(rest)));
    }
}

#[test]
fn partitions_reject_what_no_placement_finishes() {
    // One cell short of a domino's two colours: the checkerboard partition
    // cannot take the deficit.
    let pieces = vec![Piece::from_grid(&[&[true, true]])];
    let board = Board::from_grid(&[&[1, 0, 1, 0], &[0, 0, 0, 0], &[0, 0, 0, 0], &[0, 0, 0, 0]], 3);
    let reachability = PartitionReachability::precompute(&pieces, &[0], 4, 4);
    assert!(!reachability.allows(&board, 0, 3, 2));
}

#[test]
fn cell_interval_allows_a_finishable_board() {
    let pieces = sample_pieces();
    let at = [(0, 0), (2, 3), (4, 4), (1, 1)];
    for m in 2..=4u8 {
        let board = finishable_board(6, 6, m, &pieces, &at);
        let placements: Vec<_> = pieces.iter().map(|p| p.placements(6, 6)).collect();
        let prune = CellIntervalPrune::precompute(&placements, m, board.valid_mask());
        let allowed = match m {
            2 => prune.try_prune::<2>(&board, 0),
            3 => prune.try_prune::<3>(&board, 0),
            _ => prune.try_prune::<4>(&board, 0),
        };
        assert!(allowed);
    }
}

#[test]
fn region_budget_allows_a_finishable_board() {
    let pieces = sample_pieces();
    let at = [(0, 0), (2, 3), (4, 4), (1, 1)];
    for m in 2..=4u8 {
        let board = finishable_board(6, 6, m, &pieces, &at);
        let placements: Vec<_> = pieces.iter().map(|p| p.placements(6, 6)).collect();
        let order: Vec<usize> = (0..pieces.len()).collect();
        let prune = RegionBudgetPrune::precompute(&board, &pieces, &order, &placements, 6, 6, m);
        assert!(prune.try_prune(&board, 0));
    }
}

#[test]
fn corner_regions_allow_a_finishable_board() {
    let pieces = sample_pieces();
    let at = [(0, 0), (2, 3), (4, 4), (1, 1)];
    for m in 2..=4u8 {
        let board = finishable_board(6, 6, m, &pieces, &at);
        let placements: Vec<_> = pieces.iter().map(|p| p.placements(6, 6)).collect();
        let bound = CellSetBound::precompute(&placements, 6, 6, m);
        let cells = total_cells(&pieces);
        let allowed = match m {
            2 => bound.allows::<2>(&board, 0, cells),
            3 => bound.allows::<3>(&board, 0, cells),
            _ => bound.allows::<4>(&board, 0, cells),
        };
        assert!(allowed);
        // The same pieces placed elsewhere finish other boards, which pass too.
        let moved = finishable_board(6, 6, m, &pieces, &[(4, 0), (0, 3), (3, 1), (2, 4)]);
        let allowed = match m {
            2 => bound.allows::<2>(&moved, 0, cells),
            3 => bound.allows::<3>(&moved, 0, cells),
            _ => bound.allows::<4>(&moved, 0, cells),
        };
        assert!(allowed);
    }
}

#[test]
fn corner_regions_reject_a_corner_no_piece_reaches_alone() {
    // A single domino cannot leave the lone corner deficit at zero.
    let pieces = vec![Piece::from_grid(&[&[true, true]])];
    let board = Board::from_grid(&[&[1, 0, 0], &[0, 0, 0], &[0, 0, 0]], 2);
    let placements: Vec<_> = pieces.iter().map(|p| p.placements(3, 3)).collect();
    let bound = CellSetBound::precompute(&placements, 3, 3, 2);
    assert!(!bound.allows::<2>(&board, 0, 2));
}

#[test]
fn jaggedness_allows_a_finishable_board() {
    let pieces = sample_pieces();
    let at = [(0, 0), (2, 3), (4, 4), (1, 1)];
    let order: Vec<usize> = (0..pieces.len()).collect();
    for m in 2..=5u8 {
        let board = finishable_board(6, 6, m, &pieces, &at);
        let bound = JaggednessBound::precompute(&pieces, &order, 6, 6);
        let hm = bound.horizontal_mask();
        let vm = bound.vertical_mask();
        let measured = match m {
            2 => measure::<2>(&board, hm, vm),
            3 => measure::<3>(&board, hm, vm),
            4 => measure::<4>(&board, hm, vm),
            _ => measure::<5>(&board, hm, vm),
        };
        assert!(bound.allows(&measured, 0, m));
        let prune = JaggednessPrune::precompute(&pieces, &order, 6, 6);
        let split = match m {
            2 => split_jaggedness::<2>(&board, prune.h_mask(), prune.v_mask()),
            3 => split_jaggedness::<3>(&board, prune.h_mask(), prune.v_mask()),
            4 => split_jaggedness::<4>(&board, prune.h_mask(), prune.v_mask()),
            _ => split_jaggedness::<5>(&board, prune.h_mask(), prune.v_mask()),
        };
        assert!(prune.try_prune(&split, 0, m));
    }
}

#[test]
fn jaggedness_rejects_a_board_too_rough_for_the_pieces() {
    // Three raised cells, not side by side, differ from four horizontal
    // neighbours; one single cell has a horizontal perimeter of two.
    let pieces = vec![Piece::from_grid(&[&[true]])];
    let board = Board::from_grid(&[&[1, 0, 1], &[0, 1, 0], &[0, 0, 0]], 2);
    let bound = JaggednessBound::precompute(&pieces, &[0], 3, 3);
    let measured = measure::<2>(&board, bound.horizontal_mask(), bound.vertical_mask());
    assert!(!bound.allows(&measured, 0, 2));
}
