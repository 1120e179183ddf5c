//! Feasibility bounds checked at every search node.

pub mod cell_set;
pub mod jaggedness;
pub mod monte_carlo;
pub mod partition;
pub mod total_deficit;

use vstd::prelude::*;
use crate::model::board::Board;
use crate::model::piece::Piece;
use crate::solver::SolverData;
use crate::solver::pruning::cell_set::{placement_lists, available_cycles};
use crate::solver::pruning::monte_carlo::level_allows;
use crate::solver::adjacency::{lemma_pair_sum_bound, lemma_weights_ok, circular, forward, backward};

verus! {

/// Placing `placement_index` of piece `piece_index` after placement
/// `previous` of the previous piece is the first of the pairs with that
/// combined effect (or no pair is checked).
pub(crate) open spec fn canonical_pair(data: SolverData, piece_index: int, placement_index: int, previous: usize) -> bool {
    previous == usize::MAX || match data.equivalent_pair_skips@[piece_index] {
        Some(table) => !table@[previous * data.placements@[piece_index]@.len() + placement_index],
        None => true,
    }
}

/// The zero cells the remaining pieces from `p` on may still hit on `b`.
pub(crate) open spec fn zero_budget(data: SolverData, b: Board, p: int, m: int) -> int {
    (if data.total_deficit.remaining()[p] >= b.deficit() {
        data.total_deficit.remaining()[p] - b.deficit()
    } else {
        0
    }) / m
}

/// Whether placing `placement_index` right after `previous_placement` of the
/// previous piece is the first of the pairs with the same combined effect.
pub(crate) fn is_canonical_placement_pair(
    data: &SolverData,
    piece_index: usize,
    placement_index: usize,
    previous_placement: usize,
) -> (r: bool)
    requires
        piece_index < data.placements@.len(),
        data.equivalent_pair_skips@.len() == data.placements@.len(),
        placement_index < data.placements@[piece_index as int]@.len(),
        previous_placement == usize::MAX || (piece_index > 0 && previous_placement
            < data.placements@[piece_index - 1]@.len()),
        data.equivalent_pair_skips@[piece_index as int] is Some ==> piece_index > 0
            && data.equivalent_pair_skips@[piece_index as int].unwrap()@.len()
            == data.placements@[piece_index - 1]@.len() * data.placements@[piece_index as int]@.len(),
    ensures
        r == (previous_placement == usize::MAX || match data.equivalent_pair_skips@[piece_index as int] {
            Some(table) => !table@[previous_placement * data.placements@[piece_index as int]@.len()
                + placement_index],
            None => true,
        }),
{
    if previous_placement == usize::MAX {
        return true;
    }
    match &data.equivalent_pair_skips[piece_index] {
        Some(table) => {
            let placement_count = data.placements[piece_index].len();
            let table_len = table.len();
            proof {
                let prev_len = data.placements@[piece_index - 1]@.len();
                assert(data.equivalent_pair_skips@[piece_index as int] == Some(*table));
                assert(table@.len() == prev_len * placement_count);
                assert(previous_placement * placement_count + placement_index < prev_len * placement_count)
                    by (nonlinear_arith)
                    requires
                        previous_placement < prev_len,
                        placement_index < placement_count,
                ;
                assert(previous_placement * placement_count + placement_index < table_len);
            }
            !table[previous_placement * placement_count + placement_index]
        },
        None => true,
    }
}

/// The most zero cells the remaining pieces may still hit: each hit of a
/// zero cell costs a full turn of M from the cells beyond the deficit.
pub(crate) fn max_zero_cells_allowed<const MODULUS: usize>(
    board: &Board,
    data: &SolverData,
    piece_index: usize,
) -> (r: u32)
    requires
        board.wf(),
        data.total_deficit.wf(),
        piece_index < data.total_deficit.depths(),
        2 <= MODULUS <= 5,
    ensures
        r == (if data.total_deficit.remaining()[piece_index as int] >= board.deficit() {
            data.total_deficit.remaining()[piece_index as int] - board.deficit()
        } else {
            0
        }) / MODULUS as int,
{
    let remaining_cells = data.total_deficit.remaining_cells(piece_index);
    let deficit = board.total_deficit();
    remaining_cells.saturating_sub(deficit) / MODULUS as u32
}

/// The bounds leave `b` worth searching at depth `p`: the total deficit
/// bound, the selected Monte Carlo level, every partition and every corner
/// region allow it.
pub(crate) open spec fn feasible_spec(data: SolverData, b: Board, p: int, m: int) -> bool {
    let remaining = data.total_deficit.remaining()[p] as int;
    &&& data.total_deficit.allows_spec(b, p, m)
    &&& level_allows(
        data.monte_carlo.levels_spec()[data.monte_carlo.selected()],
        data.monte_carlo.piece_count_spec(),
        b,
        p,
        data.jaggedness,
    )
    &&& forall|k: int|
        0 <= k < data.partition_reachability.len() ==> #[trigger] data.partition_reachability.partition_allows(
            k,
            b,
            p,
            m,
            remaining,
        )
    &&& forall|k: int|
        0 <= k < data.cell_set_bound.sets_spec().len() ==> #[trigger] data.cell_set_bound.sets_spec()[k].allows_spec(
            b,
            p,
            available_cycles(remaining, b.deficit(), m),
        )
}

/// Whether the bounds leave a state worth searching.
pub(crate) fn state_is_feasible<const MODULUS: usize>(board: &Board, data: &SolverData, piece_index: usize) -> (r: bool)
    requires
        board.wf(),
        MODULUS == board.modulus(),
        data.modulus == board.modulus(),
        data.total_deficit.wf(),
        piece_index < data.total_deficit.depths(),
        piece_index < data.jaggedness.remaining_horizontal().len(),
        piece_index < data.jaggedness.remaining_vertical().len(),
        data.modulus * data.jaggedness.remaining_horizontal()[piece_index as int] <= u32::MAX,
        data.modulus * data.jaggedness.remaining_vertical()[piece_index as int] <= u32::MAX,
        exists|sp: Seq<Piece>, h: int, w: int|
            #[trigger] data.partition_reachability.wf(sp, h, w) && piece_index <= sp.len(),
        forall|k: int|
            0 <= k < data.partition_reachability.len() ==> #[trigger] data.partition_reachability.suffix_min_at(
                k,
                piece_index as int,
            ) <= data.total_deficit.remaining()[piece_index as int],
        data.cell_set_bound.wf(placement_lists(data.placements@), board.rows(), board.cols(), board.modulus()),
        piece_index <= data.placements@.len(),
        data.monte_carlo.wf(),
        piece_index <= data.monte_carlo.piece_count_spec(),
    ensures
        r == feasible_spec(*data, *board, piece_index as int, MODULUS as int),
{
    let remaining_cells = data.total_deficit.remaining_cells(piece_index);
    if !data.total_deficit.allows::<MODULUS>(board, piece_index) {
        return false;
    }
    if !data.monte_carlo.allows_state::<MODULUS>(board, piece_index, &data.jaggedness) {
        return false;
    }
    if !data.partition_reachability.allows(board, piece_index, MODULUS as u8, remaining_cells) {
        return false;
    }
    proof {
        let pm = placement_lists(data.placements@);
        assert(data.cell_set_bound.wf(pm, board.rows(), board.cols(), board.modulus()) && piece_index <= pm.len());
    }
    data.cell_set_bound.allows::<MODULUS>(board, piece_index, remaining_cells)
}

} // verus!
