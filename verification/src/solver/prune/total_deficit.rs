//! Global total-deficit pruning: the cells of the remaining pieces must be at
//! least the board's total deficit, otherwise there are not enough hits.

use vstd::prelude::*;
use crate::model::board::Board;
use crate::model::piece::Piece;

verus! {

/// Total cell count of the pieces `order[from..]`.
pub open spec fn suffix_cells(pieces: Seq<Piece>, order: Seq<usize>, from: int) -> int
    decreases order.len() - from,
{
    if from < 0 || from >= order.len() {
        0
    } else {
        suffix_cells(pieces, order, from + 1) + pieces[order[from] as int].cells().count()
    }
}

/// Precomputed data for total-deficit pruning.
pub struct TotalDeficitPrune {
    /// remaining_bits[i] = total cell count of pieces [i..n]; remaining_bits[n] = 0.
    remaining_bits: Vec<u32>,
}

impl TotalDeficitPrune {
    /// The suffix sums of piece cells, one entry per piece index plus the end.
    pub closed spec fn remaining(self) -> Seq<u32> {
        self.remaining_bits@
    }

    /// Build from pieces in solver order.
    pub fn precompute(pieces: &[Piece], order: &[usize]) -> (r: Self)
        requires
            order@.len() >= pieces@.len(),
            forall|k: int| 0 <= k < pieces@.len() ==> #[trigger] order@[k] < pieces@.len(),
            pieces@.len() * 256 <= u32::MAX,
        ensures
            r.remaining().len() == pieces@.len() + 1,
            forall|i: int|
                0 <= i <= pieces@.len() ==> #[trigger] r.remaining()[i] == suffix_cells(
                    pieces@,
                    order@.take(pieces@.len() as int),
                    i,
                ),
    {
        let n = pieces.len();
        let ghost ord = order@.take(n as int);
        let mut remaining_bits: Vec<u32> = Vec::new();
        let mut j: usize = 0;
        while j <= n
            invariant
                n == pieces@.len(),
                n * 256 <= u32::MAX,
                0 <= j <= n + 1,
                remaining_bits@.len() == j,
                forall|k: int| 0 <= k < j ==> #[trigger] remaining_bits@[k] == 0,
            decreases n + 1 - j,
        {
            remaining_bits.push(0);
            j = j + 1;
        }
        let mut i = n;
        while i > 0
            invariant
                n == pieces@.len(),
                n * 256 <= u32::MAX,
                ord == order@.take(n as int),
                order@.len() >= n,
                forall|k: int| 0 <= k < n ==> #[trigger] order@[k] < n,
                0 <= i <= n,
                remaining_bits@.len() == n + 1,
                forall|k: int| i <= k <= n ==> #[trigger] remaining_bits@[k] == suffix_cells(pieces@, ord, k),
                forall|k: int| i <= k <= n ==> remaining_bits@[k] <= 256 * (n - k),
            decreases i,
        {
            i = i - 1;
            assert(order@[i as int] == ord[i as int]);
            let count = pieces[order[i]].cell_count();
            let next = remaining_bits[i + 1] + count;
            remaining_bits[i] = next;
            assert(suffix_cells(pieces@, ord, i as int) == suffix_cells(pieces@, ord, i + 1)
                + pieces@[ord[i as int] as int].cells().count());
        }
        Self { remaining_bits }
    }

    /// Total remaining piece cells from piece_idx onward.
    pub fn remaining_bits(&self, piece_idx: usize) -> (r: u32)
        requires
            piece_idx < self.remaining().len(),
        ensures
            r == self.remaining()[piece_idx as int],
    {
        self.remaining_bits[piece_idx]
    }

    /// Returns false (prune) if remaining piece cells < board's total deficit.
    pub fn try_prune(&self, board: &Board, piece_idx: usize) -> (r: bool)
        requires
            board.wf(),
            piece_idx < self.remaining().len(),
        ensures
            r == (self.remaining()[piece_idx as int] >= board.deficit()),
    {
        self.remaining_bits[piece_idx] >= board.total_deficit()
    }
}

} // verus!
