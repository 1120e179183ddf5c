//! Parity partition pruning.
//!
//! Splits the board into two groups by a parity function (checkerboard,
//! even rows, even columns, rows, columns and diagonals mod 3). The deficit
//! in group 0 must be a total that the remaining pieces' group-0 cell counts
//! can reach, up to multiples of M; the tables are those of the partition
//! reachability bound, which checks the same partitions the same way.

use vstd::prelude::*;
use crate::model::bitboard::Bitboard;
use crate::model::board::Board;
use crate::model::piece::Piece;
use crate::solver::finish::{cells_from, finishes, places};
use crate::solver::pruning::partition::{PartitionReachability, kinds_for};

verus! {

/// All parity partitions for pruning.
pub struct ParityPrune {
    partitions: PartitionReachability,
}

impl ParityPrune {
    /// The partition tables.
    pub closed spec fn tables(self) -> PartitionReachability {
        self.partitions
    }

    /// Build all parity partitions from pieces, order, and board dimensions.
    pub fn precompute(pieces: &[Piece], order: &[usize], h: u8, w: u8, _m: u8) -> (r: Self)
        requires
            order@.len() >= pieces@.len(),
            forall|d: int| 0 <= d < pieces@.len() ==> #[trigger] order@[d] < pieces@.len(),
            pieces@.len() <= 4096,
            w <= 15,
            15 * h + w <= 271,
        ensures
            r.tables().wf(Seq::new(pieces@.len(), |d: int| pieces@[order@[d] as int]), h as int, w as int),
            r.tables().kinds() == kinds_for(h as int, w as int),
    {
        ParityPrune { partitions: PartitionReachability::precompute(pieces, order, h, w) }
    }

    /// Number of partitions checked.
    pub fn partition_count(&self) -> (r: usize)
        ensures
            r == self.tables().len(),
    {
        self.partitions.partition_count()
    }

    /// Check all parity partitions. Returns false to prune.
    pub fn try_prune(&self, board: &Board, piece_idx: usize, m: u8, remaining_bits: u32) -> (r: bool)
        requires
            board.wf(),
            m == board.modulus(),
            exists|sp: Seq<Piece>, h: int, w: int| #[trigger] self.tables().wf(sp, h, w) && piece_idx <= sp.len(),
            forall|k: int|
                0 <= k < self.tables().len() ==> remaining_bits >= #[trigger] self.tables().suffix_min_at(
                    k,
                    piece_idx as int,
                ),
        ensures
            r == forall|k: int|
                0 <= k < self.tables().len() ==> #[trigger] self.tables().partition_allows(
                    k,
                    *board,
                    piece_idx as int,
                    m as int,
                    remaining_bits as int,
                ),
    {
        self.partitions.allows(board, piece_idx, m, remaining_bits)
    }

    /// A board that the remaining pieces can finish passes every parity
    /// partition: where the chosen placements of pieces `d..` (each a piece
    /// of `sp` moved to its anchor within the board) leave every cell at
    /// zero, with the pieces' cells as the remaining budget.
    pub proof fn lemma_allows_finishable(
        self,
        sp: Seq<Piece>,
        b: Board,
        pm: Seq<Seq<(usize, usize, Bitboard)>>,
        d: int,
        c: Seq<int>,
    )
        requires
            self.tables().wf(sp, b.rows(), b.cols()),
            b.wf(),
            pm.len() == sp.len(),
            forall|k: int| 0 <= k < sp.len() ==> #[trigger] sp[k].wf(),
            finishes(b, pm, c, d),
            forall|k: int| d <= k < pm.len() ==> #[trigger] places(b, sp[k], pm[k][c[k]]),
        ensures
            forall|k: int|
                0 <= k < self.tables().len() ==> #[trigger] self.tables().partition_allows(
                    k,
                    b,
                    d,
                    b.modulus(),
                    cells_from(sp, d),
                ),
    {
        self.tables().lemma_allows_finishable(sp, b, pm, d, c);
    }
}

} // verus!
