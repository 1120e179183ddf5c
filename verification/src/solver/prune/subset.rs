//! Subset reachability pruning.
//!
//! For small subsets of board cells, a suffix table records which cell
//! configurations the remaining pieces can still reach.

use vstd::prelude::*;
use crate::model::bitboard::Bitboard;
use crate::model::board::Board;
use crate::solver::pruning::cell_set::{config_upto, power};

verus! {

/// A small subset of board cells for local reachability pruning.
pub struct SubsetReachability {
    /// The subset's cells, as bitboard indices; cell `k` is digit `k`.
    pub cells: Vec<u32>,
    pub m: u8,
    /// M to the power of the number of cells.
    pub num_configs: usize,
    /// The subset's cells as a mask.
    pub mask: Bitboard,
    /// Nonzero where the configuration is reachable, by piece index and
    /// configuration.
    pub reachable: Vec<u8>,
    /// Pieces before this index are not checked.
    pub first_useful: usize,
}

/// The tables of `s` hold `pieces + 1` layers of configurations of its
/// cells, for boards with modulus `s.m`.
pub open spec fn subset_wf(s: SubsetReachability, pieces: int) -> bool {
    &&& 2 <= s.m <= 5
    &&& s.cells@.len() <= 16
    &&& forall|k: int| 0 <= k < s.cells@.len() ==> #[trigger] s.cells@[k] < 256
    &&& s.num_configs == power(s.m as int, s.cells@.len() as nat)
    &&& 0 <= pieces
    &&& (pieces + 1) * s.num_configs <= u32::MAX
    &&& s.reachable@.len() == (pieces + 1) * s.num_configs
}

/// Whether the subset allows board `b` with pieces `p..` to place: pieces
/// before the first useful one are not checked, a subset whose cells are all
/// zero is fine, and otherwise its configuration must be reachable.
pub open spec fn subset_allows(s: SubsetReachability, b: Board, p: int) -> bool {
    ||| p < s.first_useful
    ||| forall|i: int| 0 <= i < 256 && #[trigger] s.mask.bit(i) ==> b.valid(i) && b.cell(i) == 0
    ||| s.reachable@[p * s.num_configs + config_upto(b, s.cells@, s.cells@.len() as nat, s.m as int)] != 0
}

impl SubsetReachability {
    /// The subset's configuration on `board`: digit `k` is the value of cell `cells[k]`.
    pub fn encode_config(&self, board: &Board) -> (r: usize)
        requires
            board.wf(),
            board.modulus() == self.m,
            exists|pieces: int| #[trigger] subset_wf(*self, pieces),
        ensures
            r == config_upto(*board, self.cells@, self.cells@.len() as nat, self.m as int),
            r < self.num_configs,
    {
        let ghost pieces = choose|pieces: int| #[trigger] subset_wf(*self, pieces);
        let ghost m = self.m as int;
        proof {
            board.lemma_wf();
            assert(self.num_configs <= (pieces + 1) * self.num_configs) by (nonlinear_arith)
                requires
                    pieces >= 0,
                    self.num_configs >= 0,
            ;
            assert forall|j: int| 0 <= j < self.cells@.len() implies 0 <= #[trigger] board.cell(self.cells@[j] as int) < m by {
                lemma_cell_range(*board, self.cells@[j] as int);
            }
            crate::solver::pruning::cell_set::lemma_config_bound(*board, self.cells@, self.cells@.len() as nat, m);
        }
        let mut config: usize = 0;
        let mut multiplier: usize = 1;
        let mut k: usize = 0;
        while k < self.cells.len()
            invariant
                board.wf(),
                board.modulus() == self.m,
                m == self.m,
                subset_wf(*self, pieces),
                forall|j: int| 0 <= j < self.cells@.len() ==> 0 <= #[trigger] board.cell(self.cells@[j] as int) < m,
                k <= self.cells@.len(),
                multiplier == power(m, k as nat),
                config == config_upto(*board, self.cells@, k as nat, m),
                self.num_configs <= u32::MAX,
            decreases self.cells@.len() - k,
        {
            let bit = self.cells[k];
            proof {
                lemma_cell_range(*board, bit as int);
            }
            let mut val: u8 = 0;
            let mut d: u8 = 1;
            while d < self.m
                invariant_except_break
                    val == 0,
                invariant
                    board.wf(),
                    2 <= self.m <= 5,
                    board.modulus() == self.m,
                    bit < 256,
                    1 <= d <= self.m,
                    0 <= board.cell(bit as int) < self.m,
                    !board.valid(bit as int) ==> board.cell(bit as int) == 0,
                    board.cell(bit as int) == 0 || board.cell(bit as int) >= d,
                ensures
                    val == board.cell(bit as int),
                decreases self.m - d,
            {
                if board.plane(d).get_bit(bit) {
                    val = d;
                    break;
                }
                d = d + 1;
            }
            proof {
                crate::solver::pruning::cell_set::lemma_config_bound(*board, self.cells@, (k + 1) as nat, m);
                lemma_power_step_bound(m, k as nat, self.cells@.len() as nat);
                assert(multiplier * self.m == m * power(m, k as nat)) by (nonlinear_arith)
                    requires
                        multiplier == power(m, k as nat),
                        m == self.m,
                ;
            }
            config = config + (val as usize) * multiplier;
            multiplier = multiplier * (self.m as usize);
            k = k + 1;
        }
        config
    }

    /// Whether the subset allows `board` with pieces `piece_idx..` to place.
    pub fn check(&self, board: &Board, piece_idx: usize) -> (r: bool)
        requires
            board.wf(),
            board.modulus() == self.m,
            exists|pieces: int| #[trigger] subset_wf(*self, pieces) && piece_idx <= pieces,
        ensures
            r == subset_allows(*self, *board, piece_idx as int),
    {
        if piece_idx < self.first_useful {
            return true;
        }
        let zeros = board.plane(0).and(&self.mask);
        if zeros == self.mask {
            proof {
                assert forall|i: int| 0 <= i < 256 && #[trigger] self.mask.bit(i) implies board.valid(i) && board.cell(i) == 0 by {
                    assert(zeros.bit(i));
                }
            }
            return true;
        }
        proof {
            if forall|i: int| 0 <= i < 256 && #[trigger] self.mask.bit(i) ==> board.valid(i) && board.cell(i) == 0 {
                assert forall|i: int| 0 <= i < 256 implies #[trigger] zeros.bit(i) == self.mask.bit(i) by {}
                Bitboard::lemma_bits_ext(zeros, self.mask);
            }
        }
        let ghost pieces = choose|pieces: int| #[trigger] subset_wf(*self, pieces) && piece_idx <= pieces;
        let config = self.encode_config(board);
        proof {
            assert(piece_idx * self.num_configs + config < (pieces + 1) * self.num_configs) by (nonlinear_arith)
                requires
                    piece_idx <= pieces,
                    config < self.num_configs,
            ;
        }
        self.reachable[piece_idx * self.num_configs + config] != 0
    }
}

/// Cells of a well-formed board hold values below M, and 0 off the board.
proof fn lemma_cell_range(b: Board, i: int)
    requires
        b.wf(),
        0 <= i < 256,
    ensures
        0 <= b.cell(i) < b.modulus(),
        !b.valid(i) ==> b.cell(i) == 0,
{
    b.lemma_wf();
    if b.valid(i) {
        assert(0 <= b.cell(i) < b.modulus());
    }
}

proof fn lemma_power_step_bound(m: int, k: nat, n: nat)
    requires
        2 <= m <= 5,
        k < n,
    ensures
        power(m, k + 1) <= power(m, n),
        power(m, k + 1) == m * power(m, k),
{
    crate::solver::pruning::cell_set::lemma_power_monotone_pub(m, k + 1, n);
}

/// The subset is built for the board's modulus and for at least `p + 1`
/// piece layers.
pub open spec fn subset_ready(s: SubsetReachability, b: Board, p: int) -> bool {
    &&& b.modulus() == s.m
    &&& exists|pieces: int| #[trigger] subset_wf(s, pieces) && p <= pieces
}

/// All subset reachability checks.
pub struct SubsetPrune {
    pub checks: Vec<SubsetReachability>,
}

impl SubsetPrune {
    /// Check all subsets. Returns false to prune.
    pub fn try_prune(&self, board: &Board, piece_idx: usize) -> (r: bool)
        requires
            board.wf(),
            forall|k: int| 0 <= k < self.checks@.len() ==> #[trigger] subset_ready(self.checks@[k], *board, piece_idx as int),
        ensures
            r == forall|k: int| 0 <= k < self.checks@.len() ==> #[trigger] subset_allows(self.checks@[k], *board, piece_idx as int),
    {
        let mut k: usize = 0;
        while k < self.checks.len()
            invariant
                board.wf(),
                forall|x: int| 0 <= x < self.checks@.len() ==> #[trigger] subset_ready(self.checks@[x], *board, piece_idx as int),
                k <= self.checks@.len(),
                forall|x: int| 0 <= x < k ==> #[trigger] subset_allows(self.checks@[x], *board, piece_idx as int),
            decreases self.checks@.len() - k,
        {
            assert(subset_ready(self.checks@[k as int], *board, piece_idx as int));
            if !self.checks[k].check(board, piece_idx) {
                return false;
            }
            k = k + 1;
        }
        true
    }
}

} // verus!
