//! Weight-tuple reachability pruning.
//!
//! Tracks the deficit weights of groups of disjoint cell sets (three
//! adjacent rows, say); a suffix table records which weight tuples the
//! remaining pieces can still reach.

use vstd::prelude::*;
use crate::model::bitboard::Bitboard;
use crate::model::board::Board;
use crate::solver::backtrack::{covered_deficit, covered_count};

verus! {

/// Weight-tuple reachability for a set of disjoint cell groups.
pub struct WeightTupleReachability {
    pub group_masks: Vec<Bitboard>,
    pub num_groups: usize,
    /// Index stride of each group's weight.
    pub strides: Vec<usize>,
    pub num_configs: usize,
    pub m: u8,
    /// Nonzero where the tuple is reachable, by piece index and tuple index.
    pub reachable: Vec<u8>,
}

/// Sum over the first `g` groups of weight times stride.
pub open spec fn encoded(weights: Seq<int>, strides: Seq<usize>, g: int) -> int
    decreases g,
{
    if g <= 0 {
        0
    } else {
        encoded(weights, strides, g - 1) + weights[g - 1] * strides[g - 1]
    }
}

/// The deficit weights of the groups on board `b`.
pub open spec fn group_weights(wt: WeightTupleReachability, b: Board) -> Seq<int> {
    Seq::new(wt.num_groups as nat, |g: int| covered_deficit(b, wt.group_masks@[g], b.modulus()))
}

/// The table index of board `b`'s weight tuple.
pub open spec fn tuple_index(wt: WeightTupleReachability, b: Board) -> int {
    encoded(group_weights(wt, b), wt.strides@, wt.num_groups as int)
}

/// The table covers board `b` with pieces `p..` to place.
pub open spec fn tuple_ready(wt: WeightTupleReachability, b: Board, p: int) -> bool {
    &&& b.modulus() == wt.m
    &&& wt.num_groups <= 8
    &&& wt.group_masks@.len() >= wt.num_groups
    &&& wt.strides@.len() >= wt.num_groups
    &&& 0 <= p
    &&& p * wt.num_configs + tuple_index(wt, b) < wt.reachable@.len()
}

proof fn lemma_encoded_nonneg(weights: Seq<int>, strides: Seq<usize>, g: int)
    requires
        g <= weights.len(),
        g <= strides.len(),
        forall|k: int| 0 <= k < g ==> #[trigger] weights[k] >= 0,
    ensures
        0 <= encoded(weights, strides, g),
    decreases g,
{
    if g > 0 {
        lemma_encoded_nonneg(weights, strides, g - 1);
        assert(weights[g - 1] * strides[g - 1] >= 0) by (nonlinear_arith)
            requires
                weights[g - 1] >= 0,
                strides[g - 1] >= 0,
        ;
    }
}

proof fn lemma_encoded_monotone(weights: Seq<int>, strides: Seq<usize>, g: int, h: int)
    requires
        0 <= g <= h,
        h <= weights.len(),
        h <= strides.len(),
        forall|k: int| 0 <= k < h ==> #[trigger] weights[k] >= 0,
    ensures
        0 <= encoded(weights, strides, g) <= encoded(weights, strides, h),
    decreases h - g,
{
    lemma_encoded_nonneg(weights, strides, g);
    if g < h {
        lemma_encoded_monotone(weights, strides, g, h - 1);
        assert(weights[h - 1] * strides[h - 1] >= 0) by (nonlinear_arith)
            requires
                weights[h - 1] >= 0,
                strides[h - 1] >= 0,
        ;
    }
}

impl WeightTupleReachability {
    /// The table index of a weight tuple.
    pub fn encode(&self, weights: &[u32]) -> (r: usize)
        requires
            weights@.len() >= self.num_groups,
            self.strides@.len() >= self.num_groups,
            encoded(weights@.map_values(|w: u32| w as int), self.strides@, self.num_groups as int) <= usize::MAX,
        ensures
            r == encoded(weights@.map_values(|w: u32| w as int), self.strides@, self.num_groups as int),
    {
        let ghost ws = weights@.map_values(|w: u32| w as int);
        proof {
            assert forall|k: int| 0 <= k < self.num_groups implies #[trigger] ws[k] >= 0 by {}
        }
        let mut idx: usize = 0;
        let mut g: usize = 0;
        while g < self.num_groups
            invariant
                weights@.len() >= self.num_groups,
                self.strides@.len() >= self.num_groups,
                ws == weights@.map_values(|w: u32| w as int),
                forall|k: int| 0 <= k < self.num_groups ==> #[trigger] ws[k] >= 0,
                encoded(ws, self.strides@, self.num_groups as int) <= usize::MAX,
                g <= self.num_groups,
                idx == encoded(ws, self.strides@, g as int),
            decreases self.num_groups - g,
        {
            proof {
                lemma_encoded_monotone(ws, self.strides@, g + 1, self.num_groups as int);
                assert(ws[g as int] == weights@[g as int]);
            }
            idx = idx + weights[g] as usize * self.strides[g];
            g = g + 1;
        }
        idx
    }

    /// The deficit on the cells of group `group_idx`.
    pub fn group_weight(&self, board: &Board, group_idx: usize) -> (r: u32)
        requires
            board.wf(),
            board.modulus() == self.m,
            group_idx < self.group_masks@.len(),
        ensures
            r == covered_deficit(*board, self.group_masks@[group_idx as int], board.modulus()),
            r <= 4096,
    {
        proof {
            board.lemma_wf();
        }
        let mask = self.group_masks[group_idx];
        let mut w: u32 = 0;
        let mut d: u8 = 1;
        while d < self.m
            invariant
                board.wf(),
                2 <= self.m <= 5,
                self.m == board.modulus(),
                1 <= d <= self.m,
                w == covered_deficit(*board, mask, d as int),
                w <= 1024 * (d - 1),
            decreases self.m - d,
        {
            let c = covered_count(board, mask, d);
            proof {
                assert(d * c <= 1024) by (nonlinear_arith)
                    requires
                        c <= 256,
                        d <= 4,
                ;
            }
            w = w + d as u32 * c;
            d = d + 1;
        }
        w
    }

    /// Whether the table lets the search go on from `board` with pieces
    /// `piece_idx..` to place.
    pub fn check(&self, board: &Board, piece_idx: usize) -> (r: bool)
        requires
            board.wf(),
            tuple_ready(*self, *board, piece_idx as int),
        ensures
            r == (self.reachable@[piece_idx * self.num_configs + tuple_index(*self, *board)] != 0),
    {
        let ghost gw = group_weights(*self, *board);
        let total = self.reachable.len();
        let mut weights: Vec<u32> = Vec::new();
        let mut g: usize = 0;
        while g < self.num_groups
            invariant
                board.wf(),
                tuple_ready(*self, *board, piece_idx as int),
                gw == group_weights(*self, *board),
                g <= self.num_groups,
                weights@.len() == g,
                forall|k: int| 0 <= k < g ==> #[trigger] weights@[k] == gw[k],
            decreases self.num_groups - g,
        {
            let w = self.group_weight(board, g);
            weights.push(w);
            g = g + 1;
        }
        proof {
            assert(weights@.map_values(|w: u32| w as int) =~= gw);
            assert forall|k: int| 0 <= k < self.num_groups implies #[trigger] gw[k] >= 0 by {
                assert(gw[k] == weights@[k]);
            }
            lemma_encoded_nonneg(gw, self.strides@, self.num_groups as int);
            assert(piece_idx * self.num_configs >= 0) by (nonlinear_arith)
                requires
                    piece_idx >= 0,
                    self.num_configs >= 0,
            ;
            assert(self.reachable@.len() == total);
        }
        let idx = self.encode(weights.as_slice());
        self.reachable[piece_idx * self.num_configs + idx] != 0
    }
}

/// All weight-tuple reachability checks.
pub struct WeightTuplePrune {
    pub checks: Vec<WeightTupleReachability>,
}

impl WeightTuplePrune {
    /// Check all weight-tuple groups. Returns false to prune.
    pub fn try_prune(&self, board: &Board, piece_idx: usize) -> (r: bool)
        requires
            board.wf(),
            forall|k: int| 0 <= k < self.checks@.len() ==> #[trigger] tuple_ready(self.checks@[k], *board, piece_idx as int),
        ensures
            r == forall|k: int|
                0 <= k < self.checks@.len() ==> (#[trigger] self.checks@[k]).reachable@[piece_idx
                    * self.checks@[k].num_configs + tuple_index(self.checks@[k], *board)] != 0,
    {
        let mut k: usize = 0;
        while k < self.checks.len()
            invariant
                board.wf(),
                forall|x: int| 0 <= x < self.checks@.len() ==> #[trigger] tuple_ready(self.checks@[x], *board, piece_idx as int),
                k <= self.checks@.len(),
                forall|x: int|
                    0 <= x < k ==> (#[trigger] self.checks@[x]).reachable@[piece_idx * self.checks@[x].num_configs
                        + tuple_index(self.checks@[x], *board)] != 0,
            decreases self.checks@.len() - k,
        {
            assert(tuple_ready(self.checks@[k as int], *board, piece_idx as int));
            if !self.checks[k].check(board, piece_idx) {
                return false;
            }
            k = k + 1;
        }
        true
    }
}

} // verus!
