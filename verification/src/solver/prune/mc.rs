//! Hit-count and Monte Carlo pruning over bound levels kept as plain tables:
//! the forward bounds by depth and the reverse bounds by pieces still to
//! place, with the level in use chosen by the caller.

use vstd::prelude::*;
use crate::model::bitboard::Bitboard;
use crate::model::board::Board;
use crate::solver::adjacency::{circular, forward, backward, pair_sum, lemma_pair_sum_bound, lemma_weights_ok};
use crate::solver::prune::jaggedness::{JaggednessPrune, budget_allows, split_jaggedness};
use crate::solver::pruning::monte_carlo::{HitCounter, MonteCarloLevel, sample_levels, sampled_levels};

verus! {

/// One level of bounds.
pub struct McLevel {
    /// Forward bounds: the largest value seen after `k` pieces.
    pub max_hits_at_depth: Vec<u8>,
    pub max_deficit_at_depth: Vec<u32>,
    pub max_jagg_at_depth: Vec<u32>,
    /// Reverse bounds, by the number of pieces still to place.
    pub rev_max_deficit: Vec<u32>,
    pub rev_max_jagg: Vec<u32>,
}

/// `l` holds the tables of `level`.
pub open spec fn same_tables(l: McLevel, level: MonteCarloLevel) -> bool {
    &&& l.max_hits_at_depth@ == level.max_hits_at_depth@
    &&& l.max_deficit_at_depth@ == level.max_deficit_at_depth@
    &&& l.max_jagg_at_depth@ == level.max_jaggedness_at_depth@
    &&& l.rev_max_deficit@ == level.max_reverse_deficit@
    &&& l.rev_max_jagg@ == level.max_reverse_jaggedness@
}

/// Every table of `l` has an entry for each depth `0..=n`.
pub open spec fn mc_level_wf(l: McLevel, n: int) -> bool {
    &&& l.max_hits_at_depth@.len() == n + 1
    &&& l.max_deficit_at_depth@.len() == n + 1
    &&& l.max_jagg_at_depth@.len() == n + 1
    &&& l.rev_max_deficit@.len() == n + 1
    &&& l.rev_max_jagg@.len() == n + 1
}

fn from_level(level: MonteCarloLevel) -> (r: McLevel)
    ensures
        same_tables(r, level),
{
    McLevel {
        max_hits_at_depth: level.max_hits_at_depth,
        max_deficit_at_depth: level.max_deficit_at_depth,
        max_jagg_at_depth: level.max_jaggedness_at_depth,
        rev_max_deficit: level.max_reverse_deficit,
        rev_max_jagg: level.max_reverse_jaggedness,
    }
}

/// Sample random forward and reverse trajectories of the pieces'
/// placements on `board` and build the bound levels from them, from the
/// narrowest percentile to the widest level.
pub fn precompute_mc(board: &Board, all_placements: &Vec<Vec<(usize, usize, Bitboard)>>, m: u8) -> (r: Vec<McLevel>)
    requires
        board.wf(),
        m == board.modulus(),
        all_placements@.len() <= 36,
        forall|p: int, k: int, i: int|
            0 <= p < all_placements@.len() && 0 <= k < all_placements@[p]@.len() && 0 <= i < 256
                && #[trigger] all_placements@[p]@[k].2.bit(i) ==> board.valid(i),
    ensures
        exists|levels: Seq<MonteCarloLevel>|
            #[trigger] sampled_levels(levels, *board, all_placements@) && levels.len() == r@.len() && forall|k: int|
                0 <= k < r@.len() ==> #[trigger] same_tables(r@[k], levels[k]),
{
    let mut sampled = sample_levels(board, all_placements, m);
    let ghost levels = sampled@;
    let count = sampled.len();
    let mut r: Vec<McLevel> = Vec::new();
    let mut k: usize = 0;
    while k < count
        invariant
            count == levels.len(),
            0 <= k <= count,
            sampled@ == levels.subrange(k as int, count as int),
            r@.len() == k,
            forall|j: int| 0 <= j < k ==> #[trigger] same_tables(r@[j], levels[j]),
        decreases count - k,
    {
        let level = sampled.remove(0);
        proof {
            assert(level == levels[k as int]);
        }
        r.push(from_level(level));
        k = k + 1;
        proof {
            assert(sampled@ =~= levels.subrange(k as int, count as int));
        }
    }
    r
}

/// The levels, the one in use and the number of pieces they were sampled for.
pub struct McPrune {
    pub levels: Vec<McLevel>,
    pub level_idx: usize,
    pub n_pieces: usize,
}

impl McPrune {
    /// The level in use exists and every level has a table entry per depth.
    pub open spec fn wf(self) -> bool {
        &&& self.level_idx < self.levels@.len()
        &&& forall|k: int| 0 <= k < self.levels@.len() ==> #[trigger] mc_level_wf(self.levels@[k], self.n_pieces as int)
    }

    /// The level in use.
    pub open spec fn level(self) -> McLevel {
        self.levels@[self.level_idx as int]
    }

    /// Whether the search may go on from `board` with pieces `piece_idx..`
    /// to place: the deficit is within the forward and reverse bounds, so is
    /// the circular jaggedness, and the jaggedness budget allows the board.
    pub fn try_prune<const MODULUS: usize>(
        &self,
        board: &Board,
        piece_idx: usize,
        jagg_prune: &JaggednessPrune,
        m: u8,
    ) -> (r: bool)
        requires
            self.wf(),
            board.wf(),
            MODULUS == board.modulus(),
            m == board.modulus(),
            piece_idx <= self.n_pieces,
            piece_idx < jagg_prune.remaining_h().len(),
            piece_idx < jagg_prune.remaining_v().len(),
            m * jagg_prune.remaining_h()[piece_idx as int] <= u32::MAX,
            m * jagg_prune.remaining_v()[piece_idx as int] <= u32::MAX,
        ensures
            r == ({
                let l = self.level();
                let remaining = self.n_pieces - piece_idx;
                let mm = board.modulus();
                let h = jagg_prune.h_mask_spec();
                let v = jagg_prune.v_mask_spec();
                let jag = pair_sum(*board, h, 1, circular(mm), 256) + pair_sum(*board, v, 15, circular(mm), 256);
                &&& board.deficit() <= l.max_deficit_at_depth@[piece_idx as int]
                &&& board.deficit() <= l.rev_max_deficit@[remaining]
                &&& jag <= l.max_jagg_at_depth@[piece_idx as int]
                &&& jag <= l.rev_max_jagg@[remaining]
                &&& budget_allows(
                    pair_sum(*board, h, 1, circular(mm), 256),
                    pair_sum(*board, v, 15, circular(mm), 256),
                    pair_sum(*board, h, 1, forward(mm), 256),
                    pair_sum(*board, v, 15, forward(mm), 256),
                    pair_sum(*board, h, 1, backward(mm), 256),
                    pair_sum(*board, v, 15, backward(mm), 256),
                    jagg_prune.remaining_h()[piece_idx as int] as int,
                    jagg_prune.remaining_v()[piece_idx as int] as int,
                    mm as int,
                )
            }),
    {
        let level = &self.levels[self.level_idx];
        proof {
            assert(mc_level_wf(self.level(), self.n_pieces as int));
        }
        let deficit = board.total_deficit();
        if deficit > level.max_deficit_at_depth[piece_idx] {
            return false;
        }
        let remaining = self.n_pieces - piece_idx;
        if deficit > level.rev_max_deficit[remaining] {
            return false;
        }
        let j = split_jaggedness::<MODULUS>(board, jagg_prune.h_mask(), jagg_prune.v_mask());
        proof {
            board.lemma_wf();
            let mm = board.modulus();
            lemma_weights_ok(mm);
            lemma_pair_sum_bound(*board, jagg_prune.h_mask_spec(), 1, circular(mm), 256, 5);
            lemma_pair_sum_bound(*board, jagg_prune.v_mask_spec(), 15, circular(mm), 256, 5);
            lemma_pair_sum_bound(*board, jagg_prune.h_mask_spec(), 1, forward(mm), 256, 5);
            lemma_pair_sum_bound(*board, jagg_prune.h_mask_spec(), 1, backward(mm), 256, 5);
            lemma_pair_sum_bound(*board, jagg_prune.v_mask_spec(), 15, forward(mm), 256, 5);
            lemma_pair_sum_bound(*board, jagg_prune.v_mask_spec(), 15, backward(mm), 256, 5);
        }
        let total_jagg = j.circular_h + j.circular_v;
        if total_jagg > level.max_jagg_at_depth[piece_idx] {
            return false;
        }
        if total_jagg > level.rev_max_jagg[remaining] {
            return false;
        }
        if !jagg_prune.try_prune(&j, piece_idx, m) {
            return false;
        }
        true
    }

    /// Per-placement hit count check; false prunes. It is false exactly when
    /// some cell has been hit at least the level's threshold for `depth`
    /// (a threshold of 0 checks nothing).
    pub fn exceeds_hit_threshold(&self, hits: &HitCounter, depth: usize) -> (r: bool)
        requires
            self.wf(),
            depth <= self.n_pieces,
        ensures
            r == !({
                let t = self.level().max_hits_at_depth@[depth as int];
                t > 0 && exists|i: int| 0 <= i < 256 && #[trigger] hits.count(i) >= t
            }),
    {
        proof {
            assert(mc_level_wf(self.level(), self.n_pieces as int));
        }
        let t = self.levels[self.level_idx].max_hits_at_depth[depth];
        !(t > 0 && hits.any_cell_gte(t))
    }
}

} // verus!
