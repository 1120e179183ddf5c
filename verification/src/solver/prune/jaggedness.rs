//! Jaggedness pruning.
//!
//! Measures how "jagged" the board is — the differences between adjacent cell
//! values. Each piece placement can reduce jaggedness by at most its perimeter.
//! If the remaining perimeter budget is insufficient to smooth out the
//! jaggedness, prune. Uses both circular (symmetric) and directional
//! (asymmetric, M >= 3) bounds.

use vstd::prelude::*;
use crate::model::bitboard::Bitboard;
use crate::model::board::Board;
use crate::model::piece::Piece;
use crate::solver::adjacency::{self, AdjacencySums, measure_pairs, pair_masks, has_right, has_below, sums_of};
use crate::solver::finish::{finishes, places};
use crate::solver::smoothing::{lemma_budget_finishable, perimeters_from};

verus! {

/// Result of split jaggedness computation.
pub struct JaggednessResult {
    /// Circular distance h/v: sum of min(|a-b|, M-|a-b|) over adjacent pairs.
    pub circular_h: u32,
    pub circular_v: u32,
    /// Directional (forward) weight h/v: sum of (b-a) mod M over adjacent pairs.
    pub forward_h: u32,
    pub forward_v: u32,
    /// Directional (backward) weight h/v: sum of (a-b) mod M over adjacent pairs.
    pub backward_h: u32,
    pub backward_v: u32,
}

/// The result holds the six adjacency sums of `b` over the masks `h` and `v`.
pub open spec fn result_of(r: JaggednessResult, b: Board, h: Bitboard, v: Bitboard) -> bool {
    sums_of(
        AdjacencySums {
            circular_h: r.circular_h,
            circular_v: r.circular_v,
            forward_h: r.forward_h,
            forward_v: r.forward_v,
            backward_h: r.backward_h,
            backward_v: r.backward_v,
        },
        b,
        h,
        v,
    )
}

/// Compute jaggedness of a board split into horizontal and vertical components:
/// for each adjacent pair selected by the masks, the circular distance and the
/// forward and backward distances of its two values modulo M.
pub fn split_jaggedness<const M: usize>(board: &Board, h_mask: Bitboard, v_mask: Bitboard) -> (r: JaggednessResult)
    requires
        board.wf(),
        M == board.modulus(),
    ensures
        result_of(r, *board, h_mask, v_mask),
{
    let s = measure_pairs(board, h_mask, v_mask);
    JaggednessResult {
        circular_h: s.circular_h,
        circular_v: s.circular_v,
        forward_h: s.forward_h,
        forward_v: s.forward_v,
        backward_h: s.backward_h,
        backward_v: s.backward_v,
    }
}

/// Sum of `h_perimeter` (`horizontal`) or `v_perimeter` of the pieces `order[from..]`.
pub open spec fn suffix_perimeter(pieces: Seq<Piece>, order: Seq<usize>, from: int, horizontal: bool) -> int
    decreases order.len() - from,
{
    if from < 0 || from >= order.len() {
        0
    } else {
        suffix_perimeter(pieces, order, from + 1, horizontal) + if horizontal {
            pieces[order[from] as int].h_perimeter_spec()
        } else {
            pieces[order[from] as int].v_perimeter_spec()
        }
    }
}

/// Suffix sums of horizontal and vertical perimeters in solver order.
pub fn suffix_perimeters(pieces: &[Piece], order: &[usize]) -> (r: (Vec<u32>, Vec<u32>))
    requires
        order@.len() >= pieces@.len(),
        forall|k: int| 0 <= k < pieces@.len() ==> #[trigger] order@[k] < pieces@.len(),
        pieces@.len() * 512 <= u32::MAX,
    ensures
        r.0@.len() == pieces@.len() + 1,
        r.1@.len() == pieces@.len() + 1,
        forall|i: int|
            0 <= i <= pieces@.len() ==> #[trigger] r.0@[i] == suffix_perimeter(
                pieces@,
                order@.take(pieces@.len() as int),
                i,
                true,
            ),
        forall|i: int|
            0 <= i <= pieces@.len() ==> #[trigger] r.1@[i] == suffix_perimeter(
                pieces@,
                order@.take(pieces@.len() as int),
                i,
                false,
            ),
{
    let n = pieces.len();
    let ghost ord = order@.take(n as int);
    let mut hs: Vec<u32> = Vec::new();
    let mut vs: Vec<u32> = Vec::new();
    let mut j: usize = 0;
    while j <= n
        invariant
            n == pieces@.len(),
            n * 512 <= u32::MAX,
            0 <= j <= n + 1,
            hs@.len() == j,
            vs@.len() == j,
            forall|k: int| 0 <= k < j ==> #[trigger] hs@[k] == 0,
            forall|k: int| 0 <= k < j ==> #[trigger] vs@[k] == 0,
        decreases n + 1 - j,
    {
        hs.push(0);
        vs.push(0);
        j = j + 1;
    }
    let mut i = n;
    while i > 0
        invariant
            n == pieces@.len(),
            n * 512 <= u32::MAX,
            ord == order@.take(n as int),
            order@.len() >= n,
            forall|k: int| 0 <= k < n ==> #[trigger] order@[k] < n,
            0 <= i <= n,
            hs@.len() == n + 1,
            vs@.len() == n + 1,
            forall|k: int| i <= k <= n ==> #[trigger] hs@[k] == suffix_perimeter(pieces@, ord, k, true),
            forall|k: int| i <= k <= n ==> #[trigger] vs@[k] == suffix_perimeter(pieces@, ord, k, false),
            forall|k: int| i <= k <= n ==> hs@[k] <= 512 * (n - k),
            forall|k: int| i <= k <= n ==> vs@[k] <= 512 * (n - k),
        decreases i,
    {
        i = i - 1;
        assert(order@[i as int] == ord[i as int]);
        let piece = pieces[order[i]];
        let hp = piece.h_perimeter();
        let vp = piece.v_perimeter();
        let nh = hs[i + 1] + hp;
        let nv = vs[i + 1] + vp;
        hs[i] = nh;
        vs[i] = nv;
    }
    (hs, vs)
}

/// Precomputed data for jaggedness pruning.
pub struct JaggednessPrune {
    /// Mask of cells that have a horizontal neighbor to the right.
    jagg_h_mask: Bitboard,
    /// Mask of cells that have a vertical neighbor below.
    jagg_v_mask: Bitboard,
    /// remaining_h_perimeter[i] = suffix sum of h_perimeter for pieces [i..n].
    remaining_h_perimeter: Vec<u32>,
    /// remaining_v_perimeter[i] = suffix sum of v_perimeter for pieces [i..n].
    remaining_v_perimeter: Vec<u32>,
}

/// Whether the jaggedness `j` can be smoothed by perimeter budgets `rh`, `rv`
/// for modulus `m`.
pub open spec fn budget_allows(
    ch: int,
    cv: int,
    fh: int,
    fv: int,
    bh: int,
    bv: int,
    rh: int,
    rv: int,
    m: int,
) -> bool {
    &&& ch <= rh
    &&& cv <= rv
    &&& m >= 3 ==> (fh * 2 <= m * rh && bh * 2 <= m * rh && fv * 2 <= m * rv && bv * 2 <= m * rv)
}

impl JaggednessPrune {
    pub closed spec fn h_mask_spec(self) -> Bitboard {
        self.jagg_h_mask
    }

    pub closed spec fn v_mask_spec(self) -> Bitboard {
        self.jagg_v_mask
    }

    pub closed spec fn remaining_h(self) -> Seq<u32> {
        self.remaining_h_perimeter@
    }

    pub closed spec fn remaining_v(self) -> Seq<u32> {
        self.remaining_v_perimeter@
    }

    /// Build from pieces in solver order and board dimensions.
    pub fn precompute(pieces: &[Piece], order: &[usize], h: u8, w: u8) -> (r: Self)
        requires
            w <= 15,
            15 * h + w <= 271,
            order@.len() >= pieces@.len(),
            forall|k: int| 0 <= k < pieces@.len() ==> #[trigger] order@[k] < pieces@.len(),
            pieces@.len() * 512 <= u32::MAX,
        ensures
            forall|i: int| 0 <= i < 256 ==> #[trigger] r.h_mask_spec().bit(i) == has_right(h as int, w as int, i),
            forall|i: int| 0 <= i < 256 ==> #[trigger] r.v_mask_spec().bit(i) == has_below(h as int, w as int, i),
            r.remaining_h().len() == pieces@.len() + 1,
            r.remaining_v().len() == pieces@.len() + 1,
            forall|i: int|
                0 <= i <= pieces@.len() ==> #[trigger] r.remaining_h()[i] == suffix_perimeter(
                    pieces@,
                    order@.take(pieces@.len() as int),
                    i,
                    true,
                ),
            forall|i: int|
                0 <= i <= pieces@.len() ==> #[trigger] r.remaining_v()[i] == suffix_perimeter(
                    pieces@,
                    order@.take(pieces@.len() as int),
                    i,
                    false,
                ),
    {
        let (jagg_h_mask, jagg_v_mask) = pair_masks(h, w);
        let (remaining_h_perimeter, remaining_v_perimeter) = suffix_perimeters(pieces, order);
        Self { jagg_h_mask, jagg_v_mask, remaining_h_perimeter, remaining_v_perimeter }
    }

    pub fn h_mask(&self) -> (r: Bitboard)
        ensures
            r == self.h_mask_spec(),
    {
        self.jagg_h_mask
    }

    pub fn v_mask(&self) -> (r: Bitboard)
        ensures
            r == self.v_mask_spec(),
    {
        self.jagg_v_mask
    }

    /// Suffix sum of horizontal perimeters from `i` on.
    pub fn remaining_h_perimeter(&self, i: usize) -> (r: u32)
        requires
            i < self.remaining_h().len(),
        ensures
            r == self.remaining_h()[i as int],
    {
        self.remaining_h_perimeter[i]
    }

    /// Suffix sum of vertical perimeters from `i` on.
    pub fn remaining_v_perimeter(&self, i: usize) -> (r: u32)
        requires
            i < self.remaining_v().len(),
        ensures
            r == self.remaining_v()[i as int],
    {
        self.remaining_v_perimeter[i]
    }

    /// Returns false (prune) if remaining perimeter can't smooth out the jaggedness.
    pub fn try_prune(&self, j: &JaggednessResult, piece_idx: usize, m: u8) -> (r: bool)
        requires
            piece_idx < self.remaining_h().len(),
            piece_idx < self.remaining_v().len(),
            j.forward_h * 2 <= u32::MAX,
            j.backward_h * 2 <= u32::MAX,
            j.forward_v * 2 <= u32::MAX,
            j.backward_v * 2 <= u32::MAX,
            m * self.remaining_h()[piece_idx as int] <= u32::MAX,
            m * self.remaining_v()[piece_idx as int] <= u32::MAX,
        ensures
            r == budget_allows(
                j.circular_h as int,
                j.circular_v as int,
                j.forward_h as int,
                j.forward_v as int,
                j.backward_h as int,
                j.backward_v as int,
                self.remaining_h()[piece_idx as int] as int,
                self.remaining_v()[piece_idx as int] as int,
                m as int,
            ),
    {
        let rem_h = self.remaining_h_perimeter[piece_idx];
        let rem_v = self.remaining_v_perimeter[piece_idx];
        if j.circular_h > rem_h || j.circular_v > rem_v {
            return false;
        }
        if m >= 3 {
            let m32 = m as u32;
            if j.forward_h * 2 > m32 * rem_h || j.backward_h * 2 > m32 * rem_h {
                return false;
            }
            if j.forward_v * 2 > m32 * rem_v || j.backward_v * 2 > m32 * rem_v {
                return false;
            }
        }
        true
    }

    /// A board that the remaining pieces can finish passes the check: where
    /// the chosen placements of pieces `d..` (each a piece of `sp` moved to
    /// its anchor within the board) leave every cell at zero, and the tables
    /// hold those pieces' perimeters, the board's measure is within budget.
    pub proof fn lemma_allows_finishable(
        self,
        j: JaggednessResult,
        sp: Seq<Piece>,
        b: Board,
        pm: Seq<Seq<(usize, usize, Bitboard)>>,
        d: int,
        c: Seq<int>,
    )
        requires
            result_of(j, b, self.h_mask_spec(), self.v_mask_spec()),
            0 <= d < self.remaining_h().len(),
            d < self.remaining_v().len(),
            self.remaining_h()[d] == perimeters_from(sp, d, true),
            self.remaining_v()[d] == perimeters_from(sp, d, false),
            b.wf(),
            pm.len() == sp.len(),
            forall|k: int| 0 <= k < sp.len() ==> #[trigger] sp[k].wf(),
            finishes(b, pm, c, d),
            forall|k: int| d <= k < pm.len() ==> #[trigger] places(b, sp[k], pm[k][c[k]]),
        ensures
            budget_allows(
                j.circular_h as int,
                j.circular_v as int,
                j.forward_h as int,
                j.forward_v as int,
                j.backward_h as int,
                j.backward_v as int,
                self.remaining_h()[d] as int,
                self.remaining_v()[d] as int,
                b.modulus(),
            ),
    {
        lemma_budget_finishable(b, self.h_mask_spec(), self.v_mask_spec(), sp, pm, c, d);
    }
}

} // verus!
