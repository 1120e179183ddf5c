//! Bounds differences between horizontally and vertically adjacent cells.
//!
//! A piece cannot smooth more boundaries than its perimeter, which gives a
//! deterministic lower bound on the work needed to solve a jagged board.

use vstd::prelude::*;
use crate::model::bitboard::Bitboard;
use crate::model::board::Board;
use crate::model::piece::Piece;
use crate::solver::adjacency::{AdjacencySums, measure_pairs, pair_masks, has_right, has_below, sums_of};
use crate::solver::prune::jaggedness::{budget_allows, suffix_perimeter, suffix_perimeters};
use crate::solver::finish::{finishes, places};
use crate::solver::smoothing::{lemma_budget_finishable, perimeters_from};

verus! {

pub struct Jaggedness {
    /// Sum of min(|a-b|, M-|a-b|) over adjacent pairs.
    pub horizontal_circular_distance: u32,
    pub vertical_circular_distance: u32,
    /// Sum of (b-a) mod M over adjacent pairs.
    pub horizontal_forward_distance: u32,
    pub vertical_forward_distance: u32,
    /// Sum of (a-b) mod M over adjacent pairs.
    pub horizontal_backward_distance: u32,
    pub vertical_backward_distance: u32,
}

/// The measure holds the six adjacency sums of `b` over the masks `h` and `v`.
pub open spec fn measure_of(r: Jaggedness, b: Board, h: Bitboard, v: Bitboard) -> bool {
    sums_of(
        AdjacencySums {
            circular_h: r.horizontal_circular_distance,
            circular_v: r.vertical_circular_distance,
            forward_h: r.horizontal_forward_distance,
            forward_v: r.vertical_forward_distance,
            backward_h: r.horizontal_backward_distance,
            backward_v: r.vertical_backward_distance,
        },
        b,
        h,
        v,
    )
}

/// Circular, forward and backward distances between the values of the
/// adjacent pairs selected by the masks, summed per direction.
pub fn measure<const MODULUS: usize>(
    board: &Board,
    horizontal_mask: Bitboard,
    vertical_mask: Bitboard,
) -> (r: Jaggedness)
    requires
        board.wf(),
        MODULUS == board.modulus(),
    ensures
        measure_of(r, *board, horizontal_mask, vertical_mask),
{
    let s = measure_pairs(board, horizontal_mask, vertical_mask);
    Jaggedness {
        horizontal_circular_distance: s.circular_h,
        vertical_circular_distance: s.circular_v,
        horizontal_forward_distance: s.forward_h,
        vertical_forward_distance: s.forward_v,
        horizontal_backward_distance: s.backward_h,
        vertical_backward_distance: s.backward_v,
    }
}

pub struct JaggednessBound {
    horizontal_mask: Bitboard,
    vertical_mask: Bitboard,
    remaining_horizontal_perimeter: Vec<u32>,
    remaining_vertical_perimeter: Vec<u32>,
}

impl JaggednessBound {
    pub closed spec fn horizontal_mask_spec(self) -> Bitboard {
        self.horizontal_mask
    }

    pub closed spec fn vertical_mask_spec(self) -> Bitboard {
        self.vertical_mask
    }

    pub closed spec fn remaining_horizontal(self) -> Seq<u32> {
        self.remaining_horizontal_perimeter@
    }

    pub closed spec fn remaining_vertical(self) -> Seq<u32> {
        self.remaining_vertical_perimeter@
    }

    pub fn precompute(pieces: &[Piece], piece_order: &[usize], height: u8, width: u8) -> (r: Self)
        requires
            width <= 15,
            15 * height + width <= 271,
            piece_order@.len() >= pieces@.len(),
            forall|k: int| 0 <= k < pieces@.len() ==> #[trigger] piece_order@[k] < pieces@.len(),
            pieces@.len() * 512 <= u32::MAX,
        ensures
            forall|i: int|
                0 <= i < 256 ==> #[trigger] r.horizontal_mask_spec().bit(i) == has_right(height as int, width as int, i),
            forall|i: int|
                0 <= i < 256 ==> #[trigger] r.vertical_mask_spec().bit(i) == has_below(height as int, width as int, i),
            r.remaining_horizontal().len() == pieces@.len() + 1,
            r.remaining_vertical().len() == pieces@.len() + 1,
            forall|i: int|
                0 <= i <= pieces@.len() ==> #[trigger] r.remaining_horizontal()[i] == suffix_perimeter(
                    pieces@,
                    piece_order@.take(pieces@.len() as int),
                    i,
                    true,
                ),
            forall|i: int|
                0 <= i <= pieces@.len() ==> #[trigger] r.remaining_vertical()[i] == suffix_perimeter(
                    pieces@,
                    piece_order@.take(pieces@.len() as int),
                    i,
                    false,
                ),
    {
        let (horizontal_mask, vertical_mask) = pair_masks(height, width);
        let (remaining_horizontal_perimeter, remaining_vertical_perimeter) = suffix_perimeters(
            pieces,
            piece_order,
        );
        Self { horizontal_mask, vertical_mask, remaining_horizontal_perimeter, remaining_vertical_perimeter }
    }

    pub fn horizontal_mask(&self) -> (r: Bitboard)
        ensures
            r == self.horizontal_mask_spec(),
    {
        self.horizontal_mask
    }

    pub fn vertical_mask(&self) -> (r: Bitboard)
        ensures
            r == self.vertical_mask_spec(),
    {
        self.vertical_mask
    }

    /// Suffix sum of horizontal perimeters from `i` on.
    pub fn remaining_horizontal_perimeter(&self, i: usize) -> (r: u32)
        requires
            i < self.remaining_horizontal().len(),
        ensures
            r == self.remaining_horizontal()[i as int],
    {
        self.remaining_horizontal_perimeter[i]
    }

    /// Suffix sum of vertical perimeters from `i` on.
    pub fn remaining_vertical_perimeter(&self, i: usize) -> (r: u32)
        requires
            i < self.remaining_vertical().len(),
        ensures
            r == self.remaining_vertical()[i as int],
    {
        self.remaining_vertical_perimeter[i]
    }

    /// False when the remaining perimeters cannot smooth out the jaggedness.
    pub fn allows(&self, jaggedness: &Jaggedness, piece_index: usize, modulus: u8) -> (r: bool)
        requires
            piece_index < self.remaining_horizontal().len(),
            piece_index < self.remaining_vertical().len(),
            jaggedness.horizontal_forward_distance * 2 <= u32::MAX,
            jaggedness.horizontal_backward_distance * 2 <= u32::MAX,
            jaggedness.vertical_forward_distance * 2 <= u32::MAX,
            jaggedness.vertical_backward_distance * 2 <= u32::MAX,
            modulus * self.remaining_horizontal()[piece_index as int] <= u32::MAX,
            modulus * self.remaining_vertical()[piece_index as int] <= u32::MAX,
        ensures
            r == budget_allows(
                jaggedness.horizontal_circular_distance as int,
                jaggedness.vertical_circular_distance as int,
                jaggedness.horizontal_forward_distance as int,
                jaggedness.vertical_forward_distance as int,
                jaggedness.horizontal_backward_distance as int,
                jaggedness.vertical_backward_distance as int,
                self.remaining_horizontal()[piece_index as int] as int,
                self.remaining_vertical()[piece_index as int] as int,
                modulus as int,
            ),
    {
        let horizontal_perimeter = self.remaining_horizontal_perimeter[piece_index];
        let vertical_perimeter = self.remaining_vertical_perimeter[piece_index];
        if jaggedness.horizontal_circular_distance > horizontal_perimeter
            || jaggedness.vertical_circular_distance > vertical_perimeter {
            return false;
        }
        if modulus >= 3 {
            let modulus = modulus as u32;
            if jaggedness.horizontal_forward_distance * 2 > modulus * horizontal_perimeter
                || jaggedness.horizontal_backward_distance * 2 > modulus * horizontal_perimeter {
                return false;
            }
            if jaggedness.vertical_forward_distance * 2 > modulus * vertical_perimeter
                || jaggedness.vertical_backward_distance * 2 > modulus * vertical_perimeter {
                return false;
            }
        }
        true
    }

    /// A board that the remaining pieces can finish passes the bound: where
    /// the chosen placements of pieces `d..` (each a piece of `sp` moved to
    /// its anchor within the board) leave every cell at zero, and the tables
    /// hold those pieces' perimeters, the board's measure is within budget.
    pub proof fn lemma_allows_finishable(
        self,
        jaggedness: Jaggedness,
        sp: Seq<Piece>,
        b: Board,
        pm: Seq<Seq<(usize, usize, Bitboard)>>,
        d: int,
        c: Seq<int>,
    )
        requires
            measure_of(jaggedness, b, self.horizontal_mask_spec(), self.vertical_mask_spec()),
            0 <= d < self.remaining_horizontal().len(),
            d < self.remaining_vertical().len(),
            self.remaining_horizontal()[d] == perimeters_from(sp, d, true),
            self.remaining_vertical()[d] == perimeters_from(sp, d, false),
            b.wf(),
            pm.len() == sp.len(),
            forall|k: int| 0 <= k < sp.len() ==> #[trigger] sp[k].wf(),
            finishes(b, pm, c, d),
            forall|k: int| d <= k < pm.len() ==> #[trigger] places(b, sp[k], pm[k][c[k]]),
        ensures
            budget_allows(
                jaggedness.horizontal_circular_distance as int,
                jaggedness.vertical_circular_distance as int,
                jaggedness.horizontal_forward_distance as int,
                jaggedness.vertical_forward_distance as int,
                jaggedness.horizontal_backward_distance as int,
                jaggedness.vertical_backward_distance as int,
                self.remaining_horizontal()[d] as int,
                self.remaining_vertical()[d] as int,
                b.modulus(),
            ),
    {
        lemma_budget_finishable(b, self.horizontal_mask_spec(), self.vertical_mask_spec(), sp, pm, c, d);
    }
}

} // verus!
