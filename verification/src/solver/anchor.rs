//! Ranking the placements of a piece when few zero cells may be hit.
//!
//! The placements of one piece are translates of one shape, anchored on a
//! grid of top-left cells. The number of zero cells each placement would hit
//! is found for every anchor at once, by shifting the board's zero plane by
//! each cell offset of the shape and counting, per anchor, up to three hits.

use vstd::prelude::*;
use crate::model::bitboard::Bitboard;
use crate::model::board::Board;
use crate::model::piece::{Piece, in_box, shifted};
use crate::solver::backtrack::{
    MAX_PLACEMENTS, MAX_PIECE_CELLS, OFFSET_SLOTS, lemma_find_bucket, lemma_offsets_mono, lemma_bucket_disjoint, count_where, covered_with, hits_at, zero_of, zero_exact, zero_below, names,
    deficit_key, ranks_before, rank_cap, sorted_by_key, drawn_via, kept_via, sort_anchor_bucket,
    placement_deficit_key, lemma_count_where_ext, lemma_count_where_split, lemma_count_where_bound,
    lemma_count_where_mono, lemma_count_where_pos, lemma_zero_below_step, lemma_count_false,
};

verus! {

/// The bitboard index of the top-left cell of placement `k`.
pub open spec fn anchor_of(ps: Seq<(usize, usize, Bitboard)>, k: int) -> int {
    15 * ps[k].0 + ps[k].1
}

/// Index `i` is `a` moved by one of the offsets.
pub open spec fn at_offset(offs: Seq<u8>, a: int, i: int) -> bool {
    exists|s: int| 0 <= s < offs.len() && i == a + #[trigger] offs[s]
}

/// The placements are translates of `shape` (which has a cell), listed row
/// by row with `ncol` anchors per row, and no cell of any of them falls off
/// the bitboard.
pub open spec fn translates(ps: Seq<(usize, usize, Bitboard)>, ncol: int, shape: Bitboard) -> bool {
    &&& 1 <= ncol <= 15
    &&& ps.len() <= MAX_PLACEMENTS
    &&& exists|i: int| 0 <= i < 256 && #[trigger] shape.bit(i)
    &&& forall|k: int|
        0 <= k < ps.len() ==> {
            let p = #[trigger] ps[k];
            &&& p.0 * ncol + p.1 == k
            &&& p.1 < ncol
            &&& shifted(p.2, shape, 15 * p.0 + p.1)
        }
    &&& forall|k: int, i: int|
        #![trigger ps[k], shape.bit(i)]
        0 <= k < ps.len() && 0 <= i < 256 && shape.bit(i) ==> anchor_of(ps, k) + i < 256
}

/// A board cell holding zero; none off the bitboard.
pub open spec fn zero_cell(b: Board, i: int) -> bool {
    b.valid(i) && b.cell(i) == 0
}

/// Of the first `s` offsets, how many lead from anchor `a` to a zero cell.
pub open spec fn zeros_seen(b: Board, offs: Seq<u8>, s: int, a: int) -> nat
    decreases s,
{
    if s <= 0 {
        0
    } else {
        zeros_seen(b, offs, s - 1, a) + if zero_cell(b, a + offs[s - 1]) {
            1nat
        } else {
            0nat
        }
    }
}

/// Placement data indexed by anchor: the shape's cell offsets, the anchors
/// in use, and how many anchors each row of them has.
pub struct AnchorPlacementData {
    cell_offsets: Vec<u8>,
    anchor_mask: Bitboard,
    placements_per_row: usize,
}

impl AnchorPlacementData {
    /// The shape's cell offsets, increasing.
    pub closed spec fn offsets(self) -> Seq<u8> {
        self.cell_offsets@
    }

    /// The anchors of the placements.
    pub closed spec fn anchors(self) -> Bitboard {
        self.anchor_mask
    }

    /// Placements per row of anchors.
    pub closed spec fn per_row(self) -> int {
        self.placements_per_row as int
    }

    /// The data describes the placements `ps`: placement `k` sits in row
    /// `k / per_row` and column `k % per_row`, the anchors are exactly theirs,
    /// and placement `k` covers exactly its anchor moved by each offset.
    pub open spec fn describes(self, ps: Seq<(usize, usize, Bitboard)>) -> bool {
        let ppr = self.per_row();
        let offs = self.offsets();
        &&& ps.len() <= MAX_PLACEMENTS
        &&& (ps.len() > 0) == (ppr > 0)
        &&& ppr <= 15
        &&& forall|k: int| 0 <= k < ps.len() ==> (#[trigger] ps[k]).0 == k / ppr && ps[k].1 == k % ppr
        &&& forall|i: int|
            0 <= i < 256 ==> #[trigger] self.anchors().bit(i) == exists|k: int|
                0 <= k < ps.len() && anchor_of(ps, k) == i
        &&& forall|s: int, t: int| 0 <= s < t < offs.len() ==> #[trigger] offs[s] < #[trigger] offs[t]
        &&& forall|k: int| 0 <= k < ps.len() ==> anchor_of(ps, k) < 256 && #[trigger] ps[k].0 < 256
        &&& forall|k: int, s: int|
            #![trigger ps[k], offs[s]]
            0 <= k < ps.len() && 0 <= s < offs.len() ==> anchor_of(ps, k) + offs[s] < 256
        &&& forall|k: int, i: int|
            0 <= k < ps.len() && 0 <= i < 256 ==> #[trigger] ps[k].2.bit(i) == at_offset(offs, anchor_of(ps, k), i)
    }

    /// Build the anchor data of a piece's placements.
    pub fn precompute(placements: &[(usize, usize, Bitboard)]) -> (r: Self)
        requires
            exists|ncol: int, shape: Bitboard| translates(placements@, ncol, shape),
        ensures
            r.describes(placements@),
    {
        let ghost ps = placements@;
        let ghost ncol = choose|ncol: int, shape: Bitboard| translates(ps, ncol, shape);
        let ghost shape = (choose|ncol: int, shape: Bitboard| translates(ps, ncol, shape)).1;
        let ghost ncol = ncol.0;
        assert(translates(ps, ncol, shape));
        let n = placements.len();
        proof {
            assert forall|k: int| 0 <= k < n implies (#[trigger] ps[k]).0 == k / ncol && ps[k].1 == k % ncol by {
                vstd::arithmetic::div_mod::lemma_fundamental_div_mod_converse(k, ncol, ps[k].0 as int, ps[k].1 as int);
            }
        }
        let mut anchor_mask = Bitboard::zero();
        let mut k: usize = 0;
        while k < n
            invariant
                n == ps.len(),
                ps == placements@,
                translates(ps, ncol, shape),
                k <= n,
                forall|i: int|
                    0 <= i < 256 ==> #[trigger] anchor_mask.bit(i) == exists|j: int| 0 <= j < k && anchor_of(ps, j) == i,
            decreases n - k,
        {
            let (row, column, _) = placements[k];
            proof {
                assert(ps[k as int].0 * ncol + ps[k as int].1 == k);
                lemma_anchor_small(ps, ncol, shape, k as int);
            }
            let ghost before = anchor_mask;
            anchor_mask.set_bit((row * 15 + column) as u32);
            proof {
                assert forall|i: int| 0 <= i < 256 implies #[trigger] anchor_mask.bit(i) == exists|j: int|
                    0 <= j < k + 1 && anchor_of(ps, j) == i by {
                    if i == anchor_of(ps, k as int) {
                        assert(anchor_of(ps, k as int) == i);
                    } else if anchor_mask.bit(i) {
                        assert(before.bit(i));
                    }
                }
            }
            k = k + 1;
        }
        let mut per_row: usize = 0;
        while per_row < n && placements[per_row].0 == 0
            invariant
                n == ps.len(),
                ps == placements@,
                translates(ps, ncol, shape),
                per_row <= n,
                per_row <= ncol,
                forall|k: int| 0 <= k < n ==> (#[trigger] ps[k]).0 == k / ncol && ps[k].1 == k % ncol,
                forall|k: int| 0 <= k < per_row ==> (#[trigger] ps[k]).0 == 0,
            decreases n - per_row,
        {
            proof {
                assert(ps[per_row as int].0 == (per_row as int) / ncol);
                if per_row >= ncol {
                    vstd::arithmetic::div_mod::lemma_div_pos_is_pos(per_row as int, ncol);
                    assert(per_row as int / ncol >= 1) by {
                        vstd::arithmetic::div_mod::lemma_div_is_ordered(ncol, per_row as int, ncol);
                        vstd::arithmetic::div_mod::lemma_div_by_self(ncol);
                    }
                }
            }
            per_row = per_row + 1;
        }
        proof {
            lemma_rows_by_per_row(ps, ncol, shape, per_row as int);
        }
        let mut cell_offsets: Vec<u8> = Vec::new();
        if n > 0 {
            let mut cells = placements[0].2;
            proof {
                assert(ps[0].0 == 0 && ps[0].1 == 0) by {
                    assert(ps[0].0 == 0int / ncol);
                }
                assert(shifted(ps[0].2, shape, 0));
            }
            let ghost first = cells;
            while !cells.is_zero()
                invariant
                    n == ps.len(),
                    n > 0,
                    first == ps[0].2,
                    forall|i: int| 0 <= i < 256 ==> #[trigger] first.bit(i) == shape.bit(i),
                    forall|i: int| 0 <= i < 256 && #[trigger] cells.bit(i) ==> first.bit(i),
                    forall|s: int, i: int|
                        0 <= s < cell_offsets@.len() && 0 <= i < 256 && #[trigger] cells.bit(i) ==> #[trigger] cell_offsets@[s] < i,
                    forall|s: int, t: int| 0 <= s < t < cell_offsets@.len() ==> #[trigger] cell_offsets@[s] < #[trigger] cell_offsets@[t],
                    forall|i: int|
                        0 <= i < 256 ==> #[trigger] first.bit(i) == (cells.bit(i) || at_offset(cell_offsets@, 0, i)),
                    forall|s: int| 0 <= s < cell_offsets@.len() ==> first.bit(#[trigger] cell_offsets@[s] as int),
                decreases cells.count(),
            {
                let cell = cells.lowest_set_bit();
                let ghost before = cells;
                let ghost offs_before = cell_offsets@;
                cells.clear_bit(cell);
                cell_offsets.push(cell as u8);
                proof {
                    crate::bits::lemma_count_clear(before@, cells@, cell as int, 256);
                    assert forall|i: int| 0 <= i < 256 implies #[trigger] first.bit(i) == (cells.bit(i) || at_offset(
                        cell_offsets@,
                        0,
                        i,
                    )) by {
                        if at_offset(offs_before, 0, i) {
                            let s = choose|s: int| 0 <= s < offs_before.len() && i == 0 + #[trigger] offs_before[s];
                            assert(cell_offsets@[s] == offs_before[s]);
                        }
                        if i == cell {
                            assert(cell_offsets@[offs_before.len() as int] == cell);
                        }
                        if at_offset(cell_offsets@, 0, i) {
                            let s = choose|s: int| 0 <= s < cell_offsets@.len() && i == 0 + #[trigger] cell_offsets@[s];
                            if s < offs_before.len() {
                                assert(offs_before[s] == cell_offsets@[s]);
                            }
                        }
                    }
                }
            }
            proof {
                assert forall|i: int| 0 <= i < 256 implies #[trigger] shape.bit(i) == at_offset(cell_offsets@, 0, i) by {
                    assert(first.bit(i) == shape.bit(i));
                    assert(!cells.bit(i));
                }
            }
        }
        let r = AnchorPlacementData { cell_offsets, anchor_mask, placements_per_row: per_row };
        proof {
            lemma_describes(r, ps, ncol, shape);
        }
        r
    }
}

/// An anchor and the shape's cells around it stay on the bitboard.
proof fn lemma_anchor_small(ps: Seq<(usize, usize, Bitboard)>, ncol: int, shape: Bitboard, k: int)
    requires
        translates(ps, ncol, shape),
        0 <= k < ps.len(),
        exists|i: int| 0 <= i < 256 && #[trigger] shape.bit(i),
    ensures
        anchor_of(ps, k) < 256,
{
    let i = choose|i: int| 0 <= i < 256 && #[trigger] shape.bit(i);
    assert(anchor_of(ps, k) + i < 256);
}


/// Row and column of every placement, by the count of leading row-0 entries.
proof fn lemma_rows_by_per_row(ps: Seq<(usize, usize, Bitboard)>, ncol: int, shape: Bitboard, per_row: int)
    requires
        translates(ps, ncol, shape),
        forall|k: int| 0 <= k < ps.len() ==> (#[trigger] ps[k]).0 == k / ncol && ps[k].1 == k % ncol,
        0 <= per_row <= ps.len(),
        per_row <= ncol,
        per_row == ps.len() || ps[per_row].0 != 0,
        forall|k: int| 0 <= k < per_row ==> (#[trigger] ps[k]).0 == 0,
    ensures
        (ps.len() > 0) == (per_row > 0),
        forall|k: int| 0 <= k < ps.len() ==> (#[trigger] ps[k]).0 == k / per_row && ps[k].1 == k % per_row,
{
    if ps.len() > 0 && per_row == 0 {
        assert(ps[0].0 == 0int / ncol);
    }
    if per_row < ncol && per_row < ps.len() {
        assert(ps[per_row].0 == per_row / ncol);
        vstd::arithmetic::div_mod::lemma_basic_div(per_row, ncol);
    }
    if per_row < ncol {
        assert forall|k: int| 0 <= k < ps.len() implies (#[trigger] ps[k]).0 == k / per_row && ps[k].1 == k % per_row by {
            vstd::arithmetic::div_mod::lemma_basic_div(k, ncol);
            vstd::arithmetic::div_mod::lemma_basic_div(k, per_row);
            vstd::arithmetic::div_mod::lemma_small_mod(k as nat, ncol as nat);
            vstd::arithmetic::div_mod::lemma_small_mod(k as nat, per_row as nat);
        }
    }
}

/// The anchor data built from translates of a shape describes them.
proof fn lemma_describes(r: AnchorPlacementData, ps: Seq<(usize, usize, Bitboard)>, ncol: int, shape: Bitboard)
    requires
        translates(ps, ncol, shape),
        (ps.len() > 0) == (r.placements_per_row > 0),
        r.placements_per_row <= ncol,
        forall|k: int|
            0 <= k < ps.len() ==> (#[trigger] ps[k]).0 == k / (r.placements_per_row as int) && ps[k].1 == k
                % (r.placements_per_row as int),
        forall|i: int|
            0 <= i < 256 ==> #[trigger] r.anchor_mask.bit(i) == exists|j: int| 0 <= j < ps.len() && anchor_of(ps, j) == i,
        forall|s: int, t: int|
            0 <= s < t < r.cell_offsets@.len() ==> #[trigger] r.cell_offsets@[s] < #[trigger] r.cell_offsets@[t],
        ps.len() > 0 ==> forall|i: int| 0 <= i < 256 ==> #[trigger] shape.bit(i) == at_offset(r.cell_offsets@, 0, i),
        forall|s: int| 0 <= s < r.cell_offsets@.len() ==> shape.bit(#[trigger] r.cell_offsets@[s] as int),
    ensures
        r.describes(ps),
{
    let offs = r.cell_offsets@;
    assert forall|k: int| 0 <= k < ps.len() implies anchor_of(ps, k) < 256 && #[trigger] ps[k].0 < 256 by {
        lemma_anchor_small(ps, ncol, shape, k);
    }
    assert forall|k: int, s: int|
        #![trigger ps[k], offs[s]]
        0 <= k < ps.len() && 0 <= s < offs.len() implies anchor_of(ps, k) + offs[s] < 256 by {
        assert(shape.bit(offs[s] as int));
    }
    assert forall|k: int, i: int|
        0 <= k < ps.len() && 0 <= i < 256 implies #[trigger] ps[k].2.bit(i) == at_offset(offs, anchor_of(ps, k), i) by {
        let a = anchor_of(ps, k);
        assert(shifted(ps[k].2, shape, a));
        if ps[k].2.bit(i) {
            assert(shape.bit(i - a));
            assert(at_offset(offs, 0, i - a));
            let s = choose|s: int| 0 <= s < offs.len() && i - a == 0 + #[trigger] offs[s];
            assert(i == a + offs[s]);
        }
        if at_offset(offs, a, i) {
            let s = choose|s: int| 0 <= s < offs.len() && i == a + #[trigger] offs[s];
            assert(shape.bit(offs[s] as int));
            assert(i - a == offs[s]);
        }
    }
}


/// Indices of `a` moved by the first `t` offsets that are zero cells.
pub open spec fn offset_zeros(b: Board, offs: Seq<u8>, t: int, a: int) -> spec_fn(int) -> bool {
    |i: int| (exists|s: int| 0 <= s < t && i == a + #[trigger] offs[s]) && zero_cell(b, i)
}

/// A predicate that holds at one index at most is counted once or not.
proof fn lemma_count_one(p: spec_fn(int) -> bool, x: int, n: int)
    requires
        0 <= n,
        forall|i: int| #[trigger] p(i) ==> i == x,
    ensures
        count_where(p, n) == if 0 <= x < n && p(x) {
            1nat
        } else {
            0nat
        },
    decreases n,
{
    if n > 0 {
        lemma_count_one(p, x, n - 1);
    }
}

/// Counting the zero cells under the first `t` offsets from `a`.
proof fn lemma_offset_zeros(b: Board, offs: Seq<u8>, t: int, a: int)
    requires
        0 <= t <= offs.len(),
        forall|s: int, u: int| 0 <= s < u < offs.len() ==> #[trigger] offs[s] < #[trigger] offs[u],
        forall|s: int| 0 <= s < offs.len() ==> 0 <= a + #[trigger] offs[s] < 256,
    ensures
        count_where(offset_zeros(b, offs, t, a), 256) == zeros_seen(b, offs, t, a),
    decreases t,
{
    if t == 0 {
        lemma_count_where_ext(offset_zeros(b, offs, 0, a), |i: int| false, 256);
        lemma_count_false(256);
    } else {
        lemma_offset_zeros(b, offs, t - 1, a);
        let x = a + offs[t - 1];
        let q = |i: int| i == x && zero_cell(b, i);
        lemma_count_one(q, x, 256);
        assert forall|i: int| 0 <= i < 256 implies #[trigger] offset_zeros(b, offs, t, a)(i) == (offset_zeros(
            b,
            offs,
            t - 1,
            a,
        )(i) || q(i)) by {
            if offset_zeros(b, offs, t, a)(i) {
                let s = choose|s: int| 0 <= s < t && i == a + #[trigger] offs[s];
                if s < t - 1 {
                    assert(offset_zeros(b, offs, t - 1, a)(i));
                }
            }
            if offset_zeros(b, offs, t - 1, a)(i) {
                let s = choose|s: int| 0 <= s < t - 1 && i == a + #[trigger] offs[s];
                assert(offset_zeros(b, offs, t, a)(i));
            }
            if q(i) {
                assert(i == a + offs[t - 1]);
            }
        }
        assert forall|i: int| 0 <= i < 256 implies !(#[trigger] offset_zeros(b, offs, t - 1, a)(i) && q(i)) by {
            if offset_zeros(b, offs, t - 1, a)(i) && q(i) {
                let s = choose|s: int| 0 <= s < t - 1 && i == a + #[trigger] offs[s];
                assert(offs[s] < offs[t - 1]);
            }
        }
        lemma_count_where_split(offset_zeros(b, offs, t - 1, a), q, offset_zeros(b, offs, t, a), 256);
    }
}

/// The zero cells a placement hits are the zero cells under its offsets.
proof fn lemma_zero_of_anchor(b: Board, anchors: AnchorPlacementData, ps: Seq<(usize, usize, Bitboard)>, k: int)
    requires
        anchors.describes(ps),
        0 <= k < ps.len(),
    ensures
        zero_of(b, ps, k) == zeros_seen(b, anchors.offsets(), anchors.offsets().len() as int, anchor_of(ps, k)),
{
    let offs = anchors.offsets();
    let a = anchor_of(ps, k);
    assert forall|s: int| 0 <= s < offs.len() implies 0 <= a + #[trigger] offs[s] < 256 by {
        assert(anchor_of(ps, k) + offs[s] < 256);
    }
    lemma_offset_zeros(b, offs, offs.len() as int, a);
    assert forall|i: int| 0 <= i < 256 implies #[trigger] covered_with(b, ps[k].2, 0)(i) == offset_zeros(
        b,
        offs,
        offs.len() as int,
        a,
    )(i) by {
        assert(ps[k].2.bit(i) == at_offset(offs, a, i));
    }
    lemma_count_where_ext(covered_with(b, ps[k].2, 0), offset_zeros(b, offs, offs.len() as int, a), 256);
}

/// Later offsets only add zero cells.
proof fn lemma_zeros_seen_mono(b: Board, offs: Seq<u8>, s: int, t: int, a: int)
    requires
        0 <= s <= t,
    ensures
        zeros_seen(b, offs, s, a) <= zeros_seen(b, offs, t, a),
    decreases t,
{
    if t > s {
        lemma_zeros_seen_mono(b, offs, s, t - 1, a);
    }
}

/// Anchors increase with the placement index.
proof fn lemma_anchor_order(anchors: AnchorPlacementData, ps: Seq<(usize, usize, Bitboard)>, j: int, k: int)
    requires
        anchors.describes(ps),
        0 <= j < k < ps.len(),
    ensures
        anchor_of(ps, j) < anchor_of(ps, k),
{
    let ppr = anchors.per_row();
    assert(ps[j].0 == j / ppr && ps[j].1 == j % ppr);
    assert(ps[k].0 == k / ppr && ps[k].1 == k % ppr);
    vstd::arithmetic::div_mod::lemma_div_is_ordered(j, k, ppr);
    if j / ppr == k / ppr {
        vstd::arithmetic::div_mod::lemma_fundamental_div_mod(j, ppr);
        vstd::arithmetic::div_mod::lemma_fundamental_div_mod(k, ppr);
    } else {
        vstd::arithmetic::div_mod::lemma_mod_bound(j, ppr);
        assert(15 * (j / ppr) + 15 <= 15 * (k / ppr));
    }
}

/// The placement anchored at `15 * row + column` is number `row * per_row + column`.
proof fn lemma_anchor_index(anchors: AnchorPlacementData, ps: Seq<(usize, usize, Bitboard)>, k: int)
    requires
        anchors.describes(ps),
        0 <= k < ps.len(),
    ensures
        anchor_of(ps, k) / 15 * anchors.per_row() + anchor_of(ps, k) % 15 == k,
        anchor_of(ps, k) / 15 == ps[k].0,
        anchor_of(ps, k) % 15 == ps[k].1,
{
    let ppr = anchors.per_row();
    assert(ps[k].0 == k / ppr && ps[k].1 == k % ppr);
    vstd::arithmetic::div_mod::lemma_mod_bound(k, ppr);
    vstd::arithmetic::div_mod::lemma_fundamental_div_mod_converse(anchor_of(ps, k), 15, ps[k].0 as int, ps[k].1 as int);
    vstd::arithmetic::div_mod::lemma_fundamental_div_mod(k, ppr);
    assert(k == ppr * (k / ppr) + k % ppr);
    assert(ps[k].0 * ppr == ppr * (k / ppr)) by (nonlinear_arith)
        requires
            ps[k].0 == k / ppr,
    ;
}

/// A count stays put over a stretch where the predicate fails.
proof fn lemma_count_where_flat(p: spec_fn(int) -> bool, lo: int, hi: int)
    requires
        0 <= lo <= hi,
        forall|k: int| lo <= k < hi ==> !#[trigger] p(k),
    ensures
        count_where(p, hi) == count_where(p, lo),
    decreases hi - lo,
{
    if hi > lo {
        lemma_count_where_flat(p, lo, hi - 1);
    }
}

/// Enter the placements whose anchors are set in `exact` (those hitting `z`
/// zero cells) at `ranked_indices[start..]`, in increasing order, and set
/// their deficit keys. Returns the end of the bucket.
fn collect_bucket(
    board: &Board,
    modulus: u8,
    placements: &[(usize, usize, Bitboard)],
    anchors: &AnchorPlacementData,
    exact: Bitboard,
    ranked_indices: &mut [u8; MAX_PLACEMENTS],
    deficit_keys: &mut [u8; MAX_PLACEMENTS],
    start: usize,
    Ghost(z): Ghost<int>,
) -> (end: usize)
    requires
        board.wf(),
        modulus == board.modulus(),
        anchors.describes(placements@),
        forall|k: int|
            0 <= k < placements@.len() ==> #[trigger] exact.bit(anchor_of(placements@, k)) == (zero_of(
                *board,
                placements@,
                k,
            ) == z),
        forall|i: int| 0 <= i < 256 && #[trigger] exact.bit(i) ==> anchors.anchors().bit(i),
        start + count_where(zero_exact(*board, placements@, z), placements@.len() as int) <= MAX_PLACEMENTS,
    ensures
        end == start + count_where(zero_exact(*board, placements@, z), placements@.len() as int),
        forall|a: int|
            0 <= a < MAX_PLACEMENTS && !(start <= a < end) ==> #[trigger] final(ranked_indices)[a] == old(
                ranked_indices,
            )[a],
        forall|a: int|
            start <= a < end ==> (#[trigger] final(ranked_indices)[a]) < placements@.len() && zero_of(
                *board,
                placements@,
                final(ranked_indices)[a] as int,
            ) == z,
        forall|a: int, c: int|
            start <= a < c < end ==> #[trigger] final(ranked_indices)[a] < #[trigger] final(ranked_indices)[c],
        forall|k: int|
            0 <= k < placements@.len() && zero_of(*board, placements@, k) == z ==> exists|a: int|
                start <= a < end && #[trigger] names(*final(ranked_indices), a, k),
        forall|k: int|
            0 <= k < placements@.len() && zero_of(*board, placements@, k) == z ==> #[trigger] final(deficit_keys)[k]
                == deficit_key(*board, placements@[k].2),
        forall|k: int|
            0 <= k < MAX_PLACEMENTS && !(k < placements@.len() && zero_of(*board, placements@, k) == z)
                ==> #[trigger] final(deficit_keys)[k] == old(deficit_keys)[k],
{
    let ghost b = *board;
    let ghost ps = placements@;
    let ghost n = ps.len() as int;
    let ghost exact_z = zero_exact(b, ps, z);
    let ghost ranked0 = *ranked_indices;
    let ghost keys0 = *deficit_keys;
    let mut remaining = exact;
    let mut cursor = start;
    let ghost mut done: int = 0;
    proof {
        lemma_count_where_mono(exact_z, 0, n);
        assert(count_where(exact_z, 0) == 0);
    }
    while !remaining.is_zero()
        invariant
            b == *board,
            b.wf(),
            modulus == b.modulus(),
            ps == placements@,
            n == ps.len(),
            exact_z == zero_exact(b, ps, z),
            anchors.describes(ps),
            forall|k: int| 0 <= k < n ==> #[trigger] exact.bit(anchor_of(ps, k)) == (zero_of(b, ps, k) == z),
            forall|i: int| 0 <= i < 256 && #[trigger] exact.bit(i) ==> anchors.anchors().bit(i),
            start + count_where(exact_z, n) <= MAX_PLACEMENTS,
            0 <= done <= n,
            forall|i: int| 0 <= i < 256 && #[trigger] remaining.bit(i) ==> exact.bit(i),
            forall|k: int| done <= k < n && zero_of(b, ps, k) == z ==> #[trigger] remaining.bit(anchor_of(ps, k)),
            forall|k: int| 0 <= k < done ==> !#[trigger] remaining.bit(anchor_of(ps, k)),
            cursor == start + count_where(exact_z, done),
            forall|a: int| 0 <= a < MAX_PLACEMENTS && !(start <= a < cursor) ==> #[trigger] ranked_indices[a] == ranked0[a],
            forall|a: int| start <= a < cursor ==> (#[trigger] ranked_indices[a]) < done && zero_of(b, ps, ranked_indices[a] as int) == z,
            forall|a: int, c: int| start <= a < c < cursor ==> #[trigger] ranked_indices[a] < #[trigger] ranked_indices[c],
            forall|k: int|
                0 <= k < done && zero_of(b, ps, k) == z ==> exists|a: int| start <= a < cursor && #[trigger] names(*ranked_indices, a, k),
            forall|k: int| 0 <= k < done && zero_of(b, ps, k) == z ==> #[trigger] deficit_keys[k] == deficit_key(b, ps[k].2),
            forall|k: int|
                0 <= k < MAX_PLACEMENTS && !(k < done && zero_of(b, ps, k) == z) ==> #[trigger] deficit_keys[k] == keys0[k],
        decreases remaining.count(),
    {
        let anchor = remaining.lowest_set_bit();
        let ghost before = remaining;
        let ghost pre = *ranked_indices;
        let ghost pre_keys = *deficit_keys;
        proof {
            assert(exact.bit(anchor as int));
            assert(anchors.anchors().bit(anchor as int));
        }
        let ghost k0 = choose|k: int| 0 <= k < n && anchor_of(ps, k) == anchor;
        proof {
            assert(0 <= k0 < n && anchor_of(ps, k0) == anchor);
            assert(k0 >= done) by {
                if k0 < done {
                    assert(!before.bit(anchor_of(ps, k0)));
                }
            }
            assert(zero_of(b, ps, k0) == z);
            assert forall|k: int| done <= k < k0 implies !#[trigger] exact_z(k) by {
                if exact_z(k) {
                    lemma_anchor_order(*anchors, ps, k, k0);
                    assert(before.bit(anchor_of(ps, k)));
                }
            }
            lemma_count_where_flat(exact_z, done, k0);
            lemma_count_where_mono(exact_z, k0 + 1, n);
            lemma_count_where_pos(exact_z, k0 + 1, k0);
            lemma_anchor_index(*anchors, ps, k0);
        }
        remaining.clear_bit(anchor);
        proof {
            crate::bits::lemma_count_clear(before@, remaining@, anchor as int, 256);
        }
        let row = anchor as usize / 15;
        let column = anchor as usize % 15;
        let placement_index = row * anchors.placements_per_row + column;
        assert(placement_index == k0);
        let mask = placements[placement_index].2;
        let key = placement_deficit_key(board, modulus, mask);
        deficit_keys[placement_index] = key;
        ranked_indices[cursor] = placement_index as u8;
        cursor = cursor + 1;
        proof {
            let old_done = done;
            done = k0 + 1;
            assert forall|k: int| done <= k < n && zero_of(b, ps, k) == z implies #[trigger] remaining.bit(anchor_of(ps, k)) by {
                lemma_anchor_order(*anchors, ps, k0, k);
                assert(before.bit(anchor_of(ps, k)));
            }
            assert forall|k: int| 0 <= k < done implies !#[trigger] remaining.bit(anchor_of(ps, k)) by {
                if k != k0 && k >= old_done {
                    assert(!exact_z(k));
                    assert(!exact.bit(anchor_of(ps, k)));
                }
            }
            assert forall|a: int| start <= a < cursor implies (#[trigger] ranked_indices[a]) < done && zero_of(b, ps, ranked_indices[a] as int) == z by {
                if a < cursor - 1 {
                    assert(ranked_indices[a] == pre[a]);
                }
            }
            assert forall|a: int, c: int| start <= a < c < cursor implies #[trigger] ranked_indices[a] < #[trigger] ranked_indices[c] by {
                assert(ranked_indices[a] == pre[a]);
                if c < cursor - 1 {
                    assert(ranked_indices[c] == pre[c]);
                }
            }
            assert forall|k: int|
                0 <= k < done && zero_of(b, ps, k) == z implies exists|a: int| start <= a < cursor && #[trigger] names(*ranked_indices, a, k) by {
                if k == k0 {
                    assert(names(*ranked_indices, cursor - 1, k));
                } else {
                    assert(k < old_done) by {
                        if k >= old_done {
                            assert(exact_z(k));
                        }
                    }
                    let a = choose|a: int| start <= a < cursor - 1 && #[trigger] names(pre, a, k);
                    assert(names(*ranked_indices, a, k));
                }
            }
            assert forall|k: int| 0 <= k < done && zero_of(b, ps, k) == z implies #[trigger] deficit_keys[k] == deficit_key(b, ps[k].2) by {
                if k != k0 {
                    assert(k < old_done) by {
                        if k >= old_done {
                            assert(exact_z(k));
                        }
                    }
                }
            }
            assert forall|k: int|
                0 <= k < MAX_PLACEMENTS && !(k < done && zero_of(b, ps, k) == z) implies #[trigger] deficit_keys[k] == keys0[k] by {
                assert(k != k0);
                assert(deficit_keys[k] == pre_keys[k]);
            }
        }
    }
    proof {
        assert forall|k: int| done <= k < n implies !#[trigger] exact_z(k) by {
            if exact_z(k) {
                assert(remaining.bit(anchor_of(ps, k)));
                lemma_anchor_small_desc(*anchors, ps, k);
            }
        }
        lemma_count_where_flat(exact_z, done, n);
        assert forall|k: int| 0 <= k < n && zero_of(b, ps, k) == z implies k < done by {
            if k >= done {
                assert(exact_z(k));
            }
        }
    }
    cursor
}

/// Anchors lie on the bitboard.
proof fn lemma_anchor_small_desc(anchors: AnchorPlacementData, ps: Seq<(usize, usize, Bitboard)>, k: int)
    requires
        anchors.describes(ps),
        0 <= k < ps.len(),
    ensures
        0 <= anchor_of(ps, k) < 256,
{
    assert(ps[k].0 < 256);
}


/// Rank the placements as `rank_placements` does, for a budget of at most
/// two zero cells, finding the zero cells of every placement at once from
/// the anchors. The ranking is the same: by zero cells hit, then by covered
/// deficit (more first), then by index, leaving out placements over budget.
#[verifier::rlimit(60)]
pub fn rank_low_zero_hit_placements(
    board: &Board,
    modulus: u8,
    placements: &[(usize, usize, Bitboard)],
    anchors: &AnchorPlacementData,
    max_zero_cells: u32,
    ranked_indices: &mut [u8; MAX_PLACEMENTS],
) -> (ranked_count: usize)
    requires
        board.wf(),
        modulus == board.modulus(),
        anchors.describes(placements@),
        max_zero_cells <= 2,
    ensures
        ranked_count <= placements@.len(),
        forall|a: int|
            0 <= a < ranked_count ==> (#[trigger] final(ranked_indices)[a]) < placements@.len()
                && zero_of(*board, placements@, final(ranked_indices)[a] as int) <= rank_cap(
                max_zero_cells,
            ),
        forall|k: int|
            0 <= k < placements@.len() && zero_of(*board, placements@, k) <= rank_cap(max_zero_cells)
                ==> exists|a: int| 0 <= a < ranked_count && #[trigger] names(*final(ranked_indices), a, k),
        forall|a: int, c: int|
            0 <= a < c < ranked_count ==> ranks_before(
                *board,
                placements@,
                #[trigger] final(ranked_indices)[a] as int,
                #[trigger] final(ranked_indices)[c] as int,
            ),
{
    let ghost b = *board;
    let ghost ps = placements@;
    let ghost offs = anchors.offsets();
    let placement_count = placements.len();
    if anchors.placements_per_row == 0 {
        return 0;
    }
    proof {
        assert forall|k: int| 0 <= k < placement_count implies #[trigger] zero_of(b, ps, k) == zeros_seen(
            b,
            offs,
            offs.len() as int,
            anchor_of(ps, k),
        ) by {
            lemma_zero_of_anchor(b, *anchors, ps, k);
        }
        assert forall|k: int| 0 <= k < placement_count implies #[trigger] anchors.anchors().bit(anchor_of(ps, k)) by {
            lemma_anchor_small_desc(*anchors, ps, k);
        }
    }
    let cap = max_zero_cells as usize;
    assert(rank_cap(max_zero_cells) == cap);
    let offset_count = anchors.cell_offsets.len();
    let zero = board.plane(0);
    if cap == 0 {
        let nonzero = zero.not();
        let mut valid_anchors = anchors.anchor_mask;
        let mut s: usize = 0;
        while s < offset_count
            invariant
                b == *board,
                ps == placements@,
                offs == anchors.offsets(),
                anchors.describes(ps),
                placement_count == ps.len(),
                offset_count == offs.len(),
                s <= offset_count,
                cap == 0,
                rank_cap(max_zero_cells) == 0,
                forall|i: int| 0 <= i < 256 ==> #[trigger] zero.bit(i) == zero_cell(b, i),
                forall|i: int| 0 <= i < 256 ==> #[trigger] nonzero.bit(i) == !zero.bit(i),
                forall|a: int|
                    0 <= a < 256 ==> #[trigger] valid_anchors.bit(a) == (anchors.anchors().bit(a) && zeros_seen(
                        b,
                        offs,
                        s as int,
                        a,
                    ) == 0),
                forall|k: int|
                    0 <= k < placement_count ==> #[trigger] zero_of(b, ps, k) == zeros_seen(b, offs, offs.len() as int, anchor_of(ps, k)),
            decreases offset_count - s,
        {
            let offset = anchors.cell_offsets[s];
            let hit_free = nonzero.shr(offset as u32);
            let ghost before = valid_anchors;
            valid_anchors = valid_anchors.and(&hit_free);
            proof {
                assert forall|a: int| 0 <= a < 256 implies #[trigger] valid_anchors.bit(a) == (anchors.anchors().bit(a)
                    && zeros_seen(b, offs, s + 1, a) == 0) by {
                    if anchors.anchors().bit(a) {
                        let k = choose|k: int| 0 <= k < ps.len() && anchor_of(ps, k) == a;
                        assert(anchor_of(ps, k) + offs[s as int] < 256);
                    }
                }
            }
            if valid_anchors.is_zero() {
                proof {
                    assert forall|k: int| 0 <= k < placement_count implies #[trigger] zero_of(b, ps, k) > 0 by {
                        let a = anchor_of(ps, k);
                        lemma_anchor_small_desc(*anchors, ps, k);
                        assert(!valid_anchors.bit(a));
                        lemma_zeros_seen_mono(b, offs, s + 1, offs.len() as int, a);
                    }
                }
                return 0;
            }
            s = s + 1;
        }
        let mut deficit_keys = [0u8; MAX_PLACEMENTS];
        proof {
            assert forall|k: int| 0 <= k < placement_count implies #[trigger] valid_anchors.bit(anchor_of(ps, k)) == (
            zero_of(b, ps, k) == 0) by {
                lemma_anchor_small_desc(*anchors, ps, k);
            }
            lemma_count_where_bound(zero_exact(b, ps, 0), placement_count as int);
        }
        let ranked_count = collect_bucket(
            board,
            modulus,
            placements,
            anchors,
            valid_anchors,
            ranked_indices,
            &mut deficit_keys,
            0,
            Ghost(0),
        );
        let ghost pre = *ranked_indices;
        proof {
            lemma_count_where_bound(zero_exact(b, ps, 0), placement_count as int);
        }
        sort_anchor_bucket(ranked_indices, &deficit_keys, 0, ranked_count);
        proof {
            let perm = choose|perm: Seq<int>| #[trigger] drawn_via(*ranked_indices, pre, perm, 0, ranked_count as int);
            let inv = choose|inv: Seq<int>| #[trigger] kept_via(*ranked_indices, pre, inv, 0, ranked_count as int);
            assert forall|a: int| 0 <= a < ranked_count implies (#[trigger] ranked_indices[a]) < placements@.len()
                && zero_of(*board, placements@, ranked_indices[a] as int) <= rank_cap(max_zero_cells) by {
                assert(ranked_indices[a] == pre[perm[a]]);
            }
            assert forall|k: int|
                0 <= k < placements@.len() && zero_of(*board, placements@, k) <= rank_cap(max_zero_cells)
                    implies exists|a: int| 0 <= a < ranked_count && #[trigger] names(*ranked_indices, a, k) by {
                let a0 = choose|a: int| 0 <= a < ranked_count && #[trigger] names(pre, a, k);
                assert(names(*ranked_indices, inv[a0], k));
            }
            assert forall|a: int, c: int| 0 <= a < c < ranked_count implies ranks_before(
                *board,
                placements@,
                #[trigger] ranked_indices[a] as int,
                #[trigger] ranked_indices[c] as int,
            ) by {
                assert(ranked_indices[a] == pre[perm[a]]);
                assert(ranked_indices[c] == pre[perm[c]]);
            }
        }
        return ranked_count;
    }
    let mut at_least_one = Bitboard::zero();
    let mut at_least_two = Bitboard::zero();
    let mut at_least_three = Bitboard::zero();
    let mut s: usize = 0;
    while s < offset_count
        invariant
            b == *board,
            ps == placements@,
            offs == anchors.offsets(),
            anchors.describes(ps),
            placement_count == ps.len(),
            offset_count == offs.len(),
            1 <= cap <= 2,
            rank_cap(max_zero_cells) == cap,
            s <= offset_count,
            forall|i: int| 0 <= i < 256 ==> #[trigger] zero.bit(i) == zero_cell(b, i),
            forall|a: int| 0 <= a < 256 ==> #[trigger] at_least_one.bit(a) == (zeros_seen(b, offs, s as int, a) >= 1),
            forall|a: int| 0 <= a < 256 ==> #[trigger] at_least_two.bit(a) == (zeros_seen(b, offs, s as int, a) >= 2),
            forall|a: int|
                0 <= a < 256 ==> #[trigger] at_least_three.bit(a) == (cap == 2 && zeros_seen(b, offs, s as int, a) >= 3),
            forall|k: int|
                0 <= k < placement_count ==> #[trigger] zero_of(b, ps, k) == zeros_seen(b, offs, offs.len() as int, anchor_of(ps, k)),
        decreases offset_count - s,
    {
        let offset = anchors.cell_offsets[s];
        let hit = zero.shr(offset as u32);
        proof {
            assert forall|a: int| 0 <= a < 256 implies #[trigger] hit.bit(a) == zero_cell(b, a + offs[s as int]) by {
                if a + offs[s as int] >= 256 {
                    assert(!b.valid(a + offs[s as int]));
                }
            }
        }
        if cap == 2 {
            at_least_three = at_least_three.or(&at_least_two.and(&hit));
        }
        at_least_two = at_least_two.or(&at_least_one.and(&hit));
        at_least_one = at_least_one.or(&hit);
        let over_budget = if cap == 1 {
            at_least_two
        } else {
            at_least_three
        };
        let in_budget = anchors.anchor_mask.and(&over_budget.not());
        if in_budget.is_zero() {
            proof {
                assert forall|k: int| 0 <= k < placement_count implies #[trigger] zero_of(b, ps, k) > cap by {
                    let a = anchor_of(ps, k);
                    lemma_anchor_small_desc(*anchors, ps, k);
                    assert(anchors.anchors().bit(a));
                    assert(!in_budget.bit(a));
                    assert(over_budget.bit(a));
                    lemma_zeros_seen_mono(b, offs, s + 1, offs.len() as int, a);
                }
            }
            return 0;
        }
        s = s + 1;
    }
    let exact_none = anchors.anchor_mask.and(&at_least_one.not());
    let exact_one = anchors.anchor_mask.and(&at_least_one).and(&at_least_two.not());
    let exact_two = anchors.anchor_mask.and(&at_least_two).and(&at_least_three.not());
    proof {
        assert forall|k: int| 0 <= k < placement_count implies #[trigger] exact_none.bit(anchor_of(ps, k)) == (
        zero_of(b, ps, k) == 0) by {
            lemma_anchor_small_desc(*anchors, ps, k);
            let a = anchor_of(ps, k);
            assert(anchor_of(ps, k) == a);
            assert(anchors.anchors().bit(a));
            assert(at_least_one.bit(a) == (zeros_seen(b, offs, offset_count as int, a) >= 1));
            assert(at_least_two.bit(a) == (zeros_seen(b, offs, offset_count as int, a) >= 2));
            assert(at_least_three.bit(a) == (cap == 2 && zeros_seen(b, offs, offset_count as int, a) >= 3));
        }
        assert forall|k: int| 0 <= k < placement_count implies #[trigger] exact_one.bit(anchor_of(ps, k)) == (
        zero_of(b, ps, k) == 1) by {
            lemma_anchor_small_desc(*anchors, ps, k);
            let a = anchor_of(ps, k);
            assert(anchor_of(ps, k) == a);
            assert(anchors.anchors().bit(a));
            assert(at_least_one.bit(a) == (zeros_seen(b, offs, offset_count as int, a) >= 1));
            assert(at_least_two.bit(a) == (zeros_seen(b, offs, offset_count as int, a) >= 2));
            assert(at_least_three.bit(a) == (cap == 2 && zeros_seen(b, offs, offset_count as int, a) >= 3));
        }
        assert forall|k: int| cap == 2 && 0 <= k < placement_count implies #[trigger] exact_two.bit(anchor_of(ps, k)) == (
        zero_of(b, ps, k) == 2) by {
            lemma_anchor_small_desc(*anchors, ps, k);
            let a = anchor_of(ps, k);
            assert(anchor_of(ps, k) == a);
            assert(anchors.anchors().bit(a));
            assert(at_least_one.bit(a) == (zeros_seen(b, offs, offset_count as int, a) >= 1));
            assert(at_least_two.bit(a) == (zeros_seen(b, offs, offset_count as int, a) >= 2));
            assert(at_least_three.bit(a) == (cap == 2 && zeros_seen(b, offs, offset_count as int, a) >= 3));
        }
    }
    let mut deficit_keys = [0u8; MAX_PLACEMENTS];
    let mut offsets = [0u8; OFFSET_SLOTS];
    let mut bucket: usize = 0;
    proof {
        lemma_count_where_ext(zero_below(b, ps, 0), |k: int| false, placement_count as int);
        lemma_count_false(placement_count as int);
    }
    while bucket <= cap
        invariant
            b == *board,
            b.wf(),
            modulus == b.modulus(),
            ps == placements@,
            anchors.describes(ps),
            placement_count == ps.len() <= MAX_PLACEMENTS,
            1 <= cap <= 2,
            0 <= bucket <= cap + 1,
            forall|k: int|
                0 <= k < placement_count ==> #[trigger] exact_none.bit(anchor_of(ps, k)) == (zero_of(b, ps, k) == 0),
            forall|k: int|
                0 <= k < placement_count ==> #[trigger] exact_one.bit(anchor_of(ps, k)) == (zero_of(b, ps, k) == 1),
            cap == 2 ==> forall|k: int|
                0 <= k < placement_count ==> #[trigger] exact_two.bit(anchor_of(ps, k)) == (zero_of(b, ps, k) == 2),
            forall|i: int| 0 <= i < 256 && #[trigger] exact_none.bit(i) ==> anchors.anchors().bit(i),
            forall|i: int| 0 <= i < 256 && #[trigger] exact_one.bit(i) ==> anchors.anchors().bit(i),
            forall|i: int| 0 <= i < 256 && #[trigger] exact_two.bit(i) ==> anchors.anchors().bit(i),
            forall|z: int| 0 <= z <= bucket ==> #[trigger] offsets[z] == count_where(zero_below(b, ps, z), placement_count as int),
            forall|z: int, a: int|
                #![trigger offsets[z], ranked_indices[a]]
                0 <= z < bucket && offsets[z] <= a < offsets[z + 1] ==> ranked_indices[a] < placement_count
                    && zero_of(b, ps, ranked_indices[a] as int) == z,
            forall|z: int, a: int, c: int|
                #![trigger offsets[z], ranked_indices[a], ranked_indices[c]]
                0 <= z < bucket && offsets[z] <= a < c < offsets[z + 1] ==> ranked_indices[a] < ranked_indices[c],
            forall|k: int|
                0 <= k < placement_count && zero_of(b, ps, k) < bucket ==> exists|a: int|
                    offsets[zero_of(b, ps, k) as int] <= a < offsets[zero_of(b, ps, k) as int + 1]
                        && #[trigger] names(*ranked_indices, a, k),
            forall|k: int|
                0 <= k < placement_count && zero_of(b, ps, k) < bucket ==> #[trigger] deficit_keys[k] == deficit_key(b, ps[k].2),
        decreases cap + 1 - bucket,
    {
        let exact = if bucket == 0 {
            exact_none
        } else if bucket == 1 {
            exact_one
        } else {
            exact_two
        };
        let start = offsets[bucket] as usize;
        let ghost pre = *ranked_indices;
        let ghost pre_keys = deficit_keys;
        let ghost pre_offsets = offsets;
        proof {
            lemma_zero_below_step(b, ps, bucket as int, placement_count as int);
            lemma_count_where_bound(zero_below(b, ps, bucket + 1), placement_count as int);
        }
        let end = collect_bucket(
            board,
            modulus,
            placements,
            anchors,
            exact,
            ranked_indices,
            &mut deficit_keys,
            start,
            Ghost(bucket as int),
        );
        offsets[bucket + 1] = end as u8;
        proof {
            let bk = bucket as int;
            assert forall|y: int| 0 <= y < bk implies #[trigger] offsets[y + 1] <= start by {
                lemma_count_where_implies_below(b, ps, y + 1, bk, placement_count as int);
            }
            assert forall|z: int, a: int|
                #![trigger offsets[z], ranked_indices[a]]
                0 <= z < bucket + 1 && offsets[z] <= a < offsets[z + 1] implies ranked_indices[a] < placement_count
                    && zero_of(b, ps, ranked_indices[a] as int) == z by {
                if z < bk {
                    assert(offsets[z + 1] <= start);
                    assert(ranked_indices[a] == pre[a]);
                    assert(pre_offsets[z] == offsets[z]);
                }
            }
            assert forall|z: int, a: int, c: int|
                #![trigger offsets[z], ranked_indices[a], ranked_indices[c]]
                0 <= z < bucket + 1 && offsets[z] <= a < c < offsets[z + 1] implies ranked_indices[a] < ranked_indices[c] by {
                if z < bk {
                    assert(offsets[z + 1] <= start);
                    assert(ranked_indices[a] == pre[a]);
                    assert(ranked_indices[c] == pre[c]);
                    assert(pre_offsets[z] == offsets[z]);
                }
            }
            assert forall|k: int|
                0 <= k < placement_count && zero_of(b, ps, k) < bucket + 1 implies exists|a: int|
                    offsets[zero_of(b, ps, k) as int] <= a < offsets[zero_of(b, ps, k) as int + 1]
                        && #[trigger] names(*ranked_indices, a, k) by {
                let z = zero_of(b, ps, k) as int;
                if z < bk {
                    let a = choose|a: int| pre_offsets[z] <= a < pre_offsets[z + 1] && #[trigger] names(pre, a, k);
                    assert(offsets[z + 1] <= start);
                    assert(names(*ranked_indices, a, k));
                }
            }
            assert forall|k: int|
                0 <= k < placement_count && zero_of(b, ps, k) < bucket + 1 implies #[trigger] deficit_keys[k] == deficit_key(b, ps[k].2) by {
                if zero_of(b, ps, k) < bk {
                    assert(deficit_keys[k] == pre_keys[k]);
                }
            }
        }
        bucket = bucket + 1;
    }
    let ranked_count = offsets[cap + 1] as usize;
    proof {
        lemma_offsets_mono(offsets, b, ps, placement_count as int, cap as int);
        lemma_count_where_bound(zero_below(b, ps, cap + 1), placement_count as int);
        assert(offsets[0] == 0);
    }
    let mut bucket: usize = 0;
    while bucket <= cap
        invariant
            b == *board,
            ps == placements@,
            placement_count == ps.len() <= MAX_PLACEMENTS,
            cap == rank_cap(max_zero_cells),
            cap <= MAX_PIECE_CELLS,
            0 <= bucket <= cap + 1,
            ranked_count == offsets[cap + 1],
            ranked_count <= placement_count,
            offsets[0] == 0,
            forall|z: int| 0 <= z <= cap + 1 ==> #[trigger] offsets[z] == count_where(zero_below(b, ps, z), placement_count as int),
            forall|y: int, x: int| 0 <= y <= x <= cap + 1 ==> #[trigger] offsets[y] <= #[trigger] offsets[x],
            forall|k: int|
                0 <= k < placement_count && zero_of(b, ps, k) <= cap ==> #[trigger] deficit_keys[k]
                    == deficit_key(b, ps[k].2),
            forall|z: int, a: int|
                #![trigger offsets[z], ranked_indices[a]]
                0 <= z <= cap && offsets[z] <= a < offsets[z + 1] ==> ranked_indices[a] < placement_count
                    && zero_of(b, ps, ranked_indices[a] as int) == z,
            forall|k: int|
                0 <= k < placement_count && zero_of(b, ps, k) <= cap ==> exists|a: int|
                    offsets[zero_of(b, ps, k) as int] <= a < offsets[zero_of(b, ps, k) as int + 1]
                        && #[trigger] names(*ranked_indices, a, k),
            forall|z: int, a: int, c: int|
                #![trigger offsets[z], ranked_indices[a], ranked_indices[c]]
                bucket <= z <= cap && offsets[z] <= a < c < offsets[z + 1] ==> ranked_indices[a]
                    < ranked_indices[c],
            forall|z: int|
                0 <= z < bucket ==> sorted_by_key(*ranked_indices, deficit_keys, #[trigger] offsets[z] as int, offsets[z + 1] as int),
        decreases cap + 1 - bucket,
    {
        let ghost pre = *ranked_indices;
        let start = offsets[bucket] as usize;
        let end = offsets[bucket + 1] as usize;
        proof {
            assert(offsets[bucket + 1] <= offsets[cap + 1]);
            assert forall|a: int| start <= a < end implies (#[trigger] pre[a]) < MAX_PLACEMENTS by {
                assert(offsets[bucket as int] <= a < offsets[bucket + 1]);
            }
            assert forall|a: int, c: int| start <= a < c < end implies #[trigger] pre[a] < #[trigger] pre[c] by {
                assert(offsets[bucket as int] <= a < c < offsets[bucket + 1]);
            }
        }
        sort_anchor_bucket(ranked_indices, &deficit_keys, start, end);
        proof {
            let bk = bucket as int;
            let perm = choose|perm: Seq<int>| #[trigger] drawn_via(*ranked_indices, pre, perm, start as int, end as int);
            let inv = choose|inv: Seq<int>| #[trigger] kept_via(*ranked_indices, pre, inv, start as int, end as int);
            assert forall|z: int, a: int|
                #![trigger offsets[z], ranked_indices[a]]
                0 <= z <= cap && offsets[z] <= a < offsets[z + 1] implies ranked_indices[a] < placement_count
                    && zero_of(b, ps, ranked_indices[a] as int) == z by {
                assert(offsets[z + 1] <= offsets[cap + 1]);
                if start <= a < end {
                    assert(z == bk) by {
                        lemma_bucket_disjoint(offsets, cap as int, z, bk, a, a);
                    }
                    let c = perm[a];
                    assert(ranked_indices[a] == pre[c]);
                    assert(offsets[bk] <= c < offsets[bk + 1]);
                } else {
                    assert(ranked_indices[a] == pre[a]);
                }
            }
            assert forall|k: int|
                0 <= k < placement_count && zero_of(b, ps, k) <= cap implies exists|a: int|
                    offsets[zero_of(b, ps, k) as int] <= a < offsets[zero_of(b, ps, k) as int + 1]
                        && #[trigger] names(*ranked_indices, a, k) by {
                let z = zero_of(b, ps, k) as int;
                let a0 = choose|a: int| offsets[z] <= a < offsets[z + 1] && #[trigger] names(pre, a, k);
                assert(offsets[z + 1] <= offsets[cap + 1]);
                if z == bk {
                    let a1 = inv[a0];
                    assert(names(*ranked_indices, a1, k));
                } else {
                    assert(!(start <= a0 < end)) by {
                        if start <= a0 < end {
                            lemma_bucket_disjoint(offsets, cap as int, z, bk, a0, a0);
                        }
                    }
                    assert(names(*ranked_indices, a0, k));
                }
            }
            assert forall|z: int, a: int, c: int|
                #![trigger offsets[z], ranked_indices[a], ranked_indices[c]]
                bucket + 1 <= z <= cap && offsets[z] <= a < c < offsets[z + 1] implies ranked_indices[a]
                    < ranked_indices[c] by {
                assert(offsets[bk + 1] <= offsets[z]);
                assert(offsets[z + 1] <= offsets[cap + 1]);
                assert(ranked_indices[a] == pre[a]);
                assert(ranked_indices[c] == pre[c]);
            }
            assert forall|z: int|
                0 <= z < bucket + 1 implies sorted_by_key(*ranked_indices, deficit_keys, #[trigger] offsets[z] as int, offsets[z + 1] as int) by {
                if z < bk {
                    assert(offsets[z + 1] <= offsets[bk]);
                    assert forall|a: int, c: int| offsets[z] <= a < c < offsets[z + 1] implies {
                        let x = #[trigger] ranked_indices[a];
                        let y = #[trigger] ranked_indices[c];
                        deficit_keys[x as int] < deficit_keys[y as int] || (deficit_keys[x as int]
                            == deficit_keys[y as int] && x < y)
                    } by {
                        assert(ranked_indices[a] == pre[a]);
                        assert(ranked_indices[c] == pre[c]);
                        assert(sorted_by_key(pre, deficit_keys, offsets[z] as int, offsets[z + 1] as int));
                    }
                }
            }
        }
        bucket = bucket + 1;
    }
    proof {
        assert forall|a: int| 0 <= a < ranked_count implies (#[trigger] ranked_indices[a]) < placements@.len()
            && zero_of(*board, placements@, ranked_indices[a] as int) <= rank_cap(max_zero_cells) by {
            let z = lemma_find_bucket(offsets, cap as int, a);
        }
        assert forall|k: int|
            0 <= k < placements@.len() && zero_of(*board, placements@, k) <= rank_cap(max_zero_cells)
                implies exists|a: int| 0 <= a < ranked_count && #[trigger] names(*ranked_indices, a, k) by {
            let z = zero_of(b, ps, k) as int;
            let a0 = choose|a: int| offsets[z] <= a < offsets[z + 1] && #[trigger] names(*ranked_indices, a, k);
            assert(offsets[z + 1] <= offsets[cap + 1]);
        }
        assert forall|a: int, c: int| 0 <= a < c < ranked_count implies ranks_before(
            *board,
            placements@,
            #[trigger] ranked_indices[a] as int,
            #[trigger] ranked_indices[c] as int,
        ) by {
            let za = lemma_find_bucket(offsets, cap as int, a);
            let zc = lemma_find_bucket(offsets, cap as int, c);
            if za > zc {
                assert(offsets[zc + 1] <= offsets[za]);
            } else if za == zc {
                assert(sorted_by_key(*ranked_indices, deficit_keys, offsets[za] as int, offsets[za + 1] as int));
            }
        }
    }
    ranked_count
}

/// Fewer-zero counts grow with the bound.
proof fn lemma_count_where_implies_below(b: Board, ps: Seq<(usize, usize, Bitboard)>, y: int, z: int, n: int)
    requires
        y <= z,
    ensures
        count_where(zero_below(b, ps, y), n) <= count_where(zero_below(b, ps, z), n),
{
    crate::solver::backtrack::lemma_count_where_implies(zero_below(b, ps, y), zero_below(b, ps, z), n);
}


/// The placements of a piece on a board of at most 14 by 14 cells, as
/// `Piece::placements` lists them, are translates of its shape.
pub proof fn lemma_piece_translates(p: Piece, ps: Seq<(usize, usize, Bitboard)>, height: int, width: int)
    requires
        p.wf(),
        p.rows() <= height <= 14,
        p.cols() <= width <= 14,
        ps.len() == (height - p.rows() + 1) * (width - p.cols() + 1),
        forall|k: int|
            0 <= k < ps.len() ==> {
                let (row, col, mask) = #[trigger] ps[k];
                &&& row <= height - p.rows()
                &&& col <= width - p.cols()
                &&& row * (width - p.cols() + 1) + col == k
                &&& shifted(mask, p.cells(), 15 * row + col)
            },
    ensures
        translates(ps, width - p.cols() + 1, p.cells()),
{
    p.lemma_wf();
    let ncol = width - p.cols() + 1;
    let rows = height - p.rows() + 1;
    assert(ps.len() <= MAX_PLACEMENTS) by (nonlinear_arith)
        requires
            ps.len() == rows * ncol,
            1 <= rows <= 14,
            1 <= ncol <= 14,
    ;
    assert forall|k: int, i: int|
        #![trigger ps[k], p.cells().bit(i)]
        0 <= k < ps.len() && 0 <= i < 256 && p.cells().bit(i) implies anchor_of(ps, k) + i < 256 by {
        assert(in_box(p.rows(), p.cols(), i));
        assert(i == 15 * (i / 15) + i % 15);
        assert(ps[k].0 <= height - p.rows());
        assert(ps[k].1 <= width - p.cols());
    }
}


/// `x[..c]` ranks the placements of `ps` within a budget of `cap` zero
/// cells: each entry is a placement within the budget, each placement within
/// it is named, and the entries increase in the ranking order.
pub open spec fn is_ranking(b: Board, ps: Seq<(usize, usize, Bitboard)>, cap: int, x: [u8; MAX_PLACEMENTS], c: int) -> bool {
    &&& 0 <= c <= ps.len()
    &&& forall|a: int| 0 <= a < c ==> (#[trigger] x[a]) < ps.len() && zero_of(b, ps, x[a] as int) <= cap
    &&& forall|k: int| 0 <= k < ps.len() && zero_of(b, ps, k) <= cap ==> exists|a: int| 0 <= a < c && #[trigger] names(x, a, k)
    &&& forall|a: int, e: int| 0 <= a < e < c ==> ranks_before(b, ps, #[trigger] x[a] as int, #[trigger] x[e] as int)
}

/// An entry of a ranking sits at one position only.
proof fn lemma_ranking_distinct(b: Board, ps: Seq<(usize, usize, Bitboard)>, cap: int, x: [u8; MAX_PLACEMENTS], c: int, p: int, q: int)
    requires
        is_ranking(b, ps, cap, x, c),
        0 <= p < q < c,
    ensures
        x[p] != x[q],
{
    assert(ranks_before(b, ps, x[p] as int, x[q] as int));
}

/// Two rankings agree on the first `a` entries, so they agree on entry `a`.
proof fn lemma_ranking_step(
    b: Board,
    ps: Seq<(usize, usize, Bitboard)>,
    cap: int,
    x: [u8; MAX_PLACEMENTS],
    cx: int,
    y: [u8; MAX_PLACEMENTS],
    cy: int,
    a: int,
)
    requires
        is_ranking(b, ps, cap, x, cx),
        is_ranking(b, ps, cap, y, cy),
        0 <= a < cx,
        a < cy,
        forall|p: int| 0 <= p < a ==> #[trigger] x[p] == y[p],
    ensures
        x[a] == y[a],
{
    let u = x[a] as int;
    let v = y[a] as int;
    if u != v {
        assert(x[a] < ps.len() && zero_of(b, ps, u) <= cap);
        assert(y[a] < ps.len() && zero_of(b, ps, v) <= cap);
        let p = choose|p: int| 0 <= p < cy && #[trigger] names(y, p, u);
        let q = choose|q: int| 0 <= q < cx && #[trigger] names(x, q, v);
        if p < a {
            assert(x[p] == y[p]);
            lemma_ranking_distinct(b, ps, cap, x, cx, p, a);
        }
        if q < a {
            assert(x[q] == y[q]);
            lemma_ranking_distinct(b, ps, cap, y, cy, q, a);
        }
        assert(a < p && a < q);
        assert(ranks_before(b, ps, y[a] as int, y[p] as int));
        assert(ranks_before(b, ps, x[a] as int, x[q] as int));
    }
}

/// Two rankings agree on their first `a` entries, for `a` up to the shorter.
proof fn lemma_ranking_prefix(
    b: Board,
    ps: Seq<(usize, usize, Bitboard)>,
    cap: int,
    x: [u8; MAX_PLACEMENTS],
    cx: int,
    y: [u8; MAX_PLACEMENTS],
    cy: int,
    a: int,
)
    requires
        is_ranking(b, ps, cap, x, cx),
        is_ranking(b, ps, cap, y, cy),
        0 <= a <= cx,
        a <= cy,
    ensures
        forall|p: int| 0 <= p < a ==> #[trigger] x[p] == y[p],
    decreases a,
{
    if a > 0 {
        lemma_ranking_prefix(b, ps, cap, x, cx, y, cy, a - 1);
        lemma_ranking_step(b, ps, cap, x, cx, y, cy, a - 1);
    }
}

/// A ranking is fixed by what it must be: two arrays that both rank the same
/// placements within the same budget have the same length and entries. So
/// `rank_low_zero_hit_placements` and `rank_placements`, whose results both
/// are such rankings, agree for budgets up to two.
pub proof fn lemma_rankings_agree(
    b: Board,
    ps: Seq<(usize, usize, Bitboard)>,
    cap: int,
    x: [u8; MAX_PLACEMENTS],
    cx: int,
    y: [u8; MAX_PLACEMENTS],
    cy: int,
)
    requires
        is_ranking(b, ps, cap, x, cx),
        is_ranking(b, ps, cap, y, cy),
    ensures
        cx == cy,
        forall|a: int| 0 <= a < cx ==> #[trigger] x[a] == y[a],
{
    let m = if cx < cy {
        cx
    } else {
        cy
    };
    lemma_ranking_prefix(b, ps, cap, x, cx, y, cy, m);
    if cx < cy {
        let k = y[cx] as int;
        assert(y[cx] < ps.len() && zero_of(b, ps, k) <= cap);
        let q = choose|q: int| 0 <= q < cx && #[trigger] names(x, q, k);
        assert(x[q] == y[q]);
        lemma_ranking_distinct(b, ps, cap, y, cy, q, cx);
    }
    if cy < cx {
        let k = x[cy] as int;
        assert(x[cy] < ps.len() && zero_of(b, ps, k) <= cap);
        let q = choose|q: int| 0 <= q < cy && #[trigger] names(y, q, k);
        assert(x[q] == y[q]);
        lemma_ranking_distinct(b, ps, cap, x, cx, q, cy);
    }
}

} // verus!
