//! Per-cell modular interval pruning.
//!
//! For every solver depth and board cell, the fewest and the most times the
//! remaining pieces can cover that cell are fixed in advance: the pieces all
//! of whose placements cover it, and those with some placement covering it.
//! A cell whose value is `d` needs `d + k * M` further hits for some `k`; if
//! no such count lies in the interval, the branch cannot be completed.

use vstd::prelude::*;
use crate::model::bitboard::Bitboard;
use crate::model::board::{Board, MAX_M};
use crate::solver::finish::{chosen_hits, finishes, lemma_cell_takes_turns};

verus! {

/// Cells tracked, a 15 by 15 grid.
pub const NUM_BITS: usize = 225;

/// Some placement in `ps` covers cell `i`.
pub open spec fn any_covers(ps: Seq<(usize, usize, Bitboard)>, i: int) -> bool {
    exists|k: int| 0 <= k < ps.len() && #[trigger] ps[k].2.bit(i)
}

/// There are placements in `ps`, every one covers cell `i`, and `i` is a
/// valid cell.
pub open spec fn all_cover(ps: Seq<(usize, usize, Bitboard)>, valid: Bitboard, i: int) -> bool {
    &&& ps.len() > 0
    &&& valid.bit(i)
    &&& forall|k: int| 0 <= k < ps.len() ==> #[trigger] ps[k].2.bit(i)
}

/// Among pieces `d..`, how many must cover cell `i` (`mandatory`) or can
/// cover it (otherwise); counted only on valid cells.
pub open spec fn suffix_hits(pm: Seq<Seq<(usize, usize, Bitboard)>>, valid: Bitboard, d: int, i: int, mandatory: bool) -> int
    decreases pm.len() - d,
{
    if d < 0 || d >= pm.len() {
        0
    } else {
        suffix_hits(pm, valid, d + 1, i, mandatory) + if valid.bit(i) && (if mandatory {
            all_cover(pm[d], valid, i)
        } else {
            any_covers(pm[d], i)
        }) {
            1int
        } else {
            0int
        }
    }
}

/// No count of hits from `lo` to `hi` is congruent to `value` mod `m`.
pub open spec fn interval_misses(lo: int, hi: int, value: int, m: int) -> bool {
    !exists|k: int| lo <= k <= hi && #[trigger] (k % m) == value
}

/// The least count from `lo` on that is congruent to `value` mod `m` is
/// `lo + (value + m - lo % m) % m`; so the interval misses `value` exactly
/// when that count lies beyond `hi`.
proof fn lemma_first_congruent(lo: int, hi: int, value: int, m: int)
    requires
        0 <= lo,
        2 <= m,
        0 <= value < m,
    ensures
        interval_misses(lo, hi, value, m) == (lo + (value + m - lo % m) % m > hi),
{
    let r = lo % m;
    let off = (value + m - r) % m;
    let f = lo + off;
    vstd::arithmetic::div_mod::lemma_fundamental_div_mod(lo, m);
    vstd::arithmetic::div_mod::lemma_mod_bound(lo, m);
    vstd::arithmetic::div_mod::lemma_fundamental_div_mod(value + m - r, m);
    vstd::arithmetic::div_mod::lemma_mod_bound(value + m - r, m);
    let q = lo / m;
    let s = (value + m - r) / m;
    // f = m * (q + s) + value - m * ... : f ≡ value.
    assert(f == m * (q - s + 1) + value) by (nonlinear_arith)
        requires
            lo == m * q + r,
            value + m - r == m * s + off,
            f == lo + off,
    ;
    vstd::arithmetic::div_mod::lemma_mod_multiples_vanish(q - s + 1, value, m);
    vstd::arithmetic::div_mod::lemma_small_mod(value as nat, m as nat);
    assert(f % m == value);
    if f <= hi {
        assert(lo <= f <= hi && f % m == value);
    } else {
        assert forall|k: int| lo <= k <= hi implies #[trigger] (k % m) != value by {
            if k % m == value {
                vstd::arithmetic::div_mod::lemma_fundamental_div_mod(k, m);
                let p = k / m;
                // k and f differ by a multiple of m, and 0 <= f - lo < m.
                assert(k - f == m * (p - (q - s + 1))) by (nonlinear_arith)
                    requires
                        k == m * p + value,
                        f == m * (q - s + 1) + value,
                ;
                assert(false) by (nonlinear_arith)
                    requires
                        k - f == m * (p - (q - s + 1)),
                        lo <= k,
                        k < f,
                        f - lo < m,
                        2 <= m,
                ;
            }
        }
    }
}

/// A cell with value `value` at depth `d` cannot be completed.
pub open spec fn cell_infeasible(
    pm: Seq<Seq<(usize, usize, Bitboard)>>,
    valid: Bitboard,
    m: int,
    d: int,
    value: int,
    i: int,
) -> bool {
    &&& valid.bit(i)
    &&& 0 <= value < m
    &&& interval_misses(suffix_hits(pm, valid, d, i, true), suffix_hits(pm, valid, d, i, false), value, m)
}

/// Cells whose value at depth `d` cannot be completed, by value: a set bit
/// in `masks()[d][v]` marks a cell holding `v` with no congruent hit count
/// left in its interval.
pub struct CellIntervalPrune {
    infeasible: Vec<Vec<Bitboard>>,
}

/// Count of hits among pieces `d..` is at most the number of those pieces.
proof fn lemma_suffix_bound(pm: Seq<Seq<(usize, usize, Bitboard)>>, valid: Bitboard, d: int, i: int, mandatory: bool)
    requires
        0 <= d <= pm.len(),
    ensures
        0 <= suffix_hits(pm, valid, d, i, mandatory) <= pm.len() - d,
    decreases pm.len() - d,
{
    if d < pm.len() {
        lemma_suffix_bound(pm, valid, d + 1, i, mandatory);
    }
}

/// Of one piece's placements: the cells some placement covers, and the valid
/// cells every placement covers (none when it has no placement).
fn cover_masks(placements: &Vec<(usize, usize, Bitboard)>, valid_mask: Bitboard) -> (r: (Bitboard, Bitboard))
    ensures
        forall|i: int| 0 <= i < 256 ==> #[trigger] r.0.bit(i) == any_covers(placements@, i),
        forall|i: int| 0 <= i < 256 ==> #[trigger] r.1.bit(i) == all_cover(placements@, valid_mask, i),
{
    let mut any = Bitboard::zero();
    let mut every = if placements.len() == 0 {
        Bitboard::zero()
    } else {
        valid_mask
    };
    let mut k: usize = 0;
    while k < placements.len()
        invariant
            k <= placements@.len(),
            forall|i: int|
                0 <= i < 256 ==> #[trigger] any.bit(i) == exists|j: int| 0 <= j < k && #[trigger] placements@[j].2.bit(i),
            forall|i: int|
                0 <= i < 256 ==> #[trigger] every.bit(i) == (placements@.len() > 0 && valid_mask.bit(i) && forall|j: int|
                    0 <= j < k ==> #[trigger] placements@[j].2.bit(i)),
        decreases placements@.len() - k,
    {
        let mask = placements[k].2;
        any = any.or(&mask);
        every = every.and(&mask);
        proof {
            assert forall|i: int| 0 <= i < 256 implies #[trigger] any.bit(i) == exists|j: int|
                0 <= j < k + 1 && #[trigger] placements@[j].2.bit(i) by {
                if mask.bit(i) {
                    assert(placements@[k as int].2.bit(i));
                }
            }
            assert forall|i: int| 0 <= i < 256 implies #[trigger] every.bit(i) == (placements@.len() > 0
                && valid_mask.bit(i) && forall|j: int| 0 <= j < k + 1 ==> #[trigger] placements@[j].2.bit(i)) by {
                if !mask.bit(i) {
                    assert(!placements@[k as int].2.bit(i));
                }
            }
        }
        k = k + 1;
    }
    (any, every)
}

/// A row of `NUM_BITS` zero counts.
fn zero_counts() -> (r: Vec<u8>)
    ensures
        r@.len() == NUM_BITS,
        forall|i: int| 0 <= i < NUM_BITS ==> #[trigger] r@[i] == 0,
{
    let mut zeros: Vec<u8> = Vec::new();
    while zeros.len() < NUM_BITS
        invariant
            zeros@.len() <= NUM_BITS,
            forall|i: int| 0 <= i < zeros@.len() ==> #[trigger] zeros@[i] == 0,
        decreases NUM_BITS - zeros@.len(),
    {
        zeros.push(0);
    }
    zeros
}

/// Add one to the count of every valid cell that `add` holds.
fn add_hits(counts: &mut Vec<u8>, add: Bitboard, valid_mask: Bitboard)
    requires
        old(counts)@.len() == NUM_BITS,
        forall|i: int| 0 <= i < NUM_BITS ==> #[trigger] old(counts)@[i] < 255,
    ensures
        final(counts)@.len() == NUM_BITS,
        forall|i: int|
            0 <= i < NUM_BITS ==> #[trigger] final(counts)@[i] == old(counts)@[i] + if valid_mask.bit(i) && add.bit(i) {
                1int
            } else {
                0int
            },
{
    let mut i: usize = 0;
    while i < NUM_BITS
        invariant
            i <= NUM_BITS,
            counts@.len() == NUM_BITS,
            forall|j: int| 0 <= j < NUM_BITS ==> #[trigger] old(counts)@[j] < 255,
            forall|j: int|
                0 <= j < i ==> #[trigger] counts@[j] == old(counts)@[j] + if valid_mask.bit(j) && add.bit(j) {
                    1int
                } else {
                    0int
                },
            forall|j: int| i <= j < NUM_BITS ==> #[trigger] counts@[j] == old(counts)@[j],
        decreases NUM_BITS - i,
    {
        if valid_mask.get_bit(i as u32) && add.get_bit(i as u32) {
            let c = counts[i];
            counts.set(i, c + 1);
        }
        i = i + 1;
    }
}

/// The masks of one depth: entry `v` holds the valid cells whose value `v`
/// (below `m`) has no congruent count between `min_hits` and `max_hits`.
fn depth_masks(min_hits: &Vec<u8>, max_hits: &Vec<u8>, m: u8, valid_mask: Bitboard) -> (r: Vec<Bitboard>)
    requires
        2 <= m <= 5,
        min_hits@.len() == NUM_BITS,
        max_hits@.len() == NUM_BITS,
        forall|i: int| 0 <= i < NUM_BITS ==> #[trigger] min_hits@[i] <= 251,
        forall|i: int| 0 <= i < 256 && #[trigger] valid_mask.bit(i) ==> i < NUM_BITS,
    ensures
        r@.len() == MAX_M,
        forall|v: int, i: int|
            0 <= v < MAX_M && 0 <= i < 256 ==> #[trigger] r@[v].bit(i) == (valid_mask.bit(i) && v < m
                && interval_misses(min_hits@[i] as int, max_hits@[i] as int, v, m as int)),
{
    let mut masks: Vec<Bitboard> = Vec::new();
    let mut value: u8 = 0;
    while value < 5
        invariant
            2 <= m <= 5,
            value <= 5,
            masks@.len() == value,
            min_hits@.len() == NUM_BITS,
            max_hits@.len() == NUM_BITS,
            forall|i: int| 0 <= i < NUM_BITS ==> #[trigger] min_hits@[i] <= 251,
            forall|i: int| 0 <= i < 256 && #[trigger] valid_mask.bit(i) ==> i < NUM_BITS,
            forall|v: int, i: int|
                0 <= v < value && 0 <= i < 256 ==> #[trigger] masks@[v].bit(i) == (valid_mask.bit(i) && v < m
                    && interval_misses(min_hits@[i] as int, max_hits@[i] as int, v, m as int)),
        decreases 5 - value,
    {
        let mut mask = Bitboard::zero();
        if value < m {
            let mut i: usize = 0;
            while i < NUM_BITS
                invariant
                    2 <= m <= 5,
                    value < m,
                    i <= NUM_BITS,
                    min_hits@.len() == NUM_BITS,
                    max_hits@.len() == NUM_BITS,
                    forall|j: int| 0 <= j < NUM_BITS ==> #[trigger] min_hits@[j] <= 251,
                    forall|j: int|
                        0 <= j < 256 ==> #[trigger] mask.bit(j) == (j < i && valid_mask.bit(j) && interval_misses(
                            min_hits@[j] as int,
                            max_hits@[j] as int,
                            value as int,
                            m as int,
                        )),
                decreases NUM_BITS - i,
            {
                if valid_mask.get_bit(i as u32) {
                    let lo = min_hits[i];
                    let hi = max_hits[i];
                    proof {
                        lemma_first_congruent(lo as int, hi as int, value as int, m as int);
                    }
                    let offset = (value + m - lo % m) % m;
                    if lo + offset > hi {
                        mask.set_bit(i as u32);
                    }
                }
                i = i + 1;
            }
        }
        masks.push(mask);
        value = value + 1;
    }
    masks
}

impl CellIntervalPrune {
    /// The infeasible-cell masks, by depth and value.
    pub closed spec fn masks(self) -> Seq<Seq<Bitboard>> {
        self.infeasible@.map_values(|v: Vec<Bitboard>| v@)
    }

    /// Every depth has one mask per value below `MAX_M`.
    pub open spec fn wf(self) -> bool {
        forall|d: int| 0 <= d < self.masks().len() ==> (#[trigger] self.masks()[d]).len() == MAX_M
    }

    /// The masks were built for the placements `pm`, modulus `m` and the
    /// valid cells `valid`.
    pub open spec fn built_for(self, pm: Seq<Seq<(usize, usize, Bitboard)>>, m: int, valid: Bitboard) -> bool {
        &&& self.wf()
        &&& self.masks().len() == pm.len() + 1
        &&& forall|d: int, value: int, i: int|
            0 <= d <= pm.len() && 0 <= value < MAX_M && 0 <= i < 256 ==> #[trigger] self.masks()[d][value].bit(i)
                == cell_infeasible(pm, valid, m, d, value, i)
    }

    /// Build the masks for the pieces' placements, modulus `m` and the
    /// board's valid cells.
    pub fn precompute(all_placements: &[Vec<(usize, usize, Bitboard)>], m: u8, valid_mask: Bitboard) -> (r: Self)
        requires
            2 <= m <= 5,
            all_placements@.len() <= 251,
            forall|i: int| 0 <= i < 256 && #[trigger] valid_mask.bit(i) ==> i < NUM_BITS,
        ensures
            r.built_for(all_placements@.map_values(|v: Vec<(usize, usize, Bitboard)>| v@), m as int, valid_mask),
    {
        let ghost pm = all_placements@.map_values(|v: Vec<(usize, usize, Bitboard)>| v@);
        let n = all_placements.len();
        let mut possible: Vec<Bitboard> = Vec::new();
        let mut mandatory: Vec<Bitboard> = Vec::new();
        let mut q: usize = 0;
        while q < n
            invariant
                n == all_placements@.len(),
                pm == all_placements@.map_values(|v: Vec<(usize, usize, Bitboard)>| v@),
                q <= n,
                possible@.len() == q,
                mandatory@.len() == q,
                forall|x: int, i: int| 0 <= x < q && 0 <= i < 256 ==> #[trigger] possible@[x].bit(i) == any_covers(pm[x], i),
                forall|x: int, i: int|
                    0 <= x < q && 0 <= i < 256 ==> #[trigger] mandatory@[x].bit(i) == all_cover(pm[x], valid_mask, i),
            decreases n - q,
        {
            let (any, every) = cover_masks(&all_placements[q], valid_mask);
            possible.push(any);
            mandatory.push(every);
            q = q + 1;
        }
        let mut infeasible: Vec<Vec<Bitboard>> = Vec::new();
        while infeasible.len() <= n
            invariant
                infeasible@.len() <= n + 1,
            decreases n + 1 - infeasible@.len(),
        {
            infeasible.push(Vec::new());
        }
        let mut min_hits = zero_counts();
        let mut max_hits = zero_counts();
        let mut d: usize = n + 1;
        while d > 0
            invariant
                n == all_placements@.len(),
                n <= 251,
                2 <= m <= 5,
                pm == all_placements@.map_values(|v: Vec<(usize, usize, Bitboard)>| v@),
                forall|i: int| 0 <= i < 256 && #[trigger] valid_mask.bit(i) ==> i < NUM_BITS,
                possible@.len() == n,
                mandatory@.len() == n,
                forall|x: int, i: int| 0 <= x < n && 0 <= i < 256 ==> #[trigger] possible@[x].bit(i) == any_covers(pm[x], i),
                forall|x: int, i: int|
                    0 <= x < n && 0 <= i < 256 ==> #[trigger] mandatory@[x].bit(i) == all_cover(pm[x], valid_mask, i),
                d <= n + 1,
                infeasible@.len() == n + 1,
                min_hits@.len() == NUM_BITS,
                max_hits@.len() == NUM_BITS,
                forall|i: int| 0 <= i < NUM_BITS ==> #[trigger] min_hits@[i] == suffix_hits(pm, valid_mask, if d > n { n as int } else { d as int }, i, true),
                forall|i: int| 0 <= i < NUM_BITS ==> #[trigger] max_hits@[i] == suffix_hits(pm, valid_mask, if d > n { n as int } else { d as int }, i, false),
                forall|x: int| d <= x <= n ==> (#[trigger] infeasible@[x])@.len() == MAX_M,
                forall|x: int, value: int, i: int|
                    d <= x <= n && 0 <= value < MAX_M && 0 <= i < 256 ==> #[trigger] infeasible@[x]@[value].bit(i)
                        == cell_infeasible(pm, valid_mask, m as int, x, value, i),
            decreases d,
        {
            d = d - 1;
            if d < n {
                proof {
                    assert forall|i: int| 0 <= i < NUM_BITS implies #[trigger] min_hits@[i] < 255 by {
                        lemma_suffix_bound(pm, valid_mask, d + 1, i, true);
                    }
                    assert forall|i: int| 0 <= i < NUM_BITS implies #[trigger] max_hits@[i] < 255 by {
                        lemma_suffix_bound(pm, valid_mask, d + 1, i, false);
                    }
                }
                add_hits(&mut min_hits, mandatory[d], valid_mask);
                add_hits(&mut max_hits, possible[d], valid_mask);
                proof {
                    assert forall|i: int| 0 <= i < NUM_BITS implies #[trigger] min_hits@[i] == suffix_hits(pm, valid_mask, d as int, i, true)
                        && max_hits@[i] == suffix_hits(pm, valid_mask, d as int, i, false) by {
                        assert(mandatory@[d as int].bit(i) == all_cover(pm[d as int], valid_mask, i));
                        assert(possible@[d as int].bit(i) == any_covers(pm[d as int], i));
                    }
                }
            }
            proof {
                assert forall|i: int| 0 <= i < NUM_BITS implies #[trigger] min_hits@[i] <= 251 by {
                    lemma_suffix_bound(pm, valid_mask, d as int, i, true);
                }
            }
            let row = depth_masks(&min_hits, &max_hits, m, valid_mask);
            let ghost before = infeasible@;
            infeasible.set(d, row);
            proof {
                assert forall|value: int, i: int| 0 <= value < MAX_M && 0 <= i < 256 implies #[trigger] infeasible@[d as int]@[value].bit(i)
                    == cell_infeasible(pm, valid_mask, m as int, d as int, value, i) by {
                    if i >= NUM_BITS {
                        assert(!valid_mask.bit(i));
                    } else {
                        assert(min_hits@[i] == suffix_hits(pm, valid_mask, d as int, i, true));
                    }
                }
            }
        }
        let r = CellIntervalPrune { infeasible };
        proof {
            assert forall|x: int| 0 <= x < r.masks().len() implies (#[trigger] r.masks()[x]).len() == MAX_M by {
                assert(r.masks()[x] == infeasible@[x]@);
            }
            assert forall|x: int, value: int, i: int|
                0 <= x <= pm.len() && 0 <= value < MAX_M && 0 <= i < 256 implies #[trigger] r.masks()[x][value].bit(i)
                    == cell_infeasible(pm, valid_mask, m as int, x, value, i) by {
                assert(r.masks()[x] == infeasible@[x]@);
            }
        }
        r
    }

    /// False when some valid cell's value is marked infeasible at `depth`.
    pub fn try_prune<const M: usize>(&self, board: &Board, depth: usize) -> (r: bool)
        requires
            board.wf(),
            M == board.modulus(),
            self.wf(),
            depth < self.masks().len(),
        ensures
            r == forall|i: int| 0 <= i < 256 && board.valid(i) ==> !#[trigger] self.masks()[depth as int][board.cell(i)].bit(i),
    {
        proof {
            board.lemma_wf();
        }
        let masks = &self.infeasible[depth];
        assert(masks@ == self.masks()[depth as int]);
        let mut value: usize = 0;
        while value < M
            invariant
                board.wf(),
                M == board.modulus(),
                2 <= M <= MAX_M,
                value <= M,
                masks@ == self.masks()[depth as int],
                masks@.len() == MAX_M,
                forall|i: int| #[trigger] board.valid(i) ==> 0 <= board.cell(i) < board.modulus(),
                forall|i: int|
                    0 <= i < 256 && board.valid(i) && board.cell(i) < value ==> !#[trigger] self.masks()[depth as int][board.cell(i)].bit(i),
            decreases M - value,
        {
            let hits = board.plane(value as u8).and(&masks[value]);
            if !hits.is_zero() {
                proof {
                    let i = choose|i: int| 0 <= i < 256 && #[trigger] hits.bit(i);
                    assert(board.valid(i) && board.cell(i) == value);
                }
                return false;
            }
            proof {
                assert forall|i: int|
                    0 <= i < 256 && board.valid(i) && board.cell(i) < value + 1 implies !#[trigger] self.masks()[depth as int][board.cell(i)].bit(i) by {
                    if board.cell(i) == value {
                        assert(!hits.bit(i));
                    }
                }
            }
            value = value + 1;
        }
        true
    }

    /// The cells the next piece must cover (`.0`) and must avoid (`.1`) for
    /// the child state to pass the test at `next_depth`: a cell whose value
    /// is infeasible there must change, and one whose value after a hit
    /// would be infeasible must not be hit.
    pub fn placement_constraints<const M: usize>(&self, board: &Board, next_depth: usize) -> (r: (Bitboard, Bitboard))
        requires
            board.wf(),
            M == board.modulus(),
            self.wf(),
            next_depth < self.masks().len(),
        ensures
            forall|i: int|
                0 <= i < 256 ==> #[trigger] r.0.bit(i) == (board.valid(i) && self.masks()[next_depth as int][board.cell(i)].bit(i)),
            forall|i: int|
                0 <= i < 256 ==> #[trigger] r.1.bit(i) == (board.valid(i)
                    && self.masks()[next_depth as int][(board.cell(i) + M - 1) % (M as int)].bit(i)),
    {
        proof {
            board.lemma_wf();
        }
        let masks = &self.infeasible[next_depth];
        assert(masks@ == self.masks()[next_depth as int]);
        let mut required = Bitboard::zero();
        let mut forbidden = Bitboard::zero();
        let mut value: usize = 0;
        while value < M
            invariant
                board.wf(),
                M == board.modulus(),
                2 <= M <= MAX_M,
                value <= M,
                masks@ == self.masks()[next_depth as int],
                masks@.len() == MAX_M,
                forall|i: int| #[trigger] board.valid(i) ==> 0 <= board.cell(i) < board.modulus(),
                forall|i: int|
                    0 <= i < 256 ==> #[trigger] required.bit(i) == (board.valid(i) && board.cell(i) < value
                        && masks@[board.cell(i)].bit(i)),
                forall|i: int|
                    0 <= i < 256 ==> #[trigger] forbidden.bit(i) == (board.valid(i) && board.cell(i) < value
                        && masks@[(board.cell(i) + M - 1) % (M as int)].bit(i)),
            decreases M - value,
        {
            let cells = board.plane(value as u8);
            required = required.or(&cells.and(&masks[value]));
            forbidden = forbidden.or(&cells.and(&masks[(value + M - 1) % M]));
            value = value + 1;
        }
        (required, forbidden)
    }
}

/// The chosen placements of pieces `d..` cover a valid cell at least as
/// often as the pieces that must cover it, and at most as often as those
/// that can.
proof fn lemma_chosen_within(pm: Seq<Seq<(usize, usize, Bitboard)>>, c: Seq<int>, valid: Bitboard, d: int, i: int)
    requires
        0 <= d <= pm.len(),
        c.len() == pm.len(),
        forall|k: int| d <= k < pm.len() ==> 0 <= #[trigger] c[k] < pm[k].len(),
        valid.bit(i),
    ensures
        suffix_hits(pm, valid, d, i, true) <= chosen_hits(pm, c, d, i) <= suffix_hits(pm, valid, d, i, false),
    decreases pm.len() - d,
{
    if d < pm.len() {
        lemma_chosen_within(pm, c, valid, d + 1, i);
        if all_cover(pm[d], valid, i) {
            assert(pm[d][c[d]].2.bit(i));
        }
        if pm[d][c[d]].2.bit(i) {
            assert(any_covers(pm[d], i));
        }
    }
}

impl CellIntervalPrune {
    /// The interval bound never rejects a board that some choice of the
    /// remaining pieces' listed placements finishes: each cell's hits lie
    /// between the pieces that must and those that can cover it, and are its
    /// value plus whole turns of M.
    pub proof fn lemma_allows_finishable(
        self,
        pm: Seq<Seq<(usize, usize, Bitboard)>>,
        valid: Bitboard,
        b: Board,
        d: int,
        c: Seq<int>,
    )
        requires
            self.built_for(pm, b.modulus(), valid),
            b.wf(),
            forall|i: int| 0 <= i < 256 ==> #[trigger] valid.bit(i) == b.valid(i),
            finishes(b, pm, c, d),
        ensures
            forall|i: int| 0 <= i < 256 && b.valid(i) ==> !#[trigger] self.masks()[d][b.cell(i)].bit(i),
    {
        b.lemma_wf();
        assert forall|i: int| 0 <= i < 256 && b.valid(i) implies !#[trigger] self.masks()[d][b.cell(i)].bit(i) by {
            lemma_cell_takes_turns(b, pm, c, d, i);
            lemma_chosen_within(pm, c, valid, d, i);
            let h = chosen_hits(pm, c, d, i);
            assert(suffix_hits(pm, valid, d, i, true) <= h <= suffix_hits(pm, valid, d, i, false) && h % b.modulus() == b.cell(i));
            assert(!cell_infeasible(pm, valid, b.modulus(), d, b.cell(i), i));
        }
    }
}

} // verus!
