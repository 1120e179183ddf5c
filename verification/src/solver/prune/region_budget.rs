//! Regional budget pruning.
//!
//! For small square regions of the board: the fewest piece cells that must
//! land in the region (each piece placed where it covers least of it) and
//! the most that can. What must land beyond the region's deficit has to be
//! made up in whole turns of M, and the pieces still to place must be able
//! to bring that much.

use vstd::prelude::*;
use crate::bits;
use crate::model::bitboard::Bitboard;
use crate::model::board::Board;
use crate::model::piece::Piece;
use crate::solver::backtrack::{count_where, covered_count, covered_deficit, lemma_count_bits, lemma_count_where_bound};
use crate::solver::finish::{finishes, landed_sum, lemma_covered_deficit_value, lemma_region_landed, lemma_region_turns,
    region_hits, value_below};

verus! {

/// One square region and the piece budgets it was scanned with.
pub struct RegionCheck {
    /// Top-left corner (row, column) and size (rows, columns).
    pub r0: usize,
    pub c0: usize,
    pub rh: usize,
    pub cw: usize,
    /// What must land in the region beyond its deficit, rounded up to whole turns of M.
    pub forced_overhead: u32,
    /// Per piece, the fewest and the most of its cells that land in the region.
    pub piece_min: Vec<u32>,
    pub piece_max: Vec<u32>,
    /// Suffix sums of `piece_max` and `piece_min`.
    pub suffix_max_budget: Vec<u32>,
    pub suffix_min_budget: Vec<u32>,
    /// The region's cells.
    pub mask: Bitboard,
}

/// The strongest regional checks.
pub struct RegionBudgetPrune {
    checks: Vec<RegionCheck>,
    m: u8,
}

/// Index `i` lies in the `sz` by `sz` square with top-left corner (r0, c0).
pub open spec fn in_square(r0: int, c0: int, sz: int, i: int) -> bool {
    in_rect(r0, c0, sz, sz, i)
}

/// Index `i` lies in the `rows` by `cols` rectangle with top-left corner (r0, c0).
pub open spec fn in_rect(r0: int, c0: int, rows: int, cols: int, i: int) -> bool {
    0 <= i < 256 && r0 <= i / 15 < r0 + rows && c0 <= i % 15 < c0 + cols
}

/// Cells of `placed` that land in `region`.
pub open spec fn landed(placed: Bitboard, region: Bitboard) -> nat {
    count_where(|i: int| placed.bit(i) && region.bit(i), 256)
}

/// The fewest cells landing in `region` over the first `k` placements;
/// `u32::MAX` for none.
pub open spec fn min_landed(ps: Seq<(usize, usize, Bitboard)>, region: Bitboard, k: int) -> int
    decreases k,
{
    if k <= 0 {
        u32::MAX as int
    } else {
        let rest = min_landed(ps, region, k - 1);
        let here = landed(ps[k - 1].2, region) as int;
        if here < rest {
            here
        } else {
            rest
        }
    }
}

/// The most cells landing in `region` over the first `k` placements; 0 for none.
pub open spec fn max_landed(ps: Seq<(usize, usize, Bitboard)>, region: Bitboard, k: int) -> int
    decreases k,
{
    if k <= 0 {
        0
    } else {
        let rest = max_landed(ps, region, k - 1);
        let here = landed(ps[k - 1].2, region) as int;
        if here > rest {
            here
        } else {
            rest
        }
    }
}

/// The sum of `v[i..]`.
pub open spec fn suffix_sum(v: Seq<u32>, i: int) -> int
    decreases v.len() - i,
{
    if i < 0 || i >= v.len() {
        0
    } else {
        v[i] + suffix_sum(v, i + 1)
    }
}

/// `x` rounded up to whole turns of `m`.
pub open spec fn whole_turns(x: int, m: int) -> int {
    ((x + m - 1) / m) * m
}

/// `c` is the check of a square region of `b` with budgets read off the
/// placement masks of the `n` pieces, and some cells must land in it beyond
/// its deficit.
pub open spec fn is_region_check(c: RegionCheck, b: Board, ps: Seq<Vec<(usize, usize, Bitboard)>>, n: int) -> bool {
    let m = b.modulus();
    let d = covered_deficit(b, c.mask, m);
    let t = suffix_sum(c.piece_min@, 0);
    &&& 3 <= c.rh <= 5
    &&& c.cw == c.rh
    &&& c.r0 + c.rh <= b.rows()
    &&& c.c0 + c.cw <= b.cols()
    &&& forall|i: int| 0 <= i < 256 ==> #[trigger] c.mask.bit(i) == in_square(c.r0 as int, c.c0 as int, c.rh as int, i)
    &&& c.piece_min@.len() == n
    &&& c.piece_max@.len() == n
    &&& forall|k: int|
        0 <= k < n ==> #[trigger] c.piece_min@[k] == (if ps[k]@.len() == 0 {
            0
        } else {
            min_landed(ps[k]@, c.mask, ps[k]@.len() as int)
        })
    &&& forall|k: int| 0 <= k < n ==> #[trigger] c.piece_max@[k] == max_landed(ps[k]@, c.mask, ps[k]@.len() as int)
    &&& c.suffix_min_budget@.len() == n + 1
    &&& c.suffix_max_budget@.len() == n + 1
    &&& forall|k: int| 0 <= k <= n ==> #[trigger] c.suffix_min_budget@[k] == suffix_sum(c.piece_min@, k)
    &&& forall|k: int| 0 <= k <= n ==> #[trigger] c.suffix_max_budget@[k] == suffix_sum(c.piece_max@, k)
    &&& t > d
    &&& c.forced_overhead == whole_turns(t - d, m)
}

/// The board may still be solved as far as region `c` can tell, with pieces
/// `p..` to place: their most cells in the region cover its deficit and
/// what they must bring beyond it, in whole turns of M.
pub open spec fn region_allows(c: RegionCheck, b: Board, p: int) -> bool {
    let m = b.modulus();
    let d = covered_deficit(b, c.mask, m);
    let must = c.suffix_min_budget@[p] as int;
    let forced = if must > d {
        whole_turns(must - d, m)
    } else {
        0
    };
    c.suffix_max_budget@[p] >= d + forced
}

/// A suffix sum of entries at most `bound` is at most `bound` per entry.
proof fn lemma_suffix_sum_bound(v: Seq<u32>, i: int, bound: int)
    requires
        0 <= i,
        forall|k: int| 0 <= k < v.len() ==> #[trigger] v[k] <= bound,
    ensures
        0 <= suffix_sum(v, i),
        suffix_sum(v, i) <= bound * (if i < v.len() {
            v.len() - i
        } else {
            0
        }),
    decreases v.len() - i,
{
    if i < v.len() {
        lemma_suffix_sum_bound(v, i + 1, bound);
        assert(bound * (v.len() - i) == bound * (v.len() - (i + 1)) + bound) by (nonlinear_arith);
    }
}

/// Rounding up to whole turns adds less than one turn.
proof fn lemma_whole_turns(x: int, m: int)
    requires
        0 <= x,
        2 <= m,
    ensures
        x <= whole_turns(x, m) <= x + m - 1,
{
    let q = (x + m - 1) / m;
    let r = (x + m - 1) % m;
    vstd::arithmetic::div_mod::lemma_fundamental_div_mod(x + m - 1, m);
    vstd::arithmetic::div_mod::lemma_mod_bound(x + m - 1, m);
    assert(q * m == m * q) by (nonlinear_arith);
    assert(whole_turns(x, m) == x + m - 1 - r);
}

/// The cells of the `sz` by `sz` square at (r0, c0).
fn square_mask(r0: usize, c0: usize, sz: usize) -> (r: Bitboard)
    requires
        c0 + sz <= 15,
        r0 + sz <= 17,
        1 <= sz,
    ensures
        forall|i: int| 0 <= i < 256 ==> #[trigger] r.bit(i) == in_square(r0 as int, c0 as int, sz as int, i),
{
    let mut mask = Bitboard::zero();
    let mut r = r0;
    while r < r0 + sz
        invariant
            c0 + sz <= 15,
            r0 + sz <= 17,
            r0 <= r <= r0 + sz,
            forall|i: int| 0 <= i < 256 ==> #[trigger] mask.bit(i) == in_rect(r0 as int, c0 as int, (r - r0) as int, sz as int, i),
        decreases r0 + sz - r,
    {
        let mut c = c0;
        while c < c0 + sz
            invariant
                c0 + sz <= 15,
                r0 + sz <= 17,
                r0 <= r < r0 + sz,
                c0 <= c <= c0 + sz,
                forall|i: int|
                    0 <= i < 256 ==> #[trigger] mask.bit(i) == (in_rect(r0 as int, c0 as int, (r - r0) as int, sz as int, i)
                        || (i / 15 == r && c0 <= i % 15 < c)),
            decreases c0 + sz - c,
        {
            proof {
                bits::lemma_stride_index(r as int, c as int);
            }
            let index = (r * 15 + c) as u32;
            if index < 256 {
                mask.set_bit(index);
            }
            c = c + 1;
        }
        proof {
            assert forall|i: int| 0 <= i < 256 implies #[trigger] mask.bit(i) == in_rect(
                r0 as int,
                c0 as int,
                (r + 1 - r0) as int,
                sz as int,
                i,
            ) by {}
        }
        r = r + 1;
    }
    mask
}

/// Cells of `placed` that land in `region`.
fn landed_count(placed: Bitboard, region: Bitboard) -> (r: u32)
    ensures
        r == landed(placed, region),
        r <= 256,
{
    let x = placed.and(&region);
    proof {
        lemma_count_bits(x, |i: int| placed.bit(i) && region.bit(i), 256);
        bits::lemma_count_upto_bound(x@, 256);
    }
    x.count_ones()
}

/// The deficit of the board's cells in `region`.
fn region_deficit(board: &Board, region: Bitboard, m: u8) -> (r: u32)
    requires
        board.wf(),
        m == board.modulus(),
    ensures
        r == covered_deficit(*board, region, m as int),
        r <= 2560,
{
    proof {
        board.lemma_wf();
    }
    let mut total: u32 = 0;
    let mut d: u8 = 1;
    while d < m
        invariant
            board.wf(),
            m == board.modulus(),
            2 <= m <= 5,
            1 <= d <= m,
            total == covered_deficit(*board, region, d as int),
            total <= 128 * d * (d - 1),
        decreases m - d,
    {
        let hits = covered_count(board, region, d);
        proof {
            assert(hits * d <= 256 * d) by (nonlinear_arith)
                requires
                    hits <= 256,
            ;
            assert(128 * d * (d - 1) + 256 * d == 128 * (d + 1) * d) by (nonlinear_arith);
            assert(128 * (d + 1) * d <= 2560) by (nonlinear_arith)
                requires
                    1 <= d <= 4,
            ;
            assert(d * hits == hits * d) by (nonlinear_arith);
        }
        total = total + d as u32 * hits;
        d = d + 1;
    }
    proof {
        assert(128 * d * (d - 1) <= 2560) by (nonlinear_arith)
            requires
                1 <= d <= 5,
        ;
    }
    total
}

/// The fewest and the most cells of each piece's placements landing in `region`.
fn piece_budgets(all_placements: &Vec<Vec<(usize, usize, Bitboard)>>, n: usize, region: Bitboard) -> (r: (Vec<u32>, Vec<u32>))
    requires
        n <= all_placements@.len(),
    ensures
        r.0@.len() == n,
        r.1@.len() == n,
        forall|k: int|
            0 <= k < n ==> #[trigger] r.0@[k] == (if all_placements@[k]@.len() == 0 {
                0
            } else {
                min_landed(all_placements@[k]@, region, all_placements@[k]@.len() as int)
            }),
        forall|k: int| 0 <= k < n ==> #[trigger] r.1@[k] == max_landed(all_placements@[k]@, region, all_placements@[k]@.len() as int),
        forall|k: int| 0 <= k < n ==> #[trigger] r.0@[k] <= 256,
        forall|k: int| 0 <= k < n ==> #[trigger] r.1@[k] <= 256,
{
    let mut piece_min: Vec<u32> = Vec::new();
    let mut piece_max: Vec<u32> = Vec::new();
    let mut i: usize = 0;
    while i < n
        invariant
            n <= all_placements@.len(),
            0 <= i <= n,
            piece_min@.len() == i,
            piece_max@.len() == i,
            forall|k: int|
                0 <= k < i ==> #[trigger] piece_min@[k] == (if all_placements@[k]@.len() == 0 {
                    0
                } else {
                    min_landed(all_placements@[k]@, region, all_placements@[k]@.len() as int)
                }),
            forall|k: int| 0 <= k < i ==> #[trigger] piece_max@[k] == max_landed(all_placements@[k]@, region, all_placements@[k]@.len() as int),
            forall|k: int| 0 <= k < i ==> #[trigger] piece_min@[k] <= 256,
            forall|k: int| 0 <= k < i ==> #[trigger] piece_max@[k] <= 256,
        decreases n - i,
    {
        let placements = &all_placements[i];
        let mut lo: u32 = u32::MAX;
        let mut hi: u32 = 0;
        let mut k: usize = 0;
        while k < placements.len()
            invariant
                0 <= k <= placements@.len(),
                lo == min_landed(placements@, region, k as int),
                hi == max_landed(placements@, region, k as int),
                hi <= 256,
                k > 0 ==> lo <= 256,
            decreases placements@.len() - k,
        {
            let count = landed_count(placements[k].2, region);
            if count < lo {
                lo = count;
            }
            if count > hi {
                hi = count;
            }
            k = k + 1;
        }
        if lo == u32::MAX {
            lo = 0;
        }
        piece_min.push(lo);
        piece_max.push(hi);
        i = i + 1;
    }
    (piece_min, piece_max)
}

/// Suffix sums of `v`.
fn suffix_sums(v: &Vec<u32>) -> (r: Vec<u32>)
    requires
        v@.len() <= 4096,
        forall|k: int| 0 <= k < v@.len() ==> #[trigger] v@[k] <= 256,
    ensures
        r@.len() == v@.len() + 1,
        forall|k: int| 0 <= k <= v@.len() ==> #[trigger] r@[k] == suffix_sum(v@, k),
{
    let n = v.len();
    let mut r: Vec<u32> = Vec::new();
    let mut k: usize = 0;
    while k <= n
        invariant
            n == v@.len(),
            n <= 4096,
            0 <= k <= n + 1,
            r@.len() == k,
            forall|j: int| 0 <= j < k ==> #[trigger] r@[j] == 0,
        decreases n + 1 - k,
    {
        r.push(0);
        k = k + 1;
    }
    let mut i = n;
    while i > 0
        invariant
            n == v@.len(),
            n <= 4096,
            forall|k: int| 0 <= k < v@.len() ==> #[trigger] v@[k] <= 256,
            0 <= i <= n,
            r@.len() == n + 1,
            forall|j: int| i <= j <= n ==> #[trigger] r@[j] == suffix_sum(v@, j),
        decreases i,
    {
        proof {
            lemma_suffix_sum_bound(v@, i as int, 256);
            assert(256 * (n - i) <= 256 * 4096) by (nonlinear_arith)
                requires
                    n <= 4096,
                    i <= n,
            ;
        }
        let next = r[i] + v[i - 1];
        r.set(i - 1, next);
        i = i - 1;
    }
    r
}

impl RegionBudgetPrune {
    /// The kept checks.
    pub closed spec fn checks_spec(self) -> Seq<RegionCheck> {
        self.checks@
    }

    /// The modulus the checks were made for.
    pub closed spec fn modulus_spec(self) -> int {
        self.m as int
    }

    /// Scan the square regions of 3 to 5 cells a side, row by row: keep each
    /// region where more cells must land than its deficit, strongest forced
    /// overhead first (scan order among equals), at most ten of them.
    /// Landing counts are read off the placement masks.
    pub fn precompute(
        board: &Board,
        pieces: &[Piece],
        order: &[usize],
        all_placements: &Vec<Vec<(usize, usize, Bitboard)>>,
        h: u8,
        w: u8,
        m: u8,
    ) -> (r: Self)
        requires
            board.wf(),
            h == board.rows(),
            w == board.cols(),
            m == board.modulus(),
            pieces@.len() <= 4096,
            pieces@.len() <= all_placements@.len(),
        ensures
            r.modulus_spec() == m,
            r.checks_spec().len() <= 10,
            forall|k: int|
                0 <= k < r.checks_spec().len() ==> #[trigger] is_region_check(
                    r.checks_spec()[k],
                    *board,
                    all_placements@,
                    pieces@.len() as int,
                ),
            forall|a: int, c: int|
                0 <= a < c < r.checks_spec().len() ==> (#[trigger] r.checks_spec()[a]).forced_overhead
                    >= (#[trigger] r.checks_spec()[c]).forced_overhead,
    {
        proof {
            board.lemma_wf();
        }
        let bh = h as usize;
        let bw = w as usize;
        let n = pieces.len();
        let mut checks: Vec<RegionCheck> = Vec::new();
        let mut top: usize = 5;
        if bh < top {
            top = bh;
        }
        if bw < top {
            top = bw;
        }
        let mut sz: usize = 3;
        while sz <= top
            invariant
                board.wf(),
                bh == board.rows(),
                bw == board.cols(),
                bw <= 15,
                15 * bh + bw <= 271,
                top <= 5,
                top <= bh,
                top <= bw,
                3 <= sz,
                m == board.modulus(),
                2 <= m <= 5,
                n == pieces@.len(),
                n <= 4096,
                n <= all_placements@.len(),
                forall|k: int| 0 <= k < checks@.len() ==> #[trigger] is_region_check(checks@[k], *board, all_placements@, n as int),
                forall|a: int, c: int|
                    0 <= a < c < checks@.len() ==> (#[trigger] checks@[a]).forced_overhead
                        >= (#[trigger] checks@[c]).forced_overhead,
            decreases top + 1 - sz,
        {
            let mut r0: usize = 0;
            while r0 + sz <= bh
                invariant
                    board.wf(),
                    bh == board.rows(),
                    bw == board.cols(),
                    bw <= 15,
                    15 * bh + bw <= 271,
                    3 <= sz <= top,
                    top <= 5,
                    top <= bh,
                    top <= bw,
                    m == board.modulus(),
                    2 <= m <= 5,
                    r0 <= bh,
                    n == pieces@.len(),
                    n <= 4096,
                    n <= all_placements@.len(),
                    forall|k: int| 0 <= k < checks@.len() ==> #[trigger] is_region_check(checks@[k], *board, all_placements@, n as int),
                    forall|a: int, c: int|
                        0 <= a < c < checks@.len() ==> (#[trigger] checks@[a]).forced_overhead
                            >= (#[trigger] checks@[c]).forced_overhead,
                decreases bh + 1 - r0,
            {
                let mut c0: usize = 0;
                while c0 + sz <= bw
                    invariant
                        board.wf(),
                        bh == board.rows(),
                        bw == board.cols(),
                        bw <= 15,
                        15 * bh + bw <= 271,
                        3 <= sz <= top,
                        top <= 5,
                        top <= bh,
                        top <= bw,
                        r0 + sz <= bh,
                        c0 <= bw,
                        m == board.modulus(),
                        2 <= m <= 5,
                        n == pieces@.len(),
                        n <= 4096,
                        n <= all_placements@.len(),
                        forall|k: int| 0 <= k < checks@.len() ==> #[trigger] is_region_check(checks@[k], *board, all_placements@, n as int),
                        forall|a: int, c: int|
                            0 <= a < c < checks@.len() ==> (#[trigger] checks@[a]).forced_overhead
                                >= (#[trigger] checks@[c]).forced_overhead,
                    decreases bw + 1 - c0,
                {
                    let mask = square_mask(r0, c0, sz);
                    let deficit = region_deficit(board, mask, m);
                    let (piece_min, piece_max) = piece_budgets(all_placements, n, mask);
                    let suffix_min = suffix_sums(&piece_min);
                    let suffix_max = suffix_sums(&piece_max);
                    let min_total = suffix_min[0];
                    if min_total > deficit {
                        let excess = min_total - deficit;
                        proof {
                            lemma_suffix_sum_bound(piece_min@, 0, 256);
                            assert(256 * n <= 256 * 4096) by (nonlinear_arith)
                                requires
                                    n <= 4096,
                            ;
                            lemma_whole_turns(excess as int, m as int);
                        }
                        let forced_overhead = ((excess + m as u32 - 1) / m as u32) * m as u32;
                        let check = RegionCheck {
                            r0,
                            c0,
                            rh: sz,
                            cw: sz,
                            forced_overhead,
                            piece_min,
                            piece_max,
                            suffix_max_budget: suffix_max,
                            suffix_min_budget: suffix_min,
                            mask,
                        };
                        let mut pos: usize = 0;
                        while pos < checks.len() && checks[pos].forced_overhead >= forced_overhead
                            invariant
                                0 <= pos <= checks@.len(),
                                forall|a: int| 0 <= a < pos ==> (#[trigger] checks@[a]).forced_overhead >= forced_overhead,
                            decreases checks@.len() - pos,
                        {
                            pos = pos + 1;
                        }
                        proof {
                            assert forall|a: int| pos <= a < checks@.len() implies (#[trigger] checks@[a]).forced_overhead
                                < forced_overhead by {
                                if pos < checks@.len() {
                                    assert(checks@[pos as int].forced_overhead < forced_overhead);
                                    if a > pos {
                                        assert(checks@[pos as int].forced_overhead >= checks@[a].forced_overhead);
                                    }
                                }
                            }
                        }
                        let ghost before = checks@;
                        checks.insert(pos, check);
                        proof {
                            assert forall|k: int| 0 <= k < checks@.len() implies #[trigger] is_region_check(
                                checks@[k],
                                *board,
                                all_placements@,
                                n as int,
                            ) by {
                                if k < pos {
                                    assert(checks@[k] == before[k]);
                                } else if k > pos {
                                    assert(checks@[k] == before[k - 1]);
                                }
                            }
                            assert forall|a: int, c: int|
                                0 <= a < c < checks@.len() implies (#[trigger] checks@[a]).forced_overhead
                                    >= (#[trigger] checks@[c]).forced_overhead by {
                                if a < pos {
                                    assert(checks@[a] == before[a]);
                                } else if a > pos {
                                    assert(checks@[a] == before[a - 1]);
                                }
                                if c < pos {
                                    assert(checks@[c] == before[c]);
                                } else if c > pos {
                                    assert(checks@[c] == before[c - 1]);
                                }
                            }
                        }
                    }
                    c0 = c0 + 1;
                }
                r0 = r0 + 1;
            }
            sz = sz + 1;
        }
        checks.truncate(10);
        RegionBudgetPrune { checks, m }
    }

    /// Whether every kept region allows the board with pieces `piece_idx..`
    /// still to place; false prunes.
    pub fn try_prune(&self, board: &Board, piece_idx: usize) -> (r: bool)
        requires
            board.wf(),
            self.modulus_spec() == board.modulus(),
            forall|k: int|
                0 <= k < self.checks_spec().len() ==> #[trigger] self.checks_spec()[k].suffix_min_budget@.len() > piece_idx
                    && self.checks_spec()[k].suffix_max_budget@.len() > piece_idx,
        ensures
            r == forall|k: int|
                0 <= k < self.checks_spec().len() ==> #[trigger] region_allows(self.checks_spec()[k], *board, piece_idx as int),
    {
        proof {
            board.lemma_wf();
        }
        let m = self.m;
        let mut k: usize = 0;
        while k < self.checks.len()
            invariant
                board.wf(),
                m == board.modulus(),
                2 <= m <= 5,
                self.modulus_spec() == m,
                0 <= k <= self.checks_spec().len(),
                forall|j: int|
                    0 <= j < self.checks_spec().len() ==> #[trigger] self.checks_spec()[j].suffix_min_budget@.len() > piece_idx
                        && self.checks_spec()[j].suffix_max_budget@.len() > piece_idx,
                forall|j: int| 0 <= j < k ==> #[trigger] region_allows(self.checks_spec()[j], *board, piece_idx as int),
            decreases self.checks_spec().len() - k,
        {
            let check = &self.checks[k];
            proof {
                assert(check.suffix_min_budget@.len() > piece_idx);
            }
            let region = region_deficit(board, check.mask, m);
            let max_budget = check.suffix_max_budget[piece_idx];
            let min_remaining = check.suffix_min_budget[piece_idx];
            let forced: u64 = if min_remaining > region {
                let excess = (min_remaining - region) as u64;
                let m64 = m as u64;
                proof {
                    lemma_whole_turns(excess as int, m as int);
                }
                ((excess + m64 - 1) / m64) * m64
            } else {
                0
            };
            proof {
                let c = self.checks_spec()[k as int];
                assert(region == covered_deficit(*board, c.mask, board.modulus()));
                assert(min_remaining == c.suffix_min_budget@[piece_idx as int]);
                assert(forced == (if min_remaining > region {
                    whole_turns(min_remaining - region, m as int)
                } else {
                    0
                }));
            }
            if (max_budget as u64) < region as u64 + forced {
                proof {
                    assert(!region_allows(self.checks_spec()[k as int], *board, piece_idx as int));
                }
                return false;
            }
            k = k + 1;
        }
        true
    }
}

/// The fewest landing cells over a list is at most each placement's, the
/// most at least each.
proof fn lemma_landed_bounds(ps: Seq<(usize, usize, Bitboard)>, region: Bitboard, n: int, k: int)
    requires
        0 <= k < n <= ps.len(),
    ensures
        min_landed(ps, region, n) <= landed(ps[k].2, region) <= max_landed(ps, region, n),
    decreases n,
{
    if k < n - 1 {
        lemma_landed_bounds(ps, region, n - 1, k);
    }
    if n - 1 > 0 {
        lemma_min_landed_range(ps, region, n - 1);
    }
}

proof fn lemma_min_landed_range(ps: Seq<(usize, usize, Bitboard)>, region: Bitboard, n: int)
    requires
        0 <= n <= ps.len(),
    ensures
        max_landed(ps, region, n) >= 0,
    decreases n,
{
    if n > 0 {
        lemma_min_landed_range(ps, region, n - 1);
    }
}

/// The chosen placements land, in the region, between the suffix sums of
/// the per-piece fewest and most.
proof fn lemma_landed_between(
    c0: RegionCheck,
    b0: Board,
    ps: Seq<Vec<(usize, usize, Bitboard)>>,
    pm: Seq<Seq<(usize, usize, Bitboard)>>,
    c: Seq<int>,
    p: int,
)
    requires
        is_region_check(c0, b0, ps, pm.len() as int),
        pm.len() <= ps.len(),
        forall|k: int| 0 <= k < pm.len() ==> #[trigger] pm[k] == ps[k]@,
        0 <= p <= pm.len(),
        c.len() == pm.len(),
        forall|k: int| p <= k < pm.len() ==> 0 <= #[trigger] c[k] < pm[k].len(),
    ensures
        suffix_sum(c0.piece_min@, p) <= landed_sum(pm, c, p, c0.mask) <= suffix_sum(c0.piece_max@, p),
    decreases pm.len() - p,
{
    if p < pm.len() {
        lemma_landed_between(c0, b0, ps, pm, c, p + 1);
        assert(pm[p] == ps[p]@);
        assert(0 <= c[p] < pm[p].len());
        assert(ps[p]@.len() > 0);
        assert(c0.piece_min@[p] == (if ps[p]@.len() == 0 {
            0
        } else {
            min_landed(ps[p]@, c0.mask, ps[p]@.len() as int)
        }));
        assert(c0.piece_min@[p] == min_landed(ps[p]@, c0.mask, ps[p]@.len() as int));
        assert(c0.piece_max@[p] == max_landed(ps[p]@, c0.mask, ps[p]@.len() as int));
        lemma_landed_bounds(ps[p]@, c0.mask, ps[p]@.len() as int, c[p]);
        assert(landed(pm[p][c[p]].2, c0.mask) == crate::solver::finish::landed(pm[p][c[p]].2, c0.mask));
    }
}

/// Rounding up to whole turns gives the least multiple of M from `x` on.
proof fn lemma_whole_turns_least(x: int, y: int, m: int)
    requires
        0 <= x <= y,
        2 <= m,
        y % m == 0,
    ensures
        whole_turns(x, m) <= y,
{
    vstd::arithmetic::div_mod::lemma_fundamental_div_mod(y, m);
    let q = y / m;
    let t = (x + m - 1) / m;
    vstd::arithmetic::div_mod::lemma_fundamental_div_mod(x + m - 1, m);
    vstd::arithmetic::div_mod::lemma_mod_bound(x + m - 1, m);
    assert(t <= q) by (nonlinear_arith)
        requires
            y == m * q,
            x + m - 1 == m * t + (x + m - 1) % m,
            0 <= (x + m - 1) % m < m,
            x <= y,
            2 <= m,
    ;
    assert(t * m <= q * m) by (nonlinear_arith)
        requires
            t <= q,
            2 <= m,
    ;
    assert(q * m == y) by (nonlinear_arith)
        requires
            y == m * q,
    ;
}

impl RegionBudgetPrune {
    /// The regional bound never rejects a board that some choice of the
    /// remaining pieces' listed placements finishes: in each region those
    /// placements land between the fewest and the most cells the checks
    /// allow, and bring the region's deficit plus whole turns of M.
    pub proof fn lemma_allows_finishable(
        self,
        b0: Board,
        ps: Seq<Vec<(usize, usize, Bitboard)>>,
        b: Board,
        pm: Seq<Seq<(usize, usize, Bitboard)>>,
        p: int,
        c: Seq<int>,
    )
        requires
            forall|k: int|
                0 <= k < self.checks_spec().len() ==> #[trigger] is_region_check(
                    self.checks_spec()[k],
                    b0,
                    ps,
                    pm.len() as int,
                ),
            pm.len() <= ps.len(),
            forall|k: int| 0 <= k < pm.len() ==> #[trigger] pm[k] == ps[k]@,
            b.wf(),
            self.modulus_spec() == b.modulus(),
            b.rows() == b0.rows(),
            b.cols() == b0.cols(),
            finishes(b, pm, c, p),
        ensures
            forall|k: int| 0 <= k < self.checks_spec().len() ==> #[trigger] region_allows(self.checks_spec()[k], b, p),
    {
        b.lemma_wf();
        let m = b.modulus();
        assert forall|k: int| 0 <= k < self.checks_spec().len() implies #[trigger] region_allows(self.checks_spec()[k], b, p) by {
            let ck = self.checks_spec()[k];
            assert(is_region_check(ck, b0, ps, pm.len() as int));
            assert forall|i: int| 0 <= i < 256 && #[trigger] ck.mask.bit(i) implies b.valid(i) by {
                assert(in_square(ck.r0 as int, ck.c0 as int, ck.rh as int, i));
            }
            lemma_region_turns(b, pm, c, p, ck.mask, 256);
            lemma_region_landed(pm, c, p, ck.mask);
            lemma_covered_deficit_value(b, ck.mask, m);
            lemma_landed_between(ck, b0, ps, pm, c, p);
            let h = region_hits(pm, c, p, ck.mask, 256);
            let d = covered_deficit(b, ck.mask, m);
            let must = ck.suffix_min_budget@[p] as int;
            assert(must == suffix_sum(ck.piece_min@, p));
            assert(ck.suffix_max_budget@[p] == suffix_sum(ck.piece_max@, p));
            assert(h >= d && (h - d) % m == 0);
            if must > d {
                lemma_whole_turns_least(must - d, h - d, m);
            }
        }
    }
}

} // verus!
