//! Depth-aware deficit and jaggedness bounds from random placements.
//!
//! The search starts with percentile bounds and retries with progressively
//! wider sample sets. The final level includes every sampled forward
//! trajectory and disables bounds that are not safe to carry into that
//! fallback.

use vstd::prelude::*;
use rand::rngs::SmallRng;
use crate::bits;
use crate::model::bitboard::Bitboard;
use crate::model::board::{Board, applied_value};
use crate::random::{random_below, seeded_rng};
use crate::solver::adjacency::{circular, forward, backward, pair_sum, lemma_pair_sum_bound, lemma_weights_ok};
use crate::solver::prune::jaggedness::budget_allows;
use crate::solver::pruning::jaggedness;
use crate::solver::pruning::jaggedness::JaggednessBound;

verus! {

/// Cells in a 15 by 15 grid of values, indexed like bitboard cells.
pub const GRID_CAPACITY: usize = 225;

/// Sum of the first `n` values.
pub open spec fn value_sum(vals: Seq<u8>, n: int) -> int
    decreases n,
{
    if n <= 0 {
        0
    } else {
        value_sum(vals, n - 1) + vals[n - 1]
    }
}

proof fn lemma_value_sum_update(vals: Seq<u8>, i: int, v: u8, n: int)
    requires
        0 <= i < vals.len(),
        n <= vals.len(),
    ensures
        value_sum(vals.update(i, v), n) == value_sum(vals, n) + if i < n {
            v - vals[i]
        } else {
            0
        },
    decreases n,
{
    if n > 0 {
        lemma_value_sum_update(vals, i, v, n - 1);
    }
}

/// The sampled values after a placement covering `mask`: each covered value
/// drops by one, mod `m`.
pub open spec fn sampled_after(old: Seq<u8>, mask: Bitboard, m: int, i: int) -> int {
    applied_value(old[i] as int, m, mask.bit(i))
}

/// A hit count after one more hit where `hit`, held at 255.
pub open spec fn hit_after(h: u8, hit: bool) -> u8 {
    if hit {
        if h < 255 {
            (h + 1) as u8
        } else {
            255u8
        }
    } else {
        h
    }
}

/// The largest of the first `n` counts, 0 for none.
pub open spec fn max_upto(s: Seq<u8>, n: int) -> int
    decreases n,
{
    if n <= 0 {
        0
    } else {
        let rest = max_upto(s, n - 1);
        if s[n - 1] > rest {
            s[n - 1] as int
        } else {
            rest
        }
    }
}

/// Raising one count raises the largest to at least it.
proof fn lemma_max_update(s: Seq<u8>, i: int, v: u8, n: int)
    requires
        0 <= i < s.len(),
        0 <= n <= s.len(),
        v >= s[i],
    ensures
        max_upto(s.update(i, v), n) == if i < n {
            if v > max_upto(s, n) {
                v as int
            } else {
                max_upto(s, n)
            }
        } else {
            max_upto(s, n)
        },
    decreases n,
{
    if n > 0 {
        lemma_max_update(s, i, v, n - 1);
        lemma_max_bounds(s, n - 1, i);
    }
}

/// The largest count is at least each count it covers, and at least 0.
proof fn lemma_max_bounds(s: Seq<u8>, n: int, i: int)
    requires
        0 <= n <= s.len(),
    ensures
        max_upto(s, n) >= 0,
        0 <= i < n ==> max_upto(s, n) >= s[i],
    decreases n,
{
    if n > 0 {
        lemma_max_bounds(s, n - 1, i);
    }
}

/// No hits, no largest hit.
proof fn lemma_max_zero(s: Seq<u8>, n: int)
    requires
        0 <= n <= s.len(),
        forall|i: int| 0 <= i < n ==> #[trigger] s[i] == 0,
    ensures
        max_upto(s, n) == 0,
    decreases n,
{
    if n > 0 {
        lemma_max_zero(s, n - 1);
    }
}

/// Place a sampled placement covering `mask` on the grid of values: each
/// covered value drops by one, mod `modulus`, and its hit count grows by one
/// (saturating); `running_max` follows the largest hit count. Returns how
/// many covered values were zero.
fn apply_sample(
    cell_values: &mut Vec<u8>,
    cell_hits: &mut Vec<u8>,
    running_max: &mut u8,
    mask: Bitboard,
    modulus: u8,
) -> (zeros: u32)
    requires
        old(cell_values)@.len() == GRID_CAPACITY,
        old(cell_hits)@.len() == GRID_CAPACITY,
        2 <= modulus <= 5,
        forall|i: int| 0 <= i < GRID_CAPACITY ==> #[trigger] old(cell_values)@[i] < modulus,
        forall|i: int| 0 <= i < 256 && #[trigger] mask.bit(i) ==> i < GRID_CAPACITY,
        forall|i: int| 0 <= i < GRID_CAPACITY ==> #[trigger] old(cell_hits)@[i] <= *old(running_max),
        *old(running_max) == max_upto(old(cell_hits)@, GRID_CAPACITY as int),
    ensures
        final(cell_values)@.len() == GRID_CAPACITY,
        final(cell_hits)@.len() == GRID_CAPACITY,
        forall|i: int|
            0 <= i < GRID_CAPACITY ==> #[trigger] final(cell_values)@[i] == sampled_after(
                old(cell_values)@,
                mask,
                modulus as int,
                i,
            ),
        forall|i: int| 0 <= i < GRID_CAPACITY ==> #[trigger] final(cell_values)@[i] < modulus,
        zeros <= mask.count(),
        value_sum(final(cell_values)@, GRID_CAPACITY as int) == value_sum(old(cell_values)@, GRID_CAPACITY as int)
            + modulus * zeros - mask.count(),
        forall|i: int| 0 <= i < GRID_CAPACITY ==> #[trigger] final(cell_hits)@[i] <= *final(running_max),
        *final(running_max) >= *old(running_max),
        forall|i: int|
            0 <= i < GRID_CAPACITY ==> #[trigger] final(cell_hits)@[i] == hit_after(old(cell_hits)@[i], mask.bit(i)),
        *final(running_max) == max_upto(final(cell_hits)@, GRID_CAPACITY as int),
{
    let ghost start = cell_values@;
    let ghost start_hits = cell_hits@;
    let mut remaining = mask;
    let mut zeros: u32 = 0;
    let ghost mut processed: int = 0;
    proof {
        bits::lemma_count_upto_bound(mask@, 256);
    }
    while !remaining.is_zero()
        invariant
            cell_values@.len() == GRID_CAPACITY,
            cell_hits@.len() == GRID_CAPACITY,
            2 <= modulus <= 5,
            start.len() == GRID_CAPACITY,
            forall|i: int| 0 <= i < GRID_CAPACITY ==> #[trigger] start[i] < modulus,
            forall|i: int| 0 <= i < 256 && #[trigger] mask.bit(i) ==> i < GRID_CAPACITY,
            forall|i: int| 0 <= i < 256 && #[trigger] remaining.bit(i) ==> mask.bit(i),
            processed + remaining.count() == mask.count(),
            mask.count() <= 256,
            zeros <= processed,
            forall|i: int|
                0 <= i < GRID_CAPACITY ==> #[trigger] cell_values@[i] == if mask.bit(i) && !remaining.bit(i) {
                    sampled_after(start, mask, modulus as int, i)
                } else {
                    start[i] as int
                },
            forall|i: int| 0 <= i < GRID_CAPACITY ==> #[trigger] cell_values@[i] < modulus,
            value_sum(cell_values@, GRID_CAPACITY as int) == value_sum(start, GRID_CAPACITY as int) + modulus * zeros
                - processed,
            forall|i: int| 0 <= i < GRID_CAPACITY ==> #[trigger] cell_hits@[i] <= *running_max,
            *running_max >= *old(running_max),
            start_hits == old(cell_hits)@,
            forall|i: int|
                0 <= i < GRID_CAPACITY ==> #[trigger] cell_hits@[i] == if mask.bit(i) && !remaining.bit(i) {
                    hit_after(start_hits[i], true)
                } else {
                    start_hits[i]
                },
            *running_max == max_upto(cell_hits@, GRID_CAPACITY as int),
        decreases remaining.count(),
    {
        let bit = remaining.lowest_set_bit();
        assert(bit < 256) by {
            if bit == 256 {
                assert(forall|i: int| 0 <= i < 256 ==> !#[trigger] remaining.bit(i));
            }
        }
        let ghost before = remaining;
        let index = bit as usize;
        assert(mask.bit(bit as int));
        let old_value = cell_values[index];
        if old_value == 0 {
            zeros = zeros + 1;
        }
        let new_value = if old_value == 0 {
            modulus - 1
        } else {
            old_value - 1
        };
        proof {
            lemma_value_sum_update(cell_values@, index as int, new_value, GRID_CAPACITY as int);
            let z: int = if old_value == 0 { 1 } else { 0 };
            assert(new_value - old_value == modulus * z - 1);
            assert(modulus * (zeros as int) == modulus * (zeros as int - z) + modulus * z) by (nonlinear_arith);
        }
        cell_values.set(index, new_value);
        let hits = if cell_hits[index] < 255 {
            cell_hits[index] + 1
        } else {
            255
        };
        proof {
            lemma_max_update(cell_hits@, index as int, hits, GRID_CAPACITY as int);
        }
        cell_hits.set(index, hits);
        if hits > *running_max {
            *running_max = hits;
        }
        remaining.clear_bit(bit);
        proof {
            bits::lemma_count_clear(before@, remaining@, bit as int, 256);
            processed = processed + 1;
        }
    }
    proof {
        bits::lemma_count_upto_empty(remaining@, 256);
    }
    zeros
}

/// 1 when the values at `a` and `b` differ.
pub open spec fn differs(vals: Seq<u8>, a: int, b: int) -> int {
    if vals[a] != vals[b] {
        1
    } else {
        0
    }
}

/// Mismatches of cell (row, col) with its right and lower neighbours on an
/// `h` by `w` grid.
pub open spec fn cell_mismatches(vals: Seq<u8>, h: int, w: int, row: int, col: int) -> int {
    (if col + 1 < w {
        differs(vals, 15 * row + col, 15 * row + col + 1)
    } else {
        0
    }) + (if row + 1 < h {
        differs(vals, 15 * row + col, 15 * (row + 1) + col)
    } else {
        0
    })
}

/// Mismatches of the first `c` cells of row `row`.
pub open spec fn row_mismatches(vals: Seq<u8>, h: int, w: int, row: int, c: int) -> int
    decreases c,
{
    if c <= 0 {
        0
    } else {
        row_mismatches(vals, h, w, row, c - 1) + cell_mismatches(vals, h, w, row, c - 1)
    }
}

/// Adjacent pairs of differing values among the first `r` rows of an `h`
/// by `w` grid.
pub open spec fn grid_mismatches(vals: Seq<u8>, h: int, w: int, r: int) -> int
    decreases r,
{
    if r <= 0 {
        0
    } else {
        grid_mismatches(vals, h, w, r - 1) + row_mismatches(vals, h, w, r - 1, w)
    }
}

/// Number of horizontally or vertically adjacent cells of an `height` by
/// `width` grid that hold different values.
fn count_adjacent_mismatches(cell_values: &Vec<u8>, height: usize, width: usize) -> (r: u32)
    requires
        cell_values@.len() == GRID_CAPACITY,
        1 <= height <= 14,
        1 <= width <= 14,
    ensures
        r == grid_mismatches(cell_values@, height as int, width as int, height as int),
        r <= 392,
{
    let mut mismatch_count: u32 = 0;
    let mut row: usize = 0;
    while row < height
        invariant
            cell_values@.len() == GRID_CAPACITY,
            1 <= height <= 14,
            1 <= width <= 14,
            row <= height,
            mismatch_count == grid_mismatches(cell_values@, height as int, width as int, row as int),
            mismatch_count <= 28 * row,
        decreases height - row,
    {
        let mut column: usize = 0;
        let ghost base = mismatch_count;
        while column < width
            invariant
                cell_values@.len() == GRID_CAPACITY,
                1 <= height <= 14,
                1 <= width <= 14,
                row < height,
                column <= width,
                base == grid_mismatches(cell_values@, height as int, width as int, row as int),
                base <= 28 * row,
                mismatch_count == base + row_mismatches(cell_values@, height as int, width as int, row as int, column as int),
                mismatch_count <= 28 * row + 2 * column,
            decreases width - column,
        {
            let value = cell_values[row * 15 + column];
            if column + 1 < width && cell_values[row * 15 + column + 1] != value {
                mismatch_count = mismatch_count + 1;
            }
            if row + 1 < height && cell_values[(row + 1) * 15 + column] != value {
                mismatch_count = mismatch_count + 1;
            }
            column = column + 1;
        }
        row = row + 1;
    }
    mismatch_count
}

/// Sampled trajectories per direction.
pub const TRIAL_COUNT: usize = 100000;

/// Trajectories are grouped by their largest hit count, capped here.
pub const MAX_BUCKETS: usize = 32;

/// Bounds from one subset of the sampled trajectories, by depth (pieces
/// placed) or by reverse depth (pieces still to place).
pub struct MonteCarloLevel {
    pub max_hits_at_depth: Vec<u8>,
    pub max_deficit_at_depth: Vec<u32>,
    pub max_jaggedness_at_depth: Vec<u32>,
    pub max_reverse_deficit: Vec<u32>,
    pub max_reverse_jaggedness: Vec<u32>,
}

/// Every table of the level has an entry for each depth `0..=piece_count`.
pub open spec fn level_wf(l: MonteCarloLevel, piece_count: int) -> bool {
    &&& l.max_hits_at_depth@.len() == piece_count + 1
    &&& l.max_deficit_at_depth@.len() == piece_count + 1
    &&& l.max_jaggedness_at_depth@.len() == piece_count + 1
    &&& l.max_reverse_deficit@.len() == piece_count + 1
    &&& l.max_reverse_jaggedness@.len() == piece_count + 1
}

/// The level that bounds nothing but the deficit and jaggedness it allows
/// without limit.
pub open spec fn is_unbounded_fallback(l: MonteCarloLevel) -> bool {
    &&& forall|d: int| 0 <= d < l.max_jaggedness_at_depth@.len() ==> #[trigger] l.max_jaggedness_at_depth@[d] == u32::MAX
    &&& forall|d: int| 0 <= d < l.max_reverse_deficit@.len() ==> #[trigger] l.max_reverse_deficit@[d] == u32::MAX
    &&& forall|d: int| 0 <= d < l.max_reverse_jaggedness@.len() ==> #[trigger] l.max_reverse_jaggedness@[d] == u32::MAX
}

/// `n` copies of `value`.
fn filled(n: usize, value: u32) -> (r: Vec<u32>)
    ensures
        r@.len() == n,
        forall|i: int| 0 <= i < n ==> #[trigger] r@[i] == value,
{
    let r = vec![value; n];
    proof {
        assert forall|i: int| 0 <= i < n implies #[trigger] r@[i] == value by {
            assert(cloned(value, r@[i]));
        }
    }
    r
}

/// `n` zero bytes.
fn zero_bytes(n: usize) -> (r: Vec<u8>)
    ensures
        r@.len() == n,
        forall|i: int| 0 <= i < n ==> #[trigger] r@[i] == 0,
{
    let r = vec![0u8; n];
    proof {
        assert forall|i: int| 0 <= i < n implies #[trigger] r@[i] == 0 by {
            assert(cloned(0u8, r@[i]));
        }
    }
    r
}

/// A copy of `v`.
fn copy_u32s(v: &Vec<u32>) -> (r: Vec<u32>)
    ensures
        r@ == v@,
{
    let r = v.clone();
    proof {
        assert forall|i: int| 0 <= i < v@.len() implies #[trigger] r@[i] == v@[i] by {
            assert(cloned(v[i], r[i]));
        }
        assert(r@ =~= v@);
    }
    r
}

/// A copy of `v`.
fn copy_u8s(v: &Vec<u8>) -> (r: Vec<u8>)
    ensures
        r@ == v@,
{
    let r = v.clone();
    proof {
        assert forall|i: int| 0 <= i < v@.len() implies #[trigger] r@[i] == v@[i] by {
            assert(cloned(v[i], r[i]));
        }
        assert(r@ =~= v@);
    }
    r
}

/// The level of a search that cannot be sampled: no hit threshold, and no
/// deficit or jaggedness limit.
fn unbounded_level(piece_count: usize) -> (l: MonteCarloLevel)
    requires
        piece_count < usize::MAX,
    ensures
        level_wf(l, piece_count as int),
        is_unbounded_fallback(l),
        forall|d: int| 0 <= d <= piece_count ==> #[trigger] l.max_hits_at_depth@[d] == 0,
        forall|d: int| 0 <= d <= piece_count ==> #[trigger] l.max_deficit_at_depth@[d] == u32::MAX,
{
    let mut hits: Vec<u8> = Vec::new();
    while hits.len() < piece_count + 1
        invariant
            piece_count < usize::MAX,
            hits@.len() <= piece_count + 1,
            forall|i: int| 0 <= i < hits@.len() ==> #[trigger] hits@[i] == 0,
        decreases piece_count + 1 - hits@.len(),
    {
        hits.push(0);
    }
    MonteCarloLevel {
        max_hits_at_depth: hits,
        max_deficit_at_depth: filled(piece_count + 1, u32::MAX),
        max_jaggedness_at_depth: filled(piece_count + 1, u32::MAX),
        max_reverse_deficit: filled(piece_count + 1, u32::MAX),
        max_reverse_jaggedness: filled(piece_count + 1, u32::MAX),
    }
}

/// Largest value at `depth` over the buckets below `upto` that hold a
/// sample, in a table of `MAX_BUCKETS` buckets per depth; 0 if none does.
pub open spec fn bucket_max(vals: Seq<u32>, counts: Seq<u32>, depth: int, upto: int) -> int
    decreases upto,
{
    if upto <= 0 {
        0
    } else {
        let prev = bucket_max(vals, counts, depth, upto - 1);
        let v = vals[depth * 32 + upto - 1] as int;
        if counts[upto - 1] != 0 && v > prev {
            v
        } else {
            prev
        }
    }
}

/// The level built from the trajectories whose largest hit count falls in
/// a bucket up to `maximum_bucket`.
fn build_level(
    counts: &Vec<u32>,
    hits: &Vec<u32>,
    deficits: &Vec<u32>,
    jaggedness: &Vec<u32>,
    reverse_deficit: &Vec<u32>,
    reverse_jaggedness: &Vec<u32>,
    piece_count: usize,
    maximum_bucket: usize,
) -> (l: MonteCarloLevel)
    requires
        piece_count <= 4096,
        counts@.len() == MAX_BUCKETS,
        hits@.len() == (piece_count + 1) * 32,
        deficits@.len() == (piece_count + 1) * 32,
        jaggedness@.len() == (piece_count + 1) * 32,
        reverse_deficit@.len() == piece_count + 1,
        reverse_jaggedness@.len() == piece_count + 1,
        forall|i: int| 0 <= i < hits@.len() ==> #[trigger] hits@[i] <= 255,
        maximum_bucket < MAX_BUCKETS,
    ensures
        level_wf(l, piece_count as int),
        forall|d: int|
            0 <= d <= piece_count ==> #[trigger] l.max_hits_at_depth@[d] == if bucket_max(
                hits@,
                counts@,
                d,
                maximum_bucket + 1,
            ) + 1 < 31 {
                bucket_max(hits@, counts@, d, maximum_bucket + 1) + 1
            } else {
                31
            },
        forall|d: int|
            0 <= d <= piece_count ==> #[trigger] l.max_deficit_at_depth@[d] == bucket_max(
                deficits@,
                counts@,
                d,
                maximum_bucket + 1,
            ),
        forall|d: int|
            0 <= d <= piece_count ==> #[trigger] l.max_jaggedness_at_depth@[d] == bucket_max(
                jaggedness@,
                counts@,
                d,
                maximum_bucket + 1,
            ),
        l.max_reverse_deficit@ == reverse_deficit@,
        l.max_reverse_jaggedness@ == reverse_jaggedness@,
{
    let mut max_hits: Vec<u8> = Vec::new();
    let mut max_deficit: Vec<u32> = Vec::new();
    let mut max_jaggedness: Vec<u32> = Vec::new();
    let mut depth: usize = 0;
    while depth <= piece_count
        invariant
            piece_count <= 4096,
            counts@.len() == MAX_BUCKETS,
            hits@.len() == (piece_count + 1) * 32,
            deficits@.len() == (piece_count + 1) * 32,
            jaggedness@.len() == (piece_count + 1) * 32,
            forall|i: int| 0 <= i < hits@.len() ==> #[trigger] hits@[i] <= 255,
            maximum_bucket < MAX_BUCKETS,
            depth <= piece_count + 1,
            max_hits@.len() == depth,
            max_deficit@.len() == depth,
            max_jaggedness@.len() == depth,
            forall|d: int|
                0 <= d < depth ==> #[trigger] max_hits@[d] == if bucket_max(hits@, counts@, d, maximum_bucket + 1) + 1
                    < 31 {
                    bucket_max(hits@, counts@, d, maximum_bucket + 1) + 1
                } else {
                    31
                },
            forall|d: int|
                0 <= d < depth ==> #[trigger] max_deficit@[d] == bucket_max(deficits@, counts@, d, maximum_bucket + 1),
            forall|d: int|
                0 <= d < depth ==> #[trigger] max_jaggedness@[d] == bucket_max(jaggedness@, counts@, d, maximum_bucket + 1),
        decreases piece_count + 1 - depth,
    {
        let mut most_hits: u32 = 0;
        let mut most_deficit: u32 = 0;
        let mut most_jaggedness: u32 = 0;
        let mut bucket_index: usize = 0;
        while bucket_index <= maximum_bucket
            invariant
                piece_count <= 4096,
                depth <= piece_count,
                counts@.len() == MAX_BUCKETS,
                hits@.len() == (piece_count + 1) * 32,
                deficits@.len() == (piece_count + 1) * 32,
                jaggedness@.len() == (piece_count + 1) * 32,
                forall|i: int| 0 <= i < hits@.len() ==> #[trigger] hits@[i] <= 255,
                maximum_bucket < MAX_BUCKETS,
                bucket_index <= maximum_bucket + 1,
                most_hits == bucket_max(hits@, counts@, depth as int, bucket_index as int),
                most_hits <= 255,
                most_deficit == bucket_max(deficits@, counts@, depth as int, bucket_index as int),
                most_jaggedness == bucket_max(jaggedness@, counts@, depth as int, bucket_index as int),
            decreases maximum_bucket + 1 - bucket_index,
        {
            let index = depth * 32 + bucket_index;
            if counts[bucket_index] != 0 {
                if hits[index] > most_hits {
                    most_hits = hits[index];
                }
                if deficits[index] > most_deficit {
                    most_deficit = deficits[index];
                }
                if jaggedness[index] > most_jaggedness {
                    most_jaggedness = jaggedness[index];
                }
            }
            bucket_index = bucket_index + 1;
        }
        let capped: u8 = if most_hits + 1 < 31 {
            (most_hits + 1) as u8
        } else {
            31
        };
        max_hits.push(capped);
        max_deficit.push(most_deficit);
        max_jaggedness.push(most_jaggedness);
        depth = depth + 1;
    }
    MonteCarloLevel {
        max_hits_at_depth: max_hits,
        max_deficit_at_depth: max_deficit,
        max_jaggedness_at_depth: max_jaggedness,
        max_reverse_deficit: copy_u32s(reverse_deficit),
        max_reverse_jaggedness: copy_u32s(reverse_jaggedness),
    }
}

proof fn lemma_value_sum_bounds(vals: Seq<u8>, n: int)
    requires
        0 <= n <= vals.len(),
    ensures
        0 <= value_sum(vals, n) <= 255 * n,
    decreases n,
{
    if n > 0 {
        lemma_value_sum_bounds(vals, n - 1);
    }
}

/// Values equal to the board's cells sum to the board's deficit so far.
proof fn lemma_values_deficit(b: Board, vals: Seq<u8>, n: int)
    requires
        0 <= n <= vals.len(),
        forall|i: int| 0 <= i < n ==> #[trigger] vals[i] == b.cell(i),
    ensures
        value_sum(vals, n) == b.deficit_upto(n),
    decreases n,
{
    if n > 0 {
        lemma_values_deficit(b, vals, n - 1);
    }
}

/// No cell past the 15th row holds a value.
proof fn lemma_deficit_tail(b: Board, n: int)
    requires
        b.wf(),
        GRID_CAPACITY <= n <= 256,
    ensures
        b.deficit_upto(n) == b.deficit_upto(GRID_CAPACITY as int),
    decreases n,
{
    if n > GRID_CAPACITY {
        lemma_deficit_tail(b, n - 1);
        b.lemma_wf();
        assert(!b.valid(n - 1));
    }
}

/// The board's cells as a grid of values.
fn grid_values(board: &Board) -> (r: Vec<u8>)
    requires
        board.wf(),
    ensures
        r@.len() == GRID_CAPACITY,
        forall|i: int| 0 <= i < GRID_CAPACITY ==> #[trigger] r@[i] == board.cell(i),
        forall|i: int| 0 <= i < GRID_CAPACITY ==> #[trigger] r@[i] < board.modulus(),
        value_sum(r@, GRID_CAPACITY as int) == board.deficit(),
{
    proof {
        board.lemma_wf();
    }
    let height = board.height() as usize;
    let width = board.width() as usize;
    let mut values: Vec<u8> = Vec::new();
    let mut i: usize = 0;
    while i < GRID_CAPACITY
        invariant
            board.wf(),
            height == board.rows(),
            width == board.cols(),
            i <= GRID_CAPACITY,
            values@.len() == i,
            forall|j: int| 0 <= j < i ==> #[trigger] values@[j] == board.cell(j),
            forall|j: int| 0 <= j < i ==> #[trigger] values@[j] < board.modulus(),
        decreases GRID_CAPACITY - i,
    {
        let row = i / 15;
        let column = i % 15;
        proof {
            board.lemma_wf();
            bits::lemma_stride_split(i as int);
        }
        if row < height && column < width {
            let value = board.get(row, column);
            values.push(value);
        } else {
            assert(!board.valid(i as int));
            values.push(0);
        }
        i = i + 1;
    }
    proof {
        lemma_values_deficit(*board, values@, GRID_CAPACITY as int);
        lemma_deficit_tail(*board, 256);
    }
    values
}

/// The cells with a right neighbour, and those with a lower neighbour, on a
/// `height` by `width` board.
fn adjacency_masks(height: usize, width: usize) -> (r: (Bitboard, Bitboard))
    requires
        height <= 14,
        width <= 14,
    ensures
        forall|i: int|
            0 <= i < 256 ==> #[trigger] r.0.bit(i) == (i < GRID_CAPACITY && i / 15 < height && i % 15 + 1 < width),
        forall|i: int|
            0 <= i < 256 ==> #[trigger] r.1.bit(i) == (i < GRID_CAPACITY && i / 15 + 1 < height && i % 15 < width),
{
    let mut horizontal_mask = Bitboard::zero();
    let mut vertical_mask = Bitboard::zero();
    let mut i: usize = 0;
    while i < GRID_CAPACITY
        invariant
            height <= 14,
            width <= 14,
            i <= GRID_CAPACITY,
            forall|j: int|
                0 <= j < 256 ==> #[trigger] horizontal_mask.bit(j) == (j < i && j / 15 < height && j % 15 + 1 < width),
            forall|j: int|
                0 <= j < 256 ==> #[trigger] vertical_mask.bit(j) == (j < i && j / 15 + 1 < height && j % 15 < width),
        decreases GRID_CAPACITY - i,
    {
        let row = i / 15;
        let column = i % 15;
        if row < height && column + 1 < width {
            horizontal_mask.set_bit(i as u32);
        }
        if row + 1 < height && column < width {
            vertical_mask.set_bit(i as u32);
        }
        i = i + 1;
    }
    (horizontal_mask, vertical_mask)
}

/// What the sampling needs of the placement lists: at most 4096 pieces,
/// each with at least one placement, every mask within the value grid.
pub open spec fn samplable(placements: Seq<Vec<(usize, usize, Bitboard)>>) -> bool {
    &&& placements.len() <= 4096
    &&& forall|p: int| 0 <= p < placements.len() ==> (#[trigger] placements[p])@.len() > 0
    &&& forall|p: int, k: int, i: int|
        0 <= p < placements.len() && 0 <= k < placements[p]@.len() && 0 <= i < 256 && #[trigger] placements[p]@[k].2.bit(
            i,
        ) ==> i < GRID_CAPACITY
}

/// The cell values after placing, from `initial`, the chosen placement
/// `choice[k]` of piece `k` for each of the first `d` pieces.
pub open spec fn forward_values(
    initial: Seq<u8>,
    placements: Seq<Vec<(usize, usize, Bitboard)>>,
    choice: Seq<int>,
    m: int,
    d: int,
) -> Seq<u8>
    decreases d,
{
    if d <= 0 {
        initial
    } else {
        let before = forward_values(initial, placements, choice, m, d - 1);
        let mask = placements[d - 1]@[choice[d - 1]].2;
        Seq::new(GRID_CAPACITY as nat, |i: int| sampled_after(before, mask, m, i) as u8)
    }
}

/// The hit count of each cell (held at 255) after the first `d` chosen placements.
pub open spec fn forward_hits(placements: Seq<Vec<(usize, usize, Bitboard)>>, choice: Seq<int>, d: int) -> Seq<u8>
    decreases d,
{
    if d <= 0 {
        Seq::new(GRID_CAPACITY as nat, |i: int| 0u8)
    } else {
        let before = forward_hits(placements, choice, d - 1);
        let mask = placements[d - 1]@[choice[d - 1]].2;
        Seq::new(GRID_CAPACITY as nat, |i: int| hit_after(before[i], mask.bit(i)))
    }
}

/// `choice` picks a placement of each piece, the first piece first.
pub open spec fn forward_choice(placements: Seq<Vec<(usize, usize, Bitboard)>>, choice: Seq<int>) -> bool {
    &&& choice.len() == placements.len()
    &&& forall|k: int| 0 <= k < choice.len() ==> 0 <= #[trigger] choice[k] < placements[k]@.len()
}

/// The largest hit count of a trajectory after `d` pieces.
pub open spec fn trial_hits(placements: Seq<Vec<(usize, usize, Bitboard)>>, choice: Seq<int>, d: int) -> int {
    max_upto(forward_hits(placements, choice, d), GRID_CAPACITY as int)
}

/// The deficit of a trajectory after `d` pieces.
pub open spec fn trial_deficit(
    initial: Seq<u8>,
    placements: Seq<Vec<(usize, usize, Bitboard)>>,
    choice: Seq<int>,
    m: int,
    d: int,
) -> int {
    value_sum(forward_values(initial, placements, choice, m, d), GRID_CAPACITY as int)
}

/// The jaggedness of a trajectory after `d` pieces (`j0` before any).
pub open spec fn trial_jaggedness(
    initial: Seq<u8>,
    placements: Seq<Vec<(usize, usize, Bitboard)>>,
    choice: Seq<int>,
    m: int,
    h: int,
    w: int,
    j0: int,
    d: int,
) -> int {
    if d <= 0 {
        j0
    } else {
        grid_mismatches(forward_values(initial, placements, choice, m, d), h, w, h)
    }
}

/// A forward trajectory that took the placements `choice`: its largest hit
/// count at the end, and by depth its largest hit count, deficit and
/// jaggedness.
pub open spec fn forward_outcome(
    initial: Seq<u8>,
    placements: Seq<Vec<(usize, usize, Bitboard)>>,
    choice: Seq<int>,
    m: int,
    h: int,
    w: int,
    j0: int,
    run_max: int,
    hits: Seq<u32>,
    deficits: Seq<u32>,
    jaggedness: Seq<u32>,
) -> bool {
    &&& forward_choice(placements, choice)
    &&& run_max == trial_hits(placements, choice, placements.len() as int)
    &&& forall|d: int| 0 <= d <= placements.len() ==> #[trigger] hits[d] == trial_hits(placements, choice, d)
    &&& forall|d: int|
        0 <= d <= placements.len() ==> #[trigger] deficits[d] == trial_deficit(initial, placements, choice, m, d)
    &&& forall|d: int|
        0 <= d <= placements.len() ==> #[trigger] jaggedness[d] == trial_jaggedness(initial, placements, choice, m, h, w, j0, d)
}

/// The values and hits after `d` steps depend on the first `d` choices only.
proof fn lemma_forward_prefix(
    initial: Seq<u8>,
    placements: Seq<Vec<(usize, usize, Bitboard)>>,
    c1: Seq<int>,
    c2: Seq<int>,
    m: int,
    d: int,
)
    requires
        forall|k: int| 0 <= k < d ==> c1[k] == c2[k],
    ensures
        forward_values(initial, placements, c1, m, d) == forward_values(initial, placements, c2, m, d),
        forward_hits(placements, c1, d) == forward_hits(placements, c2, d),
    decreases d,
{
    if d > 0 {
        lemma_forward_prefix(initial, placements, c1, c2, m, d - 1);
        assert(c1[d - 1] == c2[d - 1]);
    }
}

/// One forward trajectory: a random placement of each piece in turn,
/// starting from `initial_values`. Returns the largest hit count, and by
/// depth the largest hit count so far, the deficit and the jaggedness.
fn forward_trial(
    initial_values: &Vec<u8>,
    initial_deficit: u32,
    initial_jaggedness: u32,
    placements: &Vec<Vec<(usize, usize, Bitboard)>>,
    rng: &mut SmallRng,
    modulus: u8,
    height: usize,
    width: usize,
) -> (r: (u8, Vec<u32>, Vec<u32>, Vec<u32>))
    requires
        initial_values@.len() == GRID_CAPACITY,
        2 <= modulus <= 5,
        forall|i: int| 0 <= i < GRID_CAPACITY ==> #[trigger] initial_values@[i] < modulus,
        value_sum(initial_values@, GRID_CAPACITY as int) == initial_deficit,
        1 <= height <= 14,
        1 <= width <= 14,
        samplable(placements@),
    ensures
        r.1@.len() == placements@.len() + 1,
        r.2@.len() == placements@.len() + 1,
        r.3@.len() == placements@.len() + 1,
        forall|d: int| 0 <= d < r.1@.len() ==> #[trigger] r.1@[d] <= 255,
        r.2@[0] == initial_deficit,
        r.3@[0] == initial_jaggedness,
        exists|choice: Seq<int>|
            #[trigger] forward_outcome(
                initial_values@,
                placements@,
                choice,
                modulus as int,
                height as int,
                width as int,
                initial_jaggedness as int,
                r.0 as int,
                r.1@,
                r.2@,
                r.3@,
            ),
{
    let piece_count = placements.len();
    let mut cell_hits = zero_bytes(GRID_CAPACITY);
    let mut cell_values = copy_u8s(initial_values);
    let mut deficit = initial_deficit;
    let mut running_max_hits: u8 = 0;
    let mut max_hits_by_depth = filled(piece_count + 1, 0);
    let mut deficit_by_depth = filled(piece_count + 1, 0);
    let mut jaggedness_by_depth = filled(piece_count + 1, 0);
    deficit_by_depth.set(0, deficit);
    jaggedness_by_depth.set(0, initial_jaggedness);
    let modulus_u32 = modulus as u32;
    let ghost m = modulus as int;
    let ghost init = initial_values@;
    let ghost mut choice: Seq<int> = Seq::empty();
    proof {
        lemma_max_zero(cell_hits@, GRID_CAPACITY as int);
        assert(cell_hits@ =~= forward_hits(placements@, choice, 0));
    }
    let mut piece_index: usize = 0;
    while piece_index < piece_count
        invariant
            m == modulus,
            init == initial_values@,
            init.len() == GRID_CAPACITY,
            value_sum(init, GRID_CAPACITY as int) == initial_deficit,
            choice.len() == piece_index,
            forall|k: int| 0 <= k < choice.len() ==> 0 <= #[trigger] choice[k] < placements@[k]@.len(),
            cell_values@ == forward_values(init, placements@, choice, m, piece_index as int),
            cell_hits@ == forward_hits(placements@, choice, piece_index as int),
            running_max_hits == max_upto(cell_hits@, GRID_CAPACITY as int),
            forall|d: int| 0 <= d <= piece_index ==> #[trigger] max_hits_by_depth@[d] == trial_hits(placements@, choice, d),
            forall|d: int| 0 <= d <= piece_index ==> #[trigger] deficit_by_depth@[d] == trial_deficit(init, placements@, choice, m, d),
            forall|d: int|
                0 <= d <= piece_index ==> #[trigger] jaggedness_by_depth@[d] == trial_jaggedness(
                    init,
                    placements@,
                    choice,
                    m,
                    height as int,
                    width as int,
                    initial_jaggedness as int,
                    d,
                ),
            piece_count == placements@.len(),
            samplable(placements@),
            2 <= modulus <= 5,
            modulus_u32 == modulus,
            1 <= height <= 14,
            1 <= width <= 14,
            cell_values@.len() == GRID_CAPACITY,
            cell_hits@.len() == GRID_CAPACITY,
            forall|i: int| 0 <= i < GRID_CAPACITY ==> #[trigger] cell_values@[i] < modulus,
            forall|i: int| 0 <= i < GRID_CAPACITY ==> #[trigger] cell_hits@[i] <= running_max_hits,
            deficit == value_sum(cell_values@, GRID_CAPACITY as int),
            piece_index <= piece_count,
            max_hits_by_depth@.len() == piece_count + 1,
            deficit_by_depth@.len() == piece_count + 1,
            jaggedness_by_depth@.len() == piece_count + 1,
            forall|d: int| 0 <= d < max_hits_by_depth@.len() ==> #[trigger] max_hits_by_depth@[d] <= 255,
            deficit_by_depth@[0] == initial_deficit,
            jaggedness_by_depth@[0] == initial_jaggedness,
        decreases piece_count - piece_index,
    {
        let piece_placements = &placements[piece_index];
        let placement_index = random_below(rng, piece_placements.len());
        let mask = piece_placements[placement_index].2;
        let ghost before = cell_values@;
        let ghost old_choice = choice;
        proof {
            choice = choice.push(placement_index as int);
            assert forall|d: int| 0 <= d <= piece_index implies forward_values(init, placements@, choice, m, d)
                == #[trigger] forward_values(init, placements@, old_choice, m, d) && forward_hits(placements@, choice, d)
                == forward_hits(placements@, old_choice, d) by {
                lemma_forward_prefix(init, placements@, choice, old_choice, m, d);
            }
        }
        let zeros_hit = apply_sample(&mut cell_values, &mut cell_hits, &mut running_max_hits, mask, modulus);
        proof {
            assert(cell_values@ =~= forward_values(init, placements@, choice, m, piece_index + 1));
            assert(cell_hits@ =~= forward_hits(placements@, choice, piece_index + 1));
        }
        let count = mask.count_ones();
        proof {
            lemma_value_sum_bounds(before, GRID_CAPACITY as int);
            lemma_value_sum_bounds(cell_values@, GRID_CAPACITY as int);
            assert(modulus_u32 * zeros_hit <= 5 * 256) by (nonlinear_arith)
                requires
                    modulus_u32 <= 5,
                    zeros_hit <= 256,
            ;
        }
        deficit = deficit + modulus_u32 * zeros_hit - count;
        let depth = piece_index + 1;
        deficit_by_depth.set(depth, deficit);
        max_hits_by_depth.set(depth, running_max_hits as u32);
        let mismatches = count_adjacent_mismatches(&cell_values, height, width);
        jaggedness_by_depth.set(depth, mismatches);
        proof {
            assert forall|d: int| 0 <= d <= depth implies #[trigger] max_hits_by_depth@[d] == trial_hits(placements@, choice, d)
                && deficit_by_depth@[d] == trial_deficit(init, placements@, choice, m, d) && jaggedness_by_depth@[d]
                == trial_jaggedness(init, placements@, choice, m, height as int, width as int, initial_jaggedness as int, d) by {
                if d < depth {
                    assert(forward_values(init, placements@, choice, m, d) == forward_values(init, placements@, old_choice, m, d));
                }
            }
        }
        piece_index = piece_index + 1;
    }
    let r = (running_max_hits, max_hits_by_depth, deficit_by_depth, jaggedness_by_depth);
    proof {
        assert(forward_outcome(
            initial_values@,
            placements@,
            choice,
            modulus as int,
            height as int,
            width as int,
            initial_jaggedness as int,
            r.0 as int,
            r.1@,
            r.2@,
            r.3@,
        ));
    }
    r
}

/// The cell values after placing, on a solved board, the chosen placement
/// `choice[k]` of piece `n - 1 - k` for each of the first `d` steps `k`.
pub open spec fn reverse_values(placements: Seq<Vec<(usize, usize, Bitboard)>>, choice: Seq<int>, m: int, d: int) -> Seq<u8>
    decreases d,
{
    if d <= 0 {
        Seq::new(GRID_CAPACITY as nat, |i: int| 0u8)
    } else {
        let before = reverse_values(placements, choice, m, d - 1);
        let mask = placements[placements.len() - d]@[choice[d - 1]].2;
        Seq::new(GRID_CAPACITY as nat, |i: int| sampled_after(before, mask, m, i) as u8)
    }
}

/// `choice` picks a placement of each piece, the last piece first.
pub open spec fn reverse_choice(placements: Seq<Vec<(usize, usize, Bitboard)>>, choice: Seq<int>) -> bool {
    &&& choice.len() == placements.len()
    &&& forall|k: int|
        0 <= k < choice.len() ==> 0 <= #[trigger] choice[k] < placements[placements.len() - 1 - k]@.len()
}

/// `after` is `before` raised, at each depth `d` from 1 on, to `value(d)`.
pub open spec fn raised_to(before: Seq<u32>, after: Seq<u32>, value: spec_fn(int) -> int) -> bool {
    &&& after.len() == before.len()
    &&& after[0] == before[0]
    &&& forall|d: int|
        1 <= d < before.len() ==> #[trigger] after[d] == if value(d) > before[d] {
            value(d)
        } else {
            before[d] as int
        }
}

/// The outcome of one reverse trajectory that took the placements `choice`:
/// the deficit and jaggedness maxima are raised, at each number of pieces
/// placed, to what the trajectory reached there.
pub open spec fn reverse_outcome(
    placements: Seq<Vec<(usize, usize, Bitboard)>>,
    choice: Seq<int>,
    m: int,
    h: int,
    w: int,
    old_deficit: Seq<u32>,
    old_jaggedness: Seq<u32>,
    new_deficit: Seq<u32>,
    new_jaggedness: Seq<u32>,
) -> bool {
    &&& reverse_choice(placements, choice)
    &&& raised_to(
        old_deficit,
        new_deficit,
        |d: int| value_sum(reverse_values(placements, choice, m, d), GRID_CAPACITY as int),
    )
    &&& raised_to(
        old_jaggedness,
        new_jaggedness,
        |d: int| grid_mismatches(reverse_values(placements, choice, m, d), h, w, h),
    )
}

/// One reverse trajectory: from a solved board, a random placement of each
/// piece from the last to the first, raising `max_reverse_deficit` and
/// `max_reverse_jaggedness` (by pieces placed so far) to what it reaches.
/// Which placements are taken is up to the generator.
fn reverse_trial(
    placements: &Vec<Vec<(usize, usize, Bitboard)>>,
    rng: &mut SmallRng,
    modulus: u8,
    height: usize,
    width: usize,
    max_reverse_deficit: &mut Vec<u32>,
    max_reverse_jaggedness: &mut Vec<u32>,
)
    requires
        2 <= modulus <= 5,
        1 <= height <= 14,
        1 <= width <= 14,
        samplable(placements@),
        old(max_reverse_deficit)@.len() == placements@.len() + 1,
        old(max_reverse_jaggedness)@.len() == placements@.len() + 1,
    ensures
        final(max_reverse_deficit)@.len() == placements@.len() + 1,
        final(max_reverse_jaggedness)@.len() == placements@.len() + 1,
        forall|d: int|
            0 <= d <= placements@.len() ==> #[trigger] final(max_reverse_deficit)@[d] >= old(max_reverse_deficit)@[d],
        forall|d: int|
            0 <= d <= placements@.len() ==> #[trigger] final(max_reverse_jaggedness)@[d] >= old(
                max_reverse_jaggedness,
            )@[d],
        final(max_reverse_deficit)@[0] == old(max_reverse_deficit)@[0],
        final(max_reverse_jaggedness)@[0] == old(max_reverse_jaggedness)@[0],
        exists|choice: Seq<int>|
            #[trigger] reverse_outcome(
                placements@,
                choice,
                modulus as int,
                height as int,
                width as int,
                old(max_reverse_deficit)@,
                old(max_reverse_jaggedness)@,
                final(max_reverse_deficit)@,
                final(max_reverse_jaggedness)@,
            ),
{
    let piece_count = placements.len();
    let mut cell_values = zero_bytes(GRID_CAPACITY);
    let mut cell_hits = zero_bytes(GRID_CAPACITY);
    proof {
        lemma_values_zero_prefix(cell_values@, GRID_CAPACITY as int);
    }
    let mut running_max: u8 = 0;
    proof {
        lemma_max_zero(cell_hits@, GRID_CAPACITY as int);
    }
    let mut deficit: u32 = 0;
    let modulus_u32 = modulus as u32;
    let ghost start_deficit = max_reverse_deficit@;
    let ghost start_jaggedness = max_reverse_jaggedness@;
    let ghost m = modulus as int;
    let ghost mut choice: Seq<int> = Seq::empty();
    proof {
        assert(cell_values@ =~= reverse_values(placements@, choice, m, 0));
    }
    let mut reverse_index: usize = 0;
    while reverse_index < piece_count
        invariant
            piece_count == placements@.len(),
            samplable(placements@),
            2 <= modulus <= 5,
            modulus_u32 == modulus,
            1 <= height <= 14,
            1 <= width <= 14,
            cell_values@.len() == GRID_CAPACITY,
            cell_hits@.len() == GRID_CAPACITY,
            forall|i: int| 0 <= i < GRID_CAPACITY ==> #[trigger] cell_values@[i] < modulus,
            forall|i: int| 0 <= i < GRID_CAPACITY ==> #[trigger] cell_hits@[i] <= running_max,
            running_max == max_upto(cell_hits@, GRID_CAPACITY as int),
            deficit == value_sum(cell_values@, GRID_CAPACITY as int),
            reverse_index <= piece_count,
            max_reverse_deficit@.len() == piece_count + 1,
            max_reverse_jaggedness@.len() == piece_count + 1,
            forall|d: int| 0 <= d <= piece_count ==> #[trigger] max_reverse_deficit@[d] >= start_deficit[d],
            forall|d: int| 0 <= d <= piece_count ==> #[trigger] max_reverse_jaggedness@[d] >= start_jaggedness[d],
            max_reverse_deficit@[0] == start_deficit[0],
            max_reverse_jaggedness@[0] == start_jaggedness[0],
            m == modulus,
            choice.len() == reverse_index,
            forall|k: int|
                0 <= k < choice.len() ==> 0 <= #[trigger] choice[k] < placements@[piece_count - 1 - k]@.len(),
            cell_values@ == reverse_values(placements@, choice, m, reverse_index as int),
            forall|d: int|
                1 <= d <= reverse_index ==> #[trigger] max_reverse_deficit@[d] == if value_sum(
                    reverse_values(placements@, choice, m, d),
                    GRID_CAPACITY as int,
                ) > start_deficit[d] {
                    value_sum(reverse_values(placements@, choice, m, d), GRID_CAPACITY as int)
                } else {
                    start_deficit[d] as int
                },
            forall|d: int|
                1 <= d <= reverse_index ==> #[trigger] max_reverse_jaggedness@[d] == if grid_mismatches(
                    reverse_values(placements@, choice, m, d),
                    height as int,
                    width as int,
                    height as int,
                ) > start_jaggedness[d] {
                    grid_mismatches(reverse_values(placements@, choice, m, d), height as int, width as int, height as int)
                } else {
                    start_jaggedness[d] as int
                },
            forall|d: int| reverse_index < d <= piece_count ==> #[trigger] max_reverse_deficit@[d] == start_deficit[d],
            forall|d: int| reverse_index < d <= piece_count ==> #[trigger] max_reverse_jaggedness@[d] == start_jaggedness[d],
        decreases piece_count - reverse_index,
    {
        let piece_placements = &placements[piece_count - 1 - reverse_index];
        let placement_index = random_below(rng, piece_placements.len());
        let mask = piece_placements[placement_index].2;
        let ghost before = cell_values@;
        let ghost old_choice = choice;
        proof {
            choice = choice.push(placement_index as int);
            assert forall|d: int| 0 <= d <= reverse_index implies reverse_values(placements@, choice, m, d)
                == #[trigger] reverse_values(placements@, old_choice, m, d) by {
                lemma_reverse_values_prefix(placements@, choice, old_choice, m, d);
            }
        }
        let zeros_hit = apply_sample(&mut cell_values, &mut cell_hits, &mut running_max, mask, modulus);
        proof {
            assert(cell_values@ =~= reverse_values(placements@, choice, m, reverse_index + 1));
        }
        let count = mask.count_ones();
        proof {
            lemma_value_sum_bounds(before, GRID_CAPACITY as int);
            lemma_value_sum_bounds(cell_values@, GRID_CAPACITY as int);
            assert(modulus_u32 * zeros_hit <= 5 * 256) by (nonlinear_arith)
                requires
                    modulus_u32 <= 5,
                    zeros_hit <= 256,
            ;
        }
        deficit = deficit + modulus_u32 * zeros_hit - count;
        let reverse_depth = reverse_index + 1;
        if deficit > max_reverse_deficit[reverse_depth] {
            max_reverse_deficit.set(reverse_depth, deficit);
        }
        let mismatches = count_adjacent_mismatches(&cell_values, height, width);
        if mismatches > max_reverse_jaggedness[reverse_depth] {
            max_reverse_jaggedness.set(reverse_depth, mismatches);
        }
        proof {
            assert forall|d: int| 1 <= d <= reverse_index + 1 implies #[trigger] max_reverse_deficit@[d] == if value_sum(
                reverse_values(placements@, choice, m, d),
                GRID_CAPACITY as int,
            ) > start_deficit[d] {
                value_sum(reverse_values(placements@, choice, m, d), GRID_CAPACITY as int)
            } else {
                start_deficit[d] as int
            } by {
                if d <= reverse_index {
                    assert(reverse_values(placements@, choice, m, d) == reverse_values(placements@, old_choice, m, d));
                }
            }
            assert forall|d: int| 1 <= d <= reverse_index + 1 implies #[trigger] max_reverse_jaggedness@[d] == if grid_mismatches(
                reverse_values(placements@, choice, m, d),
                height as int,
                width as int,
                height as int,
            ) > start_jaggedness[d] {
                grid_mismatches(reverse_values(placements@, choice, m, d), height as int, width as int, height as int)
            } else {
                start_jaggedness[d] as int
            } by {
                if d <= reverse_index {
                    assert(reverse_values(placements@, choice, m, d) == reverse_values(placements@, old_choice, m, d));
                }
            }
        }
        reverse_index = reverse_index + 1;
    }
    proof {
        assert(reverse_outcome(
            placements@,
            choice,
            m,
            height as int,
            width as int,
            start_deficit,
            start_jaggedness,
            max_reverse_deficit@,
            max_reverse_jaggedness@,
        ));
    }
}

/// The values after `d` steps depend on the first `d` choices only.
proof fn lemma_reverse_values_prefix(
    placements: Seq<Vec<(usize, usize, Bitboard)>>,
    c1: Seq<int>,
    c2: Seq<int>,
    m: int,
    d: int,
)
    requires
        forall|k: int| 0 <= k < d ==> c1[k] == c2[k],
    ensures
        reverse_values(placements, c1, m, d) == reverse_values(placements, c2, m, d),
    decreases d,
{
    if d > 0 {
        lemma_reverse_values_prefix(placements, c1, c2, m, d - 1);
        assert(c1[d - 1] == c2[d - 1]);
    }
}



proof fn lemma_values_zero_prefix(vals: Seq<u8>, n: int)
    requires
        0 <= n <= vals.len(),
        forall|i: int| 0 <= i < n ==> #[trigger] vals[i] == 0,
    ensures
        value_sum(vals, n) == 0,
    decreases n,
{
    if n > 0 {
        lemma_values_zero_prefix(vals, n - 1);
    }
}

/// The final hit threshold of a level.
pub open spec fn final_hits(l: MonteCarloLevel) -> u8 {
    l.max_hits_at_depth@.last()
}

/// Table slot of depth `d`, bucket `b`.
pub open spec fn slot(d: int, b: int) -> int {
    d * 32 + b
}

proof fn lemma_slot_injective(d1: int, b1: int, d2: int, b2: int)
    requires
        0 <= b1 < 32,
        0 <= b2 < 32,
        slot(d1, b1) == slot(d2, b2),
    ensures
        d1 == d2,
        b1 == b2,
{
    assert(d1 == d2 && b1 == b2) by (nonlinear_arith)
        requires
            0 <= b1 < 32,
            0 <= b2 < 32,
            d1 * 32 + b1 == d2 * 32 + b2,
    ;
}

/// The board's cell values on the 15 by 15 grid.
pub open spec fn board_values(b: Board) -> Seq<u8> {
    Seq::new(GRID_CAPACITY as nat, |i: int| b.cell(i) as u8)
}

/// The bucket of a forward trajectory: its largest hit count, capped at 31.
pub open spec fn trial_bucket(placements: Seq<Vec<(usize, usize, Bitboard)>>, choice: Seq<int>) -> int {
    let h = trial_hits(placements, choice, placements.len() as int);
    if h < 31 {
        h
    } else {
        31
    }
}

/// A forward trajectory's largest hit count (`which` 0), deficit (1) or
/// jaggedness (2) after `d` pieces.
pub open spec fn trial_value(
    initial: Seq<u8>,
    placements: Seq<Vec<(usize, usize, Bitboard)>>,
    m: int,
    h: int,
    w: int,
    j0: int,
    choice: Seq<int>,
    which: int,
    d: int,
) -> int {
    if which == 0 {
        trial_hits(placements, choice, d)
    } else if which == 1 {
        trial_deficit(initial, placements, choice, m, d)
    } else {
        trial_jaggedness(initial, placements, choice, m, h, w, j0, d)
    }
}

/// How many of the first `t` forward trajectories fall in bucket `b`.
pub open spec fn bucket_size(placements: Seq<Vec<(usize, usize, Bitboard)>>, fc: Seq<Seq<int>>, b: int, t: int) -> int
    decreases t,
{
    if t <= 0 {
        0
    } else {
        bucket_size(placements, fc, b, t - 1) + if trial_bucket(placements, fc[t - 1]) == b {
            1int
        } else {
            0int
        }
    }
}

/// Over the first `t` forward trajectories in bucket `b`, the largest value
/// `which` after `d` pieces; 0 for none.
pub open spec fn bucket_peak(
    initial: Seq<u8>,
    placements: Seq<Vec<(usize, usize, Bitboard)>>,
    m: int,
    h: int,
    w: int,
    j0: int,
    fc: Seq<Seq<int>>,
    which: int,
    d: int,
    b: int,
    t: int,
) -> int
    decreases t,
{
    if t <= 0 {
        0
    } else {
        let rest = bucket_peak(initial, placements, m, h, w, j0, fc, which, d, b, t - 1);
        let v = trial_value(initial, placements, m, h, w, j0, fc[t - 1], which, d);
        if trial_bucket(placements, fc[t - 1]) == b && v > rest {
            v
        } else {
            rest
        }
    }
}

/// A reverse trajectory's deficit (`which` 0) or jaggedness (1) after `d` pieces.
pub open spec fn reverse_value(
    placements: Seq<Vec<(usize, usize, Bitboard)>>,
    choice: Seq<int>,
    m: int,
    h: int,
    w: int,
    which: int,
    d: int,
) -> int {
    if which == 0 {
        value_sum(reverse_values(placements, choice, m, d), GRID_CAPACITY as int)
    } else {
        grid_mismatches(reverse_values(placements, choice, m, d), h, w, h)
    }
}

/// Over the first `t` reverse trajectories, the largest value `which` after
/// `d` pieces (from the first piece on); 0 for none.
pub open spec fn reverse_peak(
    placements: Seq<Vec<(usize, usize, Bitboard)>>,
    rc: Seq<Seq<int>>,
    m: int,
    h: int,
    w: int,
    which: int,
    d: int,
    t: int,
) -> int
    decreases t,
{
    if t <= 0 {
        0
    } else {
        let rest = reverse_peak(placements, rc, m, h, w, which, d, t - 1);
        let v = reverse_value(placements, rc[t - 1], m, h, w, which, d);
        if d >= 1 && v > rest {
            v
        } else {
            rest
        }
    }
}

/// The bucket tables are those of the forward trajectories `fc` from
/// `initial`, and the reverse tables those of the reverse trajectories `rc`:
/// each entry the largest value some trajectory of its bucket reached.
pub open spec fn sampled_tables(
    initial: Seq<u8>,
    placements: Seq<Vec<(usize, usize, Bitboard)>>,
    m: int,
    h: int,
    w: int,
    j0: int,
    fc: Seq<Seq<int>>,
    rc: Seq<Seq<int>>,
    counts: Seq<u32>,
    hits: Seq<u32>,
    deficits: Seq<u32>,
    jaggedness: Seq<u32>,
    reverse_deficit: Seq<u32>,
    reverse_jaggedness: Seq<u32>,
) -> bool {
    let n = placements.len() as int;
    &&& fc.len() == TRIAL_COUNT
    &&& forall|t: int| 0 <= t < fc.len() ==> forward_choice(placements, #[trigger] fc[t])
    &&& rc.len() == TRIAL_COUNT
    &&& forall|t: int| 0 <= t < rc.len() ==> reverse_choice(placements, #[trigger] rc[t])
    &&& counts.len() == MAX_BUCKETS
    &&& forall|b: int| 0 <= b < MAX_BUCKETS ==> #[trigger] counts[b] == bucket_size(placements, fc, b, TRIAL_COUNT as int)
    &&& hits.len() == (n + 1) * 32
    &&& deficits.len() == (n + 1) * 32
    &&& jaggedness.len() == (n + 1) * 32
    &&& forall|d: int, b: int|
        0 <= d <= n && 0 <= b < 32 ==> {
            &&& #[trigger] hits[slot(d, b)] == bucket_peak(initial, placements, m, h, w, j0, fc, 0, d, b, TRIAL_COUNT as int)
            &&& deficits[slot(d, b)] == bucket_peak(initial, placements, m, h, w, j0, fc, 1, d, b, TRIAL_COUNT as int)
            &&& jaggedness[slot(d, b)] == bucket_peak(initial, placements, m, h, w, j0, fc, 2, d, b, TRIAL_COUNT as int)
        }
    &&& reverse_deficit.len() == n + 1
    &&& reverse_jaggedness.len() == n + 1
    &&& forall|d: int|
        0 <= d <= n ==> #[trigger] reverse_deficit[d] == reverse_peak(placements, rc, m, h, w, 0, d, TRIAL_COUNT as int)
            && reverse_jaggedness[d] == reverse_peak(placements, rc, m, h, w, 1, d, TRIAL_COUNT as int)
}

/// How many trajectories a table entry of depth `d` has taken in, while
/// the entries below `depth` have taken in the current one.
pub open spec fn trials_counted(d: int, depth: int, trial: int) -> int {
    if d < depth {
        trial + 1
    } else {
        trial
    }
}

/// The three bucket tables hold, at depth `d` and bucket `b`, the peaks of
/// the first `t` forward trajectories.
pub open spec fn peaks_hold(
    initial: Seq<u8>,
    placements: Seq<Vec<(usize, usize, Bitboard)>>,
    m: int,
    h: int,
    w: int,
    j0: int,
    fc: Seq<Seq<int>>,
    hits: Seq<u32>,
    deficits: Seq<u32>,
    jaggedness: Seq<u32>,
    d: int,
    b: int,
    t: int,
) -> bool {
    &&& hits[slot(d, b)] == bucket_peak(initial, placements, m, h, w, j0, fc, 0, d, b, t)
    &&& deficits[slot(d, b)] == bucket_peak(initial, placements, m, h, w, j0, fc, 1, d, b, t)
    &&& jaggedness[slot(d, b)] == bucket_peak(initial, placements, m, h, w, j0, fc, 2, d, b, t)
}

/// Peaks and bucket sizes over the first `t` trajectories read only those.
proof fn lemma_peaks_prefix(
    initial: Seq<u8>,
    placements: Seq<Vec<(usize, usize, Bitboard)>>,
    m: int,
    h: int,
    w: int,
    j0: int,
    f1: Seq<Seq<int>>,
    f2: Seq<Seq<int>>,
    t: int,
)
    requires
        0 <= t,
        forall|k: int| 0 <= k < t ==> f1[k] == f2[k],
    ensures
        forall|b: int| #[trigger] bucket_size(placements, f1, b, t) == bucket_size(placements, f2, b, t),
        forall|which: int, d: int, b: int|
            #[trigger] bucket_peak(initial, placements, m, h, w, j0, f1, which, d, b, t) == bucket_peak(
                initial,
                placements,
                m,
                h,
                w,
                j0,
                f2,
                which,
                d,
                b,
                t,
            ),
        forall|which: int, d: int|
            #[trigger] reverse_peak(placements, f1, m, h, w, which, d, t) == reverse_peak(placements, f2, m, h, w, which, d, t),
    decreases t,
{
    if t > 0 {
        lemma_peaks_prefix(initial, placements, m, h, w, j0, f1, f2, t - 1);
        assert(f1[t - 1] == f2[t - 1]);
        assert forall|b: int| #[trigger] bucket_size(placements, f1, b, t) == bucket_size(placements, f2, b, t) by {
            assert(bucket_size(placements, f1, b, t - 1) == bucket_size(placements, f2, b, t - 1));
        }
        assert forall|which: int, d: int, b: int|
            #[trigger] bucket_peak(initial, placements, m, h, w, j0, f1, which, d, b, t) == bucket_peak(
                initial,
                placements,
                m,
                h,
                w,
                j0,
                f2,
                which,
                d,
                b,
                t,
            ) by {
            assert(bucket_peak(initial, placements, m, h, w, j0, f1, which, d, b, t - 1) == bucket_peak(
                initial,
                placements,
                m,
                h,
                w,
                j0,
                f2,
                which,
                d,
                b,
                t - 1,
            ));
        }
        assert forall|which: int, d: int|
            #[trigger] reverse_peak(placements, f1, m, h, w, which, d, t) == reverse_peak(placements, f2, m, h, w, which, d, t) by {
            assert(reverse_peak(placements, f1, m, h, w, which, d, t - 1) == reverse_peak(placements, f2, m, h, w, which, d, t - 1));
        }
    }
}

/// The levels built from sampled trajectories for `placements` on `board`:
/// at least one, each with an entry per depth, the last without jaggedness
/// or reverse deficit limits; a single level with no hit or deficit limit
/// where some piece has no placement (or there is no piece); otherwise the
/// levels that the bucket tables give, where the tables are the peaks of
/// some `TRIAL_COUNT` forward trajectories (a placement of each piece in
/// turn, from the board) grouped by largest hit count, and of some
/// `TRIAL_COUNT` reverse trajectories (the last piece first, from a solved
/// board).
pub open spec fn sampled_levels(r: Seq<MonteCarloLevel>, board: Board, placements: Seq<Vec<(usize, usize, Bitboard)>>) -> bool {
    &&& r.len() >= 1
    &&& forall|k: int| 0 <= k < r.len() ==> #[trigger] level_wf(r[k], placements.len() as int)
    &&& is_unbounded_fallback(r.last())
    &&& (placements.len() == 0 || exists|q: int| 0 <= q < placements.len() && (#[trigger] placements[q])@.len() == 0) ==> r.len() == 1 && forall|d: int|
        0 <= d <= placements.len() ==> #[trigger] r[0].max_hits_at_depth@[d] == 0
            && r[0].max_deficit_at_depth@[d] == u32::MAX
    &&& !(placements.len() == 0 || exists|q: int| 0 <= q < placements.len() && (#[trigger] placements[q])@.len() == 0) ==> exists|
        counts: Seq<u32>,
        hits: Seq<u32>,
        deficits: Seq<u32>,
        jaggedness: Seq<u32>,
        reverse_deficit: Seq<u32>,
        reverse_jaggedness: Seq<u32>,
        j0: int,
        fc: Seq<Seq<int>>,
        rc: Seq<Seq<int>>,
    |
        #![trigger levels_of_tables(r, counts, hits, deficits, jaggedness, reverse_deficit, reverse_jaggedness, placements.len() as int), sampled_tables(board_values(board), placements, board.modulus(), board.rows(), board.cols(), j0, fc, rc, counts, hits, deficits, jaggedness, reverse_deficit, reverse_jaggedness)]
        levels_of_tables(
            r,
            counts,
            hits,
            deficits,
            jaggedness,
            reverse_deficit,
            reverse_jaggedness,
            placements.len() as int,
        ) && sampled_tables(
            board_values(board),
            placements,
            board.modulus(),
            board.rows(),
            board.cols(),
            j0,
            fc,
            rc,
            counts,
            hits,
            deficits,
            jaggedness,
            reverse_deficit,
            reverse_jaggedness,
        )
}

/// Sample random forward and reverse trajectories of the pieces' placements
/// on `board` and build the bound levels: one per percentile of the
/// trajectories by largest hit count (skipping levels whose final hit
/// threshold repeats the previous one), and a widest level with no
/// jaggedness or reverse deficit limit.
#[verifier::spinoff_prover]
#[verifier::rlimit(60)]
pub(crate) fn sample_levels(board: &Board, placements: &Vec<Vec<(usize, usize, Bitboard)>>, modulus: u8) -> (r: Vec<MonteCarloLevel>)
    requires
        board.wf(),
        modulus == board.modulus(),
        placements@.len() <= 4096,
        forall|p: int, k: int, i: int|
            0 <= p < placements@.len() && 0 <= k < placements@[p]@.len() && 0 <= i < 256
                && #[trigger] placements@[p]@[k].2.bit(i) ==> board.valid(i),
    ensures
        sampled_levels(r@, *board, placements@),
{
    let piece_count = placements.len();
    let mut any_empty = false;
    let mut p: usize = 0;
    while p < piece_count
        invariant
            piece_count == placements@.len(),
            p <= piece_count,
            !any_empty ==> forall|q: int| 0 <= q < p ==> (#[trigger] placements@[q])@.len() > 0,
            any_empty ==> exists|q: int| 0 <= q < p && (#[trigger] placements@[q])@.len() == 0,
        decreases piece_count - p,
    {
        if placements[p].len() == 0 {
            any_empty = true;
            assert(placements@[p as int]@.len() == 0);
        }
        p = p + 1;
    }
    if piece_count == 0 || any_empty {
        let mut levels: Vec<MonteCarloLevel> = Vec::new();
        levels.push(unbounded_level(piece_count));
        return levels;
    }
    proof {
        assert(!(placements@.len() == 0 || exists|q: int| 0 <= q < placements@.len() && (#[trigger] placements@[q])@.len() == 0));
    }
    proof {
        board.lemma_wf();
        assert forall|p: int, k: int, i: int|
            0 <= p < placements@.len() && 0 <= k < placements@[p]@.len() && 0 <= i < 256
                && #[trigger] placements@[p]@[k].2.bit(i) implies i < GRID_CAPACITY by {
            assert(board.valid(i));
        }
    }
    let height = board.height() as usize;
    let width = board.width() as usize;
    let initial_values = grid_values(board);
    let (horizontal_mask, vertical_mask) = adjacency_masks(height, width);
    let initial = if modulus == 2 {
        jaggedness::measure::<2>(board, horizontal_mask, vertical_mask)
    } else if modulus == 3 {
        jaggedness::measure::<3>(board, horizontal_mask, vertical_mask)
    } else if modulus == 4 {
        jaggedness::measure::<4>(board, horizontal_mask, vertical_mask)
    } else {
        jaggedness::measure::<5>(board, horizontal_mask, vertical_mask)
    };
    proof {
        let m = board.modulus();
        lemma_weights_ok(m);
        lemma_pair_sum_bound(*board, horizontal_mask, 1, circular(m), 256, 5);
        lemma_pair_sum_bound(*board, vertical_mask, 15, circular(m), 256, 5);
    }
    let initial_jaggedness = initial.horizontal_circular_distance + initial.vertical_circular_distance;
    let initial_deficit = board.total_deficit();
    let table_len = (piece_count + 1) * 32;
    let mut bucket_counts = filled(MAX_BUCKETS, 0);
    let mut bucket_max_hits = filled(table_len, 0);
    let mut bucket_max_deficit = filled(table_len, 0);
    let mut bucket_max_jaggedness = filled(table_len, 0);
    let ghost init = initial_values@;
    let ghost m = modulus as int;
    let ghost hh = height as int;
    let ghost ww = width as int;
    let ghost j0 = initial_jaggedness as int;
    let ghost mut fc: Seq<Seq<int>> = Seq::empty();
    let mut forward_rng = seeded_rng(0x5348_4150_4553_4849);
    let mut trial: usize = 0;
    while trial < TRIAL_COUNT
        invariant
            piece_count == placements@.len(),
            samplable(placements@),
            2 <= modulus <= 5,
            1 <= height <= 14,
            1 <= width <= 14,
            initial_values@.len() == GRID_CAPACITY,
            forall|i: int| 0 <= i < GRID_CAPACITY ==> #[trigger] initial_values@[i] < modulus,
            value_sum(initial_values@, GRID_CAPACITY as int) == initial_deficit,
            table_len == (piece_count + 1) * 32,
            trial <= TRIAL_COUNT,
            bucket_counts@.len() == MAX_BUCKETS,
            forall|b: int| 0 <= b < MAX_BUCKETS ==> #[trigger] bucket_counts@[b] <= trial,
            bucket_max_hits@.len() == table_len,
            bucket_max_deficit@.len() == table_len,
            bucket_max_jaggedness@.len() == table_len,
            forall|i: int| 0 <= i < table_len ==> #[trigger] bucket_max_hits@[i] <= 255,
            init == initial_values@,
            m == modulus,
            hh == height,
            ww == width,
            j0 == initial_jaggedness,
            fc.len() == trial,
            forall|k: int| 0 <= k < fc.len() ==> forward_choice(placements@, #[trigger] fc[k]),
            forall|b: int| 0 <= b < MAX_BUCKETS ==> #[trigger] bucket_counts@[b] == bucket_size(placements@, fc, b, trial as int),
            forall|d: int, b: int|
                0 <= d <= piece_count && 0 <= b < 32 ==> #[trigger] peaks_hold(
                    init,
                    placements@,
                    m,
                    hh,
                    ww,
                    j0,
                    fc,
                    bucket_max_hits@,
                    bucket_max_deficit@,
                    bucket_max_jaggedness@,
                    d,
                    b,
                    trial as int,
                ),
        decreases TRIAL_COUNT - trial,
    {
        let (running_max_hits, max_hits_by_depth, deficit_by_depth, jaggedness_by_depth) = forward_trial(
            &initial_values,
            initial_deficit,
            initial_jaggedness,
            placements,
            &mut forward_rng,
            modulus,
            height,
            width,
        );
        let ghost ch = choose|c: Seq<int>|
            #[trigger] forward_outcome(
                init,
                placements@,
                c,
                m,
                hh,
                ww,
                j0,
                running_max_hits as int,
                max_hits_by_depth@,
                deficit_by_depth@,
                jaggedness_by_depth@,
            );
        let ghost old_fc = fc;
        proof {
            fc = fc.push(ch);
            lemma_peaks_prefix(init, placements@, m, hh, ww, j0, fc, old_fc, trial as int);
        }
        let bucket_index: usize = if running_max_hits < 31 {
            running_max_hits as usize
        } else {
            31
        };
        proof {
            assert(fc[trial as int] == ch);
            assert(bucket_index == trial_bucket(placements@, ch));
        }
        bucket_counts.set(bucket_index, bucket_counts[bucket_index] + 1);
        proof {
            assert forall|b: int| 0 <= b < MAX_BUCKETS implies #[trigger] bucket_counts@[b] == bucket_size(
                placements@,
                fc,
                b,
                trial + 1,
            ) by {
                assert(bucket_size(placements@, fc, b, trial as int) == bucket_size(placements@, old_fc, b, trial as int));
            }
            assert forall|d: int, b: int| 0 <= d <= piece_count && 0 <= b < 32 implies #[trigger] peaks_hold(
                init,
                placements@,
                m,
                hh,
                ww,
                j0,
                fc,
                bucket_max_hits@,
                bucket_max_deficit@,
                bucket_max_jaggedness@,
                d,
                b,
                trial as int,
            ) by {
                assert(peaks_hold(
                    init,
                    placements@,
                    m,
                    hh,
                    ww,
                    j0,
                    old_fc,
                    bucket_max_hits@,
                    bucket_max_deficit@,
                    bucket_max_jaggedness@,
                    d,
                    b,
                    trial as int,
                ));
                assert(bucket_peak(init, placements@, m, hh, ww, j0, fc, 0, d, b, trial as int) == bucket_peak(init, placements@, m, hh, ww, j0, old_fc, 0, d, b, trial as int));
                assert(bucket_peak(init, placements@, m, hh, ww, j0, fc, 1, d, b, trial as int) == bucket_peak(init, placements@, m, hh, ww, j0, old_fc, 1, d, b, trial as int));
                assert(bucket_peak(init, placements@, m, hh, ww, j0, fc, 2, d, b, trial as int) == bucket_peak(init, placements@, m, hh, ww, j0, old_fc, 2, d, b, trial as int));
            }
        }
        let mut depth: usize = 0;
        while depth <= piece_count
            invariant
                piece_count <= 4096,
                piece_count == placements@.len(),
                table_len == (piece_count + 1) * 32,
                bucket_index < 32,
                depth <= piece_count + 1,
                max_hits_by_depth@.len() == piece_count + 1,
                deficit_by_depth@.len() == piece_count + 1,
                jaggedness_by_depth@.len() == piece_count + 1,
                forall|d: int| 0 <= d < max_hits_by_depth@.len() ==> #[trigger] max_hits_by_depth@[d] <= 255,
                bucket_max_hits@.len() == table_len,
                bucket_max_deficit@.len() == table_len,
                bucket_max_jaggedness@.len() == table_len,
                forall|i: int| 0 <= i < table_len ==> #[trigger] bucket_max_hits@[i] <= 255,
                fc.len() == trial + 1,
                fc[trial as int] == ch,
                bucket_index == trial_bucket(placements@, ch),
                forward_outcome(
                    init,
                    placements@,
                    ch,
                    m,
                    hh,
                    ww,
                    j0,
                    running_max_hits as int,
                    max_hits_by_depth@,
                    deficit_by_depth@,
                    jaggedness_by_depth@,
                ),
                forall|d: int, b: int|
                    0 <= d <= piece_count && 0 <= b < 32 ==> #[trigger] peaks_hold(
                        init,
                        placements@,
                        m,
                        hh,
                        ww,
                        j0,
                        fc,
                        bucket_max_hits@,
                        bucket_max_deficit@,
                        bucket_max_jaggedness@,
                        d,
                        b,
                        trials_counted(d, (depth) as int, trial as int),
                    ),
            decreases piece_count + 1 - depth,
        {
            let index = depth * 32 + bucket_index;
            proof {
                assert(index == slot(depth as int, bucket_index as int));
                assert(max_hits_by_depth@[depth as int] == trial_value(init, placements@, m, hh, ww, j0, ch, 0, depth as int));
                assert(deficit_by_depth@[depth as int] == trial_value(init, placements@, m, hh, ww, j0, ch, 1, depth as int));
                assert(jaggedness_by_depth@[depth as int] == trial_value(init, placements@, m, hh, ww, j0, ch, 2, depth as int));
            }
            let ghost before_hits = bucket_max_hits@;
            let ghost before_deficit = bucket_max_deficit@;
            let ghost before_jaggedness = bucket_max_jaggedness@;
            if max_hits_by_depth[depth] > bucket_max_hits[index] {
                bucket_max_hits.set(index, max_hits_by_depth[depth]);
            }
            if deficit_by_depth[depth] > bucket_max_deficit[index] {
                bucket_max_deficit.set(index, deficit_by_depth[depth]);
            }
            if jaggedness_by_depth[depth] > bucket_max_jaggedness[index] {
                bucket_max_jaggedness.set(index, jaggedness_by_depth[depth]);
            }
            proof {
                assert forall|d: int, b: int| 0 <= d <= piece_count && 0 <= b < 32 implies #[trigger] peaks_hold(
                    init,
                    placements@,
                    m,
                    hh,
                    ww,
                    j0,
                    fc,
                    bucket_max_hits@,
                    bucket_max_deficit@,
                    bucket_max_jaggedness@,
                    d,
                    b,
                    trials_counted(d, (depth + 1) as int, trial as int),
                ) by {
                    assert(peaks_hold(
                        init,
                        placements@,
                        m,
                        hh,
                        ww,
                        j0,
                        fc,
                        before_hits,
                        before_deficit,
                        before_jaggedness,
                        d,
                        b,
                        trials_counted(d, (depth) as int, trial as int),
                    ));
                    assert(0 <= slot(d, b) < table_len) by (nonlinear_arith)
                        requires
                            0 <= d <= piece_count,
                            0 <= b < 32,
                            table_len == (piece_count + 1) * 32,
                    ;
                    if d == depth && b == bucket_index {
                    } else {
                        if slot(d, b) == index {
                            lemma_slot_injective(d, b, depth as int, bucket_index as int);
                        }
                        assert(bucket_max_hits@[slot(d, b)] == before_hits[slot(d, b)]);
                        assert(bucket_max_deficit@[slot(d, b)] == before_deficit[slot(d, b)]);
                        assert(bucket_max_jaggedness@[slot(d, b)] == before_jaggedness[slot(d, b)]);
                    }
                }
            }
            depth = depth + 1;
        }
        proof {
            assert forall|d: int, b: int| 0 <= d <= piece_count && 0 <= b < 32 implies #[trigger] peaks_hold(
                init,
                placements@,
                m,
                hh,
                ww,
                j0,
                fc,
                bucket_max_hits@,
                bucket_max_deficit@,
                bucket_max_jaggedness@,
                d,
                b,
                trial + 1,
            ) by {
                assert(trials_counted(d, depth as int, trial as int) == trial + 1);
                assert(peaks_hold(
                    init,
                    placements@,
                    m,
                    hh,
                    ww,
                    j0,
                    fc,
                    bucket_max_hits@,
                    bucket_max_deficit@,
                    bucket_max_jaggedness@,
                    d,
                    b,
                    trials_counted(d, depth as int, trial as int),
                ));
            }
        }
        trial = trial + 1;
    }
    let mut max_reverse_deficit = filled(piece_count + 1, 0);
    let mut max_reverse_jaggedness = filled(piece_count + 1, 0);
    let ghost mut rc: Seq<Seq<int>> = Seq::empty();
    let mut reverse_rng = seeded_rng(0x5245_5645_5253_454D);
    let mut trial: usize = 0;
    while trial < TRIAL_COUNT
        invariant
            piece_count == placements@.len(),
            samplable(placements@),
            2 <= modulus <= 5,
            1 <= height <= 14,
            1 <= width <= 14,
            trial <= TRIAL_COUNT,
            max_reverse_deficit@.len() == piece_count + 1,
            max_reverse_jaggedness@.len() == piece_count + 1,
            m == modulus,
            hh == height,
            ww == width,
            rc.len() == trial,
            forall|k: int| 0 <= k < rc.len() ==> reverse_choice(placements@, #[trigger] rc[k]),
            forall|d: int|
                0 <= d <= piece_count ==> #[trigger] max_reverse_deficit@[d] == reverse_peak(placements@, rc, m, hh, ww, 0, d, trial as int)
                    && max_reverse_jaggedness@[d] == reverse_peak(placements@, rc, m, hh, ww, 1, d, trial as int),
        decreases TRIAL_COUNT - trial,
    {
        let ghost before_deficit = max_reverse_deficit@;
        let ghost before_jaggedness = max_reverse_jaggedness@;
        reverse_trial(
            placements,
            &mut reverse_rng,
            modulus,
            height,
            width,
            &mut max_reverse_deficit,
            &mut max_reverse_jaggedness,
        );
        let ghost ch = choose|c: Seq<int>|
            #[trigger] reverse_outcome(
                placements@,
                c,
                m,
                hh,
                ww,
                before_deficit,
                before_jaggedness,
                max_reverse_deficit@,
                max_reverse_jaggedness@,
            );
        let ghost old_rc = rc;
        proof {
            rc = rc.push(ch);
            lemma_peaks_prefix(init, placements@, m, hh, ww, j0, rc, old_rc, trial as int);
            assert(rc[trial as int] == ch);
            assert forall|d: int| 0 <= d <= piece_count implies #[trigger] max_reverse_deficit@[d] == reverse_peak(
                placements@,
                rc,
                m,
                hh,
                ww,
                0,
                d,
                trial + 1,
            ) && max_reverse_jaggedness@[d] == reverse_peak(placements@, rc, m, hh, ww, 1, d, trial + 1) by {
                assert(reverse_peak(placements@, rc, m, hh, ww, 0, d, trial as int) == reverse_peak(placements@, old_rc, m, hh, ww, 0, d, trial as int));
                assert(reverse_peak(placements@, rc, m, hh, ww, 1, d, trial as int) == reverse_peak(placements@, old_rc, m, hh, ww, 1, d, trial as int));
                assert(before_deficit[d] == reverse_peak(placements@, old_rc, m, hh, ww, 0, d, trial as int));
                assert(before_jaggedness[d] == reverse_peak(placements@, old_rc, m, hh, ww, 1, d, trial as int));
                if d >= 1 {
                    assert(max_reverse_deficit@[d] == if reverse_value(placements@, ch, m, hh, ww, 0, d) > before_deficit[d] {
                        reverse_value(placements@, ch, m, hh, ww, 0, d)
                    } else {
                        before_deficit[d] as int
                    });
                    assert(max_reverse_jaggedness@[d] == if reverse_value(placements@, ch, m, hh, ww, 1, d) > before_jaggedness[d] {
                        reverse_value(placements@, ch, m, hh, ww, 1, d)
                    } else {
                        before_jaggedness[d] as int
                    });
                }
            }
        }
        trial = trial + 1;
    }
    let levels = levels_from_buckets(
        &bucket_counts,
        &bucket_max_hits,
        &bucket_max_deficit,
        &bucket_max_jaggedness,
        &max_reverse_deficit,
        &max_reverse_jaggedness,
        piece_count,
    );
    proof {
        assert(init =~= board_values(*board));
        assert(m == board.modulus());
        assert(hh == board.rows());
        assert(ww == board.cols());
        assert(fc.len() == TRIAL_COUNT);
        assert(rc.len() == TRIAL_COUNT);
        assert(forall|b: int| 0 <= b < MAX_BUCKETS ==> #[trigger] bucket_counts@[b] == bucket_size(placements@, fc, b, TRIAL_COUNT as int));
        assert(forall|d: int| 0 <= d <= piece_count ==> #[trigger] max_reverse_deficit@[d] == reverse_peak(placements@, rc, m, hh, ww, 0, d, TRIAL_COUNT as int));
        assert forall|d: int, b: int| 0 <= d <= piece_count && 0 <= b < 32 implies {
            &&& #[trigger] bucket_max_hits@[slot(d, b)] == bucket_peak(init, placements@, m, hh, ww, j0, fc, 0, d, b, TRIAL_COUNT as int)
            &&& bucket_max_deficit@[slot(d, b)] == bucket_peak(init, placements@, m, hh, ww, j0, fc, 1, d, b, TRIAL_COUNT as int)
            &&& bucket_max_jaggedness@[slot(d, b)] == bucket_peak(init, placements@, m, hh, ww, j0, fc, 2, d, b, TRIAL_COUNT as int)
        } by {
            assert(peaks_hold(
                init,
                placements@,
                m,
                hh,
                ww,
                j0,
                fc,
                bucket_max_hits@,
                bucket_max_deficit@,
                bucket_max_jaggedness@,
                d,
                b,
                TRIAL_COUNT as int,
            ));
        }
        assert(sampled_tables(
            board_values(*board),
            placements@,
            board.modulus(),
            board.rows(),
            board.cols(),
            j0,
            fc,
            rc,
            bucket_counts@,
            bucket_max_hits@,
            bucket_max_deficit@,
            bucket_max_jaggedness@,
            max_reverse_deficit@,
            max_reverse_jaggedness@,
        ));
        assert(levels_of_tables(
            levels@,
            bucket_counts@,
            bucket_max_hits@,
            bucket_max_deficit@,
            bucket_max_jaggedness@,
            max_reverse_deficit@,
            max_reverse_jaggedness@,
            piece_count as int,
        ));
    }
    levels
}

/// Sum of the first `n` bucket counts.
pub open spec fn prefix_count(counts: Seq<u32>, n: int) -> int
    decreases n,
{
    if n <= 0 {
        0
    } else {
        prefix_count(counts, n - 1) + counts[n - 1]
    }
}

/// The first bucket from `b` on whose counts so far reach `required`, or 0
/// if none does.
pub open spec fn reaching_bucket(counts: Seq<u32>, required: int, b: int) -> int
    decreases 32 - b,
{
    if b >= 32 {
        0
    } else if prefix_count(counts, b + 1) >= required {
        b
    } else {
        reaching_bucket(counts, required, b + 1)
    }
}

/// The percentile, in percent, of the `k`-th level: 50, 75, 90 and 95.
pub open spec fn percentile_of(k: int) -> int {
    if k == 0 {
        50
    } else if k == 1 {
        75
    } else if k == 2 {
        90
    } else {
        95
    }
}

/// The largest bucket the `k`-th percentile level takes in.
pub open spec fn percentile_bucket(counts: Seq<u32>, k: int) -> int {
    reaching_bucket(counts, TRIAL_COUNT * percentile_of(k) / 100, 0)
}

/// The final hit threshold of the level taking in buckets `0..=b`.
pub open spec fn final_hit_of(counts: Seq<u32>, hits: Seq<u32>, n: int, b: int) -> int {
    let most = bucket_max(hits, counts, n, b + 1) + 1;
    if most < 31 {
        most
    } else {
        31
    }
}

/// The buckets of the first `k` percentile levels that are kept: a level is
/// kept when its final hit threshold differs from the last kept one's.
pub open spec fn kept_buckets(counts: Seq<u32>, hits: Seq<u32>, n: int, k: int) -> Seq<int>
    decreases k,
{
    if k <= 0 {
        Seq::empty()
    } else {
        let before = kept_buckets(counts, hits, n, k - 1);
        let b = percentile_bucket(counts, k - 1);
        if before.len() == 0 || final_hit_of(counts, hits, n, before.last()) != final_hit_of(counts, hits, n, b) {
            before.push(b)
        } else {
            before
        }
    }
}

/// `l` is the level taking in the buckets `0..=b` of the tables: per depth,
/// the most hits (plus one, at most 31), the most deficit and the most
/// jaggedness seen in those buckets, and the reverse maxima.
pub open spec fn level_is(
    l: MonteCarloLevel,
    counts: Seq<u32>,
    hits: Seq<u32>,
    deficits: Seq<u32>,
    jaggedness: Seq<u32>,
    reverse_deficit: Seq<u32>,
    reverse_jaggedness: Seq<u32>,
    n: int,
    b: int,
) -> bool {
    &&& level_wf(l, n)
    &&& forall|d: int| 0 <= d <= n ==> #[trigger] l.max_hits_at_depth@[d] == final_hit_of(counts, hits, d, b)
    &&& forall|d: int| 0 <= d <= n ==> #[trigger] l.max_deficit_at_depth@[d] == bucket_max(deficits, counts, d, b + 1)
    &&& forall|d: int|
        0 <= d <= n ==> #[trigger] l.max_jaggedness_at_depth@[d] == bucket_max(jaggedness, counts, d, b + 1)
    &&& l.max_reverse_deficit@ == reverse_deficit
    &&& l.max_reverse_jaggedness@ == reverse_jaggedness
}

/// `l` is the widened level of buckets `0..=b`: its hit and deficit bounds,
/// with no jaggedness and no reverse bound.
pub open spec fn widened_is(l: MonteCarloLevel, counts: Seq<u32>, hits: Seq<u32>, deficits: Seq<u32>, n: int, b: int) -> bool {
    &&& level_wf(l, n)
    &&& forall|d: int| 0 <= d <= n ==> #[trigger] l.max_hits_at_depth@[d] == final_hit_of(counts, hits, d, b)
    &&& forall|d: int| 0 <= d <= n ==> #[trigger] l.max_deficit_at_depth@[d] == bucket_max(deficits, counts, d, b + 1)
    &&& is_unbounded_fallback(l)
}

/// `levels` are the levels of the tables: the kept percentile levels, then
/// the widened level of all buckets; when the widest kept level has the
/// same final hit threshold as that one, it is widened in its place.
pub open spec fn levels_of_tables(
    levels: Seq<MonteCarloLevel>,
    counts: Seq<u32>,
    hits: Seq<u32>,
    deficits: Seq<u32>,
    jaggedness: Seq<u32>,
    reverse_deficit: Seq<u32>,
    reverse_jaggedness: Seq<u32>,
    n: int,
) -> bool {
    let kept = kept_buckets(counts, hits, n, 4);
    let merged = kept.len() > 0 && final_hit_of(counts, hits, n, kept.last()) == final_hit_of(counts, hits, n, 31);
    let narrow = if merged {
        kept.len() - 1
    } else {
        kept.len() as int
    };
    let wide = if merged {
        kept.last()
    } else {
        31
    };
    &&& levels.len() == narrow + 1
    &&& forall|j: int|
        0 <= j < narrow ==> level_is(
            #[trigger] levels[j],
            counts,
            hits,
            deficits,
            jaggedness,
            reverse_deficit,
            reverse_jaggedness,
            n,
            kept[j],
        )
    &&& widened_is(levels[narrow], counts, hits, deficits, n, wide)
}

/// The bound levels from the sampled bucket tables, as `levels_of_tables`
/// says: for the 50th, 75th, 90th and 95th percentiles of the trials by
/// largest hit count, the level of the buckets up to the first one where that
/// many trials are reached, each kept when its final hit threshold is new;
/// then the widest level, without jaggedness or reverse bounds.
pub fn levels_from_buckets(
    bucket_counts: &Vec<u32>,
    bucket_max_hits: &Vec<u32>,
    bucket_max_deficit: &Vec<u32>,
    bucket_max_jaggedness: &Vec<u32>,
    max_reverse_deficit: &Vec<u32>,
    max_reverse_jaggedness: &Vec<u32>,
    piece_count: usize,
) -> (r: Vec<MonteCarloLevel>)
    requires
        piece_count <= 4096,
        bucket_counts@.len() == MAX_BUCKETS,
        forall|b: int| 0 <= b < MAX_BUCKETS ==> #[trigger] bucket_counts@[b] <= TRIAL_COUNT,
        bucket_max_hits@.len() == (piece_count + 1) * 32,
        bucket_max_deficit@.len() == (piece_count + 1) * 32,
        bucket_max_jaggedness@.len() == (piece_count + 1) * 32,
        forall|i: int| 0 <= i < bucket_max_hits@.len() ==> #[trigger] bucket_max_hits@[i] <= 255,
        max_reverse_deficit@.len() == piece_count + 1,
        max_reverse_jaggedness@.len() == piece_count + 1,
    ensures
        r@.len() >= 1,
        forall|k: int| 0 <= k < r@.len() ==> #[trigger] level_wf(r@[k], piece_count as int),
        is_unbounded_fallback(r@.last()),
        levels_of_tables(
            r@,
            bucket_counts@,
            bucket_max_hits@,
            bucket_max_deficit@,
            bucket_max_jaggedness@,
            max_reverse_deficit@,
            max_reverse_jaggedness@,
            piece_count as int,
        ),
{
    let ghost counts = bucket_counts@;
    let ghost hits = bucket_max_hits@;
    let ghost deficits = bucket_max_deficit@;
    let ghost jags = bucket_max_jaggedness@;
    let ghost rdef = max_reverse_deficit@;
    let ghost rjag = max_reverse_jaggedness@;
    let ghost n = piece_count as int;
    let mut levels: Vec<MonteCarloLevel> = Vec::new();
    let mut k: usize = 0;
    while k < 4
        invariant
            piece_count <= 4096,
            counts == bucket_counts@,
            hits == bucket_max_hits@,
            deficits == bucket_max_deficit@,
            jags == bucket_max_jaggedness@,
            rdef == max_reverse_deficit@,
            rjag == max_reverse_jaggedness@,
            n == piece_count,
            bucket_counts@.len() == MAX_BUCKETS,
            forall|b: int| 0 <= b < MAX_BUCKETS ==> #[trigger] bucket_counts@[b] <= TRIAL_COUNT,
            bucket_max_hits@.len() == (piece_count + 1) * 32,
            bucket_max_deficit@.len() == (piece_count + 1) * 32,
            bucket_max_jaggedness@.len() == (piece_count + 1) * 32,
            forall|i: int| 0 <= i < bucket_max_hits@.len() ==> #[trigger] bucket_max_hits@[i] <= 255,
            max_reverse_deficit@.len() == piece_count + 1,
            max_reverse_jaggedness@.len() == piece_count + 1,
            k <= 4,
            levels@.len() == kept_buckets(counts, hits, n, k as int).len(),
            forall|j: int|
                0 <= j < levels@.len() ==> level_is(
                    #[trigger] levels@[j],
                    counts,
                    hits,
                    deficits,
                    jags,
                    rdef,
                    rjag,
                    n,
                    kept_buckets(counts, hits, n, k as int)[j],
                ),
            forall|j: int| 0 <= j < kept_buckets(counts, hits, n, k as int).len() ==> 0 <= #[trigger] kept_buckets(counts, hits, n, k as int)[j] < 32,
        decreases 4 - k,
    {
        let percentile: usize = if k == 0 {
            50
        } else if k == 1 {
            75
        } else if k == 2 {
            90
        } else {
            95
        };
        let required_samples = (TRIAL_COUNT * percentile / 100) as u32;
        let mut cumulative_samples: u32 = 0;
        let mut maximum_bucket: usize = 0;
        let mut bucket_index: usize = 0;
        while bucket_index < MAX_BUCKETS
            invariant_except_break
                cumulative_samples <= bucket_index * TRIAL_COUNT,
                cumulative_samples == prefix_count(counts, bucket_index as int),
                reaching_bucket(counts, required_samples as int, 0) == reaching_bucket(
                    counts,
                    required_samples as int,
                    bucket_index as int,
                ),
                maximum_bucket == 0,
            invariant
                counts == bucket_counts@,
                bucket_counts@.len() == MAX_BUCKETS,
                forall|b: int| 0 <= b < MAX_BUCKETS ==> #[trigger] bucket_counts@[b] <= TRIAL_COUNT,
                bucket_index <= MAX_BUCKETS,
                maximum_bucket < MAX_BUCKETS,
            ensures
                maximum_bucket == reaching_bucket(counts, required_samples as int, 0),
                maximum_bucket < MAX_BUCKETS,
            decreases MAX_BUCKETS - bucket_index,
        {
            cumulative_samples = cumulative_samples + bucket_counts[bucket_index];
            if cumulative_samples >= required_samples {
                maximum_bucket = bucket_index;
                break;
            }
            bucket_index = bucket_index + 1;
        }
        proof {
            assert(required_samples as int == TRIAL_COUNT * percentile_of(k as int) / 100);
            assert(maximum_bucket == percentile_bucket(counts, k as int));
        }
        let level = build_level(
            bucket_counts,
            bucket_max_hits,
            bucket_max_deficit,
            bucket_max_jaggedness,
            max_reverse_deficit,
            max_reverse_jaggedness,
            piece_count,
            maximum_bucket,
        );
        let final_hit_threshold = level.max_hits_at_depth[piece_count];
        let ghost before = levels@;
        let ghost kept_before = kept_buckets(counts, hits, n, k as int);
        proof {
            if levels@.len() > 0 {
                assert(level_is(levels@[levels@.len() - 1], counts, hits, deficits, jags, rdef, rjag, n, kept_before[levels@.len() - 1]));
            }
        }
        if levels.len() == 0 || levels[levels.len() - 1].max_hits_at_depth[piece_count] != final_hit_threshold {
            levels.push(level);
        }
        proof {
            let kept_now = kept_buckets(counts, hits, n, k + 1);
            assert(kept_now == if kept_before.len() == 0 || final_hit_of(counts, hits, n, kept_before.last())
                != final_hit_of(counts, hits, n, maximum_bucket as int) {
                kept_before.push(maximum_bucket as int)
            } else {
                kept_before
            });
            assert forall|j: int| 0 <= j < levels@.len() implies level_is(
                #[trigger] levels@[j],
                counts,
                hits,
                deficits,
                jags,
                rdef,
                rjag,
                n,
                kept_now[j],
            ) by {
                if j < before.len() {
                    assert(levels@[j] == before[j]);
                    assert(kept_now[j] == kept_before[j]);
                }
            }
        }
        k = k + 1;
    }
    let ghost kept = kept_buckets(counts, hits, n, 4);
    let mut final_level = build_level(
        bucket_counts,
        bucket_max_hits,
        bucket_max_deficit,
        bucket_max_jaggedness,
        max_reverse_deficit,
        max_reverse_jaggedness,
        piece_count,
        MAX_BUCKETS - 1,
    );
    final_level.max_jaggedness_at_depth = filled(piece_count + 1, u32::MAX);
    final_level.max_reverse_deficit = filled(piece_count + 1, u32::MAX);
    final_level.max_reverse_jaggedness = filled(piece_count + 1, u32::MAX);
    let final_hit_threshold = final_level.max_hits_at_depth[piece_count];
    proof {
        if levels@.len() > 0 {
            assert(level_is(levels@[levels@.len() - 1], counts, hits, deficits, jags, rdef, rjag, n, kept[levels@.len() - 1]));
        }
    }
    let ghost before = levels@;
    if levels.len() == 0 || levels[levels.len() - 1].max_hits_at_depth[piece_count] != final_hit_threshold {
        levels.push(final_level);
        proof {
            assert forall|j: int| 0 <= j < kept.len() implies level_is(
                #[trigger] levels@[j],
                counts,
                hits,
                deficits,
                jags,
                rdef,
                rjag,
                n,
                kept[j],
            ) by {
                assert(levels@[j] == before[j]);
            }
        }
    } else {
        let mut widest_level = levels.pop().unwrap();
        proof {
            assert(widest_level == before[before.len() - 1]);
        }
        widest_level.max_jaggedness_at_depth = filled(piece_count + 1, u32::MAX);
        widest_level.max_reverse_deficit = filled(piece_count + 1, u32::MAX);
        widest_level.max_reverse_jaggedness = filled(piece_count + 1, u32::MAX);
        levels.push(widest_level);
        proof {
            assert forall|j: int| 0 <= j < kept.len() - 1 implies level_is(
                #[trigger] levels@[j],
                counts,
                hits,
                deficits,
                jags,
                rdef,
                rjag,
                n,
                kept[j],
            ) by {
                assert(levels@[j] == before[j]);
            }
        }
    }
    proof {
        assert forall|j: int| 0 <= j < levels@.len() implies #[trigger] level_wf(levels@[j], piece_count as int) by {
            if j < levels@.len() - 1 {
                assert(level_is(levels@[j], counts, hits, deficits, jags, rdef, rjag, n, kept[j]));
            }
        }
    }
    levels
}

/// The sampled bound levels and the one the search currently uses.
pub struct MonteCarloBounds {
    levels: Vec<MonteCarloLevel>,
    selected_level: usize,
    piece_count: usize,
}

/// Sum over both directions of the circular distances between adjacent
/// values of `b` selected by the jaggedness bound's masks.
pub open spec fn circular_jaggedness(b: Board, jb: JaggednessBound) -> int {
    pair_sum(b, jb.horizontal_mask_spec(), 1, circular(b.modulus()), 256) + pair_sum(
        b,
        jb.vertical_mask_spec(),
        15,
        circular(b.modulus()),
        256,
    )
}

/// The jaggedness budget check for board `b` with pieces `p..` to place.
pub open spec fn jaggedness_allows(b: Board, jb: JaggednessBound, p: int) -> bool {
    let m = b.modulus();
    budget_allows(
        pair_sum(b, jb.horizontal_mask_spec(), 1, circular(m), 256),
        pair_sum(b, jb.vertical_mask_spec(), 15, circular(m), 256),
        pair_sum(b, jb.horizontal_mask_spec(), 1, forward(m), 256),
        pair_sum(b, jb.vertical_mask_spec(), 15, forward(m), 256),
        pair_sum(b, jb.horizontal_mask_spec(), 1, backward(m), 256),
        pair_sum(b, jb.vertical_mask_spec(), 15, backward(m), 256),
        jb.remaining_horizontal()[p] as int,
        jb.remaining_vertical()[p] as int,
        m,
    )
}

/// Whether level `l` lets the search go on from board `b` with pieces
/// `p..` of `piece_count` to place: the deficit and the circular
/// jaggedness stay within the sampled bounds for that depth and for the
/// pieces left, and the jaggedness budget allows the board.
pub open spec fn level_allows(l: MonteCarloLevel, piece_count: int, b: Board, p: int, jb: JaggednessBound) -> bool {
    let remaining = piece_count - p;
    let jag = circular_jaggedness(b, jb);
    &&& b.deficit() <= l.max_deficit_at_depth@[p]
    &&& b.deficit() <= l.max_reverse_deficit@[remaining]
    &&& jag <= l.max_jaggedness_at_depth@[p]
    &&& jag <= l.max_reverse_jaggedness@[remaining]
    &&& jaggedness_allows(b, jb, p)
}

impl MonteCarloBounds {
    /// The sampled levels, from narrowest to widest.
    pub closed spec fn levels_spec(self) -> Seq<MonteCarloLevel> {
        self.levels@
    }

    /// Index of the level in use.
    pub closed spec fn selected(self) -> int {
        self.selected_level as int
    }

    /// Number of pieces the levels were sampled for.
    pub closed spec fn piece_count_spec(self) -> int {
        self.piece_count as int
    }

    /// At least one level, the selected one among them, and every level
    /// sized for the pieces.
    pub open spec fn wf(self) -> bool {
        &&& self.levels_spec().len() >= 1
        &&& 0 <= self.selected() < self.levels_spec().len()
        &&& forall|k: int| 0 <= k < self.levels_spec().len() ==> #[trigger] level_wf(self.levels_spec()[k], self.piece_count_spec())
    }

    /// Sample the levels for the pieces' placements on `board`; the widest
    /// level is selected.
    pub fn precompute(board: &Board, placements: &Vec<Vec<(usize, usize, Bitboard)>>, modulus: u8) -> (r: Self)
        requires
            board.wf(),
            modulus == board.modulus(),
            placements@.len() <= 4096,
            forall|p: int, k: int, i: int|
                0 <= p < placements@.len() && 0 <= k < placements@[p]@.len() && 0 <= i < 256
                    && #[trigger] placements@[p]@[k].2.bit(i) ==> board.valid(i),
        ensures
            r.wf(),
            r.piece_count_spec() == placements@.len(),
            r.selected() == r.levels_spec().len() - 1,
            sampled_levels(r.levels_spec(), *board, placements@),
    {
        let levels = sample_levels(board, placements, modulus);
        let r = MonteCarloBounds { selected_level: levels.len() - 1, piece_count: placements.len(), levels };
        proof {
            assert(r.levels_spec() == levels@);
        }
        r
    }

    /// The same bounds with level `level` in use.
    pub closed spec fn with_selected(self, level: int) -> Self {
        MonteCarloBounds { selected_level: level as usize, ..self }
    }

    /// Selecting a level twice keeps the second; selecting the level in use
    /// changes nothing.
    pub proof fn lemma_with_selected(self, a: int, b: int)
        requires
            0 <= a <= usize::MAX,
            0 <= b <= usize::MAX,
        ensures
            self.with_selected(a).with_selected(b) == self.with_selected(b),
            self.with_selected(self.selected()) == self,
            self.with_selected(a).selected() == a,
            self.with_selected(a).levels_spec() == self.levels_spec(),
            self.with_selected(a).piece_count_spec() == self.piece_count_spec(),
    {
    }

    /// Number of levels.
    pub fn level_count(&self) -> (r: usize)
        ensures
            r == self.levels_spec().len(),
    {
        self.levels.len()
    }

    /// Use level `level` from now on.
    pub fn select_level(&mut self, level: usize)
        requires
            level < old(self).levels_spec().len(),
        ensures
            final(self).levels_spec() == old(self).levels_spec(),
            final(self).piece_count_spec() == old(self).piece_count_spec(),
            final(self).selected() == level,
            *final(self) == old(self).with_selected(level as int),
    {
        self.selected_level = level;
    }

    /// Whether some cell has been hit at least the selected level's hit
    /// threshold for `depth` (a threshold of 0 checks nothing).
    pub fn exceeds_hit_threshold(&self, hits: &HitCounter, depth: usize) -> (r: bool)
        requires
            self.wf(),
            depth <= self.piece_count_spec(),
        ensures
            r == ({
                let threshold = self.levels_spec()[self.selected()].max_hits_at_depth@[depth as int];
                threshold > 0 && exists|i: int| 0 <= i < 256 && #[trigger] hits.count(i) >= threshold
            }),
    {
        proof {
            assert(level_wf(self.levels_spec()[self.selected()], self.piece_count_spec()));
        }
        let threshold = self.levels[self.selected_level].max_hits_at_depth[depth];
        threshold > 0 && hits.any_cell_gte(threshold)
    }

    /// Whether the selected level lets the search go on from `board` with
    /// pieces `piece_index..` to place.
    pub fn allows_state<const MODULUS: usize>(
        &self,
        board: &Board,
        piece_index: usize,
        jaggedness_bound: &JaggednessBound,
    ) -> (r: bool)
        requires
            self.wf(),
            board.wf(),
            MODULUS == board.modulus(),
            piece_index <= self.piece_count_spec(),
            piece_index < jaggedness_bound.remaining_horizontal().len(),
            piece_index < jaggedness_bound.remaining_vertical().len(),
            board.modulus() * jaggedness_bound.remaining_horizontal()[piece_index as int] <= u32::MAX,
            board.modulus() * jaggedness_bound.remaining_vertical()[piece_index as int] <= u32::MAX,
        ensures
            r == level_allows(
                self.levels_spec()[self.selected()],
                self.piece_count_spec(),
                *board,
                piece_index as int,
                *jaggedness_bound,
            ),
    {
        let level = &self.levels[self.selected_level];
        proof {
            assert(level_wf(self.levels_spec()[self.selected()], self.piece_count_spec()));
        }
        let deficit = board.total_deficit();
        if deficit > level.max_deficit_at_depth[piece_index] {
            return false;
        }
        let remaining_pieces = self.piece_count - piece_index;
        if deficit > level.max_reverse_deficit[remaining_pieces] {
            return false;
        }
        let measured = jaggedness::measure::<MODULUS>(
            board,
            jaggedness_bound.horizontal_mask(),
            jaggedness_bound.vertical_mask(),
        );
        proof {
            board.lemma_wf();
            let m = board.modulus();
            lemma_weights_ok(m);
            lemma_pair_sum_bound(*board, jaggedness_bound.horizontal_mask_spec(), 1, circular(m), 256, 5);
            lemma_pair_sum_bound(*board, jaggedness_bound.vertical_mask_spec(), 15, circular(m), 256, 5);
            lemma_pair_sum_bound(*board, jaggedness_bound.horizontal_mask_spec(), 1, forward(m), 256, 5);
            lemma_pair_sum_bound(*board, jaggedness_bound.horizontal_mask_spec(), 1, backward(m), 256, 5);
            lemma_pair_sum_bound(*board, jaggedness_bound.vertical_mask_spec(), 15, forward(m), 256, 5);
            lemma_pair_sum_bound(*board, jaggedness_bound.vertical_mask_spec(), 15, backward(m), 256, 5);
        }
        let total_jaggedness = measured.horizontal_circular_distance + measured.vertical_circular_distance;
        if total_jaggedness > level.max_jaggedness_at_depth[piece_index] {
            return false;
        }
        if total_jaggedness > level.max_reverse_jaggedness[remaining_pieces] {
            return false;
        }
        if !jaggedness_bound.allows(&measured, piece_index, MODULUS as u8) {
            return false;
        }
        true
    }
}

/// Binary planes of a hit counter: plane `k` holds bit `k` of each count.
pub const NUM_PLANES: usize = 5;

/// The weight of plane `k`: 2 to the power `k`.
pub open spec fn plane_weight(k: int) -> int
    decreases k,
{
    if k <= 0 {
        1
    } else {
        2 * plane_weight(k - 1)
    }
}

/// The count at cell `i` held by the first `k` planes.
pub open spec fn plane_value(planes: Seq<Bitboard>, i: int, k: int) -> int
    decreases k,
{
    if k <= 0 {
        0
    } else {
        plane_value(planes, i, k - 1) + if planes[k - 1].bit(i) {
            plane_weight(k - 1)
        } else {
            0
        }
    }
}

proof fn lemma_plane_value_bounds(planes: Seq<Bitboard>, i: int, k: int)
    requires
        0 <= k,
    ensures
        0 <= plane_value(planes, i, k) < plane_weight(k),
        plane_weight(k) >= 1,
    decreases k,
{
    if k > 0 {
        lemma_plane_value_bounds(planes, i, k - 1);
    }
}

/// Planes from `k` on are the same in `a` and `b`: the values agree on them.
proof fn lemma_plane_value_frame(a: Seq<Bitboard>, b: Seq<Bitboard>, i: int, k: int, n: int)
    requires
        0 <= k <= n,
        forall|j: int| 0 <= j < k ==> #[trigger] a[j].bit(i) == b[j].bit(i),
    ensures
        plane_value(a, i, k) == plane_value(b, i, k),
    decreases k,
{
    if k > 0 {
        lemma_plane_value_frame(a, b, i, k - 1, n);
    }
}

/// Per-cell hit counts, modulo 32, in five binary planes.
#[derive(Clone, Copy)]
pub struct HitCounter {
    planes: [Bitboard; NUM_PLANES],
}

impl HitCounter {
    /// The hit count of cell `i`.
    pub closed spec fn count(self, i: int) -> int {
        plane_value(self.planes@, i, NUM_PLANES as int)
    }

    /// Counts lie in `0..32`.
    pub proof fn lemma_count_range(self, i: int)
        ensures
            0 <= self.count(i) < 32,
    {
        lemma_plane_value_bounds(self.planes@, i, NUM_PLANES as int);
        reveal_with_fuel(plane_weight, 6);
    }

    /// A count below 31 goes up by exactly one where the piece covers the
    /// cell, and stays where it does not.
    pub proof fn lemma_apply_increments(before: HitCounter, mask: Bitboard, after: HitCounter, i: int)
        requires
            0 <= i < 256,
            before.count(i) <= 30,
            after.count(i) == (before.count(i) + if mask.bit(i) {
                1int
            } else {
                0int
            }) % 32,
        ensures
            after.count(i) == before.count(i) + if mask.bit(i) {
                1int
            } else {
                0int
            },
    {
        before.lemma_count_range(i);
        let v = before.count(i) + if mask.bit(i) {
            1int
        } else {
            0int
        };
        vstd::arithmetic::div_mod::lemma_small_mod(v as nat, 32);
    }

    /// All counts zero.
    pub fn new() -> (r: Self)
        ensures
            forall|i: int| 0 <= i < 256 ==> #[trigger] r.count(i) == 0,
    {
        let r = HitCounter { planes: [Bitboard::zero(); NUM_PLANES] };
        proof {
            assert forall|i: int| 0 <= i < 256 implies #[trigger] r.count(i) == 0 by {
                assert(plane_value(r.planes@, i, 0) == 0);
                assert(plane_value(r.planes@, i, 1) == 0);
                assert(plane_value(r.planes@, i, 2) == 0);
                assert(plane_value(r.planes@, i, 3) == 0);
                assert(plane_value(r.planes@, i, 4) == 0);
            }
        }
        r
    }

    /// Add one to the count of every cell in `mask`, modulo 32: a ripple
    /// carry through the planes, stopping once no carry is left.
    pub fn apply_piece(&mut self, mask: Bitboard)
        ensures
            forall|i: int|
                0 <= i < 256 ==> #[trigger] final(self).count(i) == (old(self).count(i) + if mask.bit(i) {
                    1int
                } else {
                    0int
                }) % 32,
    {
        let ghost start = self.planes@;
        let mut carry = mask;
        let mut k: usize = 0;
        while k < NUM_PLANES
            invariant
                k <= NUM_PLANES,
                self.planes@.len() == NUM_PLANES,
                start.len() == NUM_PLANES,
                forall|i: int|
                    0 <= i < 256 ==> #[trigger] plane_value(self.planes@, i, k as int) + if carry.bit(i) {
                        plane_weight(k as int)
                    } else {
                        0
                    } == plane_value(start, i, k as int) + if mask.bit(i) {
                        1int
                    } else {
                        0int
                    },
                forall|j: int, i: int| k <= j < NUM_PLANES ==> #[trigger] self.planes@[j].bit(i) == start[j].bit(i),
            ensures
                k == NUM_PLANES || forall|i: int| 0 <= i < 256 ==> !#[trigger] carry.bit(i),
            decreases NUM_PLANES - k,
        {
            let plane = self.planes[k];
            let new = plane.xor(&carry);
            let next_carry = plane.and(&carry);
            let ghost before = self.planes@;
            self.planes[k] = new;
            proof {
                assert forall|i: int| 0 <= i < 256 implies #[trigger] plane_value(self.planes@, i, k + 1) + if next_carry.bit(
                    i,
                ) {
                    plane_weight(k + 1)
                } else {
                    0
                } == plane_value(start, i, k + 1) + if mask.bit(i) {
                    1int
                } else {
                    0int
                } by {
                    lemma_plane_value_frame(self.planes@, before, i, k as int, NUM_PLANES as int);
                    assert(self.planes@[k as int] == new);
                    assert(before[k as int].bit(i) == start[k as int].bit(i));
                }
            }
            carry = next_carry;
            k = k + 1;
            if carry.is_zero() {
                break;
            }
        }
        proof {
            assert(plane_weight(5) == 32) by {
                reveal_with_fuel(plane_weight, 6);
            }
            assert forall|i: int| 0 <= i < 256 implies #[trigger] plane_value(self.planes@, i, NUM_PLANES as int) == (
            plane_value(start, i, NUM_PLANES as int) + if mask.bit(i) {
                1int
            } else {
                0int
            }) % 32 by {
                lemma_plane_value_bounds(self.planes@, i, NUM_PLANES as int);
                lemma_plane_value_bounds(start, i, NUM_PLANES as int);
                let total = plane_value(self.planes@, i, NUM_PLANES as int);
                if k == NUM_PLANES {
                    let c: int = if carry.bit(i) { 1 } else { 0 };
                    vstd::arithmetic::div_mod::lemma_fundamental_div_mod_converse(total + 32 * c, 32, c, total);
                } else {
                    assert(!carry.bit(i));
                    lemma_plane_high_frame(self.planes@, start, i, k as int);
                    vstd::arithmetic::div_mod::lemma_small_mod(total as nat, 32);
                }
            }
        }
    }
}

/// Equal values in the first `k` planes mean equal planes there.
proof fn lemma_plane_value_unique(a: Seq<Bitboard>, b: Seq<Bitboard>, i: int, k: int)
    requires
        0 <= k,
        plane_value(a, i, k) == plane_value(b, i, k),
    ensures
        forall|j: int| 0 <= j < k ==> #[trigger] a[j].bit(i) == b[j].bit(i),
    decreases k,
{
    if k > 0 {
        lemma_plane_value_bounds(a, i, k - 1);
        lemma_plane_value_bounds(b, i, k - 1);
        assert(plane_weight(k) == 2 * plane_weight(k - 1));
        assert(a[k - 1].bit(i) == b[k - 1].bit(i));
        lemma_plane_value_unique(a, b, i, k - 1);
    }
}

/// `after` is `before` with one more hit, modulo 32, on each cell of `mask`:
/// what `HitCounter::apply_piece` does.
pub open spec fn counter_applied(before: HitCounter, mask: Bitboard, after: HitCounter) -> bool {
    forall|i: int| 0 <= i < 256 ==> #[trigger] after.count(i) == (before.count(i) + if mask.bit(i) {
        1int
    } else {
        0int
    }) % 32
}

/// Hit counters with the same count at every cell are the same counter.
pub proof fn lemma_counter_ext(x: HitCounter, y: HitCounter)
    requires
        forall|i: int| 0 <= i < 256 ==> #[trigger] x.count(i) == y.count(i),
    ensures
        x == y,
{
    assert forall|j: int| 0 <= j < NUM_PLANES implies #[trigger] x.planes[j] == y.planes[j] by {
        assert forall|i: int| 0 <= i < 256 implies #[trigger] x.planes[j].bit(i) == y.planes[j].bit(i) by {
            assert(x.count(i) == y.count(i));
            lemma_plane_value_unique(x.planes@, y.planes@, i, NUM_PLANES as int);
            assert(x.planes@[j].bit(i) == y.planes@[j].bit(i));
        }
        Bitboard::lemma_bits_ext(x.planes[j], y.planes[j]);
    }
    assert(x.planes =~= y.planes);
}

/// Placing two pieces on a hit counter in either order gives the same
/// counter.
pub proof fn lemma_apply_commutes(
    h: HitCounter,
    a: Bitboard,
    b: Bitboard,
    ha: HitCounter,
    hab: HitCounter,
    hb: HitCounter,
    hba: HitCounter,
)
    requires
        counter_applied(h, a, ha),
        counter_applied(ha, b, hab),
        counter_applied(h, b, hb),
        counter_applied(hb, a, hba),
    ensures
        hab == hba,
{
    assert forall|i: int| 0 <= i < 256 implies #[trigger] hab.count(i) == hba.count(i) by {
        let c = h.count(i);
        let x: int = if a.bit(i) { 1 } else { 0 };
        let y: int = if b.bit(i) { 1 } else { 0 };
        assert(ha.count(i) == (c + x) % 32);
        assert(hb.count(i) == (c + y) % 32);
        assert(((c + x) % 32 + y) % 32 == (c + x + y) % 32) by {
            vstd::arithmetic::div_mod::lemma_add_mod_noop(c + x, y, 32);
        }
        assert(((c + y) % 32 + x) % 32 == (c + y + x) % 32) by {
            vstd::arithmetic::div_mod::lemma_add_mod_noop(c + y, x, 32);
        }
    }
    lemma_counter_ext(hab, hba);
}


impl HitCounter {
    /// Whether some cell's hit count is at least `threshold`.
    pub fn any_cell_gte(&self, threshold: u8) -> (r: bool)
        ensures
            r == (threshold > 0 && exists|i: int| 0 <= i < 256 && #[trigger] self.count(i) >= threshold),
    {
        if threshold == 0 {
            return false;
        }
        let t = threshold as u32;
        assert((1u32 << 0u32) == 1) by (bit_vector);
        // The highest set bit of the threshold: no count below 2^msb reaches it.
        let mut most_significant_bit: u32 = 0;
        while (t >> (most_significant_bit + 1)) != 0
            invariant
                1 <= t < 256,
                most_significant_bit < 8,
                t >= (1u32 << most_significant_bit),
            decreases 8 - most_significant_bit,
        {
            proof {
                lemma_shift_nonzero(t, (most_significant_bit + 1) as u32);
            }
            most_significant_bit = most_significant_bit + 1;
        }
        proof {
            lemma_shift_zero(t, (most_significant_bit + 1) as u32);
            lemma_weight_shift(most_significant_bit as int);
        }
        let mut high_any = Bitboard::zero();
        let mut plane_index = most_significant_bit as usize;
        while plane_index < NUM_PLANES
            invariant
                most_significant_bit <= plane_index <= NUM_PLANES || (most_significant_bit >= NUM_PLANES
                    && plane_index == most_significant_bit),
                forall|i: int|
                    0 <= i < 256 ==> #[trigger] high_any.bit(i) == exists|j: int|
                        most_significant_bit <= j < plane_index && #[trigger] self.planes@[j].bit(i),
            decreases NUM_PLANES - plane_index,
        {
            let ghost before = high_any;
            high_any = high_any.or(&self.planes[plane_index]);
            proof {
                assert forall|i: int| 0 <= i < 256 implies #[trigger] high_any.bit(i) == exists|j: int|
                    most_significant_bit <= j < plane_index + 1 && #[trigger] self.planes@[j].bit(i) by {
                    if self.planes@[plane_index as int].bit(i) {
                        assert(self.planes@[plane_index as int].bit(i));
                    }
                }
            }
            plane_index = plane_index + 1;
        }
        if high_any.is_zero() {
            proof {
                assert forall|i: int| 0 <= i < 256 implies #[trigger] self.count(i) < threshold by {
                    assert(!high_any.bit(i));
                    lemma_plane_value_bounds(self.planes@, i, most_significant_bit as int);
                    if most_significant_bit < NUM_PLANES {
                        assert forall|j: int| most_significant_bit <= j < NUM_PLANES implies !#[trigger] self.planes@[j].bit(
                            i,
                        ) by {
                            if self.planes@[j].bit(i) {
                                assert(high_any.bit(i));
                            }
                        }
                        lemma_high_zero(self.planes@, i, most_significant_bit as int);
                    } else {
                        lemma_plane_value_bounds(self.planes@, i, NUM_PLANES as int);
                        assert(plane_weight(5) == 32) by {
                            reveal_with_fuel(plane_weight, 6);
                        }
                        lemma_weight_monotone(5, most_significant_bit as int);
                    }
                }
            }
            return false;
        }
        proof {
            if most_significant_bit >= NUM_PLANES {
                let i = choose|i: int| 0 <= i < 256 && #[trigger] high_any.bit(i);
                assert(high_any.bit(i));
                assert(false);
            }
            lemma_threshold_small(t, most_significant_bit);
        }
        let mut borrow = Bitboard::zero();
        let mut bit: usize = 0;
        proof {
            assert((1u32 << 0u32) == 1) by (bit_vector);
            assert(low_bits(t, 0) == 0);
        }
        while bit < NUM_PLANES
            invariant
                bit <= NUM_PLANES,
                1 <= t < 32,
                t == threshold,
                forall|i: int|
                    0 <= i < 256 ==> #[trigger] borrow.bit(i) == (plane_value(self.planes@, i, bit as int) < low_bits(
                        t,
                        bit as int,
                    )),
            decreases NUM_PLANES - bit,
        {
            let plane = self.planes[bit];
            let ghost before = borrow;
            proof {
                lemma_low_bits_step(t, bit as u32);
                lemma_weight_shift(bit as int);
            }
            if (t >> (bit as u32)) & 1 == 1 {
                borrow = plane.not().or(&borrow);
            } else {
                borrow = plane.not().and(&borrow);
            }
            proof {
                assert forall|i: int| 0 <= i < 256 implies #[trigger] borrow.bit(i) == (plane_value(
                    self.planes@,
                    i,
                    bit + 1,
                ) < low_bits(t, bit + 1)) by {
                    lemma_plane_value_bounds(self.planes@, i, bit as int);
                    lemma_low_bits_bound(t, bit as u32);
                }
            }
            bit = bit + 1;
        }
        proof {
            lemma_low_bits_all(t);
        }
        let reached = borrow.not();
        let r = !reached.is_zero();
        proof {
            if r {
                let i = choose|i: int| 0 <= i < 256 && !#[trigger] reached.bit(i) == false;
                assert(reached.bit(i));
                assert(!borrow.bit(i));
                assert(self.count(i) >= threshold);
            } else {
                assert forall|i: int| 0 <= i < 256 implies #[trigger] self.count(i) < threshold by {
                    assert(!reached.bit(i));
                }
            }
        }
        r
    }
}

/// The low `k` bits of `t`.
pub open spec fn low_bits(t: u32, k: int) -> int {
    (t % (1u32 << (k as u32))) as int
}

proof fn lemma_shift_nonzero(t: u32, s: u32)
    by (bit_vector)
    requires
        1 <= t < 256,
        s <= 8,
        (t >> s) != 0,
    ensures
        t >= (1u32 << s),
        s < 8,
{
}

proof fn lemma_shift_zero(t: u32, s: u32)
    by (bit_vector)
    requires
        s <= 8,
        (t >> s) == 0,
    ensures
        t < (1u32 << s),
{
}

proof fn lemma_threshold_small(t: u32, m: u32)
    by (bit_vector)
    requires
        m < 5,
        t < (1u32 << (m + 1)),
    ensures
        t < 32,
{
}

proof fn lemma_low_bits_step(t: u32, k: u32)
    by (bit_vector)
    requires
        t < 32,
        k < 5,
    ensures
        t % (1u32 << (k + 1)) == t % (1u32 << k) + (if (t >> k) & 1 == 1 {
            1u32 << k
        } else {
            0u32
        }),
{
}

proof fn lemma_low_bits_bound(t: u32, k: u32)
    by (bit_vector)
    requires
        t < 32,
        k < 5,
    ensures
        t % (1u32 << k) < (1u32 << k),
{
}

proof fn lemma_low_bits_all(t: u32)
    by (bit_vector)
    requires
        t < 32,
    ensures
        t % (1u32 << 5u32) == t,
{
}

/// The plane weights are the powers of two.
proof fn lemma_weight_shift(k: int)
    requires
        0 <= k < 8,
    ensures
        plane_weight(k) == (1u32 << (k as u32)) as int,
{
    reveal_with_fuel(plane_weight, 9);
    assert(1u32 << 0u32 == 1) by (bit_vector);
    assert(1u32 << 1u32 == 2) by (bit_vector);
    assert(1u32 << 2u32 == 4) by (bit_vector);
    assert(1u32 << 3u32 == 8) by (bit_vector);
    assert(1u32 << 4u32 == 16) by (bit_vector);
    assert(1u32 << 5u32 == 32) by (bit_vector);
    assert(1u32 << 6u32 == 64) by (bit_vector);
    assert(1u32 << 7u32 == 128) by (bit_vector);
}

proof fn lemma_weight_monotone(a: int, b: int)
    requires
        0 <= a <= b,
    ensures
        plane_weight(a) <= plane_weight(b),
    decreases b - a,
{
    if a < b {
        lemma_weight_monotone(a, b - 1);
        lemma_plane_value_bounds(Seq::empty(), 0, b - 1);
    }
}

/// With no bits from plane `k` on, the count is held by the first `k` planes.
proof fn lemma_high_zero(planes: Seq<Bitboard>, i: int, k: int)
    requires
        0 <= k <= NUM_PLANES,
        forall|j: int| k <= j < NUM_PLANES ==> !#[trigger] planes[j].bit(i),
    ensures
        plane_value(planes, i, NUM_PLANES as int) == plane_value(planes, i, k),
{
    lemma_high_zero_upto(planes, i, k, NUM_PLANES as int);
}

proof fn lemma_high_zero_upto(planes: Seq<Bitboard>, i: int, k: int, n: int)
    requires
        0 <= k <= n,
        forall|j: int| k <= j < n ==> !#[trigger] planes[j].bit(i),
    ensures
        plane_value(planes, i, n) == plane_value(planes, i, k),
    decreases n - k,
{
    if n > k {
        lemma_high_zero_upto(planes, i, k, n - 1);
    }
}

/// With equal planes from `k` on, values differ only in their low `k` planes.
proof fn lemma_plane_high_frame(a: Seq<Bitboard>, b: Seq<Bitboard>, i: int, k: int)
    requires
        0 <= k <= NUM_PLANES,
        forall|j: int| k <= j < NUM_PLANES ==> #[trigger] a[j].bit(i) == b[j].bit(i),
    ensures
        plane_value(a, i, NUM_PLANES as int) - plane_value(a, i, k) == plane_value(b, i, NUM_PLANES as int)
            - plane_value(b, i, k),
{
    lemma_high_frame_upto(a, b, i, k, NUM_PLANES as int);
}

proof fn lemma_high_frame_upto(a: Seq<Bitboard>, b: Seq<Bitboard>, i: int, k: int, n: int)
    requires
        0 <= k <= n,
        forall|j: int| k <= j < n ==> #[trigger] a[j].bit(i) == b[j].bit(i),
    ensures
        plane_value(a, i, n) - plane_value(a, i, k) == plane_value(b, i, n) - plane_value(b, i, k),
    decreases n - k,
{
    if n > k {
        lemma_high_frame_upto(a, b, i, k, n - 1);
    }
}

/// Largest values are never negative.
proof fn lemma_max_upto_nonneg(s: Seq<u8>, n: int)
    ensures
        max_upto(s, n) >= 0,
    decreases n,
{
    if n > 0 {
        lemma_max_upto_nonneg(s, n - 1);
    }
}

/// How many of the first `t` forward trajectories fall in the buckets
/// below `n`.
spec fn buckets_total(placements: Seq<Vec<(usize, usize, Bitboard)>>, fc: Seq<Seq<int>>, t: int, n: int) -> int
    decreases n,
{
    if n <= 0 {
        0
    } else {
        buckets_total(placements, fc, t, n - 1) + bucket_size(placements, fc, n - 1, t)
    }
}

proof fn lemma_buckets_total_step(placements: Seq<Vec<(usize, usize, Bitboard)>>, fc: Seq<Seq<int>>, t: int, n: int)
    requires
        t >= 1,
        0 <= n,
    ensures
        buckets_total(placements, fc, t, n) == buckets_total(placements, fc, t - 1, n) + if 0 <= trial_bucket(
            placements,
            fc[t - 1],
        ) < n {
            1int
        } else {
            0int
        },
    decreases n,
{
    if n > 0 {
        lemma_buckets_total_step(placements, fc, t, n - 1);
    }
}

/// Every trajectory falls in one of the buckets.
proof fn lemma_buckets_hold_all(placements: Seq<Vec<(usize, usize, Bitboard)>>, fc: Seq<Seq<int>>, t: int)
    requires
        0 <= t,
    ensures
        buckets_total(placements, fc, t, 32) == t,
    decreases t,
{
    if t > 0 {
        lemma_buckets_hold_all(placements, fc, t - 1);
        lemma_buckets_total_step(placements, fc, t, 32);
        lemma_max_upto_nonneg(forward_hits(placements, fc[t - 1], placements.len() as int), GRID_CAPACITY as int);
    } else {
        lemma_buckets_zero(placements, fc, 32);
    }
}

proof fn lemma_buckets_zero(placements: Seq<Vec<(usize, usize, Bitboard)>>, fc: Seq<Seq<int>>, n: int)
    ensures
        buckets_total(placements, fc, 0, n) == 0,
    decreases n,
{
    if n > 0 {
        lemma_buckets_zero(placements, fc, n - 1);
    }
}

proof fn lemma_prefix_is_total(
    placements: Seq<Vec<(usize, usize, Bitboard)>>,
    fc: Seq<Seq<int>>,
    counts: Seq<u32>,
    t: int,
    n: int,
)
    requires
        0 <= n <= 32,
        counts.len() == 32,
        forall|b: int| 0 <= b < 32 ==> #[trigger] counts[b] == bucket_size(placements, fc, b, t),
    ensures
        prefix_count(counts, n) == buckets_total(placements, fc, t, n),
    decreases n,
{
    if n > 0 {
        lemma_prefix_is_total(placements, fc, counts, t, n - 1);
    }
}

proof fn lemma_prefix_mono(counts: Seq<u32>, a: int, b: int)
    requires
        0 <= a <= b <= counts.len(),
    ensures
        prefix_count(counts, a) <= prefix_count(counts, b),
    decreases b,
{
    if a < b {
        lemma_prefix_mono(counts, a, b - 1);
    }
}

/// Where the counts reach `required`, the bucket found is at least `b`.
proof fn lemma_reaching_found(counts: Seq<u32>, required: int, b: int)
    requires
        counts.len() == 32,
        0 <= b < 32,
        prefix_count(counts, 32) >= required,
    ensures
        b <= reaching_bucket(counts, required, b) < 32,
    decreases 32 - b,
{
    if prefix_count(counts, b + 1) < required {
        if b + 1 < 32 {
            lemma_reaching_found(counts, required, b + 1);
        }
    }
}

/// A larger count to reach is reached no earlier.
proof fn lemma_reaching_mono(counts: Seq<u32>, r1: int, r2: int, b: int)
    requires
        counts.len() == 32,
        0 <= b <= 32,
        r1 <= r2 <= prefix_count(counts, 32),
    ensures
        reaching_bucket(counts, r1, b) <= reaching_bucket(counts, r2, b),
    decreases 32 - b,
{
    if b < 32 {
        if prefix_count(counts, b + 1) >= r2 {
        } else if prefix_count(counts, b + 1) >= r1 {
            if b + 1 < 32 {
                lemma_reaching_found(counts, r2, b + 1);
            } else {
                assert(prefix_count(counts, 32) >= r2);
            }
        } else {
            lemma_reaching_mono(counts, r1, r2, b + 1);
        }
    }
}

/// Taking in more buckets never lowers a peak.
proof fn lemma_bucket_max_mono(vals: Seq<u32>, counts: Seq<u32>, depth: int, a: int, b: int)
    requires
        a <= b,
    ensures
        bucket_max(vals, counts, depth, a) <= bucket_max(vals, counts, depth, b),
    decreases b - a,
{
    if a < b {
        lemma_bucket_max_mono(vals, counts, depth, a, b - 1);
    }
}

proof fn lemma_bucket_max_nonneg(vals: Seq<u32>, counts: Seq<u32>, depth: int, b: int)
    ensures
        bucket_max(vals, counts, depth, b) >= 0,
    decreases b,
{
    if b > 0 {
        lemma_bucket_max_nonneg(vals, counts, depth, b - 1);
    }
}

/// The final hit threshold grows with the buckets taken in and stays
/// within `1..=31`.
proof fn lemma_final_hit_mono(counts: Seq<u32>, hits: Seq<u32>, n: int, a: int, b: int)
    requires
        a <= b,
    ensures
        final_hit_of(counts, hits, n, a) <= final_hit_of(counts, hits, n, b),
        1 <= final_hit_of(counts, hits, n, a) <= 31,
{
    lemma_bucket_max_mono(hits, counts, n, a + 1, b + 1);
    lemma_bucket_max_nonneg(hits, counts, n, a + 1);
}

/// Percentile levels take in no fewer buckets as the percentile grows.
proof fn lemma_percentile_mono(counts: Seq<u32>, j: int, k: int)
    requires
        counts.len() == 32,
        0 <= j <= k,
        prefix_count(counts, 32) == TRIAL_COUNT,
    ensures
        percentile_bucket(counts, j) <= percentile_bucket(counts, k),
        0 <= percentile_bucket(counts, k) < 32,
{
    let r1 = TRIAL_COUNT * percentile_of(j) / 100;
    let r2 = TRIAL_COUNT * percentile_of(k) / 100;
    assert(r1 <= r2 <= TRIAL_COUNT);
    lemma_reaching_mono(counts, r1, r2, 0);
    lemma_reaching_found(counts, r2, 0);
}

/// The kept percentile levels take in no fewer buckets one after another,
/// and their final hit thresholds strictly increase.
proof fn lemma_kept_increase(counts: Seq<u32>, hits: Seq<u32>, n: int, k: int)
    requires
        counts.len() == 32,
        0 <= k <= 4,
        prefix_count(counts, 32) == TRIAL_COUNT,
    ensures
        k > 0 ==> kept_buckets(counts, hits, n, k).len() > 0,
        k > 0 ==> kept_buckets(counts, hits, n, k).last() <= percentile_bucket(counts, k - 1),
        forall|j: int|
            0 <= j < kept_buckets(counts, hits, n, k).len() ==> 0 <= #[trigger] kept_buckets(counts, hits, n, k)[j] < 32,
        forall|i: int, j: int|
            0 <= i < j < kept_buckets(counts, hits, n, k).len() ==> final_hit_of(
                counts,
                hits,
                n,
                kept_buckets(counts, hits, n, k)[i],
            ) < final_hit_of(counts, hits, n, kept_buckets(counts, hits, n, k)[j]),
    decreases k,
{
    if k > 0 {
        lemma_kept_increase(counts, hits, n, k - 1);
        let before = kept_buckets(counts, hits, n, k - 1);
        let b = percentile_bucket(counts, k - 1);
        lemma_percentile_mono(counts, k - 1, k - 1);
        if before.len() > 0 {
            lemma_percentile_mono(counts, k - 2, k - 1);
            lemma_final_hit_mono(counts, hits, n, before.last(), b);
            let after = kept_buckets(counts, hits, n, k);
            if final_hit_of(counts, hits, n, before.last()) != final_hit_of(counts, hits, n, b) {
                assert(after == before.push(b));
                assert forall|i: int, j: int| 0 <= i < j < after.len() implies final_hit_of(counts, hits, n, after[i])
                    < final_hit_of(counts, hits, n, after[j]) by {
                    if j == after.len() - 1 && i < j - 1 {
                        assert(final_hit_of(counts, hits, n, before[i]) < final_hit_of(counts, hits, n, before.last()));
                    }
                }
            }
        }
    }
}

/// The bound levels have strictly increasing final hit thresholds, each at
/// most 31: the kept percentile levels take in more and more buckets, a
/// level is kept only when its threshold is new, and the widest level takes
/// in every bucket.
pub proof fn lemma_levels_increase(r: Seq<MonteCarloLevel>, board: Board, placements: Seq<Vec<(usize, usize, Bitboard)>>)
    requires
        sampled_levels(r, board, placements),
    ensures
        forall|k: int| 0 <= k < r.len() ==> #[trigger] final_hits(r[k]) <= 31,
        forall|i: int, j: int| 0 <= i < j < r.len() ==> final_hits(r[i]) < final_hits(r[j]),
{
    let n = placements.len() as int;
    if placements.len() == 0 || exists|q: int| 0 <= q < placements.len() && (#[trigger] placements[q])@.len() == 0 {
        assert(level_wf(r[0], n));
        assert(final_hits(r[0]) == r[0].max_hits_at_depth@[n]);
    } else {
        let (counts, hits, deficits, jaggedness, reverse_deficit, reverse_jaggedness, j0, fc, rc) = choose|
            counts: Seq<u32>,
            hits: Seq<u32>,
            deficits: Seq<u32>,
            jaggedness: Seq<u32>,
            reverse_deficit: Seq<u32>,
            reverse_jaggedness: Seq<u32>,
            j0: int,
            fc: Seq<Seq<int>>,
            rc: Seq<Seq<int>>,
        |
            #![trigger levels_of_tables(r, counts, hits, deficits, jaggedness, reverse_deficit, reverse_jaggedness, placements.len() as int), sampled_tables(board_values(board), placements, board.modulus(), board.rows(), board.cols(), j0, fc, rc, counts, hits, deficits, jaggedness, reverse_deficit, reverse_jaggedness)]
            levels_of_tables(
                r,
                counts,
                hits,
                deficits,
                jaggedness,
                reverse_deficit,
                reverse_jaggedness,
                placements.len() as int,
            ) && sampled_tables(
                board_values(board),
                placements,
                board.modulus(),
                board.rows(),
                board.cols(),
                j0,
                fc,
                rc,
                counts,
                hits,
                deficits,
                jaggedness,
                reverse_deficit,
                reverse_jaggedness,
            );
        lemma_prefix_is_total(placements, fc, counts, TRIAL_COUNT as int, 32);
        lemma_buckets_hold_all(placements, fc, TRIAL_COUNT as int);
        lemma_kept_increase(counts, hits, n, 4);
        let kept = kept_buckets(counts, hits, n, 4);
        let merged = kept.len() > 0 && final_hit_of(counts, hits, n, kept.last()) == final_hit_of(counts, hits, n, 31);
        let narrow = if merged { kept.len() - 1 } else { kept.len() as int };
        let wide = if merged { kept.last() } else { 31 };
        let thresholds = |j: int| if j < narrow { final_hit_of(counts, hits, n, kept[j]) } else { final_hit_of(counts, hits, n, wide) };
        assert forall|j: int| 0 <= j < r.len() implies #[trigger] final_hits(r[j]) == thresholds(j) by {
            assert(final_hits(r[j]) == r[j].max_hits_at_depth@[n]);
        }
        assert forall|k: int| 0 <= k < r.len() implies #[trigger] final_hits(r[k]) <= 31 by {
            if k < narrow {
                lemma_final_hit_mono(counts, hits, n, kept[k], kept[k]);
            } else {
                lemma_final_hit_mono(counts, hits, n, wide, wide);
            }
        }
        assert forall|i: int, j: int| 0 <= i < j < r.len() implies final_hits(r[i]) < final_hits(r[j]) by {
            assert(final_hits(r[i]) == thresholds(i));
            assert(final_hits(r[j]) == thresholds(j));
            if j < narrow {
            } else if merged {
                assert(wide == kept[kept.len() - 1]);
            } else {
                lemma_final_hit_mono(counts, hits, n, kept[i], 31);
                if i < kept.len() - 1 {
                    assert(final_hit_of(counts, hits, n, kept[i]) < final_hit_of(counts, hits, n, kept.last()));
                    lemma_final_hit_mono(counts, hits, n, kept.last(), 31);
                }
            }
        }
    }
}

} // verus!
