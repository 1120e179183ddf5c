//! Per-cell coverage counters stored as binary bitboard layers.

use vstd::prelude::*;
use crate::model::bitboard::Bitboard;
use crate::model::board::Board;

verus! {

/// Number of binary layers: counts are kept modulo 2^6 = 64.
pub const COUNT_BITS: usize = 6;

/// Weight of layer `l`: 2^l.
pub open spec fn weight(l: int) -> int
    decreases l,
{
    if l <= 0 {
        1
    } else {
        2 * weight(l - 1)
    }
}

/// The count held at index `i` by layers `0..l`.
pub open spec fn partial_count(layers: [Bitboard; 6], i: int, l: int) -> int
    decreases l,
{
    if l <= 0 {
        0
    } else {
        partial_count(layers, i, l - 1) + if layers[l - 1].bit(i) {
            weight(l - 1)
        } else {
            0
        }
    }
}

proof fn lemma_partial_bound(layers: [Bitboard; 6], i: int, l: int)
    requires
        0 <= l,
    ensures
        0 <= partial_count(layers, i, l) < weight(l),
    decreases l,
{
    if l > 0 {
        lemma_partial_bound(layers, i, l - 1);
    }
}

proof fn lemma_partial_congruent(a: [Bitboard; 6], b: [Bitboard; 6], i: int, l: int)
    requires
        0 <= l <= 6,
        forall|j: int| 0 <= j < l ==> #[trigger] a[j].bit(i) == b[j].bit(i),
    ensures
        partial_count(a, i, l) == partial_count(b, i, l),
    decreases l,
{
    if l > 0 {
        lemma_partial_congruent(a, b, i, l - 1);
    }
}

/// Per-cell coverage counter stored as binary bitboard layers.
/// Layer `i` holds bit `i` of the count at each cell position.
#[derive(Clone, Copy, Debug)]
pub struct CoverageCounter {
    layers: [Bitboard; 6],
}

impl CoverageCounter {
    /// The count (modulo 64) held at bitboard index `i`.
    pub closed spec fn count_at(self, i: int) -> int {
        partial_count(self.layers, i, 6)
    }

    /// Counts lie in `0..64`.
    pub proof fn lemma_count_range(self, i: int)
        ensures
            0 <= self.count_at(i) < 64,
    {
        lemma_partial_bound(self.layers, i, 6);
        reveal_with_fuel(weight, 7);
    }

    /// The counter with every count at zero.
    pub fn zero() -> (r: Self)
        ensures
            forall|i: int| 0 <= i < 256 ==> #[trigger] r.count_at(i) == 0,
    {
        let z = Bitboard::zero();
        let r = Self { layers: [z, z, z, z, z, z] };
        proof {
            assert forall|i: int| 0 <= i < 256 implies #[trigger] r.count_at(i) == 0 by {
                assert(!r.layers[0].bit(i));
                assert(!r.layers[1].bit(i));
                assert(!r.layers[2].bit(i));
                assert(!r.layers[3].bit(i));
                assert(!r.layers[4].bit(i));
                assert(!r.layers[5].bit(i));
                reveal_with_fuel(partial_count, 7);
            }
        }
        r
    }

    /// Add a reach bitboard (each bit adds 1 to that cell's count).
    /// This is binary addition with carry across layers.
    pub fn add(&mut self, reach: Bitboard)
        ensures
            forall|i: int|
                0 <= i < 256 ==> #[trigger] final(self).count_at(i) == (old(self).count_at(i) + if reach.bit(i) {
                    1int
                } else {
                    0int
                }) % 64,
    {
        let ghost old_layers = self.layers;
        let mut carry = reach;
        let mut l: usize = 0;
        while l < 6
            invariant_except_break
                0 <= l <= 6,
                forall|j: int| l <= j < 6 ==> #[trigger] self.layers[j] == old_layers[j],
                forall|i: int|
                    0 <= i < 256 ==> #[trigger] partial_count(self.layers, i, l as int) + (if carry.bit(
                        i,
                    ) {
                        weight(l as int)
                    } else {
                        0
                    }) == partial_count(old_layers, i, l as int) + (if reach.bit(i) {
                        1int
                    } else {
                        0int
                    }),
            ensures
                0 <= l <= 6,
                forall|j: int| l <= j < 6 ==> #[trigger] self.layers[j] == old_layers[j],
                forall|i: int|
                    0 <= i < 256 ==> #[trigger] partial_count(self.layers, i, l as int) + (if carry.bit(
                        i,
                    ) {
                        weight(l as int)
                    } else {
                        0
                    }) == partial_count(old_layers, i, l as int) + (if reach.bit(i) {
                        1int
                    } else {
                        0int
                    }),
                l < 6 ==> forall|i: int| 0 <= i < 256 ==> !#[trigger] carry.bit(i),
            decreases 6 - l,
        {
            let ghost before = self.layers;
            let layer = self.layers[l];
            let new = layer.xor(&carry);
            let next_carry = layer.and(&carry);
            self.layers[l] = new;
            proof {
                assert forall|i: int| 0 <= i < 256 implies #[trigger] partial_count(
                    self.layers,
                    i,
                    l + 1,
                ) + (if next_carry.bit(i) {
                    weight(l + 1)
                } else {
                    0
                }) == partial_count(old_layers, i, l + 1) + (if reach.bit(i) {
                    1int
                } else {
                    0int
                }) by {
                    lemma_partial_congruent(self.layers, before, i, l as int);
                    assert(before[l as int] == old_layers[l as int]);
                }
            }
            carry = next_carry;
            l = l + 1;
            if carry.is_zero() {
                break;
            }
        }
        proof {
            assert forall|i: int|
                0 <= i < 256 implies #[trigger] self.count_at(i) == (old(self).count_at(i) + if reach.bit(i) {
                1int
            } else {
                0int
            }) % 64 by {
                lemma_rest(self.layers, old_layers, i, l as int);
                lemma_partial_bound(self.layers, i, 6);
                lemma_partial_bound(old_layers, i, 6);
                reveal_with_fuel(weight, 7);
            }
        }
    }

    /// Subtract a reach bitboard (each bit subtracts 1 from that cell's count).
    /// Binary subtraction with borrow across layers.
    pub fn subtract(&mut self, reach: Bitboard)
        ensures
            forall|i: int|
                0 <= i < 256 ==> #[trigger] final(self).count_at(i) == (old(self).count_at(i) - if reach.bit(i) {
                    1int
                } else {
                    0int
                }) % 64,
    {
        let ghost old_layers = self.layers;
        let mut borrow = reach;
        let mut l: usize = 0;
        while l < 6
            invariant_except_break
                0 <= l <= 6,
                forall|j: int| l <= j < 6 ==> #[trigger] self.layers[j] == old_layers[j],
                forall|i: int|
                    0 <= i < 256 ==> #[trigger] partial_count(self.layers, i, l as int) - (if borrow.bit(
                        i,
                    ) {
                        weight(l as int)
                    } else {
                        0
                    }) == partial_count(old_layers, i, l as int) - (if reach.bit(i) {
                        1int
                    } else {
                        0int
                    }),
            ensures
                0 <= l <= 6,
                forall|j: int| l <= j < 6 ==> #[trigger] self.layers[j] == old_layers[j],
                forall|i: int|
                    0 <= i < 256 ==> #[trigger] partial_count(self.layers, i, l as int) - (if borrow.bit(
                        i,
                    ) {
                        weight(l as int)
                    } else {
                        0
                    }) == partial_count(old_layers, i, l as int) - (if reach.bit(i) {
                        1int
                    } else {
                        0int
                    }),
                l < 6 ==> forall|i: int| 0 <= i < 256 ==> !#[trigger] borrow.bit(i),
            decreases 6 - l,
        {
            let ghost before = self.layers;
            let layer = self.layers[l];
            let new = layer.xor(&borrow);
            let next_borrow = layer.not().and(&borrow);
            self.layers[l] = new;
            proof {
                assert forall|i: int| 0 <= i < 256 implies #[trigger] partial_count(
                    self.layers,
                    i,
                    l + 1,
                ) - (if next_borrow.bit(i) {
                    weight(l + 1)
                } else {
                    0
                }) == partial_count(old_layers, i, l + 1) - (if reach.bit(i) {
                    1int
                } else {
                    0int
                }) by {
                    lemma_partial_congruent(self.layers, before, i, l as int);
                    assert(before[l as int] == old_layers[l as int]);
                }
            }
            borrow = next_borrow;
            l = l + 1;
            if borrow.is_zero() {
                break;
            }
        }
        proof {
            assert forall|i: int|
                0 <= i < 256 implies #[trigger] self.count_at(i) == (old(self).count_at(i) - if reach.bit(i) {
                1int
            } else {
                0int
            }) % 64 by {
                lemma_rest(self.layers, old_layers, i, l as int);
                lemma_partial_bound(self.layers, i, 6);
                lemma_partial_bound(old_layers, i, 6);
                reveal_with_fuel(weight, 7);
            }
        }
    }

    /// Returns a bitboard where bit is set iff that cell's count >= k
    /// (for k up to 8; higher thresholds give the empty bitboard).
    #[verifier::rlimit(60)]
    pub fn coverage_ge(&self, k: u8) -> (r: Bitboard)
        ensures
            forall|i: int| 0 <= i < 256 ==> #[trigger] r.bit(i) == (self.count_at(i) >= k),
    {
        let l = &self.layers;
        let high = l[3].or(&l[4]).or(&l[5]);
        let r = match k {
            0 => Bitboard::zero().not(),
            1 => l[0].or(&l[1]).or(&l[2]).or(&high),
            2 => l[1].or(&l[2]).or(&high),
            3 => l[0].and(&l[1]).or(&l[2]).or(&high),
            4 => l[2].or(&high),
            5 => l[0].or(&l[1]).and(&l[2]).or(&high),
            6 => l[1].and(&l[2]).or(&high),
            7 => l[0].and(&l[1]).and(&l[2]).or(&high),
            8 => high,
            _ => if k < 64 {
                at_least(l, k)
            } else {
                Bitboard::zero()
            },
        };
        proof {
            assert forall|i: int| 0 <= i < 256 && k >= 64 implies #[trigger] r.bit(i) == (self.count_at(i) >= k) by {
                self.lemma_count_range(i);
            }
            assert forall|i: int| 0 <= i < 256 && k <= 8 implies #[trigger] r.bit(i) == (self.count_at(
                i,
            ) >= k) by {
                reveal_with_fuel(partial_count, 7);
                reveal_with_fuel(weight, 7);
                let b0 = l[0].bit(i);
                let b1 = l[1].bit(i);
                let b2 = l[2].bit(i);
                let b3 = l[3].bit(i);
                let b4 = l[4].bit(i);
                let b5 = l[5].bit(i);
                assert(self.count_at(i) == (if b0 { 1int } else { 0 }) + (if b1 { 2int } else { 0 }) + (
                if b2 {
                    4int
                } else {
                    0
                }) + (if b3 {
                    8int
                } else {
                    0
                }) + (if b4 {
                    16int
                } else {
                    0
                }) + (if b5 {
                    32int
                } else {
                    0
                }));
            }
        }
        r
    }
}

/// Layers at or above `l` are unchanged and nothing carries past them.
/// `weight(j)` is `1 << j`.
proof fn lemma_weight_shift(j: u32)
    requires
        j < 7,
    ensures
        weight(j as int) == (1u32 << j),
{
    reveal_with_fuel(weight, 8);
    vstd::arithmetic::power2::lemma2_to64();
    vstd::bits::lemma_u32_shl_is_mul(1, j);
}

/// The low `j + 1` bits of `k` are its low `j` bits and bit `j`.
proof fn lemma_low_bits(k: u32, j: u32)
    by (bit_vector)
    requires
        j < 6,
        k < 64,
    ensures
        k % (1u32 << (j + 1)) == k % (1u32 << j) + if (k >> j) & 1u32 == 1u32 {
            1u32 << j
        } else {
            0u32
        },
        k % (1u32 << 6u32) == k,
{
}

/// The cells whose count is at least `k`, by comparing all counts with `k`
/// at once, from the lowest layer up: a cell's count falls below `k` when,
/// at the highest layer where they differ, `k` has the set bit.
fn at_least(layers: &[Bitboard; 6], k: u8) -> (r: Bitboard)
    requires
        k < 64,
    ensures
        forall|i: int| 0 <= i < 256 ==> #[trigger] r.bit(i) == (partial_count(*layers, i, 6) >= k),
{
    let mut below = Bitboard::zero();
    let mut j: u32 = 0;
    proof {
        lemma_weight_shift(0);
        assert((k as u32) % 1 == 0);
    }
    while j < 6
        invariant
            k < 64,
            j <= 6,
            forall|i: int|
                0 <= i < 256 ==> #[trigger] below.bit(i) == (partial_count(*layers, i, j as int) < (k as u32) % (1u32
                    << j)),
        decreases 6 - j,
    {
        let p = layers[j as usize];
        let ghost old_below = below;
        let set = (k >> (j as u8)) & 1 == 1;
        if set {
            below = p.not().or(&below);
        } else {
            below = p.not().and(&below);
        }
        proof {
            lemma_low_bits(k as u32, j);
            lemma_weight_shift(j);
            lemma_weight_shift((j + 1) as u32);
            assert(set == (((k as u32) >> j) & 1u32 == 1u32)) by (bit_vector)
                requires
                    set == ((k >> (j as u8)) & 1u8 == 1u8),
                    j < 6,
            ;
            assert forall|i: int| 0 <= i < 256 implies #[trigger] below.bit(i) == (partial_count(*layers, i, j + 1) < (
            k as u32) % (1u32 << (j + 1))) by {
                lemma_partial_bound(*layers, i, j as int);
                assert((k as u32) % (1u32 << j) < (1u32 << j)) by (bit_vector)
                    requires
                        j < 6,
                ;
            }
        }
        j = j + 1;
    }
    proof {
        lemma_low_bits(k as u32, 0);
    }
    below.not()
}

proof fn lemma_rest(new: [Bitboard; 6], old: [Bitboard; 6], i: int, l: int)
    requires
        0 <= l <= 6,
        forall|j: int| l <= j < 6 ==> #[trigger] new[j] == old[j],
    ensures
        partial_count(new, i, 6) - partial_count(new, i, l) == partial_count(old, i, 6)
            - partial_count(old, i, l),
    decreases 6 - l,
{
    if l < 6 {
        lemma_rest(new, old, i, l + 1);
    }
}

/// Number of reaches in `reaches[from..]` that hold index `i`.
pub open spec fn hits_from(reaches: Seq<Bitboard>, from: int, i: int) -> int
    decreases reaches.len() - from,
{
    if from < 0 || from >= reaches.len() {
        0
    } else {
        hits_from(reaches, from + 1, i) + if reaches[from].bit(i) {
            1int
        } else {
            0int
        }
    }
}

/// Precompute suffix coverage counters: `result[i]` counts, per cell, the
/// reaches `reaches[i..n]` that hold it (modulo 64).
pub fn precompute_suffix_coverage(reaches: &[Bitboard]) -> (r: Vec<CoverageCounter>)
    requires
        reaches@.len() < usize::MAX,
    ensures
        r@.len() == reaches@.len() + 1,
        forall|k: int, i: int|
            0 <= k <= reaches@.len() && 0 <= i < 256 ==> #[trigger] r@[k].count_at(i) == hits_from(
                reaches@,
                k,
                i,
            ) % 64,
{
    let n = reaches.len();
    let zero = CoverageCounter::zero();
    let mut suffix: Vec<CoverageCounter> = Vec::new();
    let mut j: usize = 0;
    while j <= n
        invariant
            n == reaches@.len(),
            n < usize::MAX,
            0 <= j <= n + 1,
            suffix@.len() == j,
            forall|k: int| 0 <= k < j ==> #[trigger] suffix@[k] == zero,
            forall|i: int| 0 <= i < 256 ==> #[trigger] zero.count_at(i) == 0,
        decreases n + 1 - j,
    {
        suffix.push(zero);
        j = j + 1;
    }
    proof {
        assert forall|i: int| 0 <= i < 256 implies #[trigger] suffix@[n as int].count_at(i)
            == hits_from(reaches@, n as int, i) % 64 by {
            assert(suffix@[n as int] == zero);
        }
    }
    let mut i = n;
    while i > 0
        invariant
            n == reaches@.len(),
            0 <= i <= n,
            suffix@.len() == n + 1,
            forall|k: int, c: int|
                i <= k <= n && 0 <= c < 256 ==> #[trigger] suffix@[k].count_at(c) == hits_from(
                    reaches@,
                    k,
                    c,
                ) % 64,
        decreases i,
    {
        i = i - 1;
        let mut cur = suffix[i + 1];
        cur.add(reaches[i]);
        suffix[i] = cur;
        proof {
            assert forall|k: int, c: int|
                i <= k <= n && 0 <= c < 256 implies #[trigger] suffix@[k].count_at(c) == hits_from(
                reaches@,
                k,
                c,
            ) % 64 by {
                if k == i {
                    let prev = hits_from(reaches@, k + 1, c);
                    assert(suffix@[k + 1].count_at(c) == prev % 64);
                    assert(hits_from(reaches@, k, c) == prev + if reaches@[k].bit(c) {
                        1int
                    } else {
                        0int
                    });
                }
            }
        }
    }
    suffix
}

/// Check whether the board is potentially solvable given remaining coverage:
/// false exactly when some cell of value `d` in `1..m` is covered fewer than
/// `d` times (a piece lowers each cell it covers by one).
pub fn has_sufficient_coverage(board: &Board, coverage: &CoverageCounter, m: u8) -> (r: bool)
    requires
        board.wf(),
        m <= 5,
    ensures
        r == (forall|i: int|
            #![trigger board.cell(i)]
            board.valid(i) && 1 <= board.cell(i) < m ==> coverage.count_at(i) >= board.cell(i)),
{
    let mut d: u8 = 1;
    while d < m
        invariant
            board.wf(),
            m <= 5,
            1 <= d,
            d <= m || m == 0,
            forall|i: int|
                #![trigger board.cell(i)]
                board.valid(i) && 1 <= board.cell(i) < d && board.cell(i) < m ==> coverage.count_at(i)
                    >= board.cell(i),
        decreases m - d,
    {
        let plane = board.plane(d);
        if !plane.is_zero() {
            let needed = d;
            let ge = coverage.coverage_ge(needed);
            let bad = plane.and(&ge.not());
            if !bad.is_zero() {
                proof {
                    let i = choose|i: int| 0 <= i < 256 && #[trigger] bad.bit(i);
                    assert(board.valid(i) && board.cell(i) == d);
                    assert(!(coverage.count_at(i) >= needed));
                }
                return false;
            }
            proof {
                assert forall|i: int|
                    #![trigger board.cell(i)]
                    board.valid(i) && 1 <= board.cell(i) < d + 1 && board.cell(i) < m implies coverage.count_at(
                    i,
                ) >= board.cell(i) by {
                    if board.cell(i) == d {
                        assert(!bad.bit(i));
                        assert(plane.bit(i));
                    }
                }
            }
        } else {
            proof {
                assert forall|i: int|
                    #![trigger board.cell(i)]
                    board.valid(i) && 1 <= board.cell(i) < d + 1 && board.cell(i) < m implies coverage.count_at(
                    i,
                ) >= board.cell(i) by {
                    if board.cell(i) == d {
                        assert(plane.bit(i));
                    }
                }
            }
        }
        d = d + 1;
    }
    true
}

/// How many of the first `n` reaches cover index `i`.
pub open spec fn times_reached(rs: Seq<Bitboard>, n: int, i: int) -> int
    decreases n,
{
    if n <= 0 {
        0
    } else {
        times_reached(rs, n - 1, i) + if rs[n - 1].bit(i) {
            1int
        } else {
            0int
        }
    }
}

/// A counter started at zero and added each of up to 63 reaches in turn
/// (`cs[j + 1]` is `cs[j]` after adding `rs[j]`) counts, at each index, the
/// reaches covering it: no count wraps.
pub proof fn lemma_counts_after_adds(cs: Seq<CoverageCounter>, rs: Seq<Bitboard>)
    requires
        cs.len() == rs.len() + 1,
        rs.len() <= 63,
        forall|i: int| 0 <= i < 256 ==> #[trigger] cs[0].count_at(i) == 0,
        forall|j: int, i: int|
            0 <= j < rs.len() && 0 <= i < 256 ==> #[trigger] cs[j + 1].count_at(i) == (cs[j].count_at(i) + if rs[j].bit(
                i,
            ) {
                1int
            } else {
                0int
            }) % 64,
    ensures
        forall|i: int| 0 <= i < 256 ==> #[trigger] cs[rs.len() as int].count_at(i) == times_reached(rs, rs.len() as int, i),
{
    lemma_counts_upto(cs, rs, rs.len() as int);
}

proof fn lemma_counts_upto(cs: Seq<CoverageCounter>, rs: Seq<Bitboard>, n: int)
    requires
        cs.len() == rs.len() + 1,
        0 <= n <= rs.len() <= 63,
        forall|i: int| 0 <= i < 256 ==> #[trigger] cs[0].count_at(i) == 0,
        forall|j: int, i: int|
            0 <= j < rs.len() && 0 <= i < 256 ==> #[trigger] cs[j + 1].count_at(i) == (cs[j].count_at(i) + if rs[j].bit(
                i,
            ) {
                1int
            } else {
                0int
            }) % 64,
    ensures
        forall|i: int| 0 <= i < 256 ==> #[trigger] cs[n].count_at(i) == times_reached(rs, n, i),
        forall|i: int| 0 <= i < 256 ==> 0 <= #[trigger] times_reached(rs, n, i) <= n,
    decreases n,
{
    if n > 0 {
        lemma_counts_upto(cs, rs, n - 1);
        assert forall|i: int| 0 <= i < 256 implies #[trigger] cs[n].count_at(i) == times_reached(rs, n, i) by {
            assert(cs[(n - 1) + 1].count_at(i) == (cs[n - 1].count_at(i) + if rs[n - 1].bit(i) {
                1int
            } else {
                0int
            }) % 64);
            assert(0 <= times_reached(rs, n - 1, i) <= n - 1);
            let v = times_reached(rs, n, i);
            assert(0 <= v < 64);
            vstd::arithmetic::div_mod::lemma_small_mod(v as nat, 64);
        }
        assert forall|i: int| 0 <= i < 256 implies 0 <= #[trigger] times_reached(rs, n, i) <= n by {
            assert(0 <= times_reached(rs, n - 1, i) <= n - 1);
        }
    }
}

} // verus!
