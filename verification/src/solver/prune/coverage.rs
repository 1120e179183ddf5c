//! Per-cell coverage pruning: a cell at deficit d needs at least d of the
//! remaining pieces to have some placement covering it, since each piece
//! places once and contributes at most one hit per cell.

use vstd::prelude::*;
use crate::model::bitboard::Bitboard;
use crate::model::board::Board;

verus! {

/// Whether some placement in `ps` covers index `j`.
pub open spec fn reaches(ps: Seq<(usize, usize, Bitboard)>, j: int) -> bool {
    exists|q: int| 0 <= q < ps.len() && #[trigger] ps[q].2.bit(j)
}

/// Number of pieces `from..` with some placement covering index `j`.
pub open spec fn reach_count(placements: Seq<Vec<(usize, usize, Bitboard)>>, from: int, j: int) -> int
    decreases placements.len() - from,
{
    if from < 0 || from >= placements.len() {
        0
    } else {
        reach_count(placements, from + 1, j) + if reaches(placements[from]@, j) {
            1int
        } else {
            0int
        }
    }
}

/// Union of the masks of all placements of one piece.
fn union_of(ps: &Vec<(usize, usize, Bitboard)>) -> (r: Bitboard)
    ensures
        forall|j: int| 0 <= j < 256 ==> #[trigger] r.bit(j) == reaches(ps@, j),
{
    let mut acc = Bitboard::zero();
    let mut q: usize = 0;
    while q < ps.len()
        invariant
            0 <= q <= ps@.len(),
            forall|j: int|
                0 <= j < 256 ==> #[trigger] acc.bit(j) == exists|p: int|
                    0 <= p < q && #[trigger] ps@[p].2.bit(j),
        decreases ps@.len() - q,
    {
        let ghost before = acc;
        acc = acc.or(&ps[q].2);
        proof {
            assert forall|j: int| 0 <= j < 256 implies #[trigger] acc.bit(j) == exists|p: int|
                0 <= p < q + 1 && #[trigger] ps@[p].2.bit(j) by {
                if acc.bit(j) && !before.bit(j) {
                    assert(ps@[q as int].2.bit(j));
                }
                if exists|p: int| 0 <= p < q + 1 && #[trigger] ps@[p].2.bit(j) {
                    let p = choose|p: int| 0 <= p < q + 1 && #[trigger] ps@[p].2.bit(j);
                    if p < q {
                        assert(before.bit(j));
                    }
                }
            }
        }
        q = q + 1;
    }
    acc
}

pub struct CoveragePrune {
    /// Flat layout: `at_least_k[i * max_k + (k - 1)]` = bitboard of cells covered
    /// by at least k of the remaining pieces [i..n]. For `i = n` all values are zero.
    at_least_k: Vec<Bitboard>,
    max_k: usize,
    placements: Ghost<Seq<Vec<(usize, usize, Bitboard)>>>,
}

impl CoveragePrune {
    /// Largest deficit checked: M - 1.
    pub closed spec fn depth(self) -> int {
        self.max_k as int
    }

    /// The placements the tables were built from, indexed by solver piece index.
    pub closed spec fn source(self) -> Seq<Vec<(usize, usize, Bitboard)>> {
        self.placements@
    }

    /// The precomputed tables are those of `source()` with `depth()` levels.
    pub closed spec fn wf(self) -> bool {
        &&& self.at_least_k@.len() == (self.placements@.len() + 1) * self.max_k
        &&& forall|i: int, k: int, j: int|
            0 <= i <= self.placements@.len() && 1 <= k <= self.max_k && 0 <= j < 256
                ==> #[trigger] self.at_least_k@[i * self.max_k + (k - 1)].bit(j) == (reach_count(
                self.placements@,
                i,
                j,
            ) >= k)
    }

    /// Build from all placements (indexed by solver piece index) and board modulus.
    pub fn precompute(placements: &[Vec<(usize, usize, Bitboard)>], m: u8) -> (r: Self)
        requires
            1 <= m,
            (placements@.len() + 1) * m <= usize::MAX,
        ensures
            r.wf(),
            r.depth() == m - 1,
            r.source() == placements@,
    {
        let n = placements.len();
        let max_k = (m - 1) as usize;
        let ghost ps = placements@;
        assert(n + 1 <= (n + 1) * m && (n + 1) * max_k <= (n + 1) * m) by (nonlinear_arith)
            requires
                max_k < m,
                1 <= m,
        ;
        let total = (n + 1) * max_k;
        let zero = Bitboard::zero();
        let mut at_least_k: Vec<Bitboard> = Vec::new();
        let mut t: usize = 0;
        while t < total
            invariant
                0 <= t <= total,
                at_least_k@.len() == t,
                forall|p: int| 0 <= p < t ==> #[trigger] at_least_k@[p] == zero,
            decreases total - t,
        {
            at_least_k.push(zero);
            t = t + 1;
        }
        proof {
            assert forall|k: int, j: int| 1 <= k <= max_k && 0 <= j < 256 implies #[trigger] at_least_k@[
                n * max_k + (k - 1)].bit(j) == (reach_count(ps, n as int, j) >= k) by {
                assert(n * max_k + (k - 1) < (n + 1) * max_k) by (nonlinear_arith)
                    requires 1 <= k <= max_k;
                assert(at_least_k@[n * max_k + (k - 1)] == zero);
            }
        }
        let mut i = n;
        while i > 0
            invariant
                n == ps.len(),
                ps == placements@,
                max_k == m - 1,
                total == (n + 1) * max_k,
                at_least_k@.len() == total,
                0 <= i <= n,
                forall|ii: int, k: int, j: int|
                    i <= ii <= n && 1 <= k <= max_k && 0 <= j < 256 ==> #[trigger] at_least_k@[ii
                        * max_k + (k - 1)].bit(j) == (reach_count(ps, ii, j) >= k),
            decreases i,
        {
            i = i - 1;
            let coverage = union_of(&placements[i]);
            proof {
                assert(i * max_k + max_k == (i + 1) * max_k) by (nonlinear_arith);
                assert((i + 1) * max_k + max_k <= (n + 1) * max_k) by (nonlinear_arith)
                    requires i < n;
            }
            let base = i * max_k;
            let next_base = base + max_k;
            let mut k: usize = 0;
            while k < max_k
                invariant
                    n == ps.len(),
                    ps == placements@,
                    max_k == m - 1,
                    total == (n + 1) * max_k,
                    at_least_k@.len() == total,
                    0 <= i < n,
                    base == i * max_k,
                    next_base == (i + 1) * max_k,
                    next_base == base + max_k,
                    next_base + max_k <= total,
                    0 <= k <= max_k,
                    forall|ii: int, kk: int, j: int|
                        i + 1 <= ii <= n && 1 <= kk <= max_k && 0 <= j < 256 ==> #[trigger] at_least_k@[ii
                            * max_k + (kk - 1)].bit(j) == (reach_count(ps, ii, j) >= kk),
                    forall|kk: int| 0 <= kk < k ==> #[trigger] at_least_k@[base + kk] == at_least_k@[next_base + kk],
                decreases max_k - k,
            {
                let v = at_least_k[next_base + k];
                let ghost before = at_least_k@;
                at_least_k[base + k] = v;
                proof {
                    assert forall|ii: int, kk: int, j: int|
                        i + 1 <= ii <= n && 1 <= kk <= max_k && 0 <= j < 256 implies #[trigger] at_least_k@[ii
                        * max_k + (kk - 1)].bit(j) == (reach_count(ps, ii, j) >= kk) by {
                        assert(ii * max_k + (kk - 1) >= (i + 1) * max_k && ii * max_k + (kk - 1) < (n + 1)
                            * max_k) by (nonlinear_arith)
                            requires
                                ii >= i + 1,
                                kk >= 1,
                                ii <= n,
                                kk <= max_k,
                        ;
                        assert(at_least_k@[ii * max_k + (kk - 1)] == before[ii * max_k + (kk - 1)]);
                    }
                }
                k = k + 1;
            }
            let mut kk = max_k;
            while kk >= 1
                invariant
                    n == ps.len(),
                    ps == placements@,
                    max_k == m - 1,
                    total == (n + 1) * max_k,
                    at_least_k@.len() == total,
                    0 <= i < n,
                    base == i * max_k,
                    next_base == (i + 1) * max_k,
                    next_base == base + max_k,
                    next_base + max_k <= total,
                    0 <= kk <= max_k,
                    forall|j: int| 0 <= j < 256 ==> #[trigger] coverage.bit(j) == reaches(ps[i as int]@, j),
                    forall|ii: int, k2: int, j: int|
                        i + 1 <= ii <= n && 1 <= k2 <= max_k && 0 <= j < 256 ==> #[trigger] at_least_k@[ii
                            * max_k + (k2 - 1)].bit(j) == (reach_count(ps, ii, j) >= k2),
                    forall|k2: int| 0 <= k2 < kk ==> #[trigger] at_least_k@[base + k2] == at_least_k@[next_base + k2],
                    forall|k2: int, j: int|
                        kk < k2 <= max_k && 0 <= j < 256 ==> #[trigger] at_least_k@[base + (k2 - 1)].bit(j)
                            == (reach_count(ps, i as int, j) >= k2),
                decreases kk,
            {
                let prev = if kk == 1 {
                    coverage
                } else {
                    at_least_k[base + (kk - 2)]
                };
                let cur = at_least_k[base + (kk - 1)];
                let updated = cur.or(&prev.and(&coverage));
                let ghost before = at_least_k@;
                at_least_k[base + (kk - 1)] = updated;
                proof {
                    assert forall|j: int| 0 <= j < 256 implies #[trigger] updated.bit(j) == (reach_count(
                        ps,
                        i as int,
                        j,
                    ) >= kk) by {
                        let below = reach_count(ps, i + 1, j);
                        assert(reach_count(ps, i as int, j) == below + if reaches(ps[i as int]@, j) {
                            1int
                        } else {
                            0int
                        });
                        assert(at_least_k@[next_base + (kk - 1)] == cur);
                        assert((i + 1) * max_k + (kk - 1) == next_base + (kk - 1));
                        assert(cur.bit(j) == (below >= kk));
                        if kk > 1 {
                            assert(at_least_k@[next_base + (kk - 2)] == prev);
                            assert((i + 1) * max_k + (kk - 1 - 1) == next_base + (kk - 2));
                            assert(prev.bit(j) == (below >= kk - 1));
                        } else {
                            assert(below >= 0) by {
                                lemma_reach_count_nonneg(ps, i + 1, j);
                            }
                        }
                    }
                    assert forall|ii: int, k2: int, j: int|
                        i + 1 <= ii <= n && 1 <= k2 <= max_k && 0 <= j < 256 implies #[trigger] at_least_k@[ii
                        * max_k + (k2 - 1)].bit(j) == (reach_count(ps, ii, j) >= k2) by {
                        assert(ii * max_k + (k2 - 1) >= (i + 1) * max_k && ii * max_k + (k2 - 1) < (n + 1)
                            * max_k) by (nonlinear_arith)
                            requires
                                ii >= i + 1,
                                k2 >= 1,
                                ii <= n,
                                k2 <= max_k,
                        ;
                        assert(at_least_k@[ii * max_k + (k2 - 1)] == before[ii * max_k + (k2 - 1)]);
                    }
                }
                kk = kk - 1;
            }
            proof {
                assert forall|ii: int, k2: int, j: int|
                    i <= ii <= n && 1 <= k2 <= max_k && 0 <= j < 256 implies #[trigger] at_least_k@[ii
                    * max_k + (k2 - 1)].bit(j) == (reach_count(ps, ii, j) >= k2) by {
                    if ii == i {
                        assert(ii * max_k + (k2 - 1) == base + (k2 - 1));
                    }
                }
            }
        }
        Self { at_least_k, max_k, placements: Ghost(ps) }
    }

    /// Returns false (prune) exactly when some cell's deficit k (1 <= k <= depth)
    /// exceeds the number of remaining pieces that can reach it.
    pub fn try_prune(&self, board: &Board, piece_idx: usize) -> (r: bool)
        requires
            self.wf(),
            board.wf(),
            self.depth() <= 4,
            piece_idx <= self.source().len(),
        ensures
            r == (forall|j: int|
                #![trigger board.cell(j)]
                board.valid(j) && 1 <= board.cell(j) <= self.depth() ==> reach_count(
                    self.source(),
                    piece_idx as int,
                    j,
                ) >= board.cell(j)),
    {
        if self.max_k == 0 {
            return true;
        }
        let len = self.at_least_k.len();
        proof {
            assert(piece_idx * self.max_k + self.max_k <= (self.placements@.len() + 1) * self.max_k)
                by (nonlinear_arith)
                requires piece_idx <= self.placements@.len();
        }
        let base = piece_idx * self.max_k;
        let mut k: usize = 1;
        while k <= self.max_k
            invariant
                self.wf(),
                board.wf(),
                1 <= self.max_k <= 4,
                piece_idx <= self.placements@.len(),
                base == piece_idx * self.max_k,
                base + self.max_k <= self.at_least_k@.len(),
                len == self.at_least_k@.len(),
                1 <= k <= self.max_k + 1,
                forall|j: int|
                    #![trigger board.cell(j)]
                    board.valid(j) && 1 <= board.cell(j) < k ==> reach_count(
                        self.placements@,
                        piece_idx as int,
                        j,
                    ) >= board.cell(j),
            decreases self.max_k + 1 - k,
        {
            let required = board.plane(k as u8);
            let available = self.at_least_k[base + k - 1];
            let missing = required.and(&available.not());
            proof {
                assert(base + k - 1 == piece_idx * self.max_k + (k - 1));
            }
            if !missing.is_zero() {
                proof {
                    let j = choose|j: int| 0 <= j < 256 && #[trigger] missing.bit(j);
                    assert(board.valid(j) && board.cell(j) == k);
                    assert(!available.bit(j));
                }
                return false;
            }
            proof {
                assert forall|j: int|
                    #![trigger board.cell(j)]
                    board.valid(j) && 1 <= board.cell(j) < k + 1 implies reach_count(
                    self.placements@,
                    piece_idx as int,
                    j,
                ) >= board.cell(j) by {
                    if board.cell(j) == k {
                        assert(required.bit(j));
                        assert(!missing.bit(j));
                    }
                }
            }
            k = k + 1;
        }
        true
    }
}

proof fn lemma_reach_count_nonneg(ps: Seq<Vec<(usize, usize, Bitboard)>>, from: int, j: int)
    ensures
        reach_count(ps, from, j) >= 0,
    decreases ps.len() - from,
{
    if 0 <= from < ps.len() {
        lemma_reach_count_nonneg(ps, from + 1, j);
    }
}

} // verus!
