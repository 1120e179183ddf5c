//! The solver: ordering pieces, depth-first search over placements, and the
//! bounds that prune the search.

pub mod adjacency;
pub mod counting;
pub mod finish;
pub mod smoothing;
pub mod prune;
pub mod pruning;
pub mod anchor;
pub mod backtrack;

use vstd::prelude::*;
use crate::game::{covers, placement_fits};
use crate::model::bitboard::Bitboard;
use crate::model::board::Board;
use crate::model::piece::{Piece, shifted};
use crate::solver::backtrack::{MAX_PLACEMENTS, is_unit, count_where, hits, is_solution, placements_fit, units_solve};
use crate::solver::pruning::jaggedness::JaggednessBound;
use crate::solver::pruning::total_deficit::TotalDeficitBound;
use crate::solver::pruning::partition::PartitionReachability;
use crate::solver::pruning::cell_set::{CellSetBound, placement_lists};
use crate::solver::pruning::monte_carlo::MonteCarloBounds;
use crate::solver::prune::jaggedness::suffix_perimeter;
use crate::solver::backtrack::{SearchPosition, backtrack, completes, reached};
use crate::game::Game;
use crate::solver::anchor::{AnchorPlacementData, lemma_piece_translates};

verus! {

/// Everything the search reads at a node, in solver piece order.
pub struct SolverData {
    pub(crate) placements: Vec<Vec<(usize, usize, Bitboard)>>,
    pub(crate) anchor_placements: Vec<AnchorPlacementData>,
    pub(crate) total_deficit: TotalDeficitBound,
    pub(crate) jaggedness: JaggednessBound,
    pub(crate) partition_reachability: PartitionReachability,
    pub(crate) cell_set_bound: CellSetBound,
    pub(crate) monte_carlo: MonteCarloBounds,
    pub(crate) equivalent_pair_skips: Vec<Option<Vec<bool>>>,
    pub(crate) single_cell_suffix_start: usize,
    pub(crate) modulus: u8,
    pub(crate) height: u8,
    pub(crate) width: u8,
}

impl SolverData {
    /// The data describes the search for board `b` with pieces `sp`, in
    /// solver order: every listed placement of piece `d` lies on the board,
    /// its mask is the piece moved to its anchor, and every piece from the
    /// single-cell suffix on is a unit piece.
    pub(crate) open spec fn wf(self, b: Board, sp: Seq<Piece>) -> bool {
        let n = sp.len();
        &&& self.placements@.len() == n
        &&& self.modulus == b.modulus()
        &&& self.height == b.rows()
        &&& self.width == b.cols()
        &&& n + 1 <= usize::MAX
        &&& forall|d: int| 0 <= d < n ==> #[trigger] sp[d].wf()
        &&& forall|d: int| 0 <= d < n ==> (#[trigger] self.placements@[d])@.len() <= MAX_PLACEMENTS
        &&& forall|d: int, k: int|
            0 <= d < n && 0 <= k < self.placements@[d]@.len() ==> {
                let p = #[trigger] self.placements@[d]@[k];
                &&& placement_fits(b, sp[d], p.0 as int, p.1 as int)
                &&& shifted(p.2, sp[d].cells(), 15 * p.0 + p.1)
            }
        &&& self.anchor_placements@.len() == n
        &&& forall|d: int| 0 <= d < n ==> (#[trigger] self.anchor_placements@[d]).describes(self.placements@[d]@)
        &&& self.single_cell_suffix_start <= n
        &&& forall|d: int| self.single_cell_suffix_start <= d < n ==> #[trigger] is_unit(sp[d])
        &&& self.equivalent_pair_skips@.len() == n
        &&& forall|d: int|
            0 <= d < n && (#[trigger] self.equivalent_pair_skips@[d]) is Some ==> d > 0
                && self.equivalent_pair_skips@[d].unwrap()@.len() == self.placements@[d - 1]@.len()
                * self.placements@[d]@.len()
        &&& self.total_deficit.wf()
        &&& self.total_deficit.depths() == n + 1
        &&& self.jaggedness.remaining_horizontal().len() == n + 1
        &&& self.jaggedness.remaining_vertical().len() == n + 1
        &&& forall|d: int|
            0 <= d <= n ==> self.modulus * #[trigger] self.jaggedness.remaining_horizontal()[d]
                <= u32::MAX
        &&& forall|d: int|
            0 <= d <= n ==> self.modulus * #[trigger] self.jaggedness.remaining_vertical()[d]
                <= u32::MAX
        &&& self.partition_reachability.wf(sp, b.rows(), b.cols())
        &&& forall|k: int, d: int|
            0 <= k < self.partition_reachability.len() && 0 <= d <= n ==> #[trigger] self.partition_reachability.suffix_min_at(
                k,
                d,
            ) <= self.total_deficit.remaining()[d]
        &&& self.cell_set_bound.wf(placement_lists(self.placements@), b.rows(), b.cols(), b.modulus())
        &&& self.monte_carlo.wf()
        &&& self.monte_carlo.piece_count_spec() == n
    }
}

/// Lexicographic order of limb arrays.
pub open spec fn limbs_less(a: [u64; 4], b: [u64; 4]) -> bool {
    a[0] < b[0] || (a[0] == b[0] && (a[1] < b[1] || (a[1] == b[1] && (a[2] < b[2] || (a[2] == b[2]
        && a[3] < b[3])))))
}

/// Perimeter of a piece.
pub open spec fn perimeter_of(p: Piece) -> int {
    p.h_perimeter_spec() + p.v_perimeter_spec()
}

/// Piece `i` comes strictly before piece `j` in solver order, ignoring
/// ties: fewer placements first, then the larger perimeter, then more
/// cells, then the smaller shape.
pub open spec fn key_less(lens: Seq<usize>, pieces: Seq<Piece>, i: int, j: int) -> bool {
    ||| lens[i] < lens[j]
    ||| lens[i] == lens[j] && perimeter_of(pieces[i]) > perimeter_of(pieces[j])
    ||| lens[i] == lens[j] && perimeter_of(pieces[i]) == perimeter_of(pieces[j]) && pieces[i].cells().count()
        > pieces[j].cells().count()
    ||| lens[i] == lens[j] && perimeter_of(pieces[i]) == perimeter_of(pieces[j]) && pieces[i].cells().count()
        == pieces[j].cells().count() && limbs_less(pieces[i].cells()@, pieces[j].cells()@)
}

/// Piece `i` comes before piece `j` in solver order; ties keep input order.
pub open spec fn order_before(lens: Seq<usize>, pieces: Seq<Piece>, i: int, j: int) -> bool {
    key_less(lens, pieces, i, j) || (!key_less(lens, pieces, j, i) && i < j)
}

/// Whether `a` precedes `b` lexicographically.
fn limbs_precede(a: [u64; 4], b: [u64; 4]) -> (r: bool)
    ensures
        r == limbs_less(a, b),
{
    if a[0] != b[0] {
        return a[0] < b[0];
    }
    if a[1] != b[1] {
        return a[1] < b[1];
    }
    if a[2] != b[2] {
        return a[2] < b[2];
    }
    a[3] < b[3]
}

/// Whether piece `i` goes strictly before piece `j` by the solver-order key.
fn piece_key_less(lens: &Vec<usize>, pieces: &[Piece], i: usize, j: usize) -> (r: bool)
    requires
        i < lens@.len(),
        j < lens@.len(),
        lens@.len() == pieces@.len(),
    ensures
        r == key_less(lens@, pieces@, i as int, j as int),
{
    if lens[i] != lens[j] {
        return lens[i] < lens[j];
    }
    let pi = pieces[i].perimeter();
    let pj = pieces[j].perimeter();
    if pi != pj {
        return pi > pj;
    }
    let ci = pieces[i].cell_count();
    let cj = pieces[j].cell_count();
    if ci != cj {
        return ci > cj;
    }
    limbs_precede(pieces[i].shape().limbs(), pieces[j].shape().limbs())
}

/// The key order is transitive and asymmetric.
proof fn lemma_key_less_order(lens: Seq<usize>, pieces: Seq<Piece>)
    ensures
        forall|i: int, j: int, k: int|
            #[trigger] key_less(lens, pieces, i, j) && #[trigger] key_less(lens, pieces, j, k) ==> key_less(
                lens,
                pieces,
                i,
                k,
            ),
        forall|i: int, j: int| #[trigger] key_less(lens, pieces, i, j) ==> !key_less(lens, pieces, j, i),
{
}

/// `order[start..u]` increases strictly in solver order.
pub open spec fn order_sorted(order: Seq<usize>, lens: Seq<usize>, pieces: Seq<Piece>, u: int) -> bool {
    forall|a: int, c: int|
        0 <= a < c < u ==> order_before(lens, pieces, #[trigger] order[a] as int, #[trigger] order[c] as int)
}

/// Position `a` of `order` holds `k`.
pub open spec fn lists(order: Seq<usize>, a: int, k: int) -> bool {
    order[a] == k
}

/// Some position below `n` of `order` holds `k`.
pub open spec fn listed(order: Seq<usize>, n: int, k: int) -> bool {
    exists|a: int| 0 <= a < n && #[trigger] lists(order, a, k)
}

/// `order` lists each of `0..n` exactly once.
pub open spec fn is_permutation(order: Seq<usize>, n: int) -> bool {
    &&& order.len() == n
    &&& forall|a: int| 0 <= a < n ==> #[trigger] order[a] < n
    &&& forall|a: int, c: int| 0 <= a < c < n ==> #[trigger] order[a] != #[trigger] order[c]
    &&& forall|k: int| 0 <= k < n ==> #[trigger] listed(order, n, k)
}

/// Sort piece indices into solver order: a stable insertion sort by the
/// solver-order key.
fn sort_piece_order(lens: &Vec<usize>, pieces: &[Piece]) -> (order: Vec<usize>)
    requires
        lens@.len() == pieces@.len(),
    ensures
        is_permutation(order@, pieces@.len() as int),
        order_sorted(order@, lens@, pieces@, pieces@.len() as int),
{
    let n = pieces.len();
    let mut order: Vec<usize> = Vec::new();
    let mut k: usize = 0;
    while k < n
        invariant
            n == pieces@.len(),
            0 <= k <= n,
            order@.len() == k,
            forall|a: int| 0 <= a < k ==> #[trigger] order@[a] == a,
        decreases n - k,
    {
        order.push(k);
        k = k + 1;
    }
    let ghost input = order@;
    let ghost mut perm: Seq<int> = Seq::new(n as nat, |i: int| i);
    let ghost mut inv: Seq<int> = Seq::new(n as nat, |i: int| i);
    proof {
        lemma_key_less_order(lens@, pieces@);
    }
    let mut unsorted_index: usize = if n > 0 {
        1
    } else {
        0
    };
    while unsorted_index < n
        invariant
            n == pieces@.len(),
            lens@.len() == n,
            order@.len() == n,
            input.len() == n,
            forall|a: int| 0 <= a < n ==> #[trigger] input[a] == a,
            0 <= unsorted_index <= n,
            n > 0 ==> 1 <= unsorted_index,
            forall|a: int| unsorted_index <= a < n ==> #[trigger] order@[a] == input[a],
            perm.len() == n,
            inv.len() == n,
            forall|a: int|
                0 <= a < unsorted_index ==> 0 <= #[trigger] perm[a] < unsorted_index && order@[a]
                    == input[perm[a]],
            forall|c: int|
                0 <= c < unsorted_index ==> 0 <= #[trigger] inv[c] < unsorted_index && order@[inv[c]]
                    == input[c],
            order_sorted(order@, lens@, pieces@, unsorted_index as int),
            forall|i: int, j: int, k: int|
                #[trigger] key_less(lens@, pieces@, i, j) && #[trigger] key_less(lens@, pieces@, j, k)
                    ==> key_less(lens@, pieces@, i, k),
            forall|i: int, j: int| #[trigger] key_less(lens@, pieces@, i, j) ==> !key_less(lens@, pieces@, j, i),
        decreases n - unsorted_index,
    {
        let ghost pre = order@;
        let placement = order[unsorted_index];
        proof {
            assert forall|a: int| 0 <= a < unsorted_index implies #[trigger] pre[a] < placement by {
                assert(pre[a] == input[perm[a]]);
            }
        }
        let mut insertion_index = unsorted_index;
        while insertion_index > 0 && piece_key_less(lens, pieces, placement, order[insertion_index - 1])
            invariant
                n == pieces@.len(),
                lens@.len() == n,
                order@.len() == n,
                0 <= insertion_index <= unsorted_index < n,
                placement == pre[unsorted_index as int],
                placement == unsorted_index,
                pre.len() == n,
                forall|a: int|
                    0 <= a < n && !(insertion_index < a <= unsorted_index) ==> #[trigger] order@[a] == pre[a],
                forall|a: int| insertion_index < a <= unsorted_index ==> #[trigger] order@[a] == pre[a - 1],
                forall|a: int|
                    insertion_index <= a < unsorted_index ==> key_less(
                        lens@,
                        pieces@,
                        placement as int,
                        #[trigger] pre[a] as int,
                    ),
                forall|a: int| 0 <= a < unsorted_index ==> #[trigger] pre[a] < n,
            decreases insertion_index,
        {
            let moved = order[insertion_index - 1];
            order.set(insertion_index, moved);
            insertion_index = insertion_index - 1;
        }
        order.set(insertion_index, placement);
        proof {
            let ins = insertion_index as int;
            let u = unsorted_index as int;
            assert forall|a: int| 0 <= a <= u implies #[trigger] order@[a] == if a < ins {
                pre[a]
            } else if a == ins {
                pre[u]
            } else {
                pre[a - 1]
            } by {}
            assert forall|a: int, c: int| 0 <= a < c < u + 1 implies order_before(
                lens@,
                pieces@,
                #[trigger] order@[a] as int,
                #[trigger] order@[c] as int,
            ) by {
                let x = placement as int;
                if a < ins && c < ins {
                    assert(order@[a] == pre[a] && order@[c] == pre[c]);
                } else if a < ins && c == ins {
                    assert(order@[a] == pre[a]);
                    if a < ins - 1 {
                        assert(order_before(lens@, pieces@, pre[a] as int, pre[ins - 1] as int));
                    }
                    assert(!key_less(lens@, pieces@, x, pre[ins - 1] as int));
                    assert(pre[ins - 1] < x);
                } else if a < ins {
                    assert(order@[a] == pre[a]);
                    assert(order@[c] == pre[c - 1]);
                } else if a == ins {
                    assert(order@[c] == pre[c - 1]);
                    assert(key_less(lens@, pieces@, x, pre[c - 1] as int));
                } else {
                    assert(order@[a] == pre[a - 1]);
                    assert(order@[c] == pre[c - 1]);
                }
            }
            let old_perm = perm;
            let old_inv = inv;
            perm = Seq::new(
                n as nat,
                |a: int|
                    if a < ins {
                        old_perm[a]
                    } else if a == ins {
                        u
                    } else if a <= u {
                        old_perm[a - 1]
                    } else {
                        a
                    },
            );
            inv = Seq::new(
                n as nat,
                |c: int|
                    if c == u {
                        ins
                    } else if c > u {
                        c
                    } else if old_inv[c] < ins {
                        old_inv[c]
                    } else {
                        old_inv[c] + 1
                    },
            );
            assert forall|a: int| 0 <= a < u + 1 implies 0 <= #[trigger] perm[a] < u + 1 && order@[a]
                == input[perm[a]] by {
                if a > ins {
                    assert(0 <= old_perm[a - 1] < u);
                }
            }
            assert forall|c: int| 0 <= c < u + 1 implies 0 <= #[trigger] inv[c] < u + 1 && order@[inv[c]]
                == input[c] by {
                if c < u {
                    assert(0 <= old_inv[c] < u);
                }
            }
        }
        unsorted_index = unsorted_index + 1;
    }
    proof {
        assert forall|a: int| 0 <= a < n implies #[trigger] order@[a] < n by {
            assert(order@[a] == input[perm[a]]);
        }
        assert forall|a: int, c: int| 0 <= a < c < n implies #[trigger] order@[a] != #[trigger] order@[c] by {
            assert(order_before(lens@, pieces@, order@[a] as int, order@[c] as int));
        }
        assert forall|k: int| 0 <= k < n implies #[trigger] listed(order@, n as int, k) by {
            assert(lists(order@, inv[k], k));
        }
    }
    order
}

/// Hits count the placements covering a cell.
pub proof fn lemma_hits_count(pieces: Seq<Piece>, sol: Seq<(usize, usize)>, n: int, i: int)
    requires
        0 <= n,
    ensures
        hits(pieces, sol, n, i) == count_where(
            |k: int| covers(pieces[k], sol[k].0 as int, sol[k].1 as int, i),
            n,
        ),
    decreases n,
{
    if n > 0 {
        lemma_hits_count(pieces, sol, n - 1, i);
    }
}

/// Changing a predicate at one index changes its count by the difference there.
proof fn lemma_count_where_update(p: spec_fn(int) -> bool, q: spec_fn(int) -> bool, n: int, j: int)
    requires
        0 <= j < n,
        forall|k: int| 0 <= k < n && k != j ==> #[trigger] p(k) == q(k),
    ensures
        count_where(q, n) + (if p(j) {
            1int
        } else {
            0int
        }) == count_where(p, n) + (if q(j) {
            1int
        } else {
            0int
        }),
    decreases n,
{
    if n - 1 > j {
        lemma_count_where_update(p, q, n - 1, j);
        assert(p(n - 1) == q(n - 1));
    } else {
        crate::solver::backtrack::lemma_count_where_ext(p, q, n - 1);
    }
}

/// Counting a predicate over a permutation of `0..n` counts it over `0..n`.
pub proof fn lemma_count_permuted(q: spec_fn(int) -> bool, order: Seq<usize>, n: int)
    requires
        0 <= n,
        is_permutation(order, n),
    ensures
        count_where(|d: int| q(order[d] as int), n) == count_where(q, n),
    decreases n,
{
    if n > 0 {
        let last = n - 1;
        assert(listed(order, n, last));
        let j = choose|a: int| 0 <= a < n && #[trigger] lists(order, a, last);
        let shrunk = Seq::new(
            (n - 1) as nat,
            |d: int|
                if d == j {
                    order[n - 1]
                } else {
                    order[d]
                },
        );
        assert forall|d: int| 0 <= d < n - 1 implies #[trigger] shrunk[d] < n - 1 by {
            if d == j {
                assert(order[n - 1] != order[j]);
            } else {
                assert(order[d] != order[j]);
            }
        }
        assert forall|a: int, c: int| 0 <= a < c < n - 1 implies #[trigger] shrunk[a] != #[trigger] shrunk[c] by {
            if a == j {
                assert(order[n - 1] != order[c]);
            } else if c == j {
                assert(order[a] != order[n - 1]);
            } else {
                assert(order[a] != order[c]);
            }
        }
        assert forall|k: int| 0 <= k < n - 1 implies #[trigger] listed(shrunk, n - 1, k) by {
            assert(listed(order, n, k));
            let a = choose|a: int| 0 <= a < n && #[trigger] lists(order, a, k);
            assert(a != j);
            if a < n - 1 {
                assert(lists(shrunk, a, k));
            } else {
                assert(j != n - 1);
                assert(lists(shrunk, j, k));
            }
        }
        lemma_count_permuted(q, shrunk, n - 1);
        let f = |d: int| q(order[d] as int);
        let g = |d: int| q(shrunk[d] as int);
        if j == n - 1 {
            crate::solver::backtrack::lemma_count_where_ext(f, g, n - 1);
        } else {
            lemma_count_where_update(f, g, n - 1, j);
        }
    }
}

/// Put the placements found in solver order back in the puzzle's order:
/// the placement found `d`-th belongs to piece `piece_order[d]`.
pub fn restore_piece_order(sorted_solution: &[(usize, usize)], piece_order: &[usize]) -> (solution: Vec<(usize, usize)>)
    requires
        piece_order@.len() == sorted_solution@.len(),
        forall|d: int| 0 <= d < piece_order@.len() ==> #[trigger] piece_order@[d] < piece_order@.len(),
    ensures
        solution@.len() == sorted_solution@.len(),
        forall|d: int|
            0 <= d < piece_order@.len() && (forall|e: int|
                0 <= e < piece_order@.len() && e != d ==> piece_order@[e] != piece_order@[d])
                ==> solution@[#[trigger] piece_order@[d] as int] == sorted_solution@[d],
{
    let n = sorted_solution.len();
    let mut solution: Vec<(usize, usize)> = Vec::new();
    let mut k: usize = 0;
    while k < n
        invariant
            0 <= k <= n,
            solution@.len() == k,
        decreases n - k,
    {
        solution.push((0, 0));
        k = k + 1;
    }
    let mut sorted_index: usize = 0;
    while sorted_index < n
        invariant
            n == sorted_solution@.len(),
            n == piece_order@.len(),
            solution@.len() == n,
            0 <= sorted_index <= n,
            forall|d: int| 0 <= d < n ==> #[trigger] piece_order@[d] < n,
            forall|d: int|
                0 <= d < sorted_index && (forall|e: int|
                    0 <= e < sorted_index && e != d ==> piece_order@[e] != piece_order@[d])
                    ==> solution@[#[trigger] piece_order@[d] as int] == sorted_solution@[d],
        decreases n - sorted_index,
    {
        let ghost pre = solution@;
        solution.set(piece_order[sorted_index], sorted_solution[sorted_index]);
        proof {
            assert forall|d: int|
                0 <= d < sorted_index + 1 && (forall|e: int|
                    0 <= e < sorted_index + 1 && e != d ==> piece_order@[e] != piece_order@[d])
                    implies solution@[#[trigger] piece_order@[d] as int] == sorted_solution@[d] by {
                if d < sorted_index {
                    assert(piece_order@[sorted_index as int] != piece_order@[d]);
                    assert(forall|e: int|
                        0 <= e < sorted_index && e != d ==> piece_order@[e] != piece_order@[d]);
                }
            }
        }
        sorted_index = sorted_index + 1;
    }
    solution
}

/// Placements found for the pieces in solver order solve the board once put
/// back in the puzzle's order.
pub proof fn lemma_restored_solution(
    b: Board,
    pieces: Seq<Piece>,
    order: Seq<usize>,
    sorted: Seq<(usize, usize)>,
    restored: Seq<(usize, usize)>,
)
    requires
        is_permutation(order, pieces.len() as int),
        is_solution(b, Seq::new(pieces.len(), |d: int| pieces[order[d] as int]), sorted),
        restored.len() == pieces.len(),
        forall|d: int| 0 <= d < order.len() ==> restored[#[trigger] order[d] as int] == sorted[d],
    ensures
        is_solution(b, pieces, restored),
{
    let n = pieces.len() as int;
    let sp = Seq::new(pieces.len(), |d: int| pieces[order[d] as int]);
    assert forall|k: int| 0 <= k < n implies #[trigger] placement_fits(
        b,
        pieces[k],
        restored[k].0 as int,
        restored[k].1 as int,
    ) by {
        assert(listed(order, n, k));
        let d = choose|a: int| 0 <= a < n && #[trigger] lists(order, a, k);
        assert(restored[k] == sorted[d]);
        assert(placement_fits(b, sp[d], sorted[d].0 as int, sorted[d].1 as int));
    }
    assert forall|i: int| 0 <= i < 256 && b.valid(i) implies (b.cell(i) - #[trigger] hits(
        pieces,
        restored,
        restored.len() as int,
        i,
    )) % b.modulus() == 0 by {
        let q = |k: int| covers(pieces[k], restored[k].0 as int, restored[k].1 as int, i);
        lemma_hits_count(pieces, restored, n, i);
        lemma_hits_count(sp, sorted, n, i);
        lemma_count_permuted(q, order, n);
        crate::solver::backtrack::lemma_count_where_ext(
            |d: int| q(order[d] as int),
            |k: int| covers(sp[k], sorted[k].0 as int, sorted[k].1 as int, i),
            n,
        );
    }
}

/// Placing masks `a` and `b` has the same effect as placing `c` and `d`:
/// the same cells are covered twice and the same cells once.
pub open spec fn same_effect(a: Bitboard, b: Bitboard, c: Bitboard, d: Bitboard) -> bool {
    forall|i: int|
        0 <= i < 256 ==> (#[trigger] a.bit(i) && b.bit(i)) == (c.bit(i) && d.bit(i)) && (a.bit(i)
            != b.bit(i)) == (c.bit(i) != d.bit(i))
}

/// Pair `s` (previous placement `s / |cur|`, current `s % |cur|`) has the
/// same effect as pair `t`.
pub open spec fn same_pair_effect(
    prev: Seq<(usize, usize, Bitboard)>,
    cur: Seq<(usize, usize, Bitboard)>,
    s: int,
    t: int,
) -> bool {
    let w = cur.len() as int;
    same_effect(prev[s / w].2, cur[s % w].2, prev[t / w].2, cur[t % w].2)
}

/// Some pair before `t`, in row-major order, has the same effect as pair `t`.
pub open spec fn repeats_earlier(prev: Seq<(usize, usize, Bitboard)>, cur: Seq<(usize, usize, Bitboard)>, t: int) -> bool {
    exists|s: int| 0 <= s < t && #[trigger] same_pair_effect(prev, cur, s, t)
}

/// The equivalent-pair table of a piece after `prev`: entry `t` marks a pair
/// of placements whose effect an earlier pair already has; absent when no
/// pair repeats.
pub open spec fn skip_table_for(
    prev: Seq<(usize, usize, Bitboard)>,
    cur: Seq<(usize, usize, Bitboard)>,
    table: Option<Vec<bool>>,
) -> bool {
    match table {
        Some(t) => {
            &&& t@.len() == prev.len() * cur.len()
            &&& forall|k: int| 0 <= k < t@.len() ==> #[trigger] t@[k] == repeats_earlier(prev, cur, k)
        },
        None => forall|k: int| 0 <= k < prev.len() * cur.len() ==> !#[trigger] repeats_earlier(prev, cur, k),
    }
}

/// Masks of the two effect bitboards of a pair: cells covered twice and once.
fn pair_effect(a: Bitboard, b: Bitboard) -> (r: (Bitboard, Bitboard))
    ensures
        forall|i: int| 0 <= i < 256 ==> #[trigger] r.0.bit(i) == (a.bit(i) && b.bit(i)),
        forall|i: int| 0 <= i < 256 ==> #[trigger] r.1.bit(i) == (a.bit(i) != b.bit(i)),
{
    (a.and(&b), a.xor(&b))
}

/// Mark, for every piece after the first, the pairs of (previous, current)
/// placements whose combined effect an earlier pair already produces.
pub fn build_equivalent_pair_skips(placements: &Vec<Vec<(usize, usize, Bitboard)>>) -> (r: Vec<Option<Vec<bool>>>)
    requires
        forall|d: int| 0 <= d < placements@.len() ==> (#[trigger] placements@[d])@.len() <= MAX_PLACEMENTS,
    ensures
        r@.len() == placements@.len(),
        r@.len() > 0 ==> r@[0] is None,
        forall|d: int|
            0 < d < r@.len() ==> skip_table_for(placements@[d - 1]@, placements@[d]@, #[trigger] r@[d]),
{
    let n = placements.len();
    let mut r: Vec<Option<Vec<bool>>> = Vec::new();
    let mut piece_index: usize = 0;
    while piece_index < n
        invariant
            n == placements@.len(),
            forall|d: int| 0 <= d < n ==> (#[trigger] placements@[d])@.len() <= MAX_PLACEMENTS,
            0 <= piece_index <= n,
            r@.len() == piece_index,
            r@.len() > 0 ==> r@[0] is None,
            forall|d: int|
                0 < d < piece_index ==> skip_table_for(placements@[d - 1]@, placements@[d]@, #[trigger] r@[d]),
        decreases n - piece_index,
    {
        if piece_index == 0 {
            r.push(None);
        } else {
            let previous = &placements[piece_index - 1];
            let current = &placements[piece_index];
            let table = pair_skips(previous, current);
            r.push(table);
        }
        piece_index = piece_index + 1;
    }
    r
}

/// The equivalent-pair table of `current` after `previous`.
fn pair_skips(previous: &Vec<(usize, usize, Bitboard)>, current: &Vec<(usize, usize, Bitboard)>) -> (r: Option<Vec<bool>>)
    requires
        previous@.len() <= MAX_PLACEMENTS,
        current@.len() <= MAX_PLACEMENTS,
    ensures
        skip_table_for(previous@, current@, r),
{
    let lp = previous.len();
    let lc = current.len();
    let ghost pv = previous@;
    let ghost cv = current@;
    let mut seen_effects: Vec<(Bitboard, Bitboard)> = Vec::new();
    let mut skips: Vec<bool> = Vec::new();
    let mut has_skips = false;
    let mut previous_index: usize = 0;
    while previous_index < lp
        invariant
            pv == previous@,
            cv == current@,
            lp == pv.len(),
            lc == cv.len(),
            lp <= MAX_PLACEMENTS,
            lc <= MAX_PLACEMENTS,
            0 <= previous_index <= lp,
            skips@.len() == previous_index * lc,
            seen_effects@.len() == skips@.len(),
            forall|s: int|
                0 <= s < seen_effects@.len() ==> {
                    let e = #[trigger] seen_effects@[s];
                    forall|i: int|
                        0 <= i < 256 ==> #[trigger] e.0.bit(i) == (pv[s / lc as int].2.bit(i) && cv[s
                            % lc as int].2.bit(i)) && e.1.bit(i) == (pv[s / lc as int].2.bit(i) != cv[s
                            % lc as int].2.bit(i))
                },
            forall|k: int| 0 <= k < skips@.len() ==> #[trigger] skips@[k] == repeats_earlier(pv, cv, k),
            has_skips == exists|k: int| 0 <= k < skips@.len() && #[trigger] skips@[k],
        decreases lp - previous_index,
    {
        let previous_mask = previous[previous_index].2;
        let mut current_index: usize = 0;
        while current_index < lc
            invariant
                pv == previous@,
                cv == current@,
                lp == pv.len(),
                lc == cv.len(),
                lp <= MAX_PLACEMENTS,
                lc <= MAX_PLACEMENTS,
                0 <= previous_index < lp,
                0 <= current_index <= lc,
                previous_mask == pv[previous_index as int].2,
                skips@.len() == previous_index * lc + current_index,
                seen_effects@.len() == skips@.len(),
                forall|s: int|
                    0 <= s < seen_effects@.len() ==> {
                        let e = #[trigger] seen_effects@[s];
                        forall|i: int|
                            0 <= i < 256 ==> #[trigger] e.0.bit(i) == (pv[s / lc as int].2.bit(i) && cv[s
                                % lc as int].2.bit(i)) && e.1.bit(i) == (pv[s / lc as int].2.bit(i)
                                != cv[s % lc as int].2.bit(i))
                    },
                forall|k: int| 0 <= k < skips@.len() ==> #[trigger] skips@[k] == repeats_earlier(pv, cv, k),
                has_skips == exists|k: int| 0 <= k < skips@.len() && #[trigger] skips@[k],
            decreases lc - current_index,
        {
            let current_mask = current[current_index].2;
            let effect = pair_effect(previous_mask, current_mask);
            proof {
                assert(previous_index * lc + current_index < MAX_PLACEMENTS * MAX_PLACEMENTS) by (nonlinear_arith)
                    requires
                        previous_index < lp,
                        current_index < lc,
                        lp <= MAX_PLACEMENTS,
                        lc <= MAX_PLACEMENTS,
                ;
            }
            let t = previous_index * lc + current_index;
            proof {
                assert(t < lp * lc) by (nonlinear_arith)
                    requires
                        previous_index < lp,
                        current_index < lc,
                        t == previous_index * lc + current_index,
                ;
                vstd::arithmetic::div_mod::lemma_fundamental_div_mod_converse(
                    t as int,
                    lc as int,
                    previous_index as int,
                    current_index as int,
                );
            }
            let mut repeated = false;
            let mut s: usize = 0;
            while s < seen_effects.len()
                invariant
                    0 <= s <= seen_effects@.len(),
                    seen_effects@.len() == t,
                    lc == cv.len(),
                    lc > 0,
                    (t as int) / (lc as int) == previous_index,
                    (t as int) % (lc as int) == current_index,
                    previous_mask == pv[previous_index as int].2,
                    current_mask == cv[current_index as int].2,
                    forall|i: int| 0 <= i < 256 ==> #[trigger] effect.0.bit(i) == (previous_mask.bit(i) && current_mask.bit(i)),
                    forall|i: int| 0 <= i < 256 ==> #[trigger] effect.1.bit(i) == (previous_mask.bit(i) != current_mask.bit(i)),
                    forall|q: int|
                        0 <= q < seen_effects@.len() ==> {
                            let e = #[trigger] seen_effects@[q];
                            forall|i: int|
                                0 <= i < 256 ==> #[trigger] e.0.bit(i) == (pv[q / lc as int].2.bit(i) && cv[q
                                    % lc as int].2.bit(i)) && e.1.bit(i) == (pv[q / lc as int].2.bit(i)
                                    != cv[q % lc as int].2.bit(i))
                        },
                    repeated == exists|q: int| 0 <= q < s && #[trigger] same_pair_effect(pv, cv, q, t as int),
                decreases seen_effects@.len() - s,
            {
                let seen = seen_effects[s];
                let equal = seen.0 == effect.0 && seen.1 == effect.1;
                proof {
                    let q = s as int;
                    if equal {
                        assert forall|i: int| 0 <= i < 256 implies (#[trigger] pv[q / lc as int].2.bit(i)
                            && cv[q % lc as int].2.bit(i)) == (pv[(t as int) / (lc as int)].2.bit(i) && cv[(t as int)
                            % (lc as int)].2.bit(i)) && (pv[q / lc as int].2.bit(i) != cv[q
                            % lc as int].2.bit(i)) == (pv[(t as int) / (lc as int)].2.bit(i) != cv[(t as int)
                            % (lc as int)].2.bit(i)) by {
                            assert(seen.0.bit(i) == effect.0.bit(i));
                            assert(seen.1.bit(i) == effect.1.bit(i));
                        }
                        assert(same_pair_effect(pv, cv, q, t as int));
                    } else if same_pair_effect(pv, cv, q, t as int) {
                        assert forall|i: int| 0 <= i < 256 implies #[trigger] seen.0.bit(i) == effect.0.bit(i) by {
                            assert(pv[q / lc as int].2.bit(i) == pv[q / lc as int].2.bit(i));
                        }
                        assert forall|i: int| 0 <= i < 256 implies #[trigger] seen.1.bit(i) == effect.1.bit(i) by {
                            assert(pv[q / lc as int].2.bit(i) == pv[q / lc as int].2.bit(i));
                            assert(seen.0.bit(i) == effect.0.bit(i));
                        }
                        Bitboard::lemma_bits_ext(seen.0, effect.0);
                        Bitboard::lemma_bits_ext(seen.1, effect.1);
                    }
                }
                if equal {
                    repeated = true;
                }
                s = s + 1;
            }
            let ghost pre_skips = skips@;
            seen_effects.push(effect);
            skips.push(repeated);
            if repeated {
                has_skips = true;
            }
            proof {
                assert(skips@[t as int] == repeats_earlier(pv, cv, t as int));
                assert forall|k: int| 0 <= k < skips@.len() implies #[trigger] skips@[k] == repeats_earlier(pv, cv, k) by {
                    if k < t {
                        assert(skips@[k] == pre_skips[k]);
                    }
                }
                if has_skips {
                    if repeated {
                        assert(skips@[t as int]);
                    } else {
                        let k = choose|k: int| 0 <= k < pre_skips.len() && #[trigger] pre_skips[k];
                        assert(skips@[k]);
                    }
                } else {
                    assert forall|k: int| 0 <= k < skips@.len() implies !#[trigger] skips@[k] by {
                        if k < t {
                            assert(skips@[k] == pre_skips[k]);
                        }
                    }
                }
                assert forall|q: int| 0 <= q < seen_effects@.len() implies {
                    let e = #[trigger] seen_effects@[q];
                    forall|i: int|
                        0 <= i < 256 ==> #[trigger] e.0.bit(i) == (pv[q / lc as int].2.bit(i) && cv[q
                            % lc as int].2.bit(i)) && e.1.bit(i) == (pv[q / lc as int].2.bit(i) != cv[q
                            % lc as int].2.bit(i))
                } by {
                    if q < t {
                        assert(seen_effects@[q] == seen_effects@.drop_last()[q]);
                    }
                }
            }
            current_index = current_index + 1;
        }
        proof {
            assert(previous_index * lc + lc == (previous_index + 1) * lc) by (nonlinear_arith);
        }
        previous_index = previous_index + 1;
    }
    if has_skips {
        Some(skips)
    } else {
        proof {
            assert(skips@.len() == lp * lc);
            assert forall|k: int| 0 <= k < lp * lc implies !#[trigger] repeats_earlier(pv, cv, k) by {
                assert(skips@[k] == repeats_earlier(pv, cv, k));
            }
        }
        None
    }
}

/// The most pieces a game may have: the per-depth counters of cells and
/// perimeters stay within `u32`.
pub const MAX_PIECES: usize = 4096;

/// Number of placements of piece `p` on board `b`.
pub open spec fn placement_count(b: Board, p: Piece) -> int {
    (b.rows() - p.rows() + 1) * (b.cols() - p.cols() + 1)
}

/// Placement counts of the pieces, in puzzle order.
pub open spec fn placement_counts(b: Board, pieces: Seq<Piece>) -> Seq<usize> {
    Seq::new(pieces.len(), |k: int| placement_count(b, pieces[k]) as usize)
}

/// The pieces listed in `order`.
pub open spec fn in_order(pieces: Seq<Piece>, order: Seq<usize>) -> Seq<Piece> {
    Seq::new(pieces.len(), |d: int| pieces[order[d] as int])
}

/// What the search needs of a game: it is well-formed, every piece fits
/// within the board, and there are at most `MAX_PIECES` pieces.
pub open spec fn searchable(game: Game) -> bool {
    &&& game.wf()
    &&& game.pieces_spec().len() <= MAX_PIECES
    &&& forall|k: int|
        0 <= k < game.pieces_spec().len() ==> #[trigger] game.pieces_spec()[k].rows()
            <= game.board_spec().rows() && game.pieces_spec()[k].cols() <= game.board_spec().cols()
}

/// A suffix of perimeters is at most 512 per piece.
proof fn lemma_suffix_perimeter_bound(pieces: Seq<Piece>, order: Seq<usize>, from: int, horizontal: bool)
    requires
        0 <= from <= order.len(),
        forall|k: int| 0 <= k < order.len() ==> 0 <= #[trigger] order[k] < pieces.len(),
    ensures
        suffix_perimeter(pieces, order, from, horizontal) <= 512 * (order.len() - from),
    decreases order.len() - from,
{
    if from < order.len() {
        lemma_suffix_perimeter_bound(pieces, order, from + 1, horizontal);
        let p = pieces[order[from] as int];
        crate::bits::lemma_count_upto_bound(p.cells()@, 256);
        assert(512 * (order.len() - (from + 1)) + 512 == 512 * (order.len() - from)) by (nonlinear_arith);
    }
}

/// Order the pieces, list their placements in that order, and precompute
/// the bounds the search checks.
pub(crate) fn prepare_search(game: &Game) -> (r: (Board, Vec<usize>, SolverData))
    requires
        searchable(*game),
    ensures
        r.0 == game.board_spec(),
        is_permutation(r.1@, game.pieces_spec().len() as int),
        order_sorted(
            r.1@,
            placement_counts(game.board_spec(), game.pieces_spec()),
            game.pieces_spec(),
            game.pieces_spec().len() as int,
        ),
        r.2.wf(r.0, in_order(game.pieces_spec(), r.1@)),
        (forall|k: int| 0 <= k < game.pieces_spec().len() ==> #[trigger] is_unit(game.pieces_spec()[k]))
            ==> r.2.single_cell_suffix_start == 0,
{
    let board = *game.board();
    let pieces = game.pieces();
    let height = board.height();
    let width = board.width();
    let piece_count = pieces.len();
    proof {
        board.lemma_wf();
    }
    let mut counts: Vec<usize> = Vec::new();
    let mut k: usize = 0;
    while k < piece_count
        invariant
            searchable(*game),
            board == game.board_spec(),
            pieces@ == game.pieces_spec(),
            piece_count == pieces@.len(),
            height == board.rows(),
            width == board.cols(),
            3 <= height <= 14,
            3 <= width <= 14,
            0 <= k <= piece_count,
            counts@.len() == k,
            forall|j: int| 0 <= j < k ==> #[trigger] counts@[j] == placement_count(board, pieces@[j]),
        decreases piece_count - k,
    {
        let piece = &pieces[k];
        proof {
            piece.lemma_wf();
            assert(piece.rows() <= board.rows() && piece.cols() <= board.cols());
        }
        let rows = (height - piece.height()) as usize + 1;
        let columns = (width - piece.width()) as usize + 1;
        proof {
            assert(rows * columns <= 14 * 14) by (nonlinear_arith)
                requires
                    rows <= 14,
                    columns <= 14,
            ;
        }
        counts.push(rows * columns);
        k = k + 1;
    }
    proof {
        assert(counts@ =~= placement_counts(board, pieces@));
    }
    let piece_order = sort_piece_order(&counts, pieces);
    let ghost sp = in_order(pieces@, piece_order@);
    let mut placements: Vec<Vec<(usize, usize, Bitboard)>> = Vec::new();
    let mut anchor_placements: Vec<AnchorPlacementData> = Vec::new();
    let mut d: usize = 0;
    while d < piece_count
        invariant
            anchor_placements@.len() == d,
            forall|e: int| 0 <= e < d ==> (#[trigger] anchor_placements@[e]).describes(placements@[e]@),
            searchable(*game),
            board == game.board_spec(),
            pieces@ == game.pieces_spec(),
            piece_count == pieces@.len(),
            height == board.rows(),
            width == board.cols(),
            3 <= height <= 14,
            3 <= width <= 14,
            is_permutation(piece_order@, piece_count as int),
            sp == in_order(pieces@, piece_order@),
            0 <= d <= piece_count,
            placements@.len() == d,
            forall|e: int| 0 <= e < d ==> (#[trigger] placements@[e])@.len() <= MAX_PLACEMENTS,
            forall|e: int, j: int|
                0 <= e < d && 0 <= j < placements@[e]@.len() ==> {
                    let p = #[trigger] placements@[e]@[j];
                    &&& placement_fits(board, sp[e], p.0 as int, p.1 as int)
                    &&& shifted(p.2, sp[e].cells(), 15 * p.0 + p.1)
                },
        decreases piece_count - d,
    {
        let piece = &pieces[piece_order[d]];
        proof {
            assert(piece_order@[d as int] < piece_count);
            assert(*piece == sp[d as int]);
            piece.lemma_wf();
            assert(piece.rows() <= board.rows() && piece.cols() <= board.cols());
        }
        let list = piece.placements(height, width);
        proof {
            let rows = height - piece.rows() + 1;
            let cols = width - piece.cols() + 1;
            assert(rows * cols <= 14 * 14) by (nonlinear_arith)
                requires
                    0 <= rows <= 14,
                    0 <= cols <= 14,
            ;
            assert forall|j: int| 0 <= j < list@.len() implies {
                let p = #[trigger] list@[j];
                &&& placement_fits(board, sp[d as int], p.0 as int, p.1 as int)
                &&& shifted(p.2, sp[d as int].cells(), 15 * p.0 + p.1)
            } by {
                let p = list@[j];
                assert(p.0 <= height - piece.rows());
            }
        }
        proof {
            lemma_piece_translates(*piece, list@, height as int, width as int);
        }
        let anchors = AnchorPlacementData::precompute(list.as_slice());
        placements.push(list);
        anchor_placements.push(anchors);
        proof {
            assert(placements@[d as int]@ == list@);
        }
        d = d + 1;
    }
    let equivalent_pair_skips = build_equivalent_pair_skips(&placements);
    let mut single_cell_suffix_start = piece_count;
    while single_cell_suffix_start > 0 && pieces[piece_order[single_cell_suffix_start - 1]].height() == 1
        && pieces[piece_order[single_cell_suffix_start - 1]].width() == 1
        invariant
            piece_count == pieces@.len(),
            is_permutation(piece_order@, piece_count as int),
            sp == in_order(pieces@, piece_order@),
            0 <= single_cell_suffix_start <= piece_count,
            forall|e: int| single_cell_suffix_start <= e < piece_count ==> #[trigger] is_unit(sp[e]),
        decreases single_cell_suffix_start,
    {
        single_cell_suffix_start = single_cell_suffix_start - 1;
    }
    proof {
        if single_cell_suffix_start > 0 {
            let q = piece_order@[single_cell_suffix_start - 1] as int;
            assert(0 <= q < piece_count);
            assert(!is_unit(pieces@[q]));
        }
    }
    let total_deficit = TotalDeficitBound::precompute(pieces, piece_order.as_slice(), height, width);
    let jaggedness = JaggednessBound::precompute(pieces, piece_order.as_slice(), height, width);
    let partition_reachability = PartitionReachability::precompute(pieces, piece_order.as_slice(), height, width);
    proof {
        let ord = piece_order@.take(piece_count as int);
        assert(ord =~= piece_order@);
        assert forall|e: int| 0 <= e <= piece_count implies board.modulus() * #[trigger] jaggedness.remaining_horizontal()[e]
            <= u32::MAX by {
            lemma_suffix_perimeter_bound(pieces@, ord, e, true);
            assert(board.modulus() * (512 * (piece_count - e)) <= 5 * 512 * 4096) by (nonlinear_arith)
                requires
                    board.modulus() <= 5,
                    0 <= piece_count - e <= 4096,
            ;
            assert(board.modulus() * jaggedness.remaining_horizontal()[e] <= board.modulus() * (512 * (piece_count - e)))
                by (nonlinear_arith)
                requires
                    jaggedness.remaining_horizontal()[e] <= 512 * (piece_count - e),
                    board.modulus() >= 0,
            ;
        }
        assert forall|e: int| 0 <= e <= piece_count implies board.modulus() * #[trigger] jaggedness.remaining_vertical()[e]
            <= u32::MAX by {
            lemma_suffix_perimeter_bound(pieces@, ord, e, false);
            assert(board.modulus() * (512 * (piece_count - e)) <= 5 * 512 * 4096) by (nonlinear_arith)
                requires
                    board.modulus() <= 5,
                    0 <= piece_count - e <= 4096,
            ;
            assert(board.modulus() * jaggedness.remaining_vertical()[e] <= board.modulus() * (512 * (piece_count - e)))
                by (nonlinear_arith)
                requires
                    jaggedness.remaining_vertical()[e] <= 512 * (piece_count - e),
                    board.modulus() >= 0,
            ;
        }
        assert forall|e: int| 0 <= e < piece_count implies #[trigger] sp[e].wf() by {
            assert(piece_order@[e] < piece_count);
        }
        assert(Seq::new(pieces@.len(), |d: int| pieces@[piece_order@[d] as int]) =~= sp);
        assert forall|k: int, e: int|
            0 <= k < partition_reachability.len() && 0 <= e <= piece_count implies #[trigger] partition_reachability.suffix_min_at(
                k,
                e,
            ) <= total_deficit.remaining()[e] by {
            partition_reachability.lemma_suffix_min_at_most_cells(pieces@, piece_order@, height as int, width as int, k, e);
        }
    }
    let cell_set_bound = CellSetBound::precompute(placements.as_slice(), height, width, board.m());
    proof {
        assert forall|p: int, k: int, i: int|
            0 <= p < placements@.len() && 0 <= k < placements@[p]@.len() && 0 <= i < 256
                && #[trigger] placements@[p]@[k].2.bit(i) implies board.valid(i) by {
            let pl = placements@[p]@[k];
            assert(placement_fits(board, sp[p], pl.0 as int, pl.1 as int));
            crate::game::lemma_placement_in_board(board, sp[p], pl.0 as int, pl.1 as int, pl.2);
        }
    }
    let monte_carlo = MonteCarloBounds::precompute(&board, &placements, board.m());
    let data = SolverData {
        placements,
        anchor_placements,
        total_deficit,
        jaggedness,
        partition_reachability,
        cell_set_bound,
        monte_carlo,
        equivalent_pair_skips,
        single_cell_suffix_start,
        modulus: board.m(),
        height,
        width,
    };
    (board, piece_order, data)
}

/// The outcome of a search: the placements found, in the puzzle's piece
/// order, and the number of placements tried.
pub struct SolveResult {
    pub solution: Option<Vec<(usize, usize)>>,
    pub nodes_visited: u64,
}

/// Run the search with the board's modulus as a constant.
fn backtrack_for_modulus(
    board: &Board,
    data: &SolverData,
    solution: &mut Vec<(usize, usize)>,
    nodes: &mut u64,
    exhaustive: bool,
    Ghost(sp): Ghost<Seq<Piece>>,
) -> (found: bool)
    requires
        data.wf(*board, sp),
        board.wf(),
        old(solution)@.len() == 0,
    ensures
        found ==> is_solution(*board, sp, final(solution)@),
        data.single_cell_suffix_start == 0 ==> found == units_solve(*board, sp.len() as int),
        completes(*data, *board, sp, Seq::empty(), 0, usize::MAX, board.modulus() as int) ==> found,
{
    let position = SearchPosition { board: *board, piece_index: 0, previous_placement: usize::MAX };
    proof {
        board.lemma_wf();
        assert(solution@ =~= Seq::<(usize, usize)>::empty());
        assert forall|i: int| 0 <= i < 256 implies #[trigger] board.cell(i) == (board.cell(i) - hits(
            sp,
            solution@,
            0,
            i,
        )) % board.modulus() by {
            if board.valid(i) {
                vstd::arithmetic::div_mod::lemma_small_mod(board.cell(i) as nat, board.modulus() as nat);
            } else {
                vstd::arithmetic::div_mod::lemma_small_mod(0, board.modulus() as nat);
            }
        }
        assert(reached(*board, sp, solution@, 0, *board));
    }
    match data.modulus {
        2 => backtrack::<2>(position, data, solution, nodes, exhaustive, Ghost(*board), Ghost(sp)),
        3 => backtrack::<3>(position, data, solution, nodes, exhaustive, Ghost(*board), Ghost(sp)),
        4 => backtrack::<4>(position, data, solution, nodes, exhaustive, Ghost(*board), Ghost(sp)),
        _ => backtrack::<5>(position, data, solution, nodes, exhaustive, Ghost(*board), Ghost(sp)),
    }
}

/// Search serially, then put the placements back in the puzzle's order.
fn solve_serial(board: &Board, piece_order: &Vec<usize>, data: &SolverData, exhaustive: bool, Ghost(pieces): Ghost<
    Seq<Piece>,
>) -> (r: SolveResult)
    requires
        board.wf(),
        is_permutation(piece_order@, pieces.len() as int),
        data.wf(*board, in_order(pieces, piece_order@)),
    ensures
        r.solution matches Some(s) ==> is_solution(*board, pieces, s@),
        data.single_cell_suffix_start == 0 ==> (r.solution is Some <==> units_solve(*board, pieces.len() as int)),
        completes(
            *data,
            *board,
            in_order(pieces, piece_order@),
            Seq::empty(),
            0,
            usize::MAX,
            board.modulus() as int,
        ) ==> r.solution is Some,
{
    let ghost sp = in_order(pieces, piece_order@);
    let mut nodes: u64 = 0;
    let mut sorted_solution: Vec<(usize, usize)> = Vec::new();
    let found = backtrack_for_modulus(board, data, &mut sorted_solution, &mut nodes, exhaustive, Ghost(sp));
    let solution = if found {
        proof {
            assert(sorted_solution@.len() == pieces.len());
        }
        let restored = restore_piece_order(sorted_solution.as_slice(), piece_order.as_slice());
        proof {
            assert forall|d: int| 0 <= d < piece_order@.len() implies restored@[#[trigger] piece_order@[d] as int]
                == sorted_solution@[d] by {
                assert forall|e: int| 0 <= e < piece_order@.len() && e != d implies piece_order@[e]
                    != piece_order@[d] by {
                    if e < d {
                        assert(piece_order@[e] != piece_order@[d]);
                    } else {
                        assert(piece_order@[d] != piece_order@[e]);
                    }
                }
            }
            assert(sp =~= Seq::new(pieces.len(), |d: int| pieces[piece_order@[d] as int]));
            lemma_restored_solution(*board, pieces, piece_order@, sorted_solution@, restored@);
        }
        Some(restored)
    } else {
        None
    };
    SolveResult { solution, nodes_visited: nodes }
}

/// `data` with Monte Carlo level `l` in use.
pub(crate) open spec fn at_level(data: SolverData, l: int) -> SolverData {
    SolverData { monte_carlo: data.monte_carlo.with_selected(l), ..data }
}

/// What preparing the search for `game` gives: the board, an order of the
/// pieces (largest first) and the search data for them in that order.
pub(crate) open spec fn prepared(game: Game, order: Seq<usize>, data: SolverData) -> bool {
    &&& is_permutation(order, game.pieces_spec().len() as int)
    &&& order_sorted(
        order,
        placement_counts(game.board_spec(), game.pieces_spec()),
        game.pieces_spec(),
        game.pieces_spec().len() as int,
    )
    &&& data.wf(game.board_spec(), in_order(game.pieces_spec(), order))
}

/// For the data the search of `game` is prepared with, no Monte Carlo level
/// admits a solution: none that, at every depth above the single-cell
/// suffix, passes the bounds, keeps within the zero-cell budget and takes
/// the canonical placement of each equivalent pair.
pub closed spec fn no_admitted_solution(game: Game) -> bool {
    exists|order: Seq<usize>, data: SolverData|
        #[trigger] prepared(game, order, data) && forall|l: int|
            0 <= l < data.monte_carlo.levels_spec().len() ==> !#[trigger] completes(
                at_level(data, l),
                game.board_spec(),
                in_order(game.pieces_spec(), order),
                Seq::empty(),
                0,
                usize::MAX,
                game.board_spec().modulus() as int,
            )
}

/// Solve a game. The search is serial whatever `parallel` asks for.
/// `exhaustive` keeps searching after the first solution, to measure the
/// whole search tree; the first solution found is the one returned.
///
/// A returned solution lists, for each piece in the puzzle's order, the
/// (row, column) where it goes, and placing every piece there leaves every
/// cell of the board at 0. No solution is returned only when no Monte Carlo
/// level admits one (`no_admitted_solution`); a game of single-cell pieces
/// gets one exactly when it is solvable.
pub fn solve(game: &Game, parallel: bool, exhaustive: bool) -> (r: SolveResult)
    requires
        searchable(*game),
    ensures
        r.solution matches Some(s) ==> is_solution(game.board_spec(), game.pieces_spec(), s@),
        (forall|k: int| 0 <= k < game.pieces_spec().len() ==> #[trigger] is_unit(game.pieces_spec()[k])) ==> (
        r.solution is Some <==> units_solve(game.board_spec(), game.pieces_spec().len() as int)),
        r.solution is None ==> no_admitted_solution(*game),
{
    let (board, piece_order, mut data) = prepare_search(game);
    let ghost data0 = data;
    let ghost mut sel: int = data.monte_carlo.selected();
    proof {
        data0.monte_carlo.lemma_with_selected(0, 0);
        assert(data == at_level(data0, sel));
    }
    let ghost units = forall|k: int| 0 <= k < game.pieces_spec().len() ==> #[trigger] is_unit(game.pieces_spec()[k]);
    let ghost n = game.pieces_spec().len() as int;
    let ghost sp = in_order(game.pieces_spec(), piece_order@);
    let level_count = data.monte_carlo.level_count();
    let mut total_nodes: u64 = 0;
    let mut first_solution: Option<Vec<(usize, usize)>> = None;
    let mut level_index: usize = 0;
    while level_index < level_count
        invariant
            board == game.board_spec(),
            board.wf(),
            is_permutation(piece_order@, game.pieces_spec().len() as int),
            sp == in_order(game.pieces_spec(), piece_order@),
            data.wf(board, sp),
            level_count == data.monte_carlo.levels_spec().len(),
            level_index <= level_count,
            first_solution matches Some(s) ==> is_solution(board, game.pieces_spec(), s@),
            units == (forall|k: int| 0 <= k < game.pieces_spec().len() ==> #[trigger] is_unit(game.pieces_spec()[k])),
            n == game.pieces_spec().len(),
            units ==> data.single_cell_suffix_start == 0,
            units ==> (first_solution is Some <==> (level_index > 0 && units_solve(board, n))),
            0 <= sel <= usize::MAX,
            data == at_level(data0, sel),
            prepared(*game, piece_order@, data0),
            data0.monte_carlo.levels_spec().len() == level_count,
            first_solution is None ==> forall|l: int|
                0 <= l < level_index ==> !#[trigger] completes(
                    at_level(data0, l),
                    board,
                    sp,
                    Seq::empty(),
                    0,
                    usize::MAX,
                    board.modulus() as int,
                ),
        decreases level_count - level_index,
    {
        data.monte_carlo.select_level(level_index);
        proof {
            data0.monte_carlo.lemma_with_selected(sel, level_index as int);
            sel = level_index as int;
            assert(data == at_level(data0, sel));
        }
        let result = solve_serial(&board, &piece_order, &data, exhaustive, Ghost(game.pieces_spec()));
        total_nodes = total_nodes.saturating_add(result.nodes_visited);
        if result.solution.is_some() {
            if !exhaustive {
                return SolveResult { solution: result.solution, nodes_visited: total_nodes };
            }
            if first_solution.is_none() {
                first_solution = result.solution;
            }
        }
        level_index = level_index + 1;
    }
    proof {
        if first_solution is None {
            assert(prepared(*game, piece_order@, data0));
            assert(forall|l: int|
                0 <= l < data0.monte_carlo.levels_spec().len() ==> !#[trigger] completes(
                    at_level(data0, l),
                    game.board_spec(),
                    in_order(game.pieces_spec(), piece_order@),
                    Seq::empty(),
                    0,
                    usize::MAX,
                    game.board_spec().modulus() as int,
                ));
        }
    }
    SolveResult { solution: first_solution, nodes_visited: total_nodes }
}

} // verus!
