//! Counting the cells a solution covers: every placement covers exactly its
//! piece's cells, all on the board, so a solution brings each cell whole
//! turns of M beyond its value, and the pieces' cells make up the deficit
//! and whole turns of M besides.

use vstd::prelude::*;
use crate::bits;
use crate::game::{covers, placement_fits};
use crate::model::board::Board;
use crate::model::piece::{Piece, in_box};
use crate::solver::backtrack::{count_where, hits, is_solution};
use crate::solver::pruning::total_deficit::suffix_cells;

verus! {

/// Cells of the first `n` pieces.
pub open spec fn piece_cells(pieces: Seq<Piece>, n: int) -> int
    decreases n,
{
    if n <= 0 {
        0
    } else {
        piece_cells(pieces, n - 1) + pieces[n - 1].cells().count()
    }
}

/// Hits of the first `n` placements summed over the indices below `k`.
pub open spec fn hits_sum(pieces: Seq<Piece>, sol: Seq<(usize, usize)>, n: int, k: int) -> int
    decreases k,
{
    if k <= 0 {
        0
    } else {
        hits_sum(pieces, sol, n, k - 1) + hits(pieces, sol, n, k - 1)
    }
}

/// The indices below `k` that a placement covers.
pub open spec fn covered_below(p: Piece, row: int, col: int, k: int) -> nat {
    count_where(|i: int| covers(p, row, col, i), k)
}

/// A bit count stops growing past the last set bit.
proof fn lemma_count_upto_flat(a: [u64; 4], n: int, k: int)
    requires
        0 <= n <= k,
        forall|j: int| n <= j < k ==> !#[trigger] bits::bit(a, j),
    ensures
        bits::count_upto(a, k) == bits::count_upto(a, n),
    decreases k - n,
{
    if k > n {
        lemma_count_upto_flat(a, n, k - 1);
    }
}

/// Below `k`, a placement at offset `off` covers as many indices as its
/// piece has cells below `k - off`.
proof fn lemma_covered_shift(p: Piece, row: int, col: int, k: int)
    requires
        0 <= row,
        0 <= col,
        0 <= k,
    ensures
        covered_below(p, row, col, k) == if k <= 15 * row + col {
            0
        } else {
            bits::count_upto(p.cells()@, k - (15 * row + col)) as int
        },
    decreases k,
{
    let off = 15 * row + col;
    if k > 0 {
        lemma_covered_shift(p, row, col, k - 1);
        let f = |i: int| covers(p, row, col, i);
        assert(covered_below(p, row, col, k) == covered_below(p, row, col, k - 1) + if f(k - 1) {
            1int
        } else {
            0int
        });
        if k - 1 >= off {
            assert(covers(p, row, col, k - 1) == p.cells().bit(k - 1 - off));
            assert(bits::count_upto(p.cells()@, k - off) == bits::count_upto(p.cells()@, k - 1 - off) + if bits::bit(
                p.cells()@,
                k - 1 - off,
            ) {
                1int
            } else {
                0int
            });
        } else {
            assert(!covers(p, row, col, k - 1));
        }
    }
}

/// A placement that fits covers exactly its piece's cells, all on the board.
pub proof fn lemma_placement_covers(b: Board, p: Piece, row: int, col: int)
    requires
        b.wf(),
        p.wf(),
        placement_fits(b, p, row, col),
    ensures
        covered_below(p, row, col, 256) == p.cells().count(),
        forall|i: int| #[trigger] covers(p, row, col, i) ==> b.valid(i),
{
    b.lemma_wf();
    p.lemma_wf();
    let off = 15 * row + col;
    assert forall|j: int| 0 <= j < 256 && #[trigger] p.cells().bit(j) implies j + off < 256 && j + off == 15 * (row
        + j / 15) + (col + j % 15) && b.valid(j + off) by {
        assert(in_box(p.rows(), p.cols(), j));
        bits::lemma_stride_index(row + j / 15, col + j % 15);
    }
    lemma_covered_shift(p, row, col, 256);
    assert forall|j: int| 256 - off <= j < 256 implies !#[trigger] bits::bit(p.cells()@, j) by {
        if bits::bit(p.cells()@, j) {
            assert(p.cells().bit(j));
        }
    }
    lemma_count_upto_flat(p.cells()@, 256 - off, 256);
    assert forall|i: int| #[trigger] covers(p, row, col, i) implies b.valid(i) by {
        let j = i - off;
        assert(p.cells().bit(j));
        if !(0 <= j < 256) {
            assert(!p.cells().bit(j));
        }
    }
}

/// Summing over indices, the hits of one more placement add the indices it covers.
proof fn lemma_hits_sum_step(pieces: Seq<Piece>, sol: Seq<(usize, usize)>, n: int, k: int)
    requires
        1 <= n,
        0 <= k,
    ensures
        hits_sum(pieces, sol, n, k) == hits_sum(pieces, sol, n - 1, k) + covered_below(
            pieces[n - 1],
            sol[n - 1].0 as int,
            sol[n - 1].1 as int,
            k,
        ),
    decreases k,
{
    if k > 0 {
        lemma_hits_sum_step(pieces, sol, n, k - 1);
    }
}

/// Summed over the board, the hits of the first `n` placements are their
/// pieces' cells, and no placement reaches a cell off the board.
pub proof fn lemma_hits_sum(b: Board, pieces: Seq<Piece>, sol: Seq<(usize, usize)>, n: int)
    requires
        b.wf(),
        0 <= n <= sol.len(),
        n <= pieces.len(),
        forall|k: int| 0 <= k < n ==> #[trigger] pieces[k].wf(),
        forall|k: int|
            0 <= k < n ==> #[trigger] placement_fits(b, pieces[k], sol[k].0 as int, sol[k].1 as int),
    ensures
        hits_sum(pieces, sol, n, 256) == piece_cells(pieces, n),
        forall|i: int| !b.valid(i) ==> #[trigger] hits(pieces, sol, n, i) == 0,
    decreases n,
{
    if n > 0 {
        lemma_hits_sum(b, pieces, sol, n - 1);
        let p = pieces[n - 1];
        assert(p.wf());
        assert(placement_fits(b, p, sol[n - 1].0 as int, sol[n - 1].1 as int));
        lemma_placement_covers(b, p, sol[n - 1].0 as int, sol[n - 1].1 as int);
        lemma_hits_sum_step(pieces, sol, n, 256);
        assert forall|i: int| !b.valid(i) implies #[trigger] hits(pieces, sol, n, i) == 0 by {
            assert(hits(pieces, sol, n - 1, i) == 0);
            assert(!covers(p, sol[n - 1].0 as int, sol[n - 1].1 as int, i));
        }
    } else {
        assert forall|k: int| 0 <= k <= 256 implies #[trigger] hits_sum(pieces, sol, 0, k) == 0 by {
            lemma_hits_sum_zero(pieces, sol, k);
        }
    }
}

/// No placement, no hits.
proof fn lemma_hits_sum_zero(pieces: Seq<Piece>, sol: Seq<(usize, usize)>, k: int)
    requires
        0 <= k,
    ensures
        hits_sum(pieces, sol, 0, k) == 0,
    decreases k,
{
    if k > 0 {
        lemma_hits_sum_zero(pieces, sol, k - 1);
    }
}

/// Over the indices below `k`, a solution's hits exceed the board's values
/// by whole turns of M.
proof fn lemma_excess_turns(b: Board, pieces: Seq<Piece>, sol: Seq<(usize, usize)>, k: int)
    requires
        b.wf(),
        0 <= k <= 256,
        forall|i: int| !b.valid(i) ==> #[trigger] hits(pieces, sol, sol.len() as int, i) == 0,
        forall|i: int|
            0 <= i < 256 && b.valid(i) ==> (b.cell(i) - #[trigger] hits(pieces, sol, sol.len() as int, i))
                % b.modulus() == 0,
        forall|i: int| 0 <= i < 256 ==> #[trigger] hits(pieces, sol, sol.len() as int, i) >= 0,
    ensures
        hits_sum(pieces, sol, sol.len() as int, k) >= b.deficit_upto(k),
        (hits_sum(pieces, sol, sol.len() as int, k) - b.deficit_upto(k)) % b.modulus() == 0,
    decreases k,
{
    if k > 0 {
        lemma_excess_turns(b, pieces, sol, k - 1);
        b.lemma_wf();
        let m = b.modulus();
        let i = k - 1;
        let h = hits(pieces, sol, sol.len() as int, i);
        let c = b.cell(i);
        let before = hits_sum(pieces, sol, sol.len() as int, i) - b.deficit_upto(i);
        assert(h - c >= 0 && (h - c) % m == 0) by {
            if b.valid(i) {
                assert((c - h) % m == 0);
                if h < c {
                    vstd::arithmetic::div_mod::lemma_small_mod((c - h) as nat, m as nat);
                }
                vstd::arithmetic::div_mod::lemma_fundamental_div_mod(c - h, m);
                let q = (c - h) / m;
                assert(h - c == (-q) * m) by (nonlinear_arith)
                    requires
                        c - h == m * q,
                ;
                vstd::arithmetic::div_mod::lemma_mod_multiples_basic(-q, m);
            } else {
                assert(h == 0 && c == 0);
            }
        }
        vstd::arithmetic::div_mod::lemma_add_mod_noop(before, h - c, m);
        vstd::arithmetic::div_mod::lemma_small_mod(0, m as nat);
        assert((before + (h - c)) % m == 0);
        assert(hits_sum(pieces, sol, sol.len() as int, k) - b.deficit_upto(k) == before + (h - c));
    } else {
        b.lemma_wf();
        vstd::arithmetic::div_mod::lemma_small_mod(0, b.modulus() as nat);
    }
}

/// Hits are counts.
proof fn lemma_hits_nonneg(pieces: Seq<Piece>, sol: Seq<(usize, usize)>, n: int, i: int)
    ensures
        hits(pieces, sol, n, i) >= 0,
    decreases n,
{
    if n > 0 {
        lemma_hits_nonneg(pieces, sol, n - 1, i);
    }
}

/// A board that some placement of the pieces solves has a deficit no larger
/// than the pieces' cells, short of them by whole turns of M: each cell
/// takes its value and whole turns of M in hits, and the hits of all
/// placements add up to the pieces' cells.
pub proof fn lemma_solution_cells(b: Board, pieces: Seq<Piece>, sol: Seq<(usize, usize)>)
    requires
        b.wf(),
        forall|k: int| 0 <= k < pieces.len() ==> #[trigger] pieces[k].wf(),
        is_solution(b, pieces, sol),
    ensures
        piece_cells(pieces, pieces.len() as int) >= b.deficit(),
        (piece_cells(pieces, pieces.len() as int) - b.deficit()) % b.modulus() == 0,
{
    let n = sol.len() as int;
    lemma_hits_sum(b, pieces, sol, n);
    assert forall|i: int| 0 <= i < 256 implies #[trigger] hits(pieces, sol, n, i) >= 0 by {
        lemma_hits_nonneg(pieces, sol, n, i);
    }
    lemma_excess_turns(b, pieces, sol, 256);
}

/// The pieces of `order` from position `p` on.
pub open spec fn pieces_from(pieces: Seq<Piece>, order: Seq<usize>, p: int) -> Seq<Piece> {
    Seq::new((order.len() - p) as nat, |k: int| pieces[order[p + k] as int])
}

/// The cells of the first `j` pieces from position `p` and the suffix after them make up the suffix from `p`.
proof fn lemma_cells_split(pieces: Seq<Piece>, order: Seq<usize>, p: int, j: int)
    requires
        0 <= p,
        0 <= j <= order.len() - p,
    ensures
        piece_cells(pieces_from(pieces, order, p), j) + suffix_cells(pieces, order, p + j) == suffix_cells(
            pieces,
            order,
            p,
        ),
    decreases j,
{
    if j > 0 {
        lemma_cells_split(pieces, order, p, j - 1);
    }
}

/// Where the pieces of `order` from position `p` on solve board `b`, the
/// cells they hold, the total deficit bound's budget at depth `p`, cover
/// the deficit with whole turns of M to spare.
pub proof fn lemma_remaining_cells_cover(
    b: Board,
    pieces: Seq<Piece>,
    order: Seq<usize>,
    p: int,
    sol: Seq<(usize, usize)>,
)
    requires
        b.wf(),
        0 <= p <= order.len(),
        forall|k: int| 0 <= k < order.len() ==> #[trigger] order[k] < pieces.len(),
        forall|k: int| 0 <= k < pieces.len() ==> #[trigger] pieces[k].wf(),
        is_solution(b, pieces_from(pieces, order, p), sol),
    ensures
        suffix_cells(pieces, order, p) >= b.deficit(),
        (suffix_cells(pieces, order, p) - b.deficit()) % b.modulus() == 0,
{
    let rest = pieces_from(pieces, order, p);
    assert forall|k: int| 0 <= k < rest.len() implies #[trigger] rest[k].wf() by {
        assert(order[p + k] < pieces.len());
    }
    lemma_solution_cells(b, rest, sol);
    lemma_cells_split(pieces, order, p, order.len() - p);
}

} // verus!
