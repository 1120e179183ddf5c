//! Depth-first search over piece placements, and what a solution is.
//!
//! A cell's digit drops by one (mod M) for each piece that covers it, so a
//! list of placements solves a board exactly when every cell is covered a
//! number of times congruent to its digit.

use vstd::prelude::*;
use crate::bits;
use crate::game::{covers, placement_fits};
use crate::model::bitboard::Bitboard;
use crate::model::board::{Board, applied_value};
use crate::model::piece::Piece;
use crate::solver::finish::{places, lemma_placed_cells};
use crate::solver::SolverData;
use crate::solver::anchor::rank_low_zero_hit_placements;
use crate::solver::pruning::{
    is_canonical_placement_pair, max_zero_cells_allowed, state_is_feasible, feasible_spec, canonical_pair, zero_budget,
};

verus! {

/// How many of the first `n` placements in `sol` (piece `k` at `sol[k]`) cover index `i`.
pub open spec fn hits(pieces: Seq<Piece>, sol: Seq<(usize, usize)>, n: int, i: int) -> int
    decreases n,
{
    if n <= 0 {
        0
    } else {
        hits(pieces, sol, n - 1, i) + if covers(
            pieces[n - 1],
            sol[n - 1].0 as int,
            sol[n - 1].1 as int,
            i,
        ) {
            1int
        } else {
            0int
        }
    }
}

/// How many entries of `s` name the cell at index `i` (row-major, stride 15).
pub open spec fn unit_hits(s: Seq<(usize, usize)>, i: int) -> int
    decreases s.len(),
{
    if s.len() == 0 {
        0
    } else {
        unit_hits(s.drop_last(), i) + if 15 * s.last().0 + s.last().1 == i {
            1int
        } else {
            0int
        }
    }
}

/// Every placement of the first `n` lies on the board.
pub open spec fn placements_fit(b: Board, pieces: Seq<Piece>, sol: Seq<(usize, usize)>, n: int) -> bool {
    forall|k: int|
        0 <= k < n ==> #[trigger] placement_fits(b, pieces[k], sol[k].0 as int, sol[k].1 as int)
}

/// Placing piece `k` at `sol[k]`, for every piece, leaves every cell of `b` at 0.
pub open spec fn is_solution(b: Board, pieces: Seq<Piece>, sol: Seq<(usize, usize)>) -> bool {
    &&& sol.len() == pieces.len()
    &&& placements_fit(b, pieces, sol, sol.len() as int)
    &&& forall|i: int|
        0 <= i < 256 && b.valid(i) ==> (b.cell(i) - #[trigger] hits(pieces, sol, sol.len() as int, i))
            % b.modulus() == 0
}

/// `now` is `start` after the first `n` placements of `sol`: each cell has
/// dropped, mod M, by the number of placements covering it.
pub open spec fn reached(start: Board, pieces: Seq<Piece>, sol: Seq<(usize, usize)>, n: int, now: Board) -> bool {
    &&& now.modulus() == start.modulus()
    &&& now.rows() == start.rows()
    &&& now.cols() == start.cols()
    &&& forall|i: int|
        0 <= i < 256 ==> #[trigger] now.cell(i) == (start.cell(i) - hits(pieces, sol, n, i))
            % start.modulus()
}

/// A piece whose only cell is its anchor.
pub open spec fn is_unit(p: Piece) -> bool {
    p.rows() == 1 && p.cols() == 1
}

/// `k` unit pieces can finish board `b`: each cell takes its digit in
/// pieces, and the pieces left over make whole turns of M.
pub open spec fn units_solve(b: Board, k: int) -> bool {
    k >= b.deficit() && (k - b.deficit()) % b.modulus() == 0
}

/// The index of the placement of piece `d` at position `pos`.
pub(crate) open spec fn placement_at(data: SolverData, d: int, pos: (usize, usize)) -> int {
    choose|k: int|
        0 <= k < data.placements@[d]@.len() && #[trigger] data.placements@[d]@[k].0 == pos.0
            && data.placements@[d]@[k].1 == pos.1
}

/// The previous placement the search hands to depth `e` when it follows `s`
/// from depth `d`, where it was handed `prev`.
pub(crate) open spec fn previous_along(data: SolverData, s: Seq<(usize, usize)>, d: int, prev: usize, e: int) -> usize {
    if e == d {
        prev
    } else if data.equivalent_pair_skips@[e] is Some {
        placement_at(data, e - 1, s[e - 1]) as usize
    } else {
        usize::MAX
    }
}

/// At depth `e`, on the board that `s` reaches, the search keeps to `s`:
/// piece `e` has a placement at `s[e]`, the bounds allow the board, that
/// placement is within the zero-cell budget and its pair with the previous
/// placement is canonical.
pub(crate) open spec fn admits_at(
    data: SolverData,
    start: Board,
    sp: Seq<Piece>,
    s: Seq<(usize, usize)>,
    d: int,
    prev: usize,
    m: int,
    e: int,
) -> bool {
    let k = placement_at(data, e, s[e]);
    &&& exists|j: int|
        0 <= j < data.placements@[e]@.len() && #[trigger] data.placements@[e]@[j].0 == s[e].0
            && data.placements@[e]@[j].1 == s[e].1
    &&& forall|b: Board|
        #[trigger] reached(start, sp, s, e, b) && b.wf() ==> feasible_spec(data, b, e, m) && zero_of(
            b,
            data.placements@[e]@,
            k,
        ) <= rank_cap(zero_budget(data, b, e, m) as u32)
    &&& canonical_pair(data, e, k, previous_along(data, s, d, prev, e))
}

/// The search, from depth `d` handed `prev`, keeps to `s` at every depth
/// before the single-cell suffix, and the unit pieces of the suffix can
/// finish the board `s` reaches where the suffix starts.
pub(crate) open spec fn admits(data: SolverData, start: Board, sp: Seq<Piece>, s: Seq<(usize, usize)>, d: int, prev: usize, m: int) -> bool {
    let q = data.single_cell_suffix_start as int;
    &&& forall|e: int| d <= e < q ==> #[trigger] admits_at(data, start, sp, s, d, prev, m, e)
    &&& forall|b: Board|
        #[trigger] reached(start, sp, s, later(d, q), b) && b.wf() ==> units_solve(b, sp.len() - later(d, q))
}

/// The later of two depths.
pub(crate) open spec fn later(a: int, b: int) -> int {
    if a > b {
        a
    } else {
        b
    }
}

/// Some solution extends `prefix` (the placements of the first `d` pieces)
/// and the search, from depth `d` handed `prev`, keeps to it.
pub(crate) open spec fn completes(
    data: SolverData,
    start: Board,
    sp: Seq<Piece>,
    prefix: Seq<(usize, usize)>,
    d: int,
    prev: usize,
    m: int,
) -> bool {
    exists|s: Seq<(usize, usize)>|
        #![trigger is_solution(start, sp, s)]
        s.len() == sp.len() && s.subrange(0, d) == prefix && is_solution(start, sp, s) && admits(
            data,
            start,
            sp,
            s,
            d,
            prev,
            m,
        )
}

/// A board reached along one placement list is reached along any list with
/// the same first `n` entries.
proof fn lemma_reached_prefix(
    start: Board,
    sp: Seq<Piece>,
    a: Seq<(usize, usize)>,
    s: Seq<(usize, usize)>,
    n: int,
    now: Board,
)
    requires
        reached(start, sp, a, n, now),
        0 <= n <= a.len(),
        n <= s.len(),
        s.subrange(0, n) == a.subrange(0, n),
    ensures
        reached(start, sp, s, n, now),
{
    assert forall|i: int| 0 <= i < 256 implies #[trigger] now.cell(i) == (start.cell(i) - hits(sp, s, n, i))
        % start.modulus() by {
        lemma_hits_prefix(sp, s, a, n, i);
    }
}

/// What an admitted solution gives at the depth the search stands at:
/// below the suffix, the board passes the bounds and the next placement is
/// in the budget and canonical; from the suffix on, unit pieces finish it.
proof fn lemma_admits_here(
    data: SolverData,
    start: Board,
    sp: Seq<Piece>,
    s: Seq<(usize, usize)>,
    d: int,
    prev: usize,
    m: int,
    b: Board,
)
    requires
        admits(data, start, sp, s, d, prev, m),
        reached(start, sp, s, d, b),
        b.wf(),
        0 <= d,
        data.single_cell_suffix_start <= data.placements@.len(),
    ensures
        d >= data.single_cell_suffix_start ==> units_solve(b, sp.len() - d),
        d < data.single_cell_suffix_start ==> {
            let k = placement_at(data, d, s[d]);
            &&& 0 <= k < data.placements@[d]@.len()
            &&& data.placements@[d]@[k].0 == s[d].0
            &&& data.placements@[d]@[k].1 == s[d].1
            &&& feasible_spec(data, b, d, m)
            &&& zero_of(b, data.placements@[d]@, k) <= rank_cap(zero_budget(data, b, d, m) as u32)
            &&& canonical_pair(data, d, k, prev)
        },
{
    let q = data.single_cell_suffix_start as int;
    if d >= q {
        assert(later(d, q) == d);
        assert(reached(start, sp, s, later(d, q), b));
    } else {
        assert(admits_at(data, start, sp, s, d, prev, m, d));
        assert(reached(start, sp, s, d, b));
    }
}

/// Following `s` one more step below the single-cell suffix keeps the
/// search admitting it, with the previous placement the search hands on.
proof fn lemma_admits_step(
    data: SolverData,
    start: Board,
    sp: Seq<Piece>,
    s: Seq<(usize, usize)>,
    d: int,
    prev: usize,
    m: int,
    next: usize,
)
    requires
        admits(data, start, sp, s, d, prev, m),
        0 <= d < data.single_cell_suffix_start,
        data.single_cell_suffix_start <= data.placements@.len(),
        next == if d + 1 < data.placements@.len() && data.equivalent_pair_skips@[d + 1] is Some {
            placement_at(data, d, s[d]) as usize
        } else {
            usize::MAX
        },
    ensures
        admits(data, start, sp, s, d + 1, next, m),
{
    let q = data.single_cell_suffix_start as int;
    assert forall|e: int| d + 1 <= e < q implies #[trigger] admits_at(data, start, sp, s, d + 1, next, m, e) by {
        assert(admits_at(data, start, sp, s, d, prev, m, e));
        assert(previous_along(data, s, d + 1, next, e) == previous_along(data, s, d, prev, e));
    }
    assert(later(d + 1, q) == later(d, q));
}

/// A well-formed unit piece covers exactly the cell it is placed on.
pub proof fn lemma_unit_covers(p: Piece, row: int, col: int, i: int)
    requires
        p.wf(),
        is_unit(p),
        0 <= i < 256,
        0 <= row,
        0 <= col,
    ensures
        covers(p, row, col, i) == (i == 15 * row + col),
{
    p.lemma_wf();
    let j = i - (15 * row + col);
    if i == 15 * row + col {
        let w = choose|w: int| 0 <= w < 256 && #[trigger] p.cells().bit(w);
        assert(w / 15 < 1 && w % 15 < 1);
        assert(w == 0);
    }
}

/// Hits depend only on the first `n` entries of the placement list.
pub proof fn lemma_hits_prefix(pieces: Seq<Piece>, a: Seq<(usize, usize)>, b: Seq<(usize, usize)>, n: int, i: int)
    requires
        0 <= n <= a.len(),
        n <= b.len(),
        a.subrange(0, n) == b.subrange(0, n),
    ensures
        hits(pieces, a, n, i) == hits(pieces, b, n, i),
    decreases n,
{
    if n > 0 {
        assert(a[n - 1] == a.subrange(0, n)[n - 1]);
        assert(b[n - 1] == b.subrange(0, n)[n - 1]);
        assert(a.subrange(0, n - 1) == a.subrange(0, n).subrange(0, n - 1));
        assert(b.subrange(0, n - 1) == b.subrange(0, n).subrange(0, n - 1));
        lemma_hits_prefix(pieces, a, b, n - 1, i);
    }
}

/// Past index `d`, where every piece is a unit piece, hits count the
/// entries naming the cell.
pub proof fn lemma_hits_unit_suffix(pieces: Seq<Piece>, sol: Seq<(usize, usize)>, d: int, n: int, i: int)
    requires
        0 <= d <= n <= sol.len(),
        n <= pieces.len(),
        0 <= i < 256,
        forall|k: int| d <= k < n ==> #[trigger] pieces[k].wf() && is_unit(pieces[k]),
    ensures
        hits(pieces, sol, n, i) == hits(pieces, sol, d, i) + unit_hits(sol.subrange(d, n), i),
    decreases n,
{
    if n > d {
        lemma_hits_unit_suffix(pieces, sol, d, n - 1, i);
        assert(pieces[n - 1].wf() && is_unit(pieces[n - 1]));
        lemma_unit_covers(pieces[n - 1], sol[n - 1].0 as int, sol[n - 1].1 as int, i);
        assert(sol.subrange(d, n).drop_last() == sol.subrange(d, n - 1));
    } else {
        assert(sol.subrange(d, n).len() == 0);
    }
}

/// Unit hits of a sequence extended by one entry.
pub proof fn lemma_unit_hits_push(s: Seq<(usize, usize)>, e: (usize, usize), i: int)
    ensures
        unit_hits(s.push(e), i) == unit_hits(s, i) + if 15 * e.0 + e.1 == i {
            1int
        } else {
            0int
        },
{
    assert(s.push(e).drop_last() == s);
}

/// Placing one more piece drops each covered cell by one, mod M.
pub proof fn lemma_mod_step(c0: int, h: int, m: int, hit: bool)
    requires
        m >= 2,
    ensures
        crate::model::board::applied_value((c0 - h) % m, m, hit) == (c0 - (h + if hit {
            1int
        } else {
            0int
        })) % m,
{
    let x = (c0 - h) % m;
    vstd::arithmetic::div_mod::lemma_fundamental_div_mod(c0 - h, m);
    let q = (c0 - h) / m;
    assert(0 <= x < m) by {
        vstd::arithmetic::div_mod::lemma_mod_bound(c0 - h, m);
    }
    if hit {
        if x == 0 {
            assert(c0 - h - 1 == (q - 1) * m + (m - 1)) by (nonlinear_arith)
                requires
                    c0 - h == m * q + x,
                    x == 0,
            ;
            vstd::arithmetic::div_mod::lemma_fundamental_div_mod_converse(c0 - h - 1, m, q - 1, m - 1);
        } else {
            assert(c0 - h - 1 == q * m + (x - 1)) by (nonlinear_arith)
                requires
                    c0 - h == m * q + x,
            ;
            vstd::arithmetic::div_mod::lemma_fundamental_div_mod_converse(c0 - h - 1, m, q, x - 1);
        }
    }
}

/// Adding whole turns of M leaves a residue unchanged.
pub proof fn lemma_mod_turns(a: int, t: int, m: int)
    requires
        m >= 1,
        t >= 0,
    ensures
        (a - m * t) % m == a % m,
{
    vstd::arithmetic::div_mod::lemma_mod_multiples_vanish(-t, a, m);
    assert(m * (-t) + a == a - m * t) by (nonlinear_arith);
}

/// The deficit of a well-formed board sums the values of its own cells.
proof fn lemma_deficit_skip_invalid(b: Board, lo: int, hi: int)
    requires
        b.wf(),
        0 <= lo <= hi <= 256,
        forall|i: int| lo <= i < hi ==> !#[trigger] b.valid(i),
    ensures
        b.deficit_upto(hi) == b.deficit_upto(lo),
    decreases hi - lo,
{
    b.lemma_wf();
    if hi > lo {
        lemma_deficit_skip_invalid(b, lo, hi - 1);
        assert(!b.valid(hi - 1));
    }
}

/// Try to finish with unit pieces only: every remaining piece is a single
/// cell, so a cell with deficit `d` takes `d` of them and any surplus must
/// come in whole turns of M, which are parked on cell (0, 0).
pub fn solve_single_cell_suffix(
    board: &Board,
    modulus: u8,
    height: u8,
    width: u8,
    available_pieces: usize,
    solution: &mut Vec<(usize, usize)>,
) -> (r: bool)
    requires
        board.wf(),
        modulus == board.modulus(),
        height == board.rows(),
        width == board.cols(),
    ensures
        r == (available_pieces >= board.deficit() && (available_pieces - board.deficit())
            % board.modulus() == 0),
        r ==> final(solution)@.len() == old(solution)@.len() + available_pieces,
        r ==> {
            let added = final(solution)@.subrange(old(solution)@.len() as int, final(solution)@.len() as int);
            &&& final(solution)@.subrange(0, old(solution)@.len() as int) == old(solution)@
            &&& added.len() == available_pieces
            &&& forall|k: int|
                0 <= k < added.len() ==> (#[trigger] added[k]).0 < height && added[k].1 < width
            &&& forall|i: int|
                0 <= i < 256 && board.valid(i) ==> (board.cell(i) - #[trigger] unit_hits(added, i))
                    % board.modulus() == 0
        },
        !r ==> final(solution)@ == old(solution)@,
{
    proof {
        board.lemma_wf();
    }
    let required_hits = board.total_deficit();
    let available = available_pieces;
    let m = modulus as usize;
    if available < required_hits as usize || (available - required_hits as usize) % m != 0 {
        return false;
    }
    let extra_wraps = (available - required_hits as usize) / m;
    proof {
        vstd::arithmetic::div_mod::lemma_fundamental_div_mod((available - required_hits) as int, m as int);
        assert(extra_wraps * m == m * extra_wraps) by (nonlinear_arith);
    }
    let ghost start = solution@;
    let ghost base = start.len() as int;
    let mut row: usize = 0;
    while row < height as usize
        invariant
            board.wf(),
            height == board.rows(),
            width == board.cols(),
            3 <= height <= 14,
            3 <= width <= 14,
            2 <= board.modulus() <= 5,
            forall|i: int| #[trigger] board.valid(i) ==> 0 <= board.cell(i) < board.modulus(),
            forall|i: int| 0 <= i < 256 && !board.valid(i) ==> #[trigger] board.cell(i) == 0,
            0 <= row <= height,
            base == start.len(),
            solution@.len() >= base,
            solution@.subrange(0, base) == start,
            solution@.len() - base == board.deficit_upto(15 * row),
            forall|k: int|
                base <= k < solution@.len() ==> (#[trigger] solution@[k]).0 < height
                    && solution@[k].1 < width,
            forall|i: int|
                0 <= i < 256 ==> #[trigger] unit_hits(solution@.subrange(base, solution@.len() as int), i)
                    == if i < 15 * row && board.valid(i) {
                    board.cell(i)
                } else {
                    0
                },
        decreases height - row,
    {
        let mut column: usize = 0;
        while column < width as usize
            invariant
                board.wf(),
                height == board.rows(),
                width == board.cols(),
                3 <= height <= 14,
                3 <= width <= 14,
                2 <= board.modulus() <= 5,
                forall|i: int| #[trigger] board.valid(i) ==> 0 <= board.cell(i) < board.modulus(),
                forall|i: int| 0 <= i < 256 && !board.valid(i) ==> #[trigger] board.cell(i) == 0,
                0 <= row < height,
                0 <= column <= width,
                base == start.len(),
                solution@.len() >= base,
                solution@.subrange(0, base) == start,
                solution@.len() - base == board.deficit_upto(15 * row + column),
                forall|k: int|
                    base <= k < solution@.len() ==> (#[trigger] solution@[k]).0 < height
                        && solution@[k].1 < width,
                forall|i: int|
                    0 <= i < 256 ==> #[trigger] unit_hits(
                        solution@.subrange(base, solution@.len() as int),
                        i,
                    ) == if i < 15 * row + column && board.valid(i) {
                        board.cell(i)
                    } else {
                        0
                    },
            decreases width - column,
        {
            let deficit = board.get(row, column);
            let ghost here = 15 * row + column;
            proof {
                crate::bits::lemma_stride_index(row as int, column as int);
            }
            let mut k: u8 = 0;
            while k < deficit
                invariant
                    0 <= k <= deficit,
                    deficit == board.cell(here),
                    here == 15 * row + column,
                    0 <= row < height,
                    0 <= column < width,
                    height <= 14,
                    width <= 14,
                    board.valid(here),
                    base == start.len(),
                    solution@.len() >= base,
                    solution@.subrange(0, base) == start,
                    solution@.len() - base == board.deficit_upto(here) + k,
                    forall|j: int|
                        base <= j < solution@.len() ==> (#[trigger] solution@[j]).0 < height
                            && solution@[j].1 < width,
                    forall|i: int|
                        0 <= i < 256 ==> #[trigger] unit_hits(
                            solution@.subrange(base, solution@.len() as int),
                            i,
                        ) == if i < here && board.valid(i) {
                            board.cell(i)
                        } else if i == here {
                            k as int
                        } else {
                            0
                        },
                decreases deficit - k,
            {
                let ghost before = solution@;
                solution.push((row, column));
                proof {
                    assert(solution@ == before.push((row, column)));
                    assert(before.len() >= base);
                    assert(solution@.subrange(base, solution@.len() as int) =~= before.subrange(
                        base,
                        before.len() as int,
                    ).push((row, column)));
                    assert forall|i: int| 0 <= i < 256 implies #[trigger] unit_hits(
                        solution@.subrange(base, solution@.len() as int),
                        i,
                    ) == if i < here && board.valid(i) {
                        board.cell(i)
                    } else if i == here {
                        k + 1
                    } else {
                        0
                    } by {
                        lemma_unit_hits_push(before.subrange(base, before.len() as int), (row, column), i);
                    }
                    assert(solution@.subrange(0, base) =~= before.subrange(0, base));
                }
                k = k + 1;
            }
            proof {
                assert(board.deficit_upto(here + 1) == board.deficit_upto(here) + board.cell(here));
                assert forall|i: int| 0 <= i < 256 implies #[trigger] unit_hits(
                    solution@.subrange(base, solution@.len() as int),
                    i,
                ) == if i < here + 1 && board.valid(i) {
                    board.cell(i)
                } else {
                    0
                } by {
                    if i == here {
                    }
                }
            }
            column = column + 1;
        }
        proof {
            assert forall|i: int| 15 * row + width <= i < 15 * (row + 1) implies !#[trigger] board.valid(i) by {
                assert(i / 15 == row) by {
                    crate::bits::lemma_stride_index(row as int, i - 15 * row);
                }
                assert(i % 15 == i - 15 * row) by {
                    crate::bits::lemma_stride_index(row as int, i - 15 * row);
                }
            }
            lemma_deficit_skip_invalid(*board, 15 * row + width, 15 * (row + 1));
            assert forall|i: int| 0 <= i < 256 implies #[trigger] unit_hits(
                solution@.subrange(base, solution@.len() as int),
                i,
            ) == if i < 15 * (row + 1) && board.valid(i) {
                board.cell(i)
            } else {
                0
            } by {
                if 15 * row + width <= i < 15 * (row + 1) {
                    assert(i / 15 == row) by {
                        crate::bits::lemma_stride_index(row as int, i - 15 * row);
                    }
                    assert(i % 15 == i - 15 * row) by {
                        crate::bits::lemma_stride_index(row as int, i - 15 * row);
                    }
                }
            }
        }
        row = row + 1;
    }
    proof {
        assert forall|i: int| 15 * height <= i < 256 implies !#[trigger] board.valid(i) by {
            if board.valid(i) {
                crate::bits::lemma_stride_split(i);
            }
        }
        lemma_deficit_skip_invalid(*board, 15 * height, 256);
    }
    let ghost covered = solution@.len();
    let mut wrap: usize = 0;
    while wrap < extra_wraps
        invariant
            0 <= wrap <= extra_wraps,
            2 <= m <= 5,
            m == board.modulus(),
            extra_wraps * m + board.deficit() == available,
            height >= 3,
            width >= 3,
            base == start.len(),
            solution@.len() >= base,
            solution@.subrange(0, base) == start,
            solution@.len() - base == board.deficit() + wrap * m,
            forall|j: int|
                base <= j < solution@.len() ==> (#[trigger] solution@[j]).0 < height
                    && solution@[j].1 < width,
            forall|i: int|
                0 <= i < 256 ==> #[trigger] unit_hits(solution@.subrange(base, solution@.len() as int), i)
                    == if board.valid(i) {
                    board.cell(i)
                } else {
                    0
                } + if i == 0 {
                    wrap * m
                } else {
                    0
                },
        decreases extra_wraps - wrap,
    {
        proof {
            assert(wrap * m + m <= extra_wraps * m) by (nonlinear_arith)
                requires
                    wrap < extra_wraps,
            ;
        }
        let mut t: usize = 0;
        while t < m
            invariant
                0 <= t <= m,
                0 <= wrap < extra_wraps,
                2 <= m <= 5,
                m == board.modulus(),
                wrap * m + m <= extra_wraps * m,
                height >= 3,
                width >= 3,
                base == start.len(),
                solution@.len() >= base,
                solution@.subrange(0, base) == start,
                solution@.len() - base == board.deficit() + wrap * m + t,
                forall|j: int|
                    base <= j < solution@.len() ==> (#[trigger] solution@[j]).0 < height
                        && solution@[j].1 < width,
                forall|i: int|
                    0 <= i < 256 ==> #[trigger] unit_hits(
                        solution@.subrange(base, solution@.len() as int),
                        i,
                    ) == if board.valid(i) {
                        board.cell(i)
                    } else {
                        0
                    } + if i == 0 {
                        wrap * m + t
                    } else {
                        0
                    },
            decreases m - t,
        {
            let ghost before = solution@;
            solution.push((0, 0));
            proof {
                assert(solution@.subrange(base, solution@.len() as int) =~= before.subrange(
                    base,
                    before.len() as int,
                ).push((0usize, 0usize)));
                assert forall|i: int| 0 <= i < 256 implies #[trigger] unit_hits(
                    solution@.subrange(base, solution@.len() as int),
                    i,
                ) == if board.valid(i) {
                    board.cell(i)
                } else {
                    0
                } + if i == 0 {
                    wrap * m + t + 1
                } else {
                    0
                } by {
                    lemma_unit_hits_push(before.subrange(base, before.len() as int), (0usize, 0usize), i);
                }
                assert(solution@.subrange(0, base) =~= before.subrange(0, base));
            }
            t = t + 1;
        }
        proof {
            assert(wrap * m + m == (wrap + 1) * m) by (nonlinear_arith);
        }
        wrap = wrap + 1;
    }
    proof {
        let added = solution@.subrange(base, solution@.len() as int);
        assert forall|i: int| 0 <= i < 256 && board.valid(i) implies (board.cell(i) - #[trigger] unit_hits(
            added,
            i,
        )) % board.modulus() == 0 by {
            vstd::arithmetic::div_mod::lemma_small_mod(0, m as nat);
            if i == 0 {
                lemma_mod_turns(0, extra_wraps as int, m as int);
                assert(board.cell(i) - unit_hits(added, i) == 0 - m * extra_wraps) by (nonlinear_arith)
                    requires
                        unit_hits(added, i) == board.cell(i) + extra_wraps * m,
                ;
            }
        }
        assert forall|k: int| 0 <= k < added.len() implies (#[trigger] added[k]).0 < height && added[k].1
            < width by {
            assert(added[k] == solution@[base + k]);
        }
    }
    true
}


/// Capacity of the ranking buffers: the most placements a piece can have.
pub const MAX_PLACEMENTS: usize = 196;

/// The most cells a piece can have.
pub const MAX_PIECE_CELLS: usize = 25;

/// One bucket per possible count of zero cells hit: `0..=MAX_PIECE_CELLS`.
pub const BUCKET_SLOTS: usize = 26;

/// Bucket start offsets, with one more for the end of the last bucket.
pub const OFFSET_SLOTS: usize = 27;

/// Number of indices below `n` where `p` holds.
pub open spec fn count_where(p: spec_fn(int) -> bool, n: int) -> nat
    decreases n,
{
    if n <= 0 {
        0
    } else {
        count_where(p, n - 1) + if p(n - 1) {
            1nat
        } else {
            0nat
        }
    }
}

/// Board cells covered by `mask` whose value is `d`.
pub open spec fn covered_with(b: Board, mask: Bitboard, d: int) -> spec_fn(int) -> bool {
    |i: int| mask.bit(i) && b.valid(i) && b.cell(i) == d
}

/// How many cells covered by `mask` have value `d`.
pub open spec fn hits_at(b: Board, mask: Bitboard, d: int) -> nat {
    count_where(covered_with(b, mask, d), 256)
}

/// Sum over the values `1..d` of the value times the covered cells holding it.
pub open spec fn covered_deficit(b: Board, mask: Bitboard, d: int) -> int
    decreases d,
{
    if d <= 1 {
        0
    } else {
        covered_deficit(b, mask, d - 1) + (d - 1) * hits_at(b, mask, d - 1)
    }
}

/// Secondary rank key of a placement: the more deficit it covers, the smaller.
pub open spec fn deficit_key(b: Board, mask: Bitboard) -> int {
    let s = covered_deficit(b, mask, b.modulus());
    255 - if s < 255 {
        s
    } else {
        255
    }
}

/// Placement `j` ranks strictly before placement `k`: fewer zero cells hit,
/// then a smaller deficit key, then a smaller index.
pub open spec fn ranks_before(b: Board, ps: Seq<(usize, usize, Bitboard)>, j: int, k: int) -> bool {
    let zj = hits_at(b, ps[j].2, 0);
    let zk = hits_at(b, ps[k].2, 0);
    let kj = deficit_key(b, ps[j].2);
    let kk = deficit_key(b, ps[k].2);
    zj < zk || (zj == zk && (kj < kk || (kj == kk && j < k)))
}

/// The count of a bitboard is the number of indices where its bits hold.
pub proof fn lemma_count_bits(x: Bitboard, p: spec_fn(int) -> bool, n: int)
    requires
        0 <= n <= 256,
        forall|i: int| 0 <= i < 256 ==> #[trigger] x.bit(i) == p(i),
    ensures
        bits::count_upto(x@, n) == count_where(p, n),
    decreases n,
{
    if n > 0 {
        lemma_count_bits(x, p, n - 1);
        assert(x.bit(n - 1) == p(n - 1));
    }
}

/// A count never exceeds the range.
pub proof fn lemma_count_where_bound(p: spec_fn(int) -> bool, n: int)
    requires
        0 <= n,
    ensures
        count_where(p, n) <= n,
    decreases n,
{
    if n > 0 {
        lemma_count_where_bound(p, n - 1);
    }
}

/// Counts of predicates that agree below `n` agree.
pub proof fn lemma_count_where_ext(p: spec_fn(int) -> bool, q: spec_fn(int) -> bool, n: int)
    requires
        forall|k: int| 0 <= k < n ==> #[trigger] p(k) == q(k),
    ensures
        count_where(p, n) == count_where(q, n),
    decreases n,
{
    if n > 0 {
        lemma_count_where_ext(p, q, n - 1);
    }
}

/// The count of a disjoint union is the sum of the counts.
pub proof fn lemma_count_where_split(p: spec_fn(int) -> bool, q: spec_fn(int) -> bool, r: spec_fn(int) -> bool, n: int)
    requires
        forall|k: int| 0 <= k < n ==> #[trigger] r(k) == (p(k) || q(k)),
        forall|k: int| 0 <= k < n ==> !(#[trigger] p(k) && q(k)),
    ensures
        count_where(r, n) == count_where(p, n) + count_where(q, n),
    decreases n,
{
    if n > 0 {
        lemma_count_where_split(p, q, r, n - 1);
        assert(r(n - 1) == (p(n - 1) || q(n - 1)));
        assert(!(p(n - 1) && q(n - 1)));
    }
}

/// Placements whose zero-cell hits are below `z`.
pub open spec fn zero_below(b: Board, ps: Seq<(usize, usize, Bitboard)>, z: int) -> spec_fn(int) -> bool {
    |k: int| hits_at(b, ps[k].2, 0) < z
}

/// Placements whose zero-cell hits are exactly `z`.
pub open spec fn zero_exact(b: Board, ps: Seq<(usize, usize, Bitboard)>, z: int) -> spec_fn(int) -> bool {
    |k: int| hits_at(b, ps[k].2, 0) == z
}

/// Number of covered cells with value `d`, counted with a plane of the board.
pub(crate) fn covered_count(board: &Board, mask: Bitboard, d: u8) -> (r: u32)
    requires
        board.wf(),
        d < 5,
    ensures
        r == hits_at(*board, mask, d as int),
        r <= 256,
{
    let x = mask.and(&board.plane(d));
    proof {
        lemma_count_bits(x, covered_with(*board, mask, d as int), 256);
        bits::lemma_count_upto_bound(x@, 256);
    }
    x.count_ones()
}

/// The secondary key of one placement: 255 less the covered deficit, capped.
pub(crate) fn placement_deficit_key(board: &Board, modulus: u8, mask: Bitboard) -> (r: u8)
    requires
        board.wf(),
        modulus == board.modulus(),
    ensures
        r == deficit_key(*board, mask),
{
    proof {
        board.lemma_wf();
    }
    let mut deficit_sum: u16 = 0;
    let mut deficit: u8 = 1;
    while deficit < modulus
        invariant
            board.wf(),
            2 <= modulus <= 5,
            modulus == board.modulus(),
            1 <= deficit <= modulus,
            deficit_sum == covered_deficit(*board, mask, deficit as int),
            deficit_sum <= 256 * (deficit - 1) * deficit / 2,
        decreases modulus - deficit,
    {
        let c = covered_count(board, mask, deficit);
        proof {
            assert(deficit * c <= 256 * deficit) by (nonlinear_arith)
                requires
                    c <= 256,
            ;
            assert(256 * (deficit - 1) * deficit / 2 + 256 * deficit == 256 * deficit * (deficit + 1) / 2)
                by (nonlinear_arith)
                requires
                    1 <= deficit <= 5,
            ;
            assert(256 * deficit * (deficit + 1) / 2 <= 256 * 4 * 5 / 2) by (nonlinear_arith)
                requires
                    1 <= deficit <= 4,
            ;
        }
        deficit_sum = deficit_sum + (deficit as u16) * (c as u16);
        deficit = deficit + 1;
    }
    let capped = if deficit_sum < 255 {
        deficit_sum
    } else {
        255
    };
    (255 - capped) as u8
}

/// Entry `a` of `ranked[start..u]` is entry `perm[a]` of `input[start..u]`.
pub open spec fn drawn_via(
    ranked: [u8; MAX_PLACEMENTS],
    input: [u8; MAX_PLACEMENTS],
    perm: Seq<int>,
    start: int,
    u: int,
) -> bool {
    forall|a: int|
        start <= a < u ==> start <= #[trigger] perm[a] < u && ranked[a] == input[perm[a]]
}

/// Entry `c` of `input[start..u]` is entry `inv[c]` of `ranked[start..u]`.
pub open spec fn kept_via(
    ranked: [u8; MAX_PLACEMENTS],
    input: [u8; MAX_PLACEMENTS],
    inv: Seq<int>,
    start: int,
    u: int,
) -> bool {
    forall|c: int| start <= c < u ==> start <= #[trigger] inv[c] < u && ranked[inv[c]] == input[c]
}

/// `ranked[start..u]` increases strictly in (key, value).
pub open spec fn sorted_by_key(ranked: [u8; MAX_PLACEMENTS], keys: [u8; MAX_PLACEMENTS], start: int, u: int) -> bool {
    forall|a: int, c: int|
        start <= a < c < u ==> {
            let x = #[trigger] ranked[a];
            let y = #[trigger] ranked[c];
            keys[x as int] < keys[y as int] || (keys[x as int] == keys[y as int] && x < y)
        }
}

/// `ranked[start..u]` is `input[start..u]` reordered, increasing in (key, value).
pub open spec fn bucket_sorted(
    ranked: [u8; MAX_PLACEMENTS],
    input: [u8; MAX_PLACEMENTS],
    keys: [u8; MAX_PLACEMENTS],
    start: int,
    u: int,
) -> bool {
    &&& exists|perm: Seq<int>| #[trigger] drawn_via(ranked, input, perm, start, u)
    &&& exists|inv: Seq<int>| #[trigger] kept_via(ranked, input, inv, start, u)
    &&& sorted_by_key(ranked, keys, start, u)
}

/// The placement after inserting `pre[u]` at `ins`.
pub open spec fn inserted(pre: [u8; MAX_PLACEMENTS], post: [u8; MAX_PLACEMENTS], start: int, ins: int, u: int) -> bool {
    forall|a: int| start <= a <= u ==> #[trigger] post[a] == if a < ins {
        pre[a]
    } else if a == ins {
        pre[u]
    } else {
        pre[a - 1]
    }
}

proof fn lemma_insert_sorted(
    pre: [u8; MAX_PLACEMENTS],
    post: [u8; MAX_PLACEMENTS],
    keys: [u8; MAX_PLACEMENTS],
    start: int,
    ins: int,
    u: int,
)
    requires
        0 <= start <= ins <= u < MAX_PLACEMENTS,
        sorted_by_key(pre, keys, start, u),
        forall|a: int| start <= a < u ==> #[trigger] pre[a] < pre[u],
        forall|a: int| ins <= a < u ==> keys[(#[trigger] pre[a]) as int] > keys[pre[u] as int],
        ins > start ==> keys[pre[ins - 1] as int] <= keys[pre[u] as int],
        inserted(pre, post, start, ins, u),
    ensures
        sorted_by_key(post, keys, start, u + 1),
{
    let x = pre[u];
    assert forall|a: int, c: int| start <= a < c < u + 1 implies {
        let p = #[trigger] post[a];
        let q = #[trigger] post[c];
        keys[p as int] < keys[q as int] || (keys[p as int] == keys[q as int] && p < q)
    } by {
        if a < ins && c < ins {
            assert(post[a] == pre[a] && post[c] == pre[c]);
        } else if a < ins && c == ins {
            assert(post[a] == pre[a]);
            assert(post[c] == x);
            if a < ins - 1 {
                assert(keys[pre[a] as int] <= keys[pre[ins - 1] as int]);
            }
            assert(pre[ins - 1] < x);
        } else if a < ins {
            assert(post[a] == pre[a]);
            assert(post[c] == pre[c - 1]);
        } else if a == ins {
            assert(post[a] == x);
            assert(post[c] == pre[c - 1]);
            assert(keys[pre[c - 1] as int] > keys[x as int]);
        } else {
            assert(post[a] == pre[a - 1]);
            assert(post[c] == pre[c - 1]);
        }
    }
}

/// Stable insertion sort of `ranked_indices[start..end]` by `deficit_keys`.
/// The slice is given in increasing index order, so ties stay in index
/// order: afterwards it increases in (key, index).
pub fn sort_anchor_bucket(
    ranked_indices: &mut [u8; MAX_PLACEMENTS],
    deficit_keys: &[u8; MAX_PLACEMENTS],
    start: usize,
    end: usize,
)
    requires
        start <= end <= MAX_PLACEMENTS,
        forall|a: int| start <= a < end ==> (#[trigger] old(ranked_indices)[a]) < MAX_PLACEMENTS,
        forall|a: int, c: int|
            start <= a < c < end ==> #[trigger] old(ranked_indices)[a] < #[trigger] old(
                ranked_indices,
            )[c],
    ensures
        forall|a: int|
            0 <= a < MAX_PLACEMENTS && !(start <= a < end) ==> #[trigger] final(ranked_indices)[a]
                == old(ranked_indices)[a],
        bucket_sorted(*final(ranked_indices), *old(ranked_indices), *deficit_keys, start as int, end as int),
{
    let ghost input = *ranked_indices;
    let ghost mut perm: Seq<int> = Seq::new(MAX_PLACEMENTS as nat, |i: int| i);
    let ghost mut inv: Seq<int> = Seq::new(MAX_PLACEMENTS as nat, |i: int| i);
    let mut unsorted_index = if start < end {
        start + 1
    } else {
        end
    };
    while unsorted_index < end
        invariant
            start <= unsorted_index <= end,
            start < end ==> start < unsorted_index,
            end <= MAX_PLACEMENTS,
            forall|a: int| start <= a < end ==> (#[trigger] input[a]) < MAX_PLACEMENTS,
            forall|a: int, c: int| start <= a < c < end ==> #[trigger] input[a] < #[trigger] input[c],
            forall|a: int|
                0 <= a < MAX_PLACEMENTS && !(start <= a < unsorted_index) ==> #[trigger] ranked_indices[a]
                    == input[a],
            drawn_via(*ranked_indices, input, perm, start as int, unsorted_index as int),
            kept_via(*ranked_indices, input, inv, start as int, unsorted_index as int),
            sorted_by_key(*ranked_indices, *deficit_keys, start as int, unsorted_index as int),
        decreases end - unsorted_index,
    {
        let ghost pre = *ranked_indices;
        let placement_index = ranked_indices[unsorted_index];
        let key = deficit_keys[placement_index as usize];
        proof {
            assert forall|a: int| start <= a < unsorted_index implies #[trigger] pre[a] < placement_index
                && pre[a] < MAX_PLACEMENTS by {
                let c = perm[a];
                assert(input[c] < input[unsorted_index as int]);
            }
        }
        let mut insertion_index = unsorted_index;
        while insertion_index > start && deficit_keys[ranked_indices[insertion_index - 1] as usize] > key
            invariant
                start <= insertion_index <= unsorted_index < end,
                end <= MAX_PLACEMENTS,
                placement_index == pre[unsorted_index as int],
                key == deficit_keys[placement_index as int],
                forall|a: int| start <= a < unsorted_index ==> (#[trigger] pre[a]) < MAX_PLACEMENTS,
                forall|a: int|
                    0 <= a < MAX_PLACEMENTS && !(insertion_index < a <= unsorted_index) ==> #[trigger] ranked_indices[a]
                        == pre[a],
                forall|a: int|
                    insertion_index < a <= unsorted_index ==> #[trigger] ranked_indices[a] == pre[a - 1],
                forall|a: int|
                    insertion_index <= a < unsorted_index ==> deficit_keys[(#[trigger] pre[a]) as int] > key,
            decreases insertion_index,
        {
            ranked_indices[insertion_index] = ranked_indices[insertion_index - 1];
            insertion_index = insertion_index - 1;
        }
        ranked_indices[insertion_index] = placement_index;
        proof {
            let ins = insertion_index as int;
            let u = unsorted_index as int;
            assert(inserted(pre, *ranked_indices, start as int, ins, u));
            lemma_insert_sorted(pre, *ranked_indices, *deficit_keys, start as int, ins, u);
            let old_perm = perm;
            let old_inv = inv;
            perm = Seq::new(
                MAX_PLACEMENTS as nat,
                |a: int|
                    if a < ins {
                        old_perm[a]
                    } else if a == ins {
                        u
                    } else if a <= u {
                        old_perm[a - 1]
                    } else {
                        a
                    },
            );
            inv = Seq::new(
                MAX_PLACEMENTS as nat,
                |c: int|
                    if c == u {
                        ins
                    } else if old_inv[c] < ins {
                        old_inv[c]
                    } else {
                        old_inv[c] + 1
                    },
            );
            assert forall|a: int| start <= a < u + 1 implies start <= #[trigger] perm[a] < u + 1
                && ranked_indices[a] == input[perm[a]] by {
                if a > ins {
                    assert(start <= old_perm[a - 1] < u);
                }
            }
            assert forall|c: int| start <= c < u + 1 implies start <= #[trigger] inv[c] < u + 1
                && ranked_indices[inv[c]] == input[c] by {
                if c < u {
                    assert(start <= old_inv[c] < u);
                }
            }
        }
        unsorted_index = unsorted_index + 1;
    }
    proof {
        assert(drawn_via(*ranked_indices, input, perm, start as int, end as int));
        assert(kept_via(*ranked_indices, input, inv, start as int, end as int));
    }
}

/// Zero cells hit by placement `k`.
pub open spec fn zero_of(b: Board, ps: Seq<(usize, usize, Bitboard)>, k: int) -> nat {
    hits_at(b, ps[k].2, 0)
}

/// Entry `a` of `x` names placement `k`.
pub open spec fn names(x: [u8; MAX_PLACEMENTS], a: int, k: int) -> bool {
    x[a] == k
}

/// The zero-cell budget a ranking keeps: at most `max_zero_cells`, at most a piece's size.
pub open spec fn rank_cap(max_zero_cells: u32) -> int {
    if max_zero_cells < MAX_PIECE_CELLS {
        max_zero_cells as int
    } else {
        MAX_PIECE_CELLS as int
    }
}

/// Cells of the 5 by 5 box counted below `15 * r + j`.
proof fn lemma_box_count(r: int, j: int)
    requires
        0 <= r <= 5,
        0 <= j <= 15,
        r == 5 ==> j == 0,
    ensures
        count_where(|i: int| crate::model::piece::in_box(5, 5, i), 15 * r + j) == 5 * r + if j < 5 { j } else { 5 },
    decreases r, j,
{
    let q = |i: int| crate::model::piece::in_box(5, 5, i);
    if j > 0 {
        lemma_box_count(r, j - 1);
        bits::lemma_stride_index(r, j - 1);
        assert(q(15 * r + j - 1) == (j - 1 < 5));
    } else if r > 0 {
        lemma_box_count(r - 1, 15);
    }
}

/// A piece has at most 25 cells: they lie in a box of at most 5 by 5.
pub proof fn lemma_piece_cells_at_most_25(p: Piece)
    requires
        p.wf(),
    ensures
        p.cells().count() <= 25,
{
    p.lemma_wf();
    let q = |i: int| crate::model::piece::in_box(5, 5, i);
    let cells = |i: int| p.cells().bit(i);
    lemma_box_count(5, 0);
    assert forall|i: int| 75 <= i < 256 implies !#[trigger] q(i) by {}
    lemma_count_where_flat_to(q, 75, 256);
    assert forall|i: int| 0 <= i < 256 && #[trigger] cells(i) implies q(i) by {
        assert(crate::model::piece::in_box(p.rows(), p.cols(), i));
    }
    lemma_count_where_implies(cells, q, 256);
    lemma_count_bits(p.cells(), cells, 256);
}

proof fn lemma_count_where_flat_to(q: spec_fn(int) -> bool, n: int, k: int)
    requires
        0 <= n <= k,
        forall|i: int| n <= i < k ==> !#[trigger] q(i),
    ensures
        count_where(q, k) == count_where(q, n),
    decreases k - n,
{
    if k > n {
        lemma_count_where_flat_to(q, n, k - 1);
    }
}

/// The ranking's cap never leaves out a placement that the zero-cell budget
/// allows: a placement of a piece hits no more zero cells than the piece has
/// cells, so zero hits within the budget are within the cap.
pub proof fn lemma_rank_cap_keeps_allowed(b: Board, p: Piece, pl: (usize, usize, Bitboard), budget: u32)
    requires
        b.wf(),
        p.wf(),
        places(b, p, pl),
        hits_at(b, pl.2, 0) <= budget,
    ensures
        hits_at(b, pl.2, 0) <= rank_cap(budget),
{
    lemma_placed_cells(b, p, pl);
    lemma_count_where_implies(covered_with(b, pl.2, 0), |i: int| pl.2.bit(i), 256);
    lemma_piece_cells_at_most_25(p);
}

/// Counts grow with the range.
pub proof fn lemma_count_where_mono(p: spec_fn(int) -> bool, n: int, m: int)
    requires
        0 <= n <= m,
    ensures
        count_where(p, n) <= count_where(p, m),
    decreases m - n,
{
    if m > n {
        lemma_count_where_mono(p, n, m - 1);
    }
}

/// A predicate that holds somewhere below `n` has a positive count.
pub proof fn lemma_count_where_pos(p: spec_fn(int) -> bool, n: int, k: int)
    requires
        0 <= k < n,
        p(k),
    ensures
        count_where(p, n) > 0,
    decreases n,
{
    if n - 1 > k {
        lemma_count_where_pos(p, n - 1, k);
    }
}

/// Zero-hit counts below `z + 1` split into those below `z` and those at `z`.
pub(crate) proof fn lemma_zero_below_step(b: Board, ps: Seq<(usize, usize, Bitboard)>, z: int, n: int)
    requires
        0 <= n,
    ensures
        count_where(zero_below(b, ps, z + 1), n) == count_where(zero_below(b, ps, z), n) + count_where(
            zero_exact(b, ps, z),
            n,
        ),
{
    lemma_count_where_split(zero_below(b, ps, z), zero_exact(b, ps, z), zero_below(b, ps, z + 1), n);
}

/// Rank the placements by zero cells hit, then by covered deficit (more
/// first), then by index; placements hitting more zero cells than the
/// budget allows are left out. Fills `ranked_indices` and returns how many
/// placements were ranked.
#[verifier::rlimit(60)]
pub fn rank_placements(
    board: &Board,
    modulus: u8,
    placements: &[(usize, usize, Bitboard)],
    max_zero_cells: u32,
    ranked_indices: &mut [u8; MAX_PLACEMENTS],
) -> (ranked_count: usize)
    requires
        board.wf(),
        modulus == board.modulus(),
        placements@.len() <= MAX_PLACEMENTS,
    ensures
        ranked_count <= placements@.len(),
        forall|a: int|
            0 <= a < ranked_count ==> (#[trigger] final(ranked_indices)[a]) < placements@.len()
                && zero_of(*board, placements@, final(ranked_indices)[a] as int) <= rank_cap(
                max_zero_cells,
            ),
        forall|k: int|
            0 <= k < placements@.len() && zero_of(*board, placements@, k) <= rank_cap(max_zero_cells)
                ==> exists|a: int| 0 <= a < ranked_count && #[trigger] names(*final(ranked_indices), a, k),
        forall|a: int, c: int|
            0 <= a < c < ranked_count ==> ranks_before(
                *board,
                placements@,
                #[trigger] final(ranked_indices)[a] as int,
                #[trigger] final(ranked_indices)[c] as int,
            ),
{
    let ghost b = *board;
    let ghost ps = placements@;
    let placement_count = placements.len();
    let zero_plane = board.plane(0);
    let cap: usize = if max_zero_cells < MAX_PIECE_CELLS as u32 {
        max_zero_cells as usize
    } else {
        MAX_PIECE_CELLS
    };
    let mut zero_counts = [0u32; MAX_PLACEMENTS];
    let mut bucket_counts = [0u8; BUCKET_SLOTS];
    let mut placement_index: usize = 0;
    while placement_index < placement_count
        invariant
            b == *board,
            ps == placements@,
            placement_count == ps.len() <= MAX_PLACEMENTS,
            cap == rank_cap(max_zero_cells),
            0 <= placement_index <= placement_count,
            forall|i: int| 0 <= i < 256 ==> #[trigger] zero_plane.bit(i) == (b.valid(i) && b.cell(i) == 0),
            forall|k: int| 0 <= k < placement_index ==> #[trigger] zero_counts[k] == zero_of(b, ps, k),
            forall|z: int|
                0 <= z <= MAX_PIECE_CELLS ==> #[trigger] bucket_counts[z] == if z <= cap {
                    count_where(zero_exact(b, ps, z), placement_index as int)
                } else {
                    0
                },
        decreases placement_count - placement_index,
    {
        let mask = placements[placement_index].2;
        let hit = mask.and(&zero_plane);
        proof {
            lemma_count_bits(hit, covered_with(b, mask, 0), 256);
            bits::lemma_count_upto_bound(hit@, 256);
        }
        let zero_count = hit.count_ones() as usize;
        zero_counts[placement_index] = zero_count as u32;
        if zero_count <= cap {
            proof {
                lemma_count_where_bound(zero_exact(b, ps, zero_count as int), placement_index as int);
            }
            bucket_counts[zero_count] = bucket_counts[zero_count] + 1;
        }
        placement_index = placement_index + 1;
    }
    let mut offsets = [0u8; OFFSET_SLOTS];
    let mut bucket: usize = 0;
    proof {
        lemma_count_where_ext(zero_below(b, ps, 0), |k: int| false, placement_count as int);
        assert(count_where(|k: int| false, placement_count as int) == 0) by {
            lemma_count_false(placement_count as int);
        }
    }
    while bucket <= cap
        invariant
            b == *board,
            ps == placements@,
            placement_count == ps.len() <= MAX_PLACEMENTS,
            cap == rank_cap(max_zero_cells),
            cap <= MAX_PIECE_CELLS,
            0 <= bucket <= cap + 1,
            forall|z: int|
                0 <= z <= MAX_PIECE_CELLS ==> #[trigger] bucket_counts[z] == if z <= cap {
                    count_where(zero_exact(b, ps, z), placement_count as int)
                } else {
                    0
                },
            forall|z: int| 0 <= z <= bucket ==> #[trigger] offsets[z] == count_where(zero_below(b, ps, z), placement_count as int),
        decreases cap + 1 - bucket,
    {
        proof {
            lemma_zero_below_step(b, ps, bucket as int, placement_count as int);
            lemma_count_where_bound(zero_below(b, ps, bucket + 1), placement_count as int);
        }
        offsets[bucket + 1] = offsets[bucket] + bucket_counts[bucket];
        bucket = bucket + 1;
    }
    let ranked_count = offsets[cap + 1] as usize;
    if ranked_count == 0 {
        proof {
            assert forall|k: int|
                0 <= k < placements@.len() && zero_of(*board, placements@, k) <= rank_cap(max_zero_cells)
                    implies exists|a: int| 0 <= a < ranked_count && #[trigger] names(*ranked_indices, a, k) by {
                lemma_count_where_pos(zero_below(b, ps, cap + 1), placement_count as int, k);
            }
        }
        return 0;
    }
    let mut deficit_keys = [0u8; MAX_PLACEMENTS];
    let mut cursor = offsets;
    let mut placement_index: usize = 0;
    proof {
        lemma_offsets_mono(offsets, b, ps, placement_count as int, cap as int);
        lemma_count_where_bound(zero_below(b, ps, cap + 1), placement_count as int);
    }
    while placement_index < placement_count
        invariant
            b == *board,
            b.wf(),
            modulus == b.modulus(),
            ps == placements@,
            placement_count == ps.len() <= MAX_PLACEMENTS,
            cap == rank_cap(max_zero_cells),
            cap <= MAX_PIECE_CELLS,
            0 <= placement_index <= placement_count,
            ranked_count == offsets[cap + 1],
            forall|k: int| 0 <= k < placement_count ==> #[trigger] zero_counts[k] == zero_of(b, ps, k),
            ranked_count <= placement_count,
            forall|z: int| 0 <= z <= cap + 1 ==> #[trigger] offsets[z] == count_where(zero_below(b, ps, z), placement_count as int),
            forall|y: int, x: int| 0 <= y <= x <= cap + 1 ==> #[trigger] offsets[y] <= #[trigger] offsets[x],
            forall|z: int|
                0 <= z <= cap ==> #[trigger] cursor[z] == offsets[z] + count_where(
                    zero_exact(b, ps, z),
                    placement_index as int,
                ),
            forall|z: int| 0 <= z <= cap ==> #[trigger] cursor[z] <= offsets[z + 1],
            forall|z: int, a: int|
                #![trigger cursor[z], ranked_indices[a]]
                0 <= z <= cap && offsets[z] <= a < cursor[z] ==> ranked_indices[a] < placement_index
                    && zero_of(b, ps, ranked_indices[a] as int) == z,
            forall|z: int, a: int, c: int|
                #![trigger cursor[z], ranked_indices[a], ranked_indices[c]]
                0 <= z <= cap && offsets[z] <= a < c < cursor[z] ==> ranked_indices[a] < ranked_indices[c],
            forall|k: int|
                0 <= k < placement_index && zero_of(b, ps, k) <= cap ==> exists|a: int|
                    offsets[zero_of(b, ps, k) as int] <= a < cursor[zero_of(b, ps, k) as int]
                        && #[trigger] names(*ranked_indices, a, k),
            forall|k: int|
                0 <= k < placement_index && zero_of(b, ps, k) <= cap ==> #[trigger] deficit_keys[k]
                    == deficit_key(b, ps[k].2),
        decreases placement_count - placement_index,
    {
        let zero_count = zero_counts[placement_index] as usize;
        if zero_count > cap {
            proof {
                assert forall|z: int| 0 <= z <= cap implies #[trigger] cursor[z] == offsets[z] + count_where(
                    zero_exact(b, ps, z),
                    placement_index + 1,
                ) by {}
            }
            placement_index = placement_index + 1;
            continue;
        }
        let mask = placements[placement_index].2;
        let key = placement_deficit_key(board, modulus, mask);
        let ghost keys_before = deficit_keys;
        deficit_keys[placement_index] = key;
        proof {
            assert forall|k: int|
                0 <= k < placement_index + 1 && zero_of(b, ps, k) <= cap implies #[trigger] deficit_keys[k]
                    == deficit_key(b, ps[k].2) by {
                if k < placement_index {
                    assert(deficit_keys[k] == keys_before[k]);
                }
            }
        }
        let slot = cursor[zero_count] as usize;
        proof {
            lemma_count_where_mono(zero_exact(b, ps, zero_count as int), placement_index as int, placement_count as int);
            lemma_count_where_pos(zero_exact(b, ps, zero_count as int), placement_count as int, placement_index as int);
            lemma_count_where_mono(zero_exact(b, ps, zero_count as int), placement_index + 1, placement_count as int);
            lemma_zero_below_step(b, ps, zero_count as int, placement_count as int);
            assert(offsets[zero_count as int] <= slot < offsets[zero_count + 1]);
            assert(offsets[zero_count + 1] <= offsets[cap + 1]);
        }
        let ghost pre = *ranked_indices;
        let ghost pre_cursor = cursor;
        let ghost pre_keys = deficit_keys;
        ranked_indices[slot] = placement_index as u8;
        cursor[zero_count] = cursor[zero_count] + 1;
        proof {
            let zc = zero_count as int;
            assert forall|z: int| 0 <= z <= cap implies #[trigger] cursor[z] == offsets[z] + count_where(
                zero_exact(b, ps, z),
                placement_index + 1,
            ) by {}
            assert forall|z: int| 0 <= z <= cap implies #[trigger] cursor[z] <= offsets[z + 1] by {
                if z == zc {
                    assert(slot < offsets[zc + 1]);
                } else {
                    assert(cursor[z] == pre_cursor[z]);
                }
            }
            assert forall|z: int, a: int|
                #![trigger cursor[z], ranked_indices[a]]
                0 <= z <= cap && offsets[z] <= a < cursor[z] implies ranked_indices[a] < placement_index + 1
                    && zero_of(b, ps, ranked_indices[a] as int) == z by {
                assert(cursor[z] <= offsets[z + 1]);
                assert(offsets[z + 1] <= offsets[cap + 1]);
                if a != slot {
                    assert(ranked_indices[a] == pre[a]);
                    lemma_bucket_disjoint(offsets, cap as int, z, zc, a, slot as int);
                }
            }
            assert forall|z: int, a: int, c: int|
                #![trigger cursor[z], ranked_indices[a], ranked_indices[c]]
                0 <= z <= cap && offsets[z] <= a < c < cursor[z] implies ranked_indices[a] < ranked_indices[c] by {
                assert(cursor[z] <= offsets[z + 1]);
                assert(offsets[z + 1] <= offsets[cap + 1]);
                if c != slot {
                    lemma_bucket_disjoint(offsets, cap as int, z, zc, c, slot as int);
                    lemma_bucket_disjoint(offsets, cap as int, z, zc, a, slot as int);
                    assert(ranked_indices[a] == pre[a]);
                    assert(ranked_indices[c] == pre[c]);
                    if z == zc {
                        assert(c < pre_cursor[z]);
                        assert(pre[a] < pre[c]);
                    } else {
                        assert(cursor[z] == pre_cursor[z]);
                        assert(pre[a] < pre[c]);
                    }
                } else {
                    assert(z == zc) by {
                        lemma_bucket_disjoint(offsets, cap as int, z, zc, c, slot as int);
                    }
                    assert(ranked_indices[a] == pre[a]);
                    assert(pre_cursor[z] <= a < pre_cursor[z] || offsets[z] <= a < pre_cursor[z]);
                    assert(pre[a] < placement_index);
                }
            }
            assert forall|k: int|
                0 <= k < placement_index + 1 && zero_of(b, ps, k) <= cap implies exists|a: int|
                    offsets[zero_of(b, ps, k) as int] <= a < cursor[zero_of(b, ps, k) as int]
                        && #[trigger] names(*ranked_indices, a, k) by {
                let z = zero_of(b, ps, k) as int;
                if k == placement_index {
                    assert(names(*ranked_indices, slot as int, k));
                } else {
                    let a = choose|a: int|
                        offsets[z] <= a < pre_cursor[z] && #[trigger] names(pre, a, k);
                    assert(pre_cursor[z] <= offsets[z + 1]);
                    assert(offsets[z + 1] <= offsets[cap + 1]);
                    assert(a != slot) by {
                        if z != zc {
                            lemma_bucket_disjoint(offsets, cap as int, z, zc, a, slot as int);
                        }
                    }
                    assert(names(*ranked_indices, a, k));
                }
            }
        }
        placement_index = placement_index + 1;
    }
    proof {
        assert forall|z: int| 0 <= z <= cap implies #[trigger] cursor[z] == offsets[z + 1] by {
            lemma_zero_below_step(b, ps, z, placement_count as int);
        }
        assert forall|z: int, a: int|
            #![trigger offsets[z], ranked_indices[a]]
            0 <= z <= cap && offsets[z] <= a < offsets[z + 1] implies ranked_indices[a] < placement_count
                && zero_of(b, ps, ranked_indices[a] as int) == z by {
            assert(cursor[z] == offsets[z + 1]);
        }
        assert forall|z: int, a: int, c: int|
            #![trigger offsets[z], ranked_indices[a], ranked_indices[c]]
            0 <= z <= cap && offsets[z] <= a < c < offsets[z + 1] implies ranked_indices[a]
                < ranked_indices[c] by {
            assert(cursor[z] == offsets[z + 1]);
        }
    }
    let mut bucket: usize = 0;
    while bucket <= cap
        invariant
            b == *board,
            ps == placements@,
            placement_count == ps.len() <= MAX_PLACEMENTS,
            cap == rank_cap(max_zero_cells),
            cap <= MAX_PIECE_CELLS,
            0 <= bucket <= cap + 1,
            ranked_count == offsets[cap + 1],
            ranked_count <= placement_count,
            offsets[0] == 0,
            forall|z: int| 0 <= z <= cap + 1 ==> #[trigger] offsets[z] == count_where(zero_below(b, ps, z), placement_count as int),
            forall|y: int, x: int| 0 <= y <= x <= cap + 1 ==> #[trigger] offsets[y] <= #[trigger] offsets[x],
            forall|k: int|
                0 <= k < placement_count && zero_of(b, ps, k) <= cap ==> #[trigger] deficit_keys[k]
                    == deficit_key(b, ps[k].2),
            forall|z: int, a: int|
                #![trigger offsets[z], ranked_indices[a]]
                0 <= z <= cap && offsets[z] <= a < offsets[z + 1] ==> ranked_indices[a] < placement_count
                    && zero_of(b, ps, ranked_indices[a] as int) == z,
            forall|k: int|
                0 <= k < placement_count && zero_of(b, ps, k) <= cap ==> exists|a: int|
                    offsets[zero_of(b, ps, k) as int] <= a < offsets[zero_of(b, ps, k) as int + 1]
                        && #[trigger] names(*ranked_indices, a, k),
            forall|z: int, a: int, c: int|
                #![trigger offsets[z], ranked_indices[a], ranked_indices[c]]
                bucket <= z <= cap && offsets[z] <= a < c < offsets[z + 1] ==> ranked_indices[a]
                    < ranked_indices[c],
            forall|z: int|
                0 <= z < bucket ==> sorted_by_key(*ranked_indices, deficit_keys, #[trigger] offsets[z] as int, offsets[z + 1] as int),
        decreases cap + 1 - bucket,
    {
        let ghost pre = *ranked_indices;
        let start = offsets[bucket] as usize;
        let end = offsets[bucket + 1] as usize;
        proof {
            assert(offsets[bucket + 1] <= offsets[cap + 1]);
            assert forall|a: int| start <= a < end implies (#[trigger] pre[a]) < MAX_PLACEMENTS by {
                assert(offsets[bucket as int] <= a < offsets[bucket + 1]);
            }
            assert forall|a: int, c: int| start <= a < c < end implies #[trigger] pre[a] < #[trigger] pre[c] by {
                assert(offsets[bucket as int] <= a < c < offsets[bucket + 1]);
            }
        }
        sort_anchor_bucket(ranked_indices, &deficit_keys, start, end);
        proof {
            let bk = bucket as int;
            let perm = choose|perm: Seq<int>| #[trigger] drawn_via(*ranked_indices, pre, perm, start as int, end as int);
            let inv = choose|inv: Seq<int>| #[trigger] kept_via(*ranked_indices, pre, inv, start as int, end as int);
            assert forall|z: int, a: int|
                #![trigger offsets[z], ranked_indices[a]]
                0 <= z <= cap && offsets[z] <= a < offsets[z + 1] implies ranked_indices[a] < placement_count
                    && zero_of(b, ps, ranked_indices[a] as int) == z by {
                assert(offsets[z + 1] <= offsets[cap + 1]);
                if start <= a < end {
                    assert(z == bk) by {
                        lemma_bucket_disjoint(offsets, cap as int, z, bk, a, a);
                    }
                    let c = perm[a];
                    assert(ranked_indices[a] == pre[c]);
                    assert(offsets[bk] <= c < offsets[bk + 1]);
                } else {
                    assert(ranked_indices[a] == pre[a]);
                }
            }
            assert forall|k: int|
                0 <= k < placement_count && zero_of(b, ps, k) <= cap implies exists|a: int|
                    offsets[zero_of(b, ps, k) as int] <= a < offsets[zero_of(b, ps, k) as int + 1]
                        && #[trigger] names(*ranked_indices, a, k) by {
                let z = zero_of(b, ps, k) as int;
                let a0 = choose|a: int| offsets[z] <= a < offsets[z + 1] && #[trigger] names(pre, a, k);
                assert(offsets[z + 1] <= offsets[cap + 1]);
                if z == bk {
                    let a1 = inv[a0];
                    assert(names(*ranked_indices, a1, k));
                } else {
                    assert(!(start <= a0 < end)) by {
                        if start <= a0 < end {
                            lemma_bucket_disjoint(offsets, cap as int, z, bk, a0, a0);
                        }
                    }
                    assert(names(*ranked_indices, a0, k));
                }
            }
            assert forall|z: int, a: int, c: int|
                #![trigger offsets[z], ranked_indices[a], ranked_indices[c]]
                bucket + 1 <= z <= cap && offsets[z] <= a < c < offsets[z + 1] implies ranked_indices[a]
                    < ranked_indices[c] by {
                assert(offsets[bk + 1] <= offsets[z]);
                assert(offsets[z + 1] <= offsets[cap + 1]);
                assert(ranked_indices[a] == pre[a]);
                assert(ranked_indices[c] == pre[c]);
            }
            assert forall|z: int|
                0 <= z < bucket + 1 implies sorted_by_key(*ranked_indices, deficit_keys, #[trigger] offsets[z] as int, offsets[z + 1] as int) by {
                if z < bk {
                    assert(offsets[z + 1] <= offsets[bk]);
                    assert forall|a: int, c: int| offsets[z] <= a < c < offsets[z + 1] implies {
                        let x = #[trigger] ranked_indices[a];
                        let y = #[trigger] ranked_indices[c];
                        deficit_keys[x as int] < deficit_keys[y as int] || (deficit_keys[x as int]
                            == deficit_keys[y as int] && x < y)
                    } by {
                        assert(ranked_indices[a] == pre[a]);
                        assert(ranked_indices[c] == pre[c]);
                        assert(sorted_by_key(pre, deficit_keys, offsets[z] as int, offsets[z + 1] as int));
                    }
                }
            }
        }
        bucket = bucket + 1;
    }
    proof {
        assert forall|a: int| 0 <= a < ranked_count implies (#[trigger] ranked_indices[a]) < placements@.len()
            && zero_of(*board, placements@, ranked_indices[a] as int) <= rank_cap(max_zero_cells) by {
            let z = lemma_find_bucket(offsets, cap as int, a);
        }
        assert forall|k: int|
            0 <= k < placements@.len() && zero_of(*board, placements@, k) <= rank_cap(max_zero_cells)
                implies exists|a: int| 0 <= a < ranked_count && #[trigger] names(*ranked_indices, a, k) by {
            let z = zero_of(b, ps, k) as int;
            let a0 = choose|a: int| offsets[z] <= a < offsets[z + 1] && #[trigger] names(*ranked_indices, a, k);
            assert(offsets[z + 1] <= offsets[cap + 1]);
        }
        assert forall|a: int, c: int| 0 <= a < c < ranked_count implies ranks_before(
            *board,
            placements@,
            #[trigger] ranked_indices[a] as int,
            #[trigger] ranked_indices[c] as int,
        ) by {
            let za = lemma_find_bucket(offsets, cap as int, a);
            let zc = lemma_find_bucket(offsets, cap as int, c);
            if za > zc {
                assert(offsets[zc + 1] <= offsets[za]);
            } else if za == zc {
                assert(sorted_by_key(*ranked_indices, deficit_keys, offsets[za] as int, offsets[za + 1] as int));
            }
        }
    }
    ranked_count
}

/// The bucket holding position `a` of the ranked prefix.
pub(crate) proof fn lemma_find_bucket(offsets: [u8; OFFSET_SLOTS], cap: int, a: int) -> (z: int)
    requires
        0 <= cap <= MAX_PIECE_CELLS,
        offsets[0] == 0,
        0 <= a < offsets[cap + 1],
    ensures
        0 <= z <= cap,
        offsets[z] <= a < offsets[z + 1],
    decreases cap,
{
    if a >= offsets[cap] {
        cap
    } else {
        if cap == 0 {
            0
        } else {
            lemma_find_bucket(offsets, cap - 1, a)
        }
    }
}

/// A predicate implied by another counts at least as much.
pub proof fn lemma_count_where_implies(p: spec_fn(int) -> bool, q: spec_fn(int) -> bool, n: int)
    requires
        forall|k: int| 0 <= k < n && #[trigger] p(k) ==> q(k),
    ensures
        count_where(p, n) <= count_where(q, n),
    decreases n,
{
    if n > 0 {
        lemma_count_where_implies(p, q, n - 1);
        if p(n - 1) {
            assert(q(n - 1));
        }
    }
}

/// Bucket offsets never decrease.
pub(crate) proof fn lemma_offsets_mono(offsets: [u8; OFFSET_SLOTS], b: Board, ps: Seq<(usize, usize, Bitboard)>, n: int, cap: int)
    requires
        0 <= cap <= MAX_PIECE_CELLS,
        forall|z: int| 0 <= z <= cap + 1 ==> #[trigger] offsets[z] == count_where(zero_below(b, ps, z), n),
    ensures
        forall|y: int, z: int| 0 <= y <= z <= cap + 1 ==> #[trigger] offsets[y] <= #[trigger] offsets[z],
{
    assert forall|y: int, z: int| 0 <= y <= z <= cap + 1 implies #[trigger] offsets[y] <= #[trigger] offsets[z] by {
        lemma_count_where_implies(zero_below(b, ps, y), zero_below(b, ps, z), n);
    }
}

/// Positions of different buckets are different.
pub(crate) proof fn lemma_bucket_disjoint(offsets: [u8; OFFSET_SLOTS], cap: int, z: int, w: int, a: int, s: int)
    requires
        0 <= z <= cap,
        0 <= w <= cap,
        cap <= MAX_PIECE_CELLS,
        forall|y: int, x: int| 0 <= y <= x <= cap + 1 ==> #[trigger] offsets[y] <= #[trigger] offsets[x],
    ensures
        z != w && offsets[z] <= a < offsets[z + 1] && offsets[w] <= s < offsets[w + 1] ==> a != s,
{
    if z < w {
        assert(offsets[z + 1] <= offsets[w]);
    } else if w < z {
        assert(offsets[w + 1] <= offsets[z]);
    }
}

/// Nothing holds below any bound of the always-false predicate.
pub(crate) proof fn lemma_count_false(n: int)
    ensures
        count_where(|k: int| false, n) == 0,
    decreases n,
{
    if n > 0 {
        lemma_count_false(n - 1);
    }
}

/// A node of the search: the board reached, the next piece to place, and
/// the placement chosen for the previous piece when that choice matters.
#[derive(Clone, Copy)]
pub struct SearchPosition {
    pub board: Board,
    pub piece_index: usize,
    pub previous_placement: usize,
}

/// The previous placement handed to the next piece: only the next piece's
/// equivalent-pair table reads it.
pub(crate) fn next_previous_placement(data: &SolverData, piece_index: usize, placement_index: usize) -> (r: usize)
    requires
        data.equivalent_pair_skips@.len() == data.placements@.len(),
        piece_index < data.placements@.len(),
    ensures
        r == if piece_index + 1 < data.placements@.len() && data.equivalent_pair_skips@[piece_index + 1] is Some {
            placement_index
        } else {
            usize::MAX
        },
{
    let piece_count = data.placements.len();
    let next_piece_index = piece_index + 1;
    if next_piece_index < piece_count && data.equivalent_pair_skips[next_piece_index].is_some() {
        placement_index
    } else {
        usize::MAX
    }
}

/// An entry-for-entry copy of a placement list.
fn copy_solution(solution: &Vec<(usize, usize)>) -> (r: Vec<(usize, usize)>)
    ensures
        r@ == solution@,
{
    let mut r: Vec<(usize, usize)> = Vec::new();
    let mut i: usize = 0;
    while i < solution.len()
        invariant
            0 <= i <= solution@.len(),
            r@ == solution@.subrange(0, i as int),
        decreases solution@.len() - i,
    {
        r.push(solution[i]);
        i = i + 1;
        proof {
            assert(r@ =~= solution@.subrange(0, i as int));
        }
    }
    proof {
        assert(r@ =~= solution@);
    }
    r
}

/// Extending a placement list keeps the hits of its first `n` entries.
proof fn lemma_hits_push(pieces: Seq<Piece>, sol: Seq<(usize, usize)>, e: (usize, usize), n: int, i: int)
    requires
        0 <= n <= sol.len(),
    ensures
        hits(pieces, sol.push(e), n, i) == hits(pieces, sol, n, i),
{
    assert(sol.push(e).subrange(0, n) =~= sol.subrange(0, n));
    lemma_hits_prefix(pieces, sol.push(e), sol, n, i);
}

/// The residue of a difference depends only on the residue of its first term.
pub proof fn lemma_mod_sub_residue(a: int, u: int, m: int)
    requires
        m > 0,
    ensures
        ((a % m) - u) % m == (a - u) % m,
{
    vstd::arithmetic::div_mod::lemma_fundamental_div_mod(a, m);
    let q = a / m;
    assert((a % m) - u == (a - u) + m * (-q)) by (nonlinear_arith)
        requires
            a == m * q + a % m,
    ;
    vstd::arithmetic::div_mod::lemma_mod_multiples_vanish(-q, a - u, m);
}

/// Depth-first search from `position`: place the next piece at each ranked
/// placement and recurse. On success `solution` holds placements for every
/// piece that solve the starting board; otherwise it is left as it was.
/// With `exhaustive`, every branch is explored and the first solution found
/// is the one kept. The search misses no solution it admits: one that
/// extends the placements so far and, at every depth above the single-cell
/// suffix, passes the bounds, keeps within the zero-cell budget and takes the
/// canonical placement of each equivalent pair.
pub(crate) fn backtrack<const MODULUS: usize>(
    position: SearchPosition,
    data: &SolverData,
    solution: &mut Vec<(usize, usize)>,
    nodes: &mut u64,
    exhaustive: bool,
    Ghost(start): Ghost<Board>,
    Ghost(sp): Ghost<Seq<Piece>>,
) -> (found: bool)
    requires
        data.wf(start, sp),
        start.wf(),
        MODULUS == start.modulus(),
        position.board.wf(),
        position.piece_index <= sp.len(),
        old(solution)@.len() == position.piece_index,
        placements_fit(start, sp, old(solution)@, position.piece_index as int),
        reached(start, sp, old(solution)@, position.piece_index as int, position.board),
        position.previous_placement == usize::MAX || (position.piece_index > 0
            && position.previous_placement < data.placements@[position.piece_index - 1]@.len()),
    ensures
        found ==> is_solution(start, sp, final(solution)@) && final(solution)@.subrange(
            0,
            position.piece_index as int,
        ) == old(solution)@,
        !found ==> final(solution)@ == old(solution)@,
        position.piece_index >= data.single_cell_suffix_start ==> found == units_solve(
            position.board,
            sp.len() - position.piece_index,
        ),
        position.piece_index < data.single_cell_suffix_start && !feasible_spec(
            *data,
            position.board,
            position.piece_index as int,
            MODULUS as int,
        ) ==> !found,
        completes(
            *data,
            start,
            sp,
            old(solution)@,
            position.piece_index as int,
            position.previous_placement,
            MODULUS as int,
        ) ==> found,
    decreases sp.len() - position.piece_index,
{
    let ghost entry = solution@;
    let board = position.board;
    let piece_index = position.piece_index;
    let previous_placement = position.previous_placement;
    let ghost d = piece_index as int;
    let ghost m = MODULUS as int;
    let ghost admitted = completes(*data, start, sp, entry, d, previous_placement, m);
    let ghost s_w = choose|s: Seq<(usize, usize)>|
        #![trigger is_solution(start, sp, s)]
        s.len() == sp.len() && s.subrange(0, d) == entry && is_solution(start, sp, s) && admits(
            *data,
            start,
            sp,
            s,
            d,
            previous_placement,
            m,
        );
    proof {
        start.lemma_wf();
        board.lemma_wf();
        if admitted {
            assert(entry.subrange(0, d) =~= entry);
            lemma_reached_prefix(start, sp, entry, s_w, d, board);
            lemma_admits_here(*data, start, sp, s_w, d, previous_placement, m, board);
        }
    }
    if piece_index == data.placements.len() {
        let solved = board.is_solved();
        proof {
            if solved {
                assert forall|i: int| 0 <= i < 256 && start.valid(i) implies (start.cell(i) - #[trigger] hits(
                    sp,
                    solution@,
                    solution@.len() as int,
                    i,
                )) % start.modulus() == 0 by {
                    assert(board.cell(i) == 0);
                }
                assert(solution@.subrange(0, piece_index as int) =~= entry);
            }
            board.lemma_wf();
            assert(sp.len() - piece_index == 0);
            assert(board.deficit() >= 0);
            assert(0int % board.modulus() == 0);
            assert(solved == units_solve(board, 0));
        }
        return solved;
    }
    if piece_index >= data.single_cell_suffix_start {
        let remaining_pieces = data.placements.len() - piece_index;
        let ok = solve_single_cell_suffix(
            &board,
            data.modulus,
            data.height,
            data.width,
            remaining_pieces,
            solution,
        );
        proof {
            if ok {
                let n = sp.len() as int;
                let d = piece_index as int;
                let sol = solution@;
                let added = sol.subrange(d, sol.len() as int);
                assert(sol.len() == n);
                assert(sol.subrange(0, d) == entry);
                assert(entry.subrange(0, d) =~= entry);
                assert forall|k: int| 0 <= k < n implies #[trigger] placement_fits(
                    start,
                    sp[k],
                    sol[k].0 as int,
                    sol[k].1 as int,
                ) by {
                    if k < d {
                        assert(sol[k] == sol.subrange(0, d)[k]);
                        assert(placement_fits(start, sp[k], entry[k].0 as int, entry[k].1 as int));
                    } else {
                        assert(sol[k] == added[k - d]);
                        assert(is_unit(sp[k]));
                        sp[k].lemma_wf();
                    }
                }
                assert forall|i: int| 0 <= i < 256 && start.valid(i) implies (start.cell(i) - #[trigger] hits(
                    sp,
                    sol,
                    n,
                    i,
                )) % start.modulus() == 0 by {
                    assert forall|k: int| d <= k < n implies #[trigger] sp[k].wf() && is_unit(sp[k]) by {
                        assert(is_unit(sp[k]));
                    }
                    lemma_hits_unit_suffix(sp, sol, d, n, i);
                    lemma_hits_prefix(sp, sol, entry, d, i);
                    let h = hits(sp, entry, d, i);
                    let u = unit_hits(added, i);
                    assert(board.cell(i) == (start.cell(i) - h) % start.modulus());
                    assert(board.valid(i));
                    lemma_mod_sub_residue(start.cell(i) - h, u, start.modulus());
                    assert(start.cell(i) - h - u == start.cell(i) - (h + u));
                }
            }
        }
        return ok;
    }
    proof {
        assert(data.partition_reachability.wf(sp, start.rows(), start.cols()) && piece_index <= sp.len());
    }
    if !state_is_feasible::<MODULUS>(&board, data, piece_index) {
        return false;
    }
    let placements = &data.placements[piece_index];
    let mut ranked_indices = [0u8; MAX_PLACEMENTS];
    let max_zero_cells = max_zero_cells_allowed::<MODULUS>(&board, data, piece_index);
    let candidate_count = if max_zero_cells <= 2 {
        rank_low_zero_hit_placements(
            &board,
            data.modulus,
            placements.as_slice(),
            &data.anchor_placements[piece_index],
            max_zero_cells,
            &mut ranked_indices,
        )
    } else {
        rank_placements(&board, data.modulus, placements.as_slice(), max_zero_cells, &mut ranked_indices)
    };
    let ghost k_w = placement_at(*data, d, s_w[d]);
    proof {
        if admitted {
            assert(max_zero_cells == zero_budget(*data, board, d, m) as u32);
            assert(zero_of(board, placements@, k_w) <= rank_cap(max_zero_cells));
        }
    }
    let ghost a_w: int = choose|a: int| 0 <= a < candidate_count && #[trigger] names(ranked_indices, a, k_w);
    let mut found = false;
    let solution_length_on_entry = solution.len();
    let mut first_solution: Option<Vec<(usize, usize)>> = None;
    let mut i: usize = 0;
    while i < candidate_count
        invariant
            data.wf(start, sp),
            start.wf(),
            MODULUS == start.modulus(),
            board.wf(),
            board == position.board,
            piece_index == position.piece_index,
            previous_placement == position.previous_placement,
            piece_index < data.single_cell_suffix_start,
            feasible_spec(*data, board, piece_index as int, MODULUS as int),
            piece_index < sp.len(),
            entry == old(solution)@,
            entry.len() == piece_index,
            placements == data.placements@[piece_index as int],
            solution_length_on_entry == piece_index,
            solution@ == entry,
            placements_fit(start, sp, entry, piece_index as int),
            reached(start, sp, entry, piece_index as int, board),
            position.previous_placement == usize::MAX || (position.piece_index > 0
                && position.previous_placement < data.placements@[position.piece_index - 1]@.len()),
            candidate_count <= placements@.len(),
            forall|a: int| 0 <= a < candidate_count ==> (#[trigger] ranked_indices[a]) < placements@.len(),
            0 <= i <= candidate_count,
            found == first_solution is Some,
            found ==> exhaustive,
            first_solution matches Some(f) ==> is_solution(start, sp, f@) && f@.subrange(
                0,
                piece_index as int,
            ) == entry,
            d == piece_index,
            m == MODULUS,
            k_w == placement_at(*data, d, s_w[d]),
            admitted ==> {
                &&& 0 <= a_w < candidate_count
                &&& ranked_indices[a_w] == k_w
                &&& 0 <= k_w < placements@.len()
                &&& placements@[k_w].0 == s_w[d].0
                &&& placements@[k_w].1 == s_w[d].1
                &&& canonical_pair(*data, d, k_w, previous_placement)
                &&& s_w.len() == sp.len()
                &&& s_w.subrange(0, d) == entry
                &&& is_solution(start, sp, s_w)
                &&& admits(*data, start, sp, s_w, d, previous_placement, m)
            },
            admitted && i > a_w ==> found,
        decreases candidate_count - i,
    {
        let placement_index = ranked_indices[i] as usize;
        let mask = placements[placement_index].2;
        *nodes = nodes.wrapping_add(1);
        if !is_canonical_placement_pair(data, piece_index, placement_index, previous_placement) {
            i = i + 1;
            continue;
        }
        let row = placements[placement_index].0;
        let column = placements[placement_index].1;
        proof {
            let p = data.placements@[piece_index as int]@[placement_index as int];
            assert(placement_fits(start, sp[piece_index as int], row as int, column as int));
            crate::game::lemma_placement_in_board(start, sp[piece_index as int], row as int, column as int, mask);
        }
        let mut board_after_placement = board;
        board_after_placement.apply_piece(mask);
        solution.push((row, column));
        let next_previous = next_previous_placement(data, piece_index, placement_index);
        proof {
            let d = piece_index as int;
            let sol = solution@;
            assert(sol == entry.push((row, column)));
            assert forall|k: int| 0 <= k < d + 1 implies #[trigger] placement_fits(
                start,
                sp[k],
                sol[k].0 as int,
                sol[k].1 as int,
            ) by {
                if k < d {
                    assert(sol[k] == entry[k]);
                }
            }
            start.lemma_wf();
            assert forall|j: int| 0 <= j < 256 implies #[trigger] board_after_placement.cell(j) == (start.cell(j)
                - hits(sp, sol, d + 1, j)) % start.modulus() by {
                lemma_hits_push(sp, entry, (row, column), d, j);
                lemma_mod_step(start.cell(j), hits(sp, entry, d, j), start.modulus(), mask.bit(j));
            }
        }
        proof {
            if admitted && i == a_w {
                assert(placement_index == k_w);
                assert(next_previous == if d + 1 < data.placements@.len() && data.equivalent_pair_skips@[d + 1] is Some {
                    k_w as usize
                } else {
                    usize::MAX
                });
                lemma_admits_step(*data, start, sp, s_w, d, previous_placement, m, next_previous);
                assert(s_w.subrange(0, d + 1) =~= solution@);
                assert(completes(*data, start, sp, solution@, d + 1, next_previous, m));
            }
        }
        if backtrack::<MODULUS>(
            SearchPosition {
                board: board_after_placement,
                piece_index: piece_index + 1,
                previous_placement: next_previous,
            },
            data,
            solution,
            nodes,
            exhaustive,
            Ghost(start),
            Ghost(sp),
        ) {
            proof {
                assert(solution@.subrange(0, piece_index as int) =~= solution@.subrange(
                    0,
                    piece_index + 1,
                ).subrange(0, piece_index as int));
                assert(entry.push((row, column)).subrange(0, piece_index as int) =~= entry);
            }
            if !exhaustive {
                return true;
            }
            if first_solution.is_none() {
                first_solution = Some(copy_solution(solution));
            }
            found = true;
        }
        solution.truncate(solution_length_on_entry);
        proof {
            assert(solution@ =~= entry);
        }
        i = i + 1;
    }
    if let Some(first) = first_solution {
        *solution = first;
    }
    found
}

} // verus!
