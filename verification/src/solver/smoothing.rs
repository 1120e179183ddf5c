//! Smoothing adjacent pairs. A placement changes the difference between two
//! neighbouring cells only where it covers exactly one of them, and it does
//! so at most once per boundary edge of its piece in that direction; so the
//! pieces still to place bound how far apart neighbouring values may be.

use vstd::prelude::*;
use crate::model::bitboard::Bitboard;
use crate::model::board::Board;
use crate::model::piece::Piece;
use crate::solver::adjacency::{active, backward, circular, forward, pair_sum};
use crate::solver::backtrack::{count_where, lemma_count_where_ext, lemma_count_where_implies, lemma_count_where_split};
use crate::solver::finish::{chosen_hits, finishes, places, lemma_placed_cells};
use crate::solver::pruning::partition::{lemma_count_flat, lemma_count_shift};
use crate::game::covers;
use crate::solver::prune::jaggedness::{budget_allows, suffix_perimeter};

verus! {

/// Placement `x` covers the first cell of the pair at `i` and not the second.
pub open spec fn leaves(x: Bitboard, step: int, i: int) -> bool {
    x.bit(i) && !x.bit(i + step)
}

/// Placement `x` covers the second cell of the pair at `i` and not the first.
pub open spec fn enters(x: Bitboard, step: int, i: int) -> bool {
    !x.bit(i) && x.bit(i + step)
}

/// How many chosen placements of pieces `d..` cover only the first cell of
/// the pair at `i`.
pub open spec fn leave_hits(pm: Seq<Seq<(usize, usize, Bitboard)>>, c: Seq<int>, d: int, step: int, i: int) -> int
    decreases pm.len() - d,
{
    if d < 0 || d >= pm.len() {
        0
    } else {
        leave_hits(pm, c, d + 1, step, i) + if leaves(pm[d][c[d]].2, step, i) { 1int } else { 0int }
    }
}

/// How many chosen placements of pieces `d..` cover only the second cell of
/// the pair at `i`.
pub open spec fn enter_hits(pm: Seq<Seq<(usize, usize, Bitboard)>>, c: Seq<int>, d: int, step: int, i: int) -> int
    decreases pm.len() - d,
{
    if d < 0 || d >= pm.len() {
        0
    } else {
        enter_hits(pm, c, d + 1, step, i) + if enters(pm[d][c[d]].2, step, i) { 1int } else { 0int }
    }
}

/// Active pairs below `n` whose first cell alone placement `x` covers.
pub open spec fn leaving_pairs(b: Board, q: Bitboard, step: int, x: Bitboard, n: int) -> nat {
    count_where(|i: int| active(b, q, step, i) && leaves(x, step, i), n)
}

/// Active pairs below `n` whose second cell alone placement `x` covers.
pub open spec fn entering_pairs(b: Board, q: Bitboard, step: int, x: Bitboard, n: int) -> nat {
    count_where(|i: int| active(b, q, step, i) && enters(x, step, i), n)
}

/// `leave_hits` summed over the active pairs below `n`.
pub open spec fn leave_sum(b: Board, q: Bitboard, step: int, pm: Seq<Seq<(usize, usize, Bitboard)>>, c: Seq<int>, d: int, n: int) -> int
    decreases n,
{
    if n <= 0 {
        0
    } else {
        leave_sum(b, q, step, pm, c, d, n - 1) + if active(b, q, step, n - 1) {
            leave_hits(pm, c, d, step, n - 1)
        } else {
            0
        }
    }
}

/// `enter_hits` summed over the active pairs below `n`.
pub open spec fn enter_sum(b: Board, q: Bitboard, step: int, pm: Seq<Seq<(usize, usize, Bitboard)>>, c: Seq<int>, d: int, n: int) -> int
    decreases n,
{
    if n <= 0 {
        0
    } else {
        enter_sum(b, q, step, pm, c, d, n - 1) + if active(b, q, step, n - 1) {
            enter_hits(pm, c, d, step, n - 1)
        } else {
            0
        }
    }
}

/// Boundary edges of the pieces from `d` on, per side, in the direction of
/// `step`: cells less adjacent pairs.
pub open spec fn runs_from(sp: Seq<Piece>, d: int, step: int) -> int
    decreases sp.len() - d,
{
    if d < 0 || d >= sp.len() {
        0
    } else {
        runs_from(sp, d + 1, step) + (sp[d].cells().count() - sp[d].cells().pair_count(step))
    }
}

/// Horizontal (or vertical) perimeters of the pieces from `d` on.
pub open spec fn perimeters_from(sp: Seq<Piece>, d: int, horizontal: bool) -> int
    decreases sp.len() - d,
{
    if d < 0 || d >= sp.len() {
        0
    } else {
        perimeters_from(sp, d + 1, horizontal) + if horizontal {
            sp[d].h_perimeter_spec()
        } else {
            sp[d].v_perimeter_spec()
        }
    }
}

proof fn lemma_perimeters_runs(sp: Seq<Piece>, d: int, horizontal: bool)
    requires
        0 <= d,
    ensures
        perimeters_from(sp, d, horizontal) == 2 * runs_from(sp, d, if horizontal { 1int } else { 15int }),
    decreases sp.len() - d,
{
    if d < sp.len() {
        lemma_perimeters_runs(sp, d + 1, horizontal);
    }
}

/// The hits of the two cells of a pair differ by the placements covering
/// only one of them.
proof fn lemma_hits_difference(pm: Seq<Seq<(usize, usize, Bitboard)>>, c: Seq<int>, d: int, step: int, i: int)
    requires
        0 <= d,
    ensures
        chosen_hits(pm, c, d, i) - chosen_hits(pm, c, d, i + step) == leave_hits(pm, c, d, step, i) - enter_hits(
            pm,
            c,
            d,
            step,
            i,
        ),
        leave_hits(pm, c, d, step, i) >= 0,
        enter_hits(pm, c, d, step, i) >= 0,
    decreases pm.len() - d,
{
    if d < pm.len() {
        lemma_hits_difference(pm, c, d + 1, step, i);
    }
}

/// Neighbouring values that `x` single covers of the first and `y` of the
/// second bring to the same residue are no further apart than those covers
/// allow.
proof fn lemma_pair_bound(a: int, a2: int, x: int, y: int, m: int)
    requires
        m >= 2,
        0 <= a < m,
        0 <= a2 < m,
        0 <= x,
        0 <= y,
        (a2 - a - (y - x)) % m == 0,
    ensures
        circular(m)(a, a2) <= x + y,
        forward(m)(a, a2) <= y + (m - 1) * x,
        backward(m)(a, a2) <= x + (m - 1) * y,
{
    let t = a2 - a;
    vstd::arithmetic::div_mod::lemma_fundamental_div_mod(a2 - a - (y - x), m);
    let q = (a2 - a - (y - x)) / m;
    assert(y - x == t - m * q);
    let fw = forward(m)(a, a2);
    let bw = backward(m)(a, a2);
    let ci = circular(m)(a, a2);
    let dist = if a >= a2 { a - a2 } else { a2 - a };
    assert(fw == if a2 >= a { a2 - a } else { a2 - a + m });
    assert(bw == if a >= a2 { a - a2 } else { a - a2 + m });
    assert(ci == if dist <= m - dist { dist } else { m - dist });
    assert(ci <= dist && ci <= m - dist);
    assert((m - 1) * x >= (if x >= 1 { m - 1 } else { 0 })) by (nonlinear_arith)
        requires
            m >= 2,
            x >= 0,
    ;
    assert((m - 1) * y >= (if y >= 1 { m - 1 } else { 0 })) by (nonlinear_arith)
        requires
            m >= 2,
            y >= 0,
    ;
    if q == 0 {
        assert(m * q == 0) by (nonlinear_arith)
            requires
                q == 0,
        ;
        assert(y - x == t);
    } else if q > 0 {
        assert(m * q >= m) by (nonlinear_arith)
            requires
                q >= 1,
                m >= 2,
        ;
        assert(x - y >= m - t);
        assert(x >= 1);
    } else {
        assert(m * q <= -m) by (nonlinear_arith)
            requires
                q <= -1,
                m >= 2,
        ;
        assert(y - x >= t + m);
        assert(y >= 1);
    }
}

/// Over the active pairs below `n`, the distances on a board that the
/// chosen placements finish are bounded by the single covers.
proof fn lemma_sums_bounded(
    b: Board,
    q: Bitboard,
    step: int,
    pm: Seq<Seq<(usize, usize, Bitboard)>>,
    c: Seq<int>,
    d: int,
    n: int,
)
    requires
        b.wf(),
        finishes(b, pm, c, d),
        0 <= n <= 256,
    ensures
        pair_sum(b, q, step, circular(b.modulus()), n) <= leave_sum(b, q, step, pm, c, d, n) + enter_sum(
            b,
            q,
            step,
            pm,
            c,
            d,
            n,
        ),
        pair_sum(b, q, step, forward(b.modulus()), n) <= enter_sum(b, q, step, pm, c, d, n) + (b.modulus() - 1)
            * leave_sum(b, q, step, pm, c, d, n),
        pair_sum(b, q, step, backward(b.modulus()), n) <= leave_sum(b, q, step, pm, c, d, n) + (b.modulus() - 1)
            * enter_sum(b, q, step, pm, c, d, n),
    decreases n,
{
    b.lemma_wf();
    let m = b.modulus();
    if n > 0 {
        lemma_sums_bounded(b, q, step, pm, c, d, n - 1);
        let i = n - 1;
        let ls = leave_sum(b, q, step, pm, c, d, i);
        let es = enter_sum(b, q, step, pm, c, d, i);
        if active(b, q, step, i) {
            let x = leave_hits(pm, c, d, step, i);
            let y = enter_hits(pm, c, d, step, i);
            let a = b.cell(i);
            let a2 = b.cell(i + step);
            let h1 = chosen_hits(pm, c, d, i);
            let h2 = chosen_hits(pm, c, d, i + step);
            lemma_hits_difference(pm, c, d, step, i);
            assert(b.valid(i + step));
            assert((a - h1) % m == 0 && (a2 - h2) % m == 0);
            vstd::arithmetic::div_mod::lemma_sub_mod_noop(a2 - h2, a - h1, m);
            vstd::arithmetic::div_mod::lemma_small_mod(0, m as nat);
            assert(a2 - a - (y - x) == (a2 - h2) - (a - h1));
            lemma_pair_bound(a, a2, x, y, m);
            assert((m - 1) * (ls + x) == (m - 1) * ls + (m - 1) * x) by (nonlinear_arith);
            assert((m - 1) * (es + y) == (m - 1) * es + (m - 1) * y) by (nonlinear_arith);
        }
    }
}

proof fn lemma_leave_sum_step(
    b: Board,
    q: Bitboard,
    step: int,
    pm: Seq<Seq<(usize, usize, Bitboard)>>,
    c: Seq<int>,
    d: int,
    n: int,
)
    requires
        0 <= d < pm.len(),
        0 <= n,
    ensures
        leave_sum(b, q, step, pm, c, d, n) == leave_sum(b, q, step, pm, c, d + 1, n) + leaving_pairs(
            b,
            q,
            step,
            pm[d][c[d]].2,
            n,
        ),
        enter_sum(b, q, step, pm, c, d, n) == enter_sum(b, q, step, pm, c, d + 1, n) + entering_pairs(
            b,
            q,
            step,
            pm[d][c[d]].2,
            n,
        ),
    decreases n,
{
    if n > 0 {
        lemma_leave_sum_step(b, q, step, pm, c, d, n - 1);
    }
}

proof fn lemma_leave_sum_end(b: Board, q: Bitboard, step: int, pm: Seq<Seq<(usize, usize, Bitboard)>>, c: Seq<int>, n: int)
    requires
        0 <= n,
    ensures
        leave_sum(b, q, step, pm, c, pm.len() as int, n) == 0,
        enter_sum(b, q, step, pm, c, pm.len() as int, n) == 0,
    decreases n,
{
    if n > 0 {
        lemma_leave_sum_end(b, q, step, pm, c, n - 1);
    }
}

/// Cells of `x` moved down by `s`, counted below `n`, are its cells from
/// `s` to `n + s`.
proof fn lemma_count_ahead(x: Bitboard, s: int, n: int)
    requires
        0 <= s,
        0 <= n,
    ensures
        count_where(|i: int| x.bit(i + s), n) + count_where(|i: int| x.bit(i), s) == count_where(|i: int| x.bit(i), n + s),
    decreases n,
{
    if n > 0 {
        lemma_count_ahead(x, s, n - 1);
        assert(n - 1 + s == n + s - 1);
    }
}

/// Single covers of a placement, on either side, number at most its cells
/// less its adjacent pairs.
proof fn lemma_single_covers(b: Board, q: Bitboard, step: int, x: Bitboard)
    requires
        0 <= step < 256,
    ensures
        leaving_pairs(b, q, step, x, 256) <= count_where(|i: int| x.bit(i), 256) - count_where(
            |i: int| x.bit(i) && x.bit(i + step),
            256,
        ),
        entering_pairs(b, q, step, x, 256) <= count_where(|i: int| x.bit(i), 256) - count_where(
            |i: int| x.bit(i) && x.bit(i + step),
            256,
        ),
{
    let both = |i: int| x.bit(i) && x.bit(i + step);
    let left_only = |i: int| x.bit(i) && !x.bit(i + step);
    let right_only = |i: int| !x.bit(i) && x.bit(i + step);
    lemma_count_where_split(both, left_only, |i: int| x.bit(i), 256);
    lemma_count_where_split(both, right_only, |i: int| x.bit(i + step), 256);
    lemma_count_where_implies(|i: int| active(b, q, step, i) && leaves(x, step, i), left_only, 256);
    lemma_count_where_implies(|i: int| active(b, q, step, i) && enters(x, step, i), right_only, 256);
    lemma_count_ahead(x, step, 256);
    let cell = |i: int| x.bit(i);
    assert forall|j: int| 256 <= j < 256 + step implies !#[trigger] cell(j) by {}
    lemma_count_flat(cell, 256, 256 + step);
}

/// A placement of a piece has the piece's cells and adjacent pairs.
proof fn lemma_placed_pairs(b: Board, p: Piece, pl: (usize, usize, Bitboard), step: int)
    requires
        b.wf(),
        p.wf(),
        places(b, p, pl),
        0 <= step < 256,
    ensures
        count_where(|i: int| pl.2.bit(i), 256) == p.cells().count(),
        count_where(|i: int| pl.2.bit(i) && pl.2.bit(i + step), 256) == p.cells().pair_count(step),
{
    b.lemma_wf();
    p.lemma_wf();
    lemma_placed_cells(b, p, pl);
    let row = pl.0 as int;
    let col = pl.1 as int;
    let off = 15 * row + col;
    let pc = p.cells();
    let qp = |j: int| pc.bit(j) && pc.bit(j + step);
    assert forall|j: int| 0 <= j < 256 && #[trigger] pc.bit(j) implies j + off < 256 by {
        crate::solver::counting::lemma_placement_covers(b, p, row, col);
        assert(covers(p, row, col, j + off));
    }
    assert(0 <= off < 256) by {
        let j = choose|j: int| 0 <= j < 256 && #[trigger] pc.bit(j);
        assert(j + off < 256);
    }
    let f = |i: int| pl.2.bit(i) && pl.2.bit(i + step);
    let g = |i: int| i >= off && qp(i - off);
    assert forall|i: int| 0 <= i < 256 implies #[trigger] f(i) == g(i) by {
        assert(pl.2.bit(i) == covers(p, row, col, i));
        if i + step < 256 {
            assert(pl.2.bit(i + step) == covers(p, row, col, i + step));
        } else {
            assert(!pl.2.bit(i + step));
            if i >= off && pc.bit(i + step - off) {
                assert(0 <= i + step - off < 256 ==> i + step - off + off < 256);
            }
        }
    }
    lemma_count_where_ext(f, g, 256);
    lemma_count_shift(qp, off, 256);
    assert forall|j: int| 256 - off <= j < 256 implies !#[trigger] qp(j) by {
        if qp(j) {
            assert(pc.bit(j));
        }
    }
    lemma_count_flat(qp, 256 - off, 256);
    lemma_pair_count_where(pc, step, 256);
}

proof fn lemma_pair_count_where(x: Bitboard, step: int, n: int)
    ensures
        count_where(|i: int| x.bit(i) && x.bit(i + step), n) == crate::bits::pair_count_upto(x@, step, n),
    decreases n,
{
    if n > 0 {
        lemma_pair_count_where(x, step, n - 1);
    }
}

/// Summed over the chosen placements of pieces `d..`, single covers on
/// either side number at most the pieces' boundary edges per side.
proof fn lemma_totals_bounded(
    b: Board,
    q: Bitboard,
    step: int,
    sp: Seq<Piece>,
    pm: Seq<Seq<(usize, usize, Bitboard)>>,
    c: Seq<int>,
    d: int,
)
    requires
        b.wf(),
        0 <= d <= pm.len(),
        pm.len() == sp.len(),
        0 <= step < 256,
        forall|k: int| 0 <= k < sp.len() ==> #[trigger] sp[k].wf(),
        forall|k: int| d <= k < pm.len() ==> #[trigger] places(b, sp[k], pm[k][c[k]]),
    ensures
        leave_sum(b, q, step, pm, c, d, 256) <= runs_from(sp, d, step),
        enter_sum(b, q, step, pm, c, d, 256) <= runs_from(sp, d, step),
        0 <= leave_sum(b, q, step, pm, c, d, 256),
        0 <= enter_sum(b, q, step, pm, c, d, 256),
    decreases pm.len() - d,
{
    if d < pm.len() {
        lemma_totals_bounded(b, q, step, sp, pm, c, d + 1);
        lemma_leave_sum_step(b, q, step, pm, c, d, 256);
        let pl = pm[d][c[d]];
        assert(places(b, sp[d], pl));
        lemma_placed_pairs(b, sp[d], pl, step);
        lemma_single_covers(b, q, step, pl.2);
    } else {
        lemma_leave_sum_end(b, q, step, pm, c, 256);
    }
}

/// On a board that the chosen placements of pieces `d..` finish, the
/// circular, forward and backward distances over the pairs of `q` at `step`
/// are within what the pieces' boundary edges in that direction can undo.
pub proof fn lemma_distances_bounded(
    b: Board,
    q: Bitboard,
    step: int,
    sp: Seq<Piece>,
    pm: Seq<Seq<(usize, usize, Bitboard)>>,
    c: Seq<int>,
    d: int,
)
    requires
        b.wf(),
        pm.len() == sp.len(),
        0 <= step < 256,
        forall|k: int| 0 <= k < sp.len() ==> #[trigger] sp[k].wf(),
        finishes(b, pm, c, d),
        forall|k: int| d <= k < pm.len() ==> #[trigger] places(b, sp[k], pm[k][c[k]]),
    ensures
        pair_sum(b, q, step, circular(b.modulus()), 256) <= 2 * runs_from(sp, d, step),
        pair_sum(b, q, step, forward(b.modulus()), 256) * 2 <= b.modulus() * (2 * runs_from(sp, d, step)),
        pair_sum(b, q, step, backward(b.modulus()), 256) * 2 <= b.modulus() * (2 * runs_from(sp, d, step)),
{
    b.lemma_wf();
    let m = b.modulus();
    lemma_sums_bounded(b, q, step, pm, c, d, 256);
    lemma_totals_bounded(b, q, step, sp, pm, c, d);
    let x = leave_sum(b, q, step, pm, c, d, 256);
    let y = enter_sum(b, q, step, pm, c, d, 256);
    let r = runs_from(sp, d, step);
    assert(y + (m - 1) * x <= m * r) by (nonlinear_arith)
        requires
            0 <= x <= r,
            0 <= y <= r,
            m >= 2,
    ;
    assert(x + (m - 1) * y <= m * r) by (nonlinear_arith)
        requires
            0 <= x <= r,
            0 <= y <= r,
            m >= 2,
    ;
    assert(m * (2 * r) == 2 * (m * r)) by (nonlinear_arith);
}

/// A board that the chosen placements of pieces `d..` finish passes the
/// perimeter budget: the circular distances in each direction are within the
/// pieces' perimeters in that direction, and for M of three or more twice
/// the forward and backward distances within M times those perimeters.
pub proof fn lemma_budget_finishable(
    b: Board,
    hm: Bitboard,
    vm: Bitboard,
    sp: Seq<Piece>,
    pm: Seq<Seq<(usize, usize, Bitboard)>>,
    c: Seq<int>,
    d: int,
)
    requires
        b.wf(),
        pm.len() == sp.len(),
        forall|k: int| 0 <= k < sp.len() ==> #[trigger] sp[k].wf(),
        finishes(b, pm, c, d),
        forall|k: int| d <= k < pm.len() ==> #[trigger] places(b, sp[k], pm[k][c[k]]),
    ensures
        budget_allows(
            pair_sum(b, hm, 1, circular(b.modulus()), 256),
            pair_sum(b, vm, 15, circular(b.modulus()), 256),
            pair_sum(b, hm, 1, forward(b.modulus()), 256),
            pair_sum(b, vm, 15, forward(b.modulus()), 256),
            pair_sum(b, hm, 1, backward(b.modulus()), 256),
            pair_sum(b, vm, 15, backward(b.modulus()), 256),
            perimeters_from(sp, d, true),
            perimeters_from(sp, d, false),
            b.modulus(),
        ),
{
    lemma_distances_bounded(b, hm, 1, sp, pm, c, d);
    lemma_distances_bounded(b, vm, 15, sp, pm, c, d);
    lemma_perimeters_runs(sp, d, true);
    lemma_perimeters_runs(sp, d, false);
}

/// The perimeters of `pieces` taken in `order` from position `d` on.
pub proof fn lemma_perimeters_in_order(pieces: Seq<Piece>, order: Seq<usize>, d: int, horizontal: bool)
    requires
        0 <= d,
    ensures
        suffix_perimeter(pieces, order, d, horizontal) == perimeters_from(
            Seq::new(order.len(), |k: int| pieces[order[k] as int]),
            d,
            horizontal,
        ),
    decreases order.len() - d,
{
    if d < order.len() {
        lemma_perimeters_in_order(pieces, order, d + 1, horizontal);
    }
}

} // verus!
