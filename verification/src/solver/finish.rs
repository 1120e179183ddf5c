//! Finishing a board from a search depth: a choice of one listed placement
//! for each remaining piece that leaves every cell at zero. The pruning
//! bounds are sound when they allow every board that some such choice
//! finishes.

use vstd::prelude::*;
use crate::game::{covers, placement_fits, lemma_placement_in_board};
use crate::bits;
use crate::model::bitboard::Bitboard;
use crate::model::board::Board;
use crate::model::piece::{Piece, shifted};
use crate::solver::backtrack::{count_where, covered_deficit, covered_with, hits_at, lemma_count_where_ext, lemma_count_where_split};
use crate::solver::counting::lemma_placement_covers;

verus! {

/// `c` picks one listed placement of each piece from `d` on.
pub open spec fn chooses(pm: Seq<Seq<(usize, usize, Bitboard)>>, d: int, c: Seq<int>) -> bool {
    &&& c.len() == pm.len()
    &&& forall|k: int| d <= k < pm.len() ==> 0 <= #[trigger] c[k] < pm[k].len()
}

/// How many of the chosen placements of pieces `d..` cover cell `i`.
pub open spec fn chosen_hits(pm: Seq<Seq<(usize, usize, Bitboard)>>, c: Seq<int>, d: int, i: int) -> int
    decreases pm.len() - d,
{
    if d < 0 || d >= pm.len() {
        0
    } else {
        chosen_hits(pm, c, d + 1, i) + if pm[d][c[d]].2.bit(i) {
            1int
        } else {
            0int
        }
    }
}

/// Placing the chosen placements of pieces `d..` on `b` leaves every cell
/// of the board at zero: each cell takes its value, and whole turns of M,
/// in hits.
pub open spec fn finishes(b: Board, pm: Seq<Seq<(usize, usize, Bitboard)>>, c: Seq<int>, d: int) -> bool {
    &&& 0 <= d <= pm.len()
    &&& chooses(pm, d, c)
    &&& forall|i: int| 0 <= i < 256 && b.valid(i) ==> (b.cell(i) - #[trigger] chosen_hits(pm, c, d, i)) % b.modulus() == 0
}

/// Hits are counts of at most the remaining pieces.
pub proof fn lemma_chosen_hits_range(pm: Seq<Seq<(usize, usize, Bitboard)>>, c: Seq<int>, d: int, i: int)
    requires
        0 <= d <= pm.len(),
    ensures
        0 <= chosen_hits(pm, c, d, i) <= pm.len() - d,
    decreases pm.len() - d,
{
    if d < pm.len() {
        lemma_chosen_hits_range(pm, c, d + 1, i);
    }
}

/// A finished cell takes at least its value in hits, and whole turns of M
/// beyond it.
pub proof fn lemma_cell_takes_turns(b: Board, pm: Seq<Seq<(usize, usize, Bitboard)>>, c: Seq<int>, d: int, i: int)
    requires
        b.wf(),
        finishes(b, pm, c, d),
        0 <= i < 256,
        b.valid(i),
    ensures
        chosen_hits(pm, c, d, i) >= b.cell(i),
        (chosen_hits(pm, c, d, i) - b.cell(i)) % b.modulus() == 0,
        chosen_hits(pm, c, d, i) % b.modulus() == b.cell(i),
{
    b.lemma_wf();
    lemma_chosen_hits_range(pm, c, d, i);
    let m = b.modulus();
    let h = chosen_hits(pm, c, d, i);
    let v = b.cell(i);
    assert((v - h) % m == 0);
    if h < v {
        vstd::arithmetic::div_mod::lemma_small_mod((v - h) as nat, m as nat);
    }
    vstd::arithmetic::div_mod::lemma_fundamental_div_mod(v - h, m);
    let q = (v - h) / m;
    assert(h - v == (-q) * m) by (nonlinear_arith)
        requires
            v - h == m * q,
    ;
    vstd::arithmetic::div_mod::lemma_mod_multiples_basic(-q, m);
    assert(h == v + (-q) * m);
    vstd::arithmetic::div_mod::lemma_mod_multiples_vanish(-q, v, m);
    vstd::arithmetic::div_mod::lemma_small_mod(v as nat, m as nat);
}

/// Cells of `placed` that land in `region`.
pub open spec fn landed(placed: Bitboard, region: Bitboard) -> nat {
    count_where(|i: int| placed.bit(i) && region.bit(i), 256)
}

/// Cells below `n` of `region` that `placed` covers.
pub open spec fn landed_below(placed: Bitboard, region: Bitboard, n: int) -> nat {
    count_where(|i: int| placed.bit(i) && region.bit(i), n)
}

/// Cells of the chosen placements of pieces `d..` that land in `region`.
pub open spec fn landed_sum(pm: Seq<Seq<(usize, usize, Bitboard)>>, c: Seq<int>, d: int, region: Bitboard) -> int
    decreases pm.len() - d,
{
    if d < 0 || d >= pm.len() {
        0
    } else {
        landed_sum(pm, c, d + 1, region) + landed(pm[d][c[d]].2, region)
    }
}

/// Hits of the chosen placements of pieces `d..` summed over the cells of
/// `region` below `n`.
pub open spec fn region_hits(pm: Seq<Seq<(usize, usize, Bitboard)>>, c: Seq<int>, d: int, region: Bitboard, n: int) -> int
    decreases n,
{
    if n <= 0 {
        0
    } else {
        region_hits(pm, c, d, region, n - 1) + if region.bit(n - 1) {
            chosen_hits(pm, c, d, n - 1)
        } else {
            0
        }
    }
}

/// The values below `v` of the board cells of `region` below `n`, summed.
pub open spec fn value_below(b: Board, region: Bitboard, v: int, n: int) -> int
    decreases n,
{
    if n <= 0 {
        0
    } else {
        value_below(b, region, v, n - 1) + if region.bit(n - 1) && b.valid(n - 1) && b.cell(n - 1) < v {
            b.cell(n - 1)
        } else {
            0
        }
    }
}

/// The deficit of `region`: the values of its board cells, summed.
pub open spec fn region_value(b: Board, region: Bitboard) -> int {
    value_below(b, region, b.modulus(), 256)
}

proof fn lemma_region_hits_step(pm: Seq<Seq<(usize, usize, Bitboard)>>, c: Seq<int>, d: int, region: Bitboard, n: int)
    requires
        0 <= d < pm.len(),
        0 <= n,
    ensures
        region_hits(pm, c, d, region, n) == region_hits(pm, c, d + 1, region, n) + landed_below(pm[d][c[d]].2, region, n),
    decreases n,
{
    if n > 0 {
        lemma_region_hits_step(pm, c, d, region, n - 1);
    }
}

proof fn lemma_region_hits_end(pm: Seq<Seq<(usize, usize, Bitboard)>>, c: Seq<int>, region: Bitboard, n: int)
    requires
        0 <= n,
    ensures
        region_hits(pm, c, pm.len() as int, region, n) == 0,
    decreases n,
{
    if n > 0 {
        lemma_region_hits_end(pm, c, region, n - 1);
    }
}

/// Summed over a region, the hits of the chosen placements are the cells
/// they land there.
pub proof fn lemma_region_landed(pm: Seq<Seq<(usize, usize, Bitboard)>>, c: Seq<int>, d: int, region: Bitboard)
    requires
        0 <= d <= pm.len(),
    ensures
        region_hits(pm, c, d, region, 256) == landed_sum(pm, c, d, region),
    decreases pm.len() - d,
{
    if d < pm.len() {
        lemma_region_landed(pm, c, d + 1, region);
        lemma_region_hits_step(pm, c, d, region, 256);
    } else {
        lemma_region_hits_end(pm, c, region, 256);
    }
}

proof fn lemma_value_below_step(b: Board, region: Bitboard, v: int, n: int)
    requires
        0 <= n,
    ensures
        value_below(b, region, v + 1, n) == value_below(b, region, v, n) + v * count_where(covered_with(b, region, v), n),
    decreases n,
{
    if n > 0 {
        lemma_value_below_step(b, region, v, n - 1);
        assert(v * count_where(covered_with(b, region, v), n) == v * count_where(covered_with(b, region, v), n - 1)
            + v * (if covered_with(b, region, v)(n - 1) { 1int } else { 0int })) by (nonlinear_arith)
            requires
                count_where(covered_with(b, region, v), n) == count_where(covered_with(b, region, v), n - 1)
                    + (if covered_with(b, region, v)(n - 1) { 1int } else { 0int }),
        ;
        let hit = covered_with(b, region, v)(n - 1);
        assert(hit == (region.bit(n - 1) && b.valid(n - 1) && b.cell(n - 1) == v));
        assert(v * (if hit { 1int } else { 0int }) == if hit { v } else { 0 });
        let here1 = if region.bit(n - 1) && b.valid(n - 1) && b.cell(n - 1) < v + 1 { b.cell(n - 1) } else { 0 };
        let here0 = if region.bit(n - 1) && b.valid(n - 1) && b.cell(n - 1) < v { b.cell(n - 1) } else { 0 };
        assert(here1 == here0 + if hit { v } else { 0 });
        assert(value_below(b, region, v + 1, n) == value_below(b, region, v + 1, n - 1) + here1);
        assert(value_below(b, region, v, n) == value_below(b, region, v, n - 1) + here0);
    } else {
        assert(count_where(covered_with(b, region, v), n) == 0);
        assert(v * 0 == 0);
    }
}

proof fn lemma_value_below_one(b: Board, region: Bitboard, n: int)
    requires
        b.wf(),
        0 <= n,
    ensures
        value_below(b, region, 1, n) == 0,
    decreases n,
{
    b.lemma_wf();
    if n > 0 {
        lemma_value_below_one(b, region, n - 1);
    }
}

/// The weighted counts by value are the region's values summed.
pub proof fn lemma_covered_deficit_value(b: Board, region: Bitboard, v: int)
    requires
        b.wf(),
        1 <= v,
    ensures
        covered_deficit(b, region, v) == value_below(b, region, v, 256),
    decreases v,
{
    if v == 1 {
        lemma_value_below_one(b, region, 256);
    } else {
        lemma_covered_deficit_value(b, region, v - 1);
        lemma_value_below_step(b, region, v - 1, 256);
    }
}

/// Over the cells of a region below `n`, a finishing choice brings each
/// cell's value and whole turns of M.
pub proof fn lemma_region_turns(b: Board, pm: Seq<Seq<(usize, usize, Bitboard)>>, c: Seq<int>, d: int, region: Bitboard, n: int)
    requires
        b.wf(),
        finishes(b, pm, c, d),
        0 <= n <= 256,
        forall|i: int| 0 <= i < 256 && #[trigger] region.bit(i) ==> b.valid(i) || chosen_hits(pm, c, d, i) == 0,
    ensures
        region_hits(pm, c, d, region, n) >= value_below(b, region, b.modulus(), n),
        (region_hits(pm, c, d, region, n) - value_below(b, region, b.modulus(), n)) % b.modulus() == 0,
    decreases n,
{
    b.lemma_wf();
    let m = b.modulus();
    if n > 0 {
        lemma_region_turns(b, pm, c, d, region, n - 1);
        let i = n - 1;
        let before = region_hits(pm, c, d, region, i) - value_below(b, region, m, i);
        let step = (if region.bit(i) { chosen_hits(pm, c, d, i) } else { 0 }) - (if region.bit(i) && b.valid(i)
            && b.cell(i) < m { b.cell(i) } else { 0 });
        assert(step >= 0 && step % m == 0) by {
            if region.bit(i) && b.valid(i) {
                lemma_cell_takes_turns(b, pm, c, d, i);
            } else {
                vstd::arithmetic::div_mod::lemma_small_mod(0, m as nat);
            }
        }
        vstd::arithmetic::div_mod::lemma_add_mod_noop(before, step, m);
        vstd::arithmetic::div_mod::lemma_small_mod(0, m as nat);
        assert(region_hits(pm, c, d, region, n) - value_below(b, region, m, n) == before + step);
    } else {
        vstd::arithmetic::div_mod::lemma_small_mod(0, m as nat);
    }
}

/// Cells of the pieces from `d` on.
pub open spec fn cells_from(sp: Seq<Piece>, d: int) -> int
    decreases sp.len() - d,
{
    if d < 0 || d >= sp.len() {
        0
    } else {
        cells_from(sp, d + 1) + sp[d].cells().count()
    }
}

/// Placement `pl` is piece `p` moved to its anchor, within board `b`.
pub open spec fn places(b: Board, p: Piece, pl: (usize, usize, Bitboard)) -> bool {
    &&& placement_fits(b, p, pl.0 as int, pl.1 as int)
    &&& shifted(pl.2, p.cells(), 15 * pl.0 + pl.1)
}

/// A placement of a piece covers as many board cells as the piece has, and
/// only board cells.
pub proof fn lemma_placed_cells(b: Board, p: Piece, pl: (usize, usize, Bitboard))
    requires
        b.wf(),
        p.wf(),
        places(b, p, pl),
    ensures
        count_where(|i: int| pl.2.bit(i), 256) == p.cells().count(),
        forall|i: int| 0 <= i < 256 && #[trigger] pl.2.bit(i) ==> b.valid(i),
        forall|i: int| 0 <= i < 256 ==> #[trigger] pl.2.bit(i) == covers(p, pl.0 as int, pl.1 as int, i),
{
    lemma_placement_in_board(b, p, pl.0 as int, pl.1 as int, pl.2);
    lemma_placement_covers(b, p, pl.0 as int, pl.1 as int);
    lemma_count_where_ext(|i: int| pl.2.bit(i), |i: int| covers(p, pl.0 as int, pl.1 as int, i), 256);
}

/// Chosen placements within the board bring no hits to cells off it.
pub proof fn lemma_hits_off_board(b: Board, pm: Seq<Seq<(usize, usize, Bitboard)>>, c: Seq<int>, d: int, i: int)
    requires
        0 <= d,
        forall|k: int, j: int|
            d <= k < pm.len() && 0 <= j < 256 && #[trigger] pm[k][c[k]].2.bit(j) ==> b.valid(j),
        !b.valid(i),
    ensures
        chosen_hits(pm, c, d, i) == 0,
    decreases pm.len() - d,
{
    if d < pm.len() {
        lemma_hits_off_board(b, pm, c, d + 1, i);
        if 0 <= i < 256 {
            assert(!pm[d][c[d]].2.bit(i));
        }
    }
}

/// Every cell of a placement lands either in a region or in its complement.
proof fn lemma_landed_halves(placed: Bitboard, region: Bitboard)
    ensures
        landed(placed, region) + landed(placed, region.complement()) == count_where(|i: int| placed.bit(i), 256),
{
    region.lemma_complement();
    lemma_count_where_split(
        |i: int| placed.bit(i) && region.bit(i),
        |i: int| placed.bit(i) && region.complement().bit(i),
        |i: int| placed.bit(i),
        256,
    );
}

/// The chosen placements of pieces `d..` land, in a region and its
/// complement together, the cells of those pieces.
pub proof fn lemma_landed_total(
    b: Board,
    sp: Seq<Piece>,
    pm: Seq<Seq<(usize, usize, Bitboard)>>,
    c: Seq<int>,
    d: int,
    region: Bitboard,
)
    requires
        b.wf(),
        0 <= d <= pm.len(),
        pm.len() == sp.len(),
        forall|k: int| 0 <= k < sp.len() ==> #[trigger] sp[k].wf(),
        forall|k: int| d <= k < pm.len() ==> #[trigger] places(b, sp[k], pm[k][c[k]]),
    ensures
        landed_sum(pm, c, d, region) + landed_sum(pm, c, d, region.complement()) == cells_from(sp, d),
    decreases pm.len() - d,
{
    if d < pm.len() {
        lemma_landed_total(b, sp, pm, c, d + 1, region);
        assert(places(b, sp[d], pm[d][c[d]]));
        lemma_placed_cells(b, sp[d], pm[d][c[d]]);
        lemma_landed_halves(pm[d][c[d]].2, region);
    }
}

/// The values of a region and of its complement make up the board's deficit.
pub proof fn lemma_value_halves(b: Board, region: Bitboard, n: int)
    requires
        b.wf(),
        0 <= n <= 256,
    ensures
        value_below(b, region, b.modulus(), n) + value_below(b, region.complement(), b.modulus(), n) == b.deficit_upto(n),
    decreases n,
{
    b.lemma_wf();
    region.lemma_complement();
    if n > 0 {
        lemma_value_halves(b, region, n - 1);
        assert(region.complement().bit(n - 1) == !region.bit(n - 1));
    }
}

/// The region holding every index of the board's bit range.
pub open spec fn everywhere() -> Bitboard {
    Bitboard::from_limbs(bits::zero()).complement()
}

proof fn lemma_everywhere()
    ensures
        forall|i: int| 0 <= i < 256 ==> #[trigger] everywhere().bit(i),
{
    bits::lemma_zero();
    Bitboard::lemma_from_limbs(bits::zero());
    Bitboard::from_limbs(bits::zero()).lemma_complement();
}

/// The chosen placements of pieces `d..` land their pieces' cells on the
/// board.
proof fn lemma_landed_everywhere(
    b: Board,
    sp: Seq<Piece>,
    pm: Seq<Seq<(usize, usize, Bitboard)>>,
    c: Seq<int>,
    d: int,
)
    requires
        b.wf(),
        0 <= d <= pm.len(),
        pm.len() == sp.len(),
        forall|k: int| 0 <= k < sp.len() ==> #[trigger] sp[k].wf(),
        forall|k: int| d <= k < pm.len() ==> #[trigger] places(b, sp[k], pm[k][c[k]]),
    ensures
        landed_sum(pm, c, d, everywhere()) == cells_from(sp, d),
    decreases pm.len() - d,
{
    if d < pm.len() {
        lemma_landed_everywhere(b, sp, pm, c, d + 1);
        let pl = pm[d][c[d]];
        assert(places(b, sp[d], pl));
        lemma_placed_cells(b, sp[d], pl);
        lemma_everywhere();
        lemma_count_where_ext(|i: int| pl.2.bit(i) && everywhere().bit(i), |i: int| pl.2.bit(i), 256);
    }
}

proof fn lemma_region_everywhere(b: Board, pm: Seq<Seq<(usize, usize, Bitboard)>>, c: Seq<int>, d: int, n: int)
    requires
        0 <= n <= 256,
    ensures
        region_hits(pm, c, d, everywhere(), n) - b.deficit_upto(n) == excess_upto(b, pm, c, d, n),
    decreases n,
{
    lemma_everywhere();
    if n > 0 {
        lemma_region_everywhere(b, pm, c, d, n - 1);
    }
}

/// Hits of the chosen placements of pieces `d..` beyond the cell values,
/// summed over the indices below `n`.
pub open spec fn excess_upto(b: Board, pm: Seq<Seq<(usize, usize, Bitboard)>>, c: Seq<int>, d: int, n: int) -> int
    decreases n,
{
    if n <= 0 {
        0
    } else {
        excess_upto(b, pm, c, d, n - 1) + (chosen_hits(pm, c, d, n - 1) - b.cell(n - 1))
    }
}

/// Over the whole board, the chosen placements bring the cells of their
/// pieces, which exceed the deficit by the excess.
pub proof fn lemma_excess_total(
    b: Board,
    sp: Seq<Piece>,
    pm: Seq<Seq<(usize, usize, Bitboard)>>,
    c: Seq<int>,
    d: int,
)
    requires
        b.wf(),
        0 <= d <= pm.len(),
        pm.len() == sp.len(),
        forall|k: int| 0 <= k < sp.len() ==> #[trigger] sp[k].wf(),
        forall|k: int| d <= k < pm.len() ==> #[trigger] places(b, sp[k], pm[k][c[k]]),
    ensures
        excess_upto(b, pm, c, d, 256) == cells_from(sp, d) - b.deficit(),
{
    lemma_region_everywhere(b, pm, c, d, 256);
    lemma_region_landed(pm, c, d, everywhere());
    lemma_landed_everywhere(b, sp, pm, c, d);
}

} // verus!
