//! Rejects states whose remaining pieces cannot cover the board's deficit.
//!
//! A connected multi-cell piece covering an isolated nonzero cell must also touch
//! a currently zero neighbor. Each distinct zero neighbor touched consumes at
//! least one of the `(remaining cells - deficit) / M` future zero-hit cycles.

use vstd::prelude::*;
use crate::model::bitboard::Bitboard;
use crate::bits;
use crate::model::board::{Board, in_board};
use crate::model::piece::Piece;
use crate::solver::backtrack::{count_where, is_solution};
use crate::solver::counting::{lemma_remaining_cells_cover, pieces_from};

verus! {

/// Cells of the pieces placed from position `from` of `order` on.
pub open spec fn suffix_cells(pieces: Seq<Piece>, order: Seq<usize>, from: int) -> int
    decreases order.len() - from,
{
    if from < 0 || from >= order.len() {
        0
    } else {
        suffix_cells(pieces, order, from + 1) + pieces[order[from] as int].cells().count()
    }
}

/// Pieces with exactly one cell placed from position `from` of `order` on.
pub open spec fn suffix_single_cells(pieces: Seq<Piece>, order: Seq<usize>, from: int) -> int
    decreases order.len() - from,
{
    if from < 0 || from >= order.len() {
        0
    } else {
        suffix_single_cells(pieces, order, from + 1) + if pieces[order[from] as int].cells().count() == 1 {
            1int
        } else {
            0int
        }
    }
}

/// The cells of `shape` that are in `r` or next to a cell of `r` (the
/// bitboard neighbours: one index apart or one stride apart).
pub open spec fn grown(shape: Bitboard, r: spec_fn(int) -> bool) -> spec_fn(int) -> bool {
    |i: int|
        shape.bit(i) && (r(i) || (i >= 1 && r(i - 1)) || r(i + 1) || (i >= 15 && r(i - 15)) || r(
            i + 15,
        ))
}

/// The cells of `shape` reached from `seed` in `k` growth steps.
pub open spec fn reach(shape: Bitboard, seed: int, k: nat) -> spec_fn(int) -> bool
    decreases k,
{
    if k == 0 {
        |i: int| 0 <= i < 256 && i == seed
    } else {
        grown(shape, reach(shape, seed, (k - 1) as nat))
    }
}

/// Every cell of `shape` is reached from its lowest cell.
pub open spec fn is_connected(shape: Bitboard, seed: int) -> bool {
    forall|i: int| 0 <= i < 256 ==> (#[trigger] shape.bit(i) == (reach(shape, seed, 256))(i))
}

/// The lowest set index of a nonempty shape.
pub open spec fn lowest_of(shape: Bitboard) -> int {
    choose|s: int| 0 <= s < 256 && shape.bit(s) && forall|j: int| 0 <= j < s ==> !#[trigger] shape.bit(j)
}

/// A shape is connected when growth from its lowest cell reaches every cell.
#[verifier::opaque]
pub open spec fn shape_connected(shape: Bitboard) -> bool {
    is_connected(shape, lowest_of(shape))
}

/// Once growth stops adding cells it never adds any again.
proof fn lemma_reach_stable(shape: Bitboard, seed: int, k: nat, j: nat)
    requires
        k <= j,
        forall|i: int| #[trigger] (reach(shape, seed, k + 1))(i) == (reach(shape, seed, k))(i),
    ensures
        forall|i: int| #[trigger] (reach(shape, seed, j))(i) == (reach(shape, seed, k))(i),
    decreases j - k,
{
    if j > k {
        lemma_reach_stable(shape, seed, k, (j - 1) as nat);
        assert forall|i: int| #[trigger] (reach(shape, seed, j))(i) == (reach(shape, seed, k))(i) by {
            let prev = reach(shape, seed, (j - 1) as nat);
            let base = reach(shape, seed, k);
            assert(prev(i) == base(i));
            assert(prev(i - 1) == base(i - 1));
            assert(prev(i + 1) == base(i + 1));
            assert(prev(i - 15) == base(i - 15));
            assert(prev(i + 15) == base(i + 15));
            assert((reach(shape, seed, j))(i) == (grown(shape, prev))(i));
            assert((reach(shape, seed, k + 1))(i) == (grown(shape, base))(i));
        }
    }
}

/// Growth never leaves the board indices.
proof fn lemma_reach_in_range(shape: Bitboard, seed: int, k: nat, j: int)
    requires
        !(0 <= j < 256),
    ensures
        !(reach(shape, seed, k))(j),
{
    if k > 0 {
        assert(!shape.bit(j));
    }
}

/// One exec growth step computes the next reach set.
proof fn lemma_grow_step(shape: Bitboard, seed: int, k: nat, reached: Bitboard, expanded: Bitboard)
    requires
        forall|i: int| 0 <= i < 256 ==> #[trigger] reached.bit(i) == (reach(shape, seed, k))(i),
        forall|i: int|
            0 <= i < 256 ==> #[trigger] expanded.bit(i) == ((reached.bit(i) || (i >= 1 && reached.bit(i - 1))
                || reached.bit(i + 1) || (i >= 15 && reached.bit(i - 15)) || reached.bit(i + 15))
                && shape.bit(i)),
    ensures
        forall|i: int| 0 <= i < 256 ==> #[trigger] expanded.bit(i) == (reach(shape, seed, k + 1))(i),
{
    let prev = reach(shape, seed, k);
    assert forall|i: int| 0 <= i < 256 implies #[trigger] expanded.bit(i) == (reach(shape, seed, k + 1))(i) by {
        assert(reached.bit(i) == prev(i));
        if i >= 1 {
            assert(reached.bit(i - 1) == prev(i - 1));
        }
        if i + 1 < 256 {
            assert(reached.bit(i + 1) == prev(i + 1));
        } else {
            lemma_reach_in_range(shape, seed, k, i + 1);
        }
        if i >= 15 {
            assert(reached.bit(i - 15) == prev(i - 15));
        }
        if i + 15 < 256 {
            assert(reached.bit(i + 15) == prev(i + 15));
        } else {
            lemma_reach_in_range(shape, seed, k, i + 15);
        }
    }
}

/// When growth reaches a fixed point its set is the full reach set.
proof fn lemma_fixed_point(shape: Bitboard, seed: int, k: nat, reached: Bitboard)
    requires
        k <= 256,
        forall|i: int| 0 <= i < 256 ==> #[trigger] reached.bit(i) == (reach(shape, seed, k))(i),
        forall|i: int| 0 <= i < 256 ==> #[trigger] reached.bit(i) == (reach(shape, seed, k + 1))(i),
    ensures
        forall|i: int| 0 <= i < 256 ==> #[trigger] reached.bit(i) == (reach(shape, seed, 256))(i),
{
    assert forall|i: int| #[trigger] (reach(shape, seed, k + 1))(i) == (reach(shape, seed, k))(i) by {
        if 0 <= i < 256 {
            assert(reached.bit(i) == (reach(shape, seed, k))(i));
        } else {
            lemma_reach_in_range(shape, seed, k, i);
            lemma_reach_in_range(shape, seed, k + 1, i);
        }
    }
    lemma_reach_stable(shape, seed, k, 256);
}

/// Comparing the reached set with the shape decides connectivity.
proof fn lemma_connected_iff(shape: Bitboard, seed: int, reached: Bitboard)
    requires
        forall|i: int| 0 <= i < 256 ==> #[trigger] reached.bit(i) == (reach(shape, seed, 256))(i),
    ensures
        (reached == shape) == is_connected(shape, seed),
{
    if is_connected(shape, seed) {
        assert forall|i: int| 0 <= i < 256 implies #[trigger] reached.bit(i) == shape.bit(i) by {
            assert(shape.bit(i) == (reach(shape, seed, 256))(i));
        }
        Bitboard::lemma_bits_ext(reached, shape);
    }
    if reached == shape {
        assert forall|i: int| 0 <= i < 256 implies (#[trigger] shape.bit(i) == (reach(shape, seed, 256))(i)) by {
            assert(reached.bit(i) == shape.bit(i));
        }
    }
}

/// `reached` with its neighbours added, kept within `shape`.
fn grow_once(reached: Bitboard, shape: Bitboard) -> (r: Bitboard)
    ensures
        forall|i: int|
            0 <= i < 256 ==> #[trigger] r.bit(i) == ((reached.bit(i) || (i >= 1 && reached.bit(i - 1))
                || reached.bit(i + 1) || (i >= 15 && reached.bit(i - 15)) || reached.bit(i + 15))
                && shape.bit(i)),
{
    let a = reached.or(&reached.shl_1());
    let b = a.or(&reached.shr_1());
    let c = b.or(&reached.shl_stride());
    let d = c.or(&reached.shr_stride());
    d.and(&shape)
}

/// Whether a shape is connected through its bitboard neighbours.
pub fn shape_is_connected(shape: Bitboard) -> (r: bool)
    requires
        exists|i: int| 0 <= i < 256 && #[trigger] shape.bit(i),
    ensures
        r == shape_connected(shape),
{
    let seed = shape.lowest_set_bit();
    proof {
        reveal(shape_connected);
        if seed >= 256 {
            let w = choose|i: int| 0 <= i < 256 && #[trigger] shape.bit(i);
            assert(!shape.bit(w));
        }
        let s = lowest_of(shape);
        assert(0 <= seed < 256 && shape.bit(seed as int) && forall|j: int| 0 <= j < seed ==> !#[trigger] shape.bit(j));
        if s != seed {
            if s < seed {
                assert(!shape.bit(s));
            } else {
                assert(!shape.bit(seed as int));
            }
        }
    }
    let ghost sd = seed as int;
    let mut reached = Bitboard::from_bit(seed);
    let mut step: u32 = 0;
    while step < 256
        invariant
            0 <= step <= 256,
            sd == lowest_of(shape),
            forall|i: int| 0 <= i < 256 ==> #[trigger] reached.bit(i) == (reach(shape, sd, step as nat))(i),
        decreases 256 - step,
    {
        let expanded = grow_once(reached, shape);
        proof {
            lemma_grow_step(shape, sd, step as nat, reached, expanded);
        }
        if expanded == reached {
            proof {
                reveal(shape_connected);
                lemma_fixed_point(shape, sd, step as nat, reached);
                lemma_connected_iff(shape, sd, reached);
            }
            return reached == shape;
        }
        reached = expanded;
        step = step + 1;
    }
    proof {
        reveal(shape_connected);
        lemma_connected_iff(shape, sd, reached);
    }
    reached == shape
}

/// Mask of the cells of an `h` by `w` board.
fn board_cells_mask(h: u8, w: u8) -> (r: Bitboard)
    requires
        w <= 15,
        15 * h + w <= 271,
    ensures
        forall|i: int| 0 <= i < 256 ==> #[trigger] r.bit(i) == in_board(h as int, w as int, i),
{
    let bh = h as usize;
    let bw = w as usize;
    let mut mask = Bitboard::zero();
    let mut row: usize = 0;
    while row < bh
        invariant
            bh == h,
            bw == w,
            w <= 15,
            15 * h + w <= 271,
            0 <= row <= bh,
            forall|i: int| 0 <= i < 256 ==> #[trigger] mask.bit(i) == (in_board(h as int, w as int, i) && i / 15 < row),
        decreases bh - row,
    {
        let mut column: usize = 0;
        while column < bw
            invariant
                bh == h,
                bw == w,
                w <= 15,
                15 * h + w <= 271,
                0 <= row < bh,
                0 <= column <= bw,
                forall|i: int|
                    0 <= i < 256 ==> #[trigger] mask.bit(i) == (in_board(h as int, w as int, i) && (i / 15 < row || (i
                        / 15 == row && i % 15 < column))),
            decreases bw - column,
        {
            let ghost idx: int = 15 * row + column;
            proof {
                bits::lemma_stride_index(row as int, column as int);
            }
            let ghost before = mask;
            mask.set_bit((row * 15 + column) as u32);
            proof {
                assert forall|i: int| 0 <= i < 256 implies #[trigger] mask.bit(i) == (in_board(h as int, w as int, i)
                    && (i / 15 < row || (i / 15 == row && i % 15 < column + 1))) by {
                    bits::lemma_stride_split(i);
                    assert(before.bit(i) == (in_board(h as int, w as int, i) && (i / 15 < row || (i / 15 == row
                        && i % 15 < column))));
                    if i == idx {
                        assert(i / 15 == row && i % 15 == column);
                    } else if i / 15 == row && i % 15 == column {
                        assert(i == idx);
                    }
                }
            }
            column = column + 1;
        }
        row = row + 1;
    }
    mask
}

/// 1 when `b` holds, else 0.
pub open spec fn one(b: bool) -> int {
    if b {
        1
    } else {
        0
    }
}

/// `2^b` for the bit positions used here.
pub open spec fn two_to(b: int) -> int {
    if b <= 0 {
        1
    } else if b == 1 {
        2
    } else if b == 2 {
        4
    } else if b == 3 {
        8
    } else {
        16
    }
}

/// Bit `b` of the small number `v`.
pub open spec fn bitof(v: int, b: int) -> bool {
    (v / two_to(b)) % 2 == 1
}

/// Value of the isolated cell at index `j`; 0 at any other index.
pub open spec fn isolated_value(board: Board, isolated: Bitboard, j: int) -> int {
    if isolated.bit(j) && board.valid(j) && board.cell(j) != 0 {
        board.cell(j)
    } else {
        0
    }
}

/// Sum of the isolated values of the four bitboard neighbours of `i`.
pub open spec fn neighbor_score(board: Board, isolated: Bitboard, i: int) -> int {
    (if i >= 1 {
        isolated_value(board, isolated, i - 1)
    } else {
        0
    }) + isolated_value(board, isolated, i + 1) + (if i >= 15 {
        isolated_value(board, isolated, i - 15)
    } else {
        0
    }) + isolated_value(board, isolated, i + 15)
}

/// A zero cell of the board next to an isolated cell.
pub open spec fn is_candidate(board: Board, isolated: Bitboard, valid_mask: Bitboard, i: int) -> bool {
    &&& (i >= 1 && isolated.bit(i - 1)) || isolated.bit(i + 1) || (i >= 15 && isolated.bit(i - 15))
        || isolated.bit(i + 15)
    &&& valid_mask.bit(i)
    &&& board.valid(i)
    &&& board.cell(i) == 0
}

/// Candidates whose neighbour score is `w`.
pub open spec fn scored(board: Board, isolated: Bitboard, valid_mask: Bitboard, w: int) -> spec_fn(int) -> bool {
    |i: int| is_candidate(board, isolated, valid_mask, i) && neighbor_score(board, isolated, i) == w
}

/// Greedy upper bound on the deficit `budget` candidates can cover, taking
/// candidates by neighbour score from `w` down.
pub open spec fn greedy_cover(board: Board, isolated: Bitboard, valid_mask: Bitboard, w: int, budget: int) -> int
    decreases w,
{
    if w <= 0 || budget <= 0 {
        0
    } else {
        let c = count_where(scored(board, isolated, valid_mask, w), 256) as int;
        let used = if budget < c {
            budget
        } else {
            c
        };
        used * w + greedy_cover(board, isolated, valid_mask, w - 1, budget - used)
    }
}

/// Value of the three deficit planes at a cell.
pub open spec fn value3(p: [Bitboard; 3], i: int) -> int {
    one(p[0].bit(i)) + 2 * one(p[1].bit(i)) + 4 * one(p[2].bit(i))
}

/// Value of the five score planes at a cell.
pub open spec fn value5(p: [Bitboard; 5], i: int) -> int {
    one(p[0].bit(i)) + 2 * one(p[1].bit(i)) + 4 * one(p[2].bit(i)) + 8 * one(p[3].bit(i)) + 16 * one(
        p[4].bit(i),
    )
}

/// A ripple-carry step adds a 3-bit addend to a 5-bit accumulator.
proof fn lemma_ripple(a0: bool, a1: bool, a2: bool, a3: bool, a4: bool, b0: bool, b1: bool, b2: bool)
    requires
        one(a0) + 2 * one(a1) + 4 * one(a2) + 8 * one(a3) + 16 * one(a4) + one(b0) + 2 * one(b1) + 4 * one(b2)
            < 32,
    ensures
        ({
            let s0 = a0 != b0;
            let c1 = a0 && b0;
            let s1 = (a1 != b1) != c1;
            let c2 = (a1 && b1) || (a1 && c1) || (b1 && c1);
            let s2 = (a2 != b2) != c2;
            let c3 = (a2 && b2) || (a2 && c2) || (b2 && c2);
            let s3 = a3 != c3;
            let c4 = a3 && c3;
            let s4 = a4 != c4;
            one(s0) + 2 * one(s1) + 4 * one(s2) + 8 * one(s3) + 16 * one(s4) == one(a0) + 2 * one(a1) + 4 * one(
                a2,
            ) + 8 * one(a3) + 16 * one(a4) + one(b0) + 2 * one(b1) + 4 * one(b2)
        }),
{
}

/// The bits of a 5-bit value are its planes.
proof fn lemma_value5_bits(p: [Bitboard; 5], i: int)
    ensures
        0 <= value5(p, i) < 32,
        forall|b: int| 0 <= b < 5 ==> #[trigger] bitof(value5(p, i), b) == p[b].bit(i),
{
    let v = value5(p, i);
    assert(bitof(v, 0) == p[0].bit(i));
    assert(bitof(v, 1) == p[1].bit(i));
    assert(bitof(v, 2) == p[2].bit(i));
    assert(bitof(v, 3) == p[3].bit(i));
    assert(bitof(v, 4) == p[4].bit(i));
}

/// Two 5-bit values with the same bits are equal.
proof fn lemma_bits_equal(x: int, w: int)
    requires
        0 <= x < 32,
        0 <= w < 32,
        forall|b: int| 0 <= b < 5 ==> #[trigger] bitof(x, b) == bitof(w, b),
    ensures
        x == w,
{
    assert(bitof(x, 0) == bitof(w, 0));
    assert(bitof(x, 1) == bitof(w, 1));
    assert(bitof(x, 2) == bitof(w, 2));
    assert(bitof(x, 3) == bitof(w, 3));
    assert(bitof(x, 4) == bitof(w, 4));
    assert(x == one(bitof(x, 0)) + 2 * one(bitof(x, 1)) + 4 * one(bitof(x, 2)) + 8 * one(bitof(x, 3)) + 16
        * one(bitof(x, 4)));
    assert(w == one(bitof(w, 0)) + 2 * one(bitof(w, 1)) + 4 * one(bitof(w, 2)) + 8 * one(bitof(w, 3)) + 16
        * one(bitof(w, 4)));
}

/// Whether bit `b` of a small exec number is set, as the spec reads it.
proof fn lemma_small_bit(d: u32, b: u32)
    requires
        d < 32,
        b < 5,
    ensures
        ((d & (1u32 << b)) != 0) == bitof(d as int, b as int),
{
    if b == 0 {
        assert(((d & (1u32 << 0u32)) != 0) == (d % 2 == 1)) by (bit_vector)
            requires
                d < 32,
        ;
    } else if b == 1 {
        assert(((d & (1u32 << 1u32)) != 0) == ((d / 2) % 2 == 1)) by (bit_vector)
            requires
                d < 32,
        ;
    } else if b == 2 {
        assert(((d & (1u32 << 2u32)) != 0) == ((d / 4) % 2 == 1)) by (bit_vector)
            requires
                d < 32,
        ;
    } else if b == 3 {
        assert(((d & (1u32 << 3u32)) != 0) == ((d / 8) % 2 == 1)) by (bit_vector)
            requires
                d < 32,
        ;
    } else {
        assert(((d & (1u32 << 4u32)) != 0) == ((d / 16) % 2 == 1)) by (bit_vector)
            requires
                d < 32,
        ;
    }
}

/// Upper bound on the isolated deficit that `zero_hit_budget` distinct zero
/// neighbours can touch: score each zero neighbour of an isolated cell by
/// the deficits of the isolated cells around it, then take the best
/// `zero_hit_budget` scores. Scores are summed in bit planes, one ripple-carry
/// addition per direction.
pub fn singleton_neighbor_cover_upper_bound<const MODULUS: usize>(
    board: &Board,
    isolated: Bitboard,
    valid_mask: Bitboard,
    zero_hit_budget: u32,
) -> (r: u32)
    requires
        board.wf(),
        MODULUS == board.modulus(),
        zero_hit_budget <= 0x0fff_ffff,
    ensures
        r == greedy_cover(*board, isolated, valid_mask, 16, zero_hit_budget as int),
{
    proof {
        board.lemma_wf();
    }
    let near = isolated.shl_1().or(&isolated.shr_1()).or(&isolated.shl_stride()).or(&isolated.shr_stride());
    let candidates = near.and(&valid_mask).and(&board.plane(0));
    let mut deficit_bits = [Bitboard::zero(), Bitboard::zero(), Bitboard::zero()];
    let mut deficit: usize = 1;
    while deficit < MODULUS
        invariant
            board.wf(),
            MODULUS == board.modulus(),
            2 <= MODULUS <= 5,
            1 <= deficit <= MODULUS,
            forall|i: int| #[trigger] board.valid(i) ==> 0 <= board.cell(i) < board.modulus(),
            forall|b: int, i: int|
                0 <= b < 3 && 0 <= i < 256 ==> #[trigger] deficit_bits[b].bit(i) == (isolated.bit(i)
                    && board.valid(i) && 1 <= board.cell(i) < deficit && bitof(board.cell(i), b)),
        decreases MODULUS - deficit,
    {
        let cells = isolated.and(&board.plane(deficit as u8));
        let mut bit: u32 = 0;
        while bit < 3
            invariant
                board.wf(),
                1 <= deficit < MODULUS,
                MODULUS <= 5,
                0 <= bit <= 3,
                forall|i: int| 0 <= i < 256 ==> #[trigger] cells.bit(i) == (isolated.bit(i) && board.valid(i)
                    && board.cell(i) == deficit),
                forall|b: int, i: int|
                    0 <= b < 3 && 0 <= i < 256 ==> #[trigger] deficit_bits[b].bit(i) == (isolated.bit(i)
                        && board.valid(i) && (1 <= board.cell(i) < deficit || (board.cell(i) == deficit && b
                        < bit)) && bitof(board.cell(i), b)),
            decreases 3 - bit,
        {
            proof {
                lemma_small_bit(deficit as u32, bit);
            }
            if (deficit as u32) & (1u32 << bit) != 0 {
                deficit_bits[bit as usize] = deficit_bits[bit as usize].or(&cells);
            }
            bit = bit + 1;
        }
        deficit = deficit + 1;
    }
    let mut score_bits = [Bitboard::zero(), Bitboard::zero(), Bitboard::zero(), Bitboard::zero(), Bitboard::zero()];
    let mut direction: usize = 0;
    while direction < 4
        invariant
            board.wf(),
            2 <= board.modulus() <= 5,
            forall|i: int| #[trigger] board.valid(i) ==> 0 <= board.cell(i) < board.modulus(),
            0 <= direction <= 4,
            forall|b: int, i: int|
                0 <= b < 3 && 0 <= i < 256 ==> #[trigger] deficit_bits[b].bit(i) == (isolated.bit(i)
                    && board.valid(i) && 1 <= board.cell(i) < board.modulus() && bitof(board.cell(i), b)),
            forall|i: int|
                0 <= i < 256 ==> #[trigger] value5(score_bits, i) == partial_score(*board, isolated, i, direction as int),
        decreases 4 - direction,
    {
        let addend = if direction == 0 {
            [deficit_bits[0].shl_1(), deficit_bits[1].shl_1(), deficit_bits[2].shl_1()]
        } else if direction == 1 {
            [deficit_bits[0].shr_1(), deficit_bits[1].shr_1(), deficit_bits[2].shr_1()]
        } else if direction == 2 {
            [deficit_bits[0].shl_stride(), deficit_bits[1].shl_stride(), deficit_bits[2].shl_stride()]
        } else {
            [deficit_bits[0].shr_stride(), deficit_bits[1].shr_stride(), deficit_bits[2].shr_stride()]
        };
        proof {
            assert forall|i: int| 0 <= i < 256 implies #[trigger] value3(addend, i) == partial_score(
                *board,
                isolated,
                i,
                direction + 1,
            ) - partial_score(*board, isolated, i, direction as int) by {
                let j = if direction == 0 {
                    i - 1
                } else if direction == 1 {
                    i + 1
                } else if direction == 2 {
                    i - 15
                } else {
                    i + 15
                };
                if 0 <= j < 256 && (direction != 0 || i >= 1) && (direction != 2 || i >= 15) {
                    assert(addend[0].bit(i) == deficit_bits[0].bit(j));
                    assert(addend[1].bit(i) == deficit_bits[1].bit(j));
                    assert(addend[2].bit(i) == deficit_bits[2].bit(j));
                    if isolated.bit(j) && board.valid(j) && board.cell(j) != 0 {
                        lemma_value3_bits(board.cell(j));
                    }
                } else {
                    assert(!addend[0].bit(i));
                    assert(!addend[1].bit(i));
                    assert(!addend[2].bit(i));
                }
            }
            assert forall|i: int| 0 <= i < 256 implies value5(score_bits, i) + #[trigger] value3(addend, i)
                < 32 by {
                lemma_partial_bound(*board, isolated, i, direction + 1);
            }
        }
        score_bits = add_planes(score_bits, addend);
        direction = direction + 1;
    }
    let mut remaining_budget = zero_hit_budget;
    let mut maximum_cover: u32 = 0;
    let mut weight: u32 = 16;
    while weight >= 1
        invariant
            0 <= weight <= 16,
            remaining_budget <= zero_hit_budget <= 0x0fff_ffff,
            maximum_cover <= 16 * (zero_hit_budget - remaining_budget),
            remaining_budget > 0 || weight == 16 || true,
            forall|i: int|
                0 <= i < 256 ==> #[trigger] value5(score_bits, i) == neighbor_score(*board, isolated, i),
            forall|i: int|
                0 <= i < 256 ==> #[trigger] candidates.bit(i) == ((( i >= 1 && isolated.bit(i - 1))
                    || isolated.bit(i + 1) || (i >= 15 && isolated.bit(i - 15)) || isolated.bit(i + 15))
                    && valid_mask.bit(i) && (board.valid(i) && board.cell(i) == 0)),
            maximum_cover + greedy_cover(*board, isolated, valid_mask, weight as int, remaining_budget as int)
                == greedy_cover(*board, isolated, valid_mask, 16, zero_hit_budget as int),
        decreases weight,
    {
        let mut matches = candidates;
        let mut bit: u32 = 0;
        while bit < 5
            invariant
                1 <= weight <= 16,
                0 <= bit <= 5,
                forall|i: int|
                    0 <= i < 256 ==> #[trigger] matches.bit(i) == (candidates.bit(i) && forall|b: int|
                        0 <= b < bit ==> #[trigger] score_bits[b].bit(i) == bitof(weight as int, b)),
            decreases 5 - bit,
        {
            proof {
                lemma_small_bit(weight, bit);
            }
            let plane = if weight & (1u32 << bit) != 0 {
                score_bits[bit as usize]
            } else {
                score_bits[bit as usize].not()
            };
            let ghost before = matches;
            matches = matches.and(&plane);
            proof {
                assert forall|i: int| 0 <= i < 256 implies #[trigger] matches.bit(i) == (candidates.bit(i)
                    && forall|b: int| 0 <= b < bit + 1 ==> #[trigger] score_bits[b].bit(i) == bitof(
                    weight as int,
                    b,
                )) by {
                    assert(before.bit(i) == (candidates.bit(i) && forall|b: int|
                        0 <= b < bit ==> #[trigger] score_bits[b].bit(i) == bitof(weight as int, b)));
                }
            }
            bit = bit + 1;
        }
        proof {
            assert forall|i: int| 0 <= i < 256 implies #[trigger] matches.bit(i) == (scored(
                *board,
                isolated,
                valid_mask,
                weight as int,
            ))(i) by {
                lemma_value5_bits(score_bits, i);
                if matches.bit(i) {
                    lemma_bits_equal(value5(score_bits, i), weight as int);
                }
                if (scored(*board, isolated, valid_mask, weight as int))(i) {
                    assert(value5(score_bits, i) == weight);
                }
            }
            crate::solver::backtrack::lemma_count_bits(matches, scored(*board, isolated, valid_mask, weight as int), 256);
        }
        let count = matches.count_ones();
        let used = if remaining_budget < count {
            remaining_budget
        } else {
            count
        };
        proof {
            if remaining_budget > 0 {
                assert(greedy_cover(*board, isolated, valid_mask, weight as int, remaining_budget as int) == used
                    * weight + greedy_cover(*board, isolated, valid_mask, weight - 1, remaining_budget - used));
            }
            assert(greedy_cover(*board, isolated, valid_mask, weight - 1, 0) == 0);
            assert(used * weight <= 16 * used) by (nonlinear_arith)
                requires
                    weight <= 16,
            ;
            assert(16 * (zero_hit_budget - remaining_budget) + 16 * used == 16 * (zero_hit_budget - (
            remaining_budget - used))) by (nonlinear_arith);
        }
        maximum_cover = maximum_cover + used * weight;
        remaining_budget = remaining_budget - used;
        if remaining_budget == 0 {
            return maximum_cover;
        }
        weight = weight - 1;
    }
    maximum_cover
}

/// The low three bits of a small value add up to it.
proof fn lemma_value3_bits(v: int)
    requires
        0 <= v < 8,
    ensures
        one(bitof(v, 0)) + 2 * one(bitof(v, 1)) + 4 * one(bitof(v, 2)) == v,
{
}

/// A partial score stays below 32.
proof fn lemma_partial_bound(board: Board, isolated: Bitboard, i: int, k: int)
    requires
        board.wf(),
    ensures
        0 <= partial_score(board, isolated, i, k) <= 16,
{
    board.lemma_wf();
    assert(0 <= isolated_value(board, isolated, i - 1) <= 4);
    assert(0 <= isolated_value(board, isolated, i + 1) <= 4);
    assert(0 <= isolated_value(board, isolated, i - 15) <= 4);
    assert(0 <= isolated_value(board, isolated, i + 15) <= 4);
}

/// One full-adder step on bit planes: sum and carry.
fn full_add(a: Bitboard, b: Bitboard, c: Bitboard) -> (r: (Bitboard, Bitboard))
    ensures
        forall|i: int| 0 <= i < 256 ==> #[trigger] r.0.bit(i) == ((a.bit(i) != b.bit(i)) != c.bit(i)),
        forall|i: int|
            0 <= i < 256 ==> #[trigger] r.1.bit(i) == ((a.bit(i) && b.bit(i)) || (a.bit(i) && c.bit(i)) || (b.bit(
                i,
            ) && c.bit(i))),
{
    let sum = a.xor(&b).xor(&c);
    let carry = a.and(&b).or(&a.and(&c)).or(&b.and(&c));
    (sum, carry)
}

/// Add the 3-bit planes of `addend` into the 5-bit planes of `score`, cell by cell.
fn add_planes(score: [Bitboard; 5], addend: [Bitboard; 3]) -> (r: [Bitboard; 5])
    requires
        forall|i: int| 0 <= i < 256 ==> value5(score, i) + #[trigger] value3(addend, i) < 32,
    ensures
        forall|i: int| 0 <= i < 256 ==> #[trigger] value5(r, i) == value5(score, i) + value3(addend, i),
{
    let zero = Bitboard::zero();
    let (s0, c1) = full_add(score[0], addend[0], zero);
    let (s1, c2) = full_add(score[1], addend[1], c1);
    let (s2, c3) = full_add(score[2], addend[2], c2);
    let (s3, c4) = full_add(score[3], zero, c3);
    let (s4, _c5) = full_add(score[4], zero, c4);
    let r = [s0, s1, s2, s3, s4];
    proof {
        assert forall|i: int| 0 <= i < 256 implies #[trigger] value5(r, i) == value5(score, i) + value3(addend, i) by {
            assert(value5(score, i) + value3(addend, i) < 32);
            lemma_ripple(
                score[0].bit(i),
                score[1].bit(i),
                score[2].bit(i),
                score[3].bit(i),
                score[4].bit(i),
                addend[0].bit(i),
                addend[1].bit(i),
                addend[2].bit(i),
            );
        }
    }
    r
}

/// Sum of the isolated values of the first `k` neighbours of `i`, in the
/// order left, right, up, down.
pub open spec fn partial_score(board: Board, isolated: Bitboard, i: int, k: int) -> int {
    (if k >= 1 && i >= 1 {
        isolated_value(board, isolated, i - 1)
    } else {
        0
    }) + (if k >= 2 {
        isolated_value(board, isolated, i + 1)
    } else {
        0
    }) + (if k >= 3 && i >= 15 {
        isolated_value(board, isolated, i - 15)
    } else {
        0
    }) + (if k >= 4 {
        isolated_value(board, isolated, i + 15)
    } else {
        0
    })
}

/// Greedy upper bound on the isolated deficit around one zero cell: fill its
/// four neighbours with the largest isolated deficits first, from `d` down.
pub open spec fn around_one_neighbor(counts: [u32; 5], d: int, slots: int) -> int
    decreases d,
{
    if d < 1 {
        0
    } else {
        let used = if slots < counts[d] {
            slots
        } else {
            counts[d] as int
        };
        used * d + around_one_neighbor(counts, d - 1, slots - used)
    }
}

/// Isolated cells that single-cell pieces cannot cover, from deficit `d`
/// up to `m - 1`, spending `pieces` single-cell pieces on the cheapest first.
pub open spec fn unsupported_from(counts: [u32; 5], d: int, m: int, pieces: int) -> int
    decreases m - d,
{
    if d >= m || d < 1 {
        0
    } else {
        let affordable = pieces / d;
        let supported = if counts[d] < affordable {
            counts[d] as int
        } else {
            affordable
        };
        (counts[d] - supported) + unsupported_from(counts, d + 1, m, pieces - supported * d)
    }
}

/// The most isolated deficit one zero neighbour can touch: its four sides
/// take the largest isolated deficits.
pub fn maximum_singleton_deficit_around_one_neighbor<const MODULUS: usize>(isolated_counts: &[u32; 5]) -> (r: u32)
    requires
        2 <= MODULUS <= 5,
    ensures
        r == around_one_neighbor(*isolated_counts, MODULUS - 1, 4),
        r <= 16,
{
    let mut remaining_neighbors: u32 = 4;
    let mut maximum_deficit: u32 = 0;
    let mut deficit: usize = MODULUS - 1;
    while deficit >= 1
        invariant
            2 <= MODULUS <= 5,
            0 <= deficit <= MODULUS - 1,
            remaining_neighbors <= 4,
            maximum_deficit <= 4 * (4 - remaining_neighbors),
            maximum_deficit + around_one_neighbor(*isolated_counts, deficit as int, remaining_neighbors as int)
                == around_one_neighbor(*isolated_counts, MODULUS - 1, 4),
        decreases deficit,
    {
        let used = if remaining_neighbors < isolated_counts[deficit] {
            remaining_neighbors
        } else {
            isolated_counts[deficit]
        };
        proof {
            assert(used * deficit <= 4 * used) by (nonlinear_arith)
                requires
                    deficit <= 4,
            ;
        }
        maximum_deficit = maximum_deficit + used * deficit as u32;
        remaining_neighbors = remaining_neighbors - used;
        deficit = deficit - 1;
    }
    maximum_deficit
}

/// Isolated cells left over once single-cell pieces cover what they can,
/// cheapest deficits first.
pub fn minimum_unsupported_singletons<const MODULUS: usize>(isolated_counts: &[u32; 5], single_cell_pieces: u32) -> (r: u32)
    requires
        2 <= MODULUS <= 5,
        isolated_counts[0] == 0,
        forall|d: int| 0 <= d < 5 ==> #[trigger] isolated_counts[d] <= 256,
    ensures
        r == isolated_counts[0] + isolated_counts[1] + isolated_counts[2] + isolated_counts[3]
            + isolated_counts[4] - (isolated_counts[1] + (if MODULUS > 2 {
            isolated_counts[2] as int
        } else {
            0
        }) + (if MODULUS > 3 {
            isolated_counts[3] as int
        } else {
            0
        }) + (if MODULUS > 4 {
            isolated_counts[4] as int
        } else {
            0
        })) + unsupported_from(*isolated_counts, 1, MODULUS as int, single_cell_pieces as int),
{
    let mut remaining_single_cell_pieces = single_cell_pieces;
    let mut unsupported: u32 = isolated_counts[0] + isolated_counts[1] + isolated_counts[2] + isolated_counts[3]
        + isolated_counts[4];
    let ghost total = unsupported as int;
    let mut deficit: usize = 1;
    while deficit < MODULUS
        invariant
            2 <= MODULUS <= 5,
            1 <= deficit <= MODULUS,
            isolated_counts[0] == 0,
            forall|d: int| 0 <= d < 5 ==> #[trigger] isolated_counts[d] <= 256,
            total == isolated_counts[0] + isolated_counts[1] + isolated_counts[2] + isolated_counts[3]
                + isolated_counts[4],
            remaining_single_cell_pieces <= single_cell_pieces,
            unsupported == total - prefix_counts(*isolated_counts, deficit as int) + prefix_unsupported(
                *isolated_counts,
                deficit as int,
                single_cell_pieces as int,
            ),
            0 <= unsupported <= total,
            prefix_unsupported(*isolated_counts, deficit as int, single_cell_pieces as int) >= 0,
            remaining_single_cell_pieces == prefix_remaining(*isolated_counts, deficit as int, single_cell_pieces as int),
            unsupported_from(*isolated_counts, 1, MODULUS as int, single_cell_pieces as int) == prefix_unsupported(
                *isolated_counts,
                deficit as int,
                single_cell_pieces as int,
            ) + unsupported_from(*isolated_counts, deficit as int, MODULUS as int, remaining_single_cell_pieces as int),
        decreases MODULUS - deficit,
    {
        let affordable = remaining_single_cell_pieces / deficit as u32;
        let supported = if isolated_counts[deficit] < affordable {
            isolated_counts[deficit]
        } else {
            affordable
        };
        proof {
            assert(supported * deficit <= remaining_single_cell_pieces) by (nonlinear_arith)
                requires
                    supported <= affordable,
                    affordable == (remaining_single_cell_pieces as int) / (deficit as int),
                    deficit >= 1,
            ;
            assert(prefix_counts(*isolated_counts, deficit + 1) == prefix_counts(*isolated_counts, deficit as int)
                + isolated_counts[deficit as int]);
            lemma_prefix_values(*isolated_counts);
            assert(total - prefix_counts(*isolated_counts, deficit as int) >= isolated_counts[deficit as int]);
            assert(prefix_unsupported(*isolated_counts, deficit + 1, single_cell_pieces as int)
                == prefix_unsupported(*isolated_counts, deficit as int, single_cell_pieces as int) + (
            isolated_counts[deficit as int] - supported));
        }
        unsupported = unsupported - supported;
        remaining_single_cell_pieces = remaining_single_cell_pieces - supported * deficit as u32;
        deficit = deficit + 1;
    }
    proof {
        lemma_prefix_values(*isolated_counts);
        assert(prefix_counts(*isolated_counts, MODULUS as int) == isolated_counts[1] + (if MODULUS > 2 {
            isolated_counts[2] as int
        } else {
            0
        }) + (if MODULUS > 3 {
            isolated_counts[3] as int
        } else {
            0
        }) + (if MODULUS > 4 {
            isolated_counts[4] as int
        } else {
            0
        }));
    }
    unsupported
}

/// The prefix counts spelled out.
proof fn lemma_prefix_values(counts: [u32; 5])
    ensures
        prefix_counts(counts, 1) == 0,
        prefix_counts(counts, 2) == counts[1],
        prefix_counts(counts, 3) == counts[1] + counts[2],
        prefix_counts(counts, 4) == counts[1] + counts[2] + counts[3],
        prefix_counts(counts, 5) == counts[1] + counts[2] + counts[3] + counts[4],
{
    assert(prefix_counts(counts, 1) == 0);
    assert(prefix_counts(counts, 2) == counts[1]);
    assert(prefix_counts(counts, 3) == counts[1] + counts[2]);
    assert(prefix_counts(counts, 4) == counts[1] + counts[2] + counts[3]);
}

/// Isolated cells with deficits `1..d`.
pub open spec fn prefix_counts(counts: [u32; 5], d: int) -> int
    decreases d,
{
    if d <= 1 {
        0
    } else {
        prefix_counts(counts, d - 1) + counts[d - 1]
    }
}

/// Single-cell pieces left after covering deficits `1..d`.
pub open spec fn prefix_remaining(counts: [u32; 5], d: int, pieces: int) -> int
    decreases d,
{
    if d <= 1 {
        pieces
    } else {
        let before = prefix_remaining(counts, d - 1, pieces);
        let affordable = before / (d - 1);
        let supported = if counts[d - 1] < affordable {
            counts[d - 1] as int
        } else {
            affordable
        };
        before - supported * (d - 1)
    }
}

/// Isolated cells with deficits `1..d` left uncovered.
pub open spec fn prefix_unsupported(counts: [u32; 5], d: int, pieces: int) -> int
    decreases d,
{
    if d <= 1 {
        0
    } else {
        let before = prefix_remaining(counts, d - 1, pieces);
        let affordable = before / (d - 1);
        let supported = if counts[d - 1] < affordable {
            counts[d - 1] as int
        } else {
            affordable
        };
        prefix_unsupported(counts, d - 1, pieces) + (counts[d - 1] - supported)
    }
}

/// A board cell, by the bound's cell mask, whose value is not zero.
pub open spec fn is_nonzero(board: Board, valid_mask: Bitboard, i: int) -> bool {
    valid_mask.bit(i) && !(board.valid(i) && board.cell(i) == 0)
}

/// A nonzero cell none of whose bitboard neighbours is nonzero.
pub open spec fn is_isolated(board: Board, valid_mask: Bitboard, i: int) -> bool {
    &&& is_nonzero(board, valid_mask, i)
    &&& !((i >= 1 && is_nonzero(board, valid_mask, i - 1)) || is_nonzero(board, valid_mask, i + 1) || (i >= 15
        && is_nonzero(board, valid_mask, i - 15)) || is_nonzero(board, valid_mask, i + 15))
}

/// Isolated cells whose value is `d`.
pub open spec fn isolated_with(board: Board, valid_mask: Bitboard, d: int) -> spec_fn(int) -> bool {
    |i: int| is_isolated(board, valid_mask, i) && board.valid(i) && board.cell(i) == d
}

/// Isolated cells.
pub open spec fn isolated_cells(board: Board, valid_mask: Bitboard) -> spec_fn(int) -> bool {
    |i: int| is_isolated(board, valid_mask, i)
}

/// Number of isolated cells with value `d`, for `1 <= d < m`.
pub open spec fn isolated_count_at(board: Board, valid_mask: Bitboard, d: int, m: int) -> int {
    if 1 <= d < m {
        count_where(isolated_with(board, valid_mask, d), 256) as int
    } else {
        0
    }
}

/// Total value of the isolated cells.
pub open spec fn isolated_deficit_of(board: Board, valid_mask: Bitboard, m: int) -> int {
    isolated_count_at(board, valid_mask, 1, m) + 2 * isolated_count_at(board, valid_mask, 2, m) + 3
        * isolated_count_at(board, valid_mask, 3, m) + 4 * isolated_count_at(board, valid_mask, 4, m)
}

/// `x` marks exactly the isolated cells.
pub open spec fn marks_isolated(x: Bitboard, board: Board, valid_mask: Bitboard) -> bool {
    forall|i: int| 0 <= i < 256 ==> #[trigger] x.bit(i) == is_isolated(board, valid_mask, i)
}

/// A bitboard of the isolated cells.
pub open spec fn isolated_board(board: Board, valid_mask: Bitboard) -> Bitboard {
    choose|x: Bitboard| #[trigger] marks_isolated(x, board, valid_mask)
}

pub struct TotalDeficitBound {
    remaining_cells: Vec<u32>,
    remaining_single_cell_pieces: Vec<u32>,
    pieces_are_connected: bool,
    valid_mask: Bitboard,
}

impl TotalDeficitBound {
    /// Cells of the remaining pieces, per search depth.
    pub closed spec fn remaining(self) -> Seq<u32> {
        self.remaining_cells@
    }

    /// Single-cell pieces among the remaining pieces, per search depth.
    pub closed spec fn remaining_singles(self) -> Seq<u32> {
        self.remaining_single_cell_pieces@
    }

    /// Whether every piece is connected.
    pub closed spec fn connected(self) -> bool {
        self.pieces_are_connected
    }

    /// The board cells.
    pub closed spec fn cells_mask(self) -> Bitboard {
        self.valid_mask
    }

    /// Number of search depths the bound covers (one more than the pieces).
    pub closed spec fn depths(self) -> int {
        self.remaining_cells@.len() as int
    }

    pub closed spec fn wf(self) -> bool {
        &&& self.remaining_single_cell_pieces@.len() == self.remaining_cells@.len()
        &&& forall|i: int| 0 <= i < self.remaining_cells@.len() ==> #[trigger] self.remaining_cells@[i] <= 0x0fff_ffff
    }

    /// A state that the pieces still to place (those of `order` from `p`
    /// on) can finish passes the bound's cell test: their cells cover the
    /// deficit. Where some piece is not connected that test is the whole
    /// bound, which then admits the state.
    pub proof fn lemma_admits_solvable(
        self,
        b: Board,
        pieces: Seq<Piece>,
        order: Seq<usize>,
        p: int,
        sol: Seq<(usize, usize)>,
    )
        requires
            b.wf(),
            0 <= p <= order.len(),
            p < self.depths(),
            self.remaining()[p] == suffix_cells(pieces, order, p),
            forall|k: int| 0 <= k < order.len() ==> #[trigger] order[k] < pieces.len(),
            forall|k: int| 0 <= k < pieces.len() ==> #[trigger] pieces[k].wf(),
            is_solution(b, pieces_from(pieces, order, p), sol),
        ensures
            self.remaining()[p] >= b.deficit(),
            !self.connected() ==> self.allows_spec(b, p, b.modulus()),
    {
        lemma_remaining_cells_cover(b, pieces, order, p, sol);
    }

    /// Whether the bound lets the search go on from `board` at depth `piece_index` (modulus `m`).
    pub closed spec fn allows_spec(self, board: Board, piece_index: int, m: int) -> bool {
        let remaining = self.remaining_cells@[piece_index] as int;
        let deficit = board.deficit();
        if remaining < deficit {
            false
        } else if !self.pieces_are_connected {
            true
        } else {
            let budget = (remaining - deficit) / m;
            let isolated_count = count_where(isolated_cells(board, self.valid_mask), 256) as int;
            if isolated_count == 0 || budget >= isolated_count {
                true
            } else {
                let counts: [u32; 5] = [
                    0u32,
                    isolated_count_at(board, self.valid_mask, 1, m) as u32,
                    isolated_count_at(board, self.valid_mask, 2, m) as u32,
                    isolated_count_at(board, self.valid_mask, 3, m) as u32,
                    isolated_count_at(board, self.valid_mask, 4, m) as u32,
                ];
                let isolated_deficit = isolated_deficit_of(board, self.valid_mask, m);
                let singles = self.remaining_single_cell_pieces@[piece_index] as int;
                if isolated_deficit <= singles {
                    true
                } else {
                    let required = isolated_deficit - singles;
                    if budget * around_one_neighbor(counts, m - 1, 4) < required {
                        false
                    } else if budget >= unsupported_from(counts, 1, m, singles) {
                        true
                    } else {
                        greedy_cover(board, isolated_board(board, self.valid_mask), self.valid_mask, 16, budget)
                            >= required
                    }
                }
            }
        }
    }

    /// Per-depth suffix sums of the cells and single-cell pieces of the
    /// pieces in solver order, whether every piece is connected, and the
    /// board-cell mask.
    pub fn precompute(pieces: &[Piece], piece_order: &[usize], height: u8, width: u8) -> (r: Self)
        requires
            piece_order@.len() >= pieces@.len(),
            forall|k: int| 0 <= k < pieces@.len() ==> #[trigger] piece_order@[k] < pieces@.len(),
            forall|k: int| 0 <= k < pieces@.len() ==> #[trigger] pieces@[k].wf(),
            pieces@.len() * 256 <= 0x0fff_ffff,
            width <= 15,
            15 * height + width <= 271,
        ensures
            r.wf(),
            r.depths() == pieces@.len() + 1,
            forall|i: int|
                0 <= i <= pieces@.len() ==> #[trigger] r.remaining()[i] == suffix_cells(
                    pieces@,
                    piece_order@.take(pieces@.len() as int),
                    i,
                ),
            forall|i: int|
                0 <= i <= pieces@.len() ==> #[trigger] r.remaining_singles()[i] == suffix_single_cells(
                    pieces@,
                    piece_order@.take(pieces@.len() as int),
                    i,
                ),
            r.connected() == forall|k: int| 0 <= k < pieces@.len() ==> #[trigger] shape_connected(pieces@[k].cells()),
            forall|i: int| 0 <= i < 256 ==> #[trigger] r.cells_mask().bit(i) == in_board(height as int, width as int, i),
    {
        let piece_count = pieces.len();
        let ghost ord = piece_order@.take(piece_count as int);
        let mut remaining_cells: Vec<u32> = Vec::new();
        let mut remaining_single_cell_pieces: Vec<u32> = Vec::new();
        let mut k: usize = 0;
        while k <= piece_count
            invariant
                piece_count == pieces@.len(),
                piece_count * 256 <= u32::MAX,
                0 <= k <= piece_count + 1,
                remaining_cells@.len() == k,
                remaining_single_cell_pieces@.len() == k,
                forall|j: int| 0 <= j < k ==> #[trigger] remaining_cells@[j] == 0,
                forall|j: int| 0 <= j < k ==> #[trigger] remaining_single_cell_pieces@[j] == 0,
            decreases piece_count + 1 - k,
        {
            remaining_cells.push(0);
            remaining_single_cell_pieces.push(0);
            k = k + 1;
        }
        let mut piece_index: usize = piece_count;
        while piece_index > 0
            invariant
                piece_count == pieces@.len(),
                piece_count * 256 <= u32::MAX,
                ord == piece_order@.take(piece_count as int),
                piece_order@.len() >= piece_count,
                forall|k: int| 0 <= k < piece_count ==> #[trigger] piece_order@[k] < piece_count,
                forall|k: int| 0 <= k < piece_count ==> #[trigger] pieces@[k].wf(),
                0 <= piece_index <= piece_count,
                remaining_cells@.len() == piece_count + 1,
                remaining_single_cell_pieces@.len() == piece_count + 1,
                forall|i: int|
                    piece_index <= i <= piece_count ==> #[trigger] remaining_cells@[i] == suffix_cells(pieces@, ord, i),
                forall|i: int|
                    piece_index <= i <= piece_count ==> #[trigger] remaining_single_cell_pieces@[i]
                        == suffix_single_cells(pieces@, ord, i),
                forall|i: int|
                    piece_index <= i <= piece_count ==> remaining_cells@[i] <= 256 * (piece_count - i),
                forall|i: int|
                    piece_index <= i <= piece_count ==> remaining_single_cell_pieces@[i] <= piece_count - i,
            decreases piece_index,
        {
            let next = piece_index;
            piece_index = piece_index - 1;
            let piece = &pieces[piece_order[piece_index]];
            let cell_count = piece.cell_count();
            proof {
                assert(ord[piece_index as int] == piece_order@[piece_index as int]);
                assert(remaining_cells@[next as int] <= 256 * (piece_count - next));
                assert(256 * (piece_count - next) + 256 == 256 * (piece_count - piece_index)) by (nonlinear_arith)
                    requires
                        next == piece_index + 1,
                ;
                assert(256 * (piece_count - piece_index) <= 256 * piece_count) by (nonlinear_arith)
                    requires
                        piece_index <= piece_count,
                ;
            }
            let cells_after = remaining_cells[next];
            let singles_after = remaining_single_cell_pieces[next];
            remaining_cells.set(piece_index, cells_after + cell_count);
            let single: u32 = if cell_count == 1 {
                1
            } else {
                0
            };
            remaining_single_cell_pieces.set(piece_index, singles_after + single);
        }
        proof {
            assert forall|i: int| 0 <= i < remaining_cells@.len() implies #[trigger] remaining_cells@[i] <= 0x0fff_ffff by {
                assert(256 * (piece_count - i) <= 256 * piece_count) by (nonlinear_arith)
                    requires
                        0 <= i,
                ;
            }
        }
        let valid_mask = board_cells_mask(height, width);
        let mut pieces_are_connected = true;
        let mut j: usize = 0;
        while j < piece_count
            invariant
                piece_count == pieces@.len(),
                forall|k: int| 0 <= k < piece_count ==> #[trigger] pieces@[k].wf(),
                0 <= j <= piece_count,
                pieces_are_connected == forall|k: int| 0 <= k < j ==> #[trigger] shape_connected(pieces@[k].cells()),
            decreases piece_count - j,
        {
            proof {
                pieces@[j as int].lemma_wf();
            }
            let connected = shape_is_connected(pieces[j].shape());
            proof {
                if !connected {
                    assert(!shape_connected(pieces@[j as int].cells()));
                }
            }
            pieces_are_connected = pieces_are_connected && connected;
            j = j + 1;
        }
        TotalDeficitBound { remaining_cells, remaining_single_cell_pieces, pieces_are_connected, valid_mask }
    }

    pub fn remaining_cells(&self, piece_index: usize) -> (r: u32)
        requires
            piece_index < self.depths(),
        ensures
            r == self.remaining()[piece_index as int],
    {
        self.remaining_cells[piece_index]
    }

    /// Whether the remaining pieces can still cover the board's deficit: enough
    /// cells overall, and, when every piece is connected, enough zero-cell
    /// hits to reach the isolated nonzero cells.
    pub fn allows<const MODULUS: usize>(&self, board: &Board, piece_index: usize) -> (r: bool)
        requires
            self.wf(),
            board.wf(),
            MODULUS == board.modulus(),
            piece_index < self.depths(),
        ensures
            r == self.allows_spec(*board, piece_index as int, MODULUS as int),
    {
        proof {
            board.lemma_wf();
        }
        let remaining_cells = self.remaining_cells[piece_index];
        let total_deficit = board.total_deficit();
        if remaining_cells < total_deficit {
            return false;
        }
        if !self.pieces_are_connected {
            return true;
        }
        let zero_hit_budget = (remaining_cells - total_deficit) / MODULUS as u32;
        let nonzero = self.valid_mask.and(&board.plane(0).not());
        let neighbors = nonzero.shl_1().or(&nonzero.shr_1()).or(&nonzero.shl_stride()).or(&nonzero.shr_stride());
        let isolated = nonzero.and(&neighbors.not());
        proof {
            assert forall|i: int| 0 <= i < 256 implies #[trigger] isolated.bit(i) == is_isolated(*board, self.valid_mask, i) by {
                assert(nonzero.bit(i) == is_nonzero(*board, self.valid_mask, i));
                if i >= 1 {
                    assert(nonzero.bit(i - 1) == is_nonzero(*board, self.valid_mask, i - 1));
                }
                if i + 1 < 256 {
                    assert(nonzero.bit(i + 1) == is_nonzero(*board, self.valid_mask, i + 1));
                }
                if i >= 15 {
                    assert(nonzero.bit(i - 15) == is_nonzero(*board, self.valid_mask, i - 15));
                }
                if i + 15 < 256 {
                    assert(nonzero.bit(i + 15) == is_nonzero(*board, self.valid_mask, i + 15));
                }
            }
            crate::solver::backtrack::lemma_count_bits(isolated, isolated_cells(*board, self.valid_mask), 256);
            bits::lemma_count_upto_bound(isolated@, 256);
        }
        let isolated_count = isolated.count_ones();
        if isolated_count == 0 || zero_hit_budget >= isolated_count {
            return true;
        }
        let mut isolated_counts = [0u32; 5];
        let mut isolated_deficit: u32 = 0;
        let mut deficit: usize = 1;
        while deficit < MODULUS
            invariant
                board.wf(),
                MODULUS == board.modulus(),
                2 <= MODULUS <= 5,
                1 <= deficit <= MODULUS,
                forall|i: int| 0 <= i < 256 ==> #[trigger] isolated.bit(i) == is_isolated(*board, self.valid_mask, i),
                isolated_counts[0] == 0,
                forall|d: int|
                    0 < d < 5 ==> #[trigger] isolated_counts[d] == if d < deficit {
                        isolated_count_at(*board, self.valid_mask, d, MODULUS as int)
                    } else {
                        0
                    },
                forall|d: int| 0 <= d < 5 ==> #[trigger] isolated_counts[d] <= 256,
                isolated_deficit == isolated_counts[1] + 2 * isolated_counts[2] + 3 * isolated_counts[3] + 4
                    * isolated_counts[4],
            decreases MODULUS - deficit,
        {
            let cells = isolated.and(&board.plane(deficit as u8));
            proof {
                crate::solver::backtrack::lemma_count_bits(
                    cells,
                    isolated_with(*board, self.valid_mask, deficit as int),
                    256,
                );
                bits::lemma_count_upto_bound(cells@, 256);
            }
            let count = cells.count_ones();
            proof {
                assert(deficit * count <= 4 * 256) by (nonlinear_arith)
                    requires
                        deficit <= 4,
                        count <= 256,
                ;
            }
            let ghost before = isolated_counts;
            isolated_counts[deficit] = count;
            isolated_deficit = isolated_deficit + deficit as u32 * count;
            proof {
                assert(before[deficit as int] == 0);
                if deficit == 1 {
                    assert(deficit * count == 1 * count);
                    assert(isolated_counts[1] == count && isolated_counts[2] == before[2] && isolated_counts[3] == before[3]
                        && isolated_counts[4] == before[4]);
                } else if deficit == 2 {
                    assert(deficit * count == 2 * count);
                    assert(isolated_counts[2] == count && isolated_counts[1] == before[1] && isolated_counts[3] == before[3]
                        && isolated_counts[4] == before[4]);
                } else if deficit == 3 {
                    assert(deficit * count == 3 * count);
                    assert(isolated_counts[3] == count && isolated_counts[1] == before[1] && isolated_counts[2] == before[2]
                        && isolated_counts[4] == before[4]);
                } else {
                    assert(deficit * count == 4 * count);
                    assert(isolated_counts[4] == count && isolated_counts[1] == before[1] && isolated_counts[2] == before[2]
                        && isolated_counts[3] == before[3]);
                }
            }
            deficit = deficit + 1;
        }
        let ghost counts: [u32; 5] = [
            0u32,
            isolated_count_at(*board, self.valid_mask, 1, MODULUS as int) as u32,
            isolated_count_at(*board, self.valid_mask, 2, MODULUS as int) as u32,
            isolated_count_at(*board, self.valid_mask, 3, MODULUS as int) as u32,
            isolated_count_at(*board, self.valid_mask, 4, MODULUS as int) as u32,
        ];
        proof {
            assert(isolated_deficit == isolated_deficit_of(*board, self.valid_mask, MODULUS as int));
            assert(isolated_counts =~= counts);
        }
        let single_cell_pieces = self.remaining_single_cell_pieces[piece_index];
        if isolated_deficit <= single_cell_pieces {
            return true;
        }
        let required_neighbor_cover = isolated_deficit - single_cell_pieces;
        let around = maximum_singleton_deficit_around_one_neighbor::<MODULUS>(&isolated_counts);
        proof {
            assert(zero_hit_budget * around <= 0x0fff_ffff * 16) by (nonlinear_arith)
                requires
                    zero_hit_budget <= 0x0fff_ffff,
                    around <= 16,
            ;
        }
        if zero_hit_budget * around < required_neighbor_cover {
            return false;
        }
        if zero_hit_budget >= minimum_unsupported_singletons::<MODULUS>(&isolated_counts, single_cell_pieces) {
            return true;
        }
        let cover = singleton_neighbor_cover_upper_bound::<MODULUS>(board, isolated, self.valid_mask, zero_hit_budget);
        proof {
            assert(marks_isolated(isolated, *board, self.valid_mask));
            let x = isolated_board(*board, self.valid_mask);
            assert(marks_isolated(x, *board, self.valid_mask));
            assert forall|i: int| 0 <= i < 256 implies #[trigger] x.bit(i) == isolated.bit(i) by {
                assert(isolated.bit(i) == is_isolated(*board, self.valid_mask, i));
            }
            Bitboard::lemma_bits_ext(x, isolated);
        }
        cover >= required_neighbor_cover
    }
}

} // verus!
