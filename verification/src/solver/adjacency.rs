//! Differences between adjacent board cells, summed over a mask of pairs.
//!
//! A pair is a board cell `i` together with the cell `i + step` (step 1 for
//! horizontal neighbours, 15 for vertical ones).

use vstd::prelude::*;
use crate::bits;
use crate::model::bitboard::Bitboard;
use crate::model::board::Board;

verus! {

/// Circular distance between values `a` and `c` modulo `m`: min(|a-c|, m-|a-c|).
pub open spec fn circular(m: int) -> spec_fn(int, int) -> int {
    |a: int, c: int|
        {
            let d = if a >= c {
                a - c
            } else {
                c - a
            };
            if d <= m - d {
                d
            } else {
                m - d
            }
        }
}

/// Forward distance from `a` to `c` modulo `m`: (c - a) mod m.
pub open spec fn forward(m: int) -> spec_fn(int, int) -> int {
    |a: int, c: int|
        if c >= a {
            c - a
        } else {
            c - a + m
        }
}

/// Backward distance from `a` to `c` modulo `m`: (a - c) mod m.
pub open spec fn backward(m: int) -> spec_fn(int, int) -> int {
    |a: int, c: int|
        if a >= c {
            a - c
        } else {
            a - c + m
        }
}

/// Whether the pair (i, i + step) is selected by the mask and lies on the board.
pub open spec fn active(b: Board, mask: Bitboard, step: int, i: int) -> bool {
    mask.bit(i) && b.valid(i) && b.valid(i + step)
}

/// Sum of `w(cell(i), cell(i + step))` over the active pairs with `i < n`.
pub open spec fn pair_sum(b: Board, mask: Bitboard, step: int, w: spec_fn(int, int) -> int, n: int) -> int
    decreases n,
{
    if n <= 0 {
        0
    } else {
        pair_sum(b, mask, step, w, n - 1) + if active(b, mask, step, n - 1) {
            w(b.cell(n - 1), b.cell(n - 1 + step))
        } else {
            0
        }
    }
}

/// Every weight between values in `0..m` lies in `0..=bound`, and equal values weigh 0.
pub open spec fn weights_ok(w: spec_fn(int, int) -> int, m: int, bound: int) -> bool {
    &&& forall|x: int, y: int| 0 <= x < m && 0 <= y < m ==> 0 <= #[trigger] w(x, y) <= bound
    &&& forall|x: int| 0 <= x < m ==> #[trigger] w(x, x) == 0
}

/// Whether the active pair at `i` has values (e, f).
pub open spec fn pair_is(b: Board, mask: Bitboard, step: int, e: int, f: int, i: int) -> bool {
    active(b, mask, step, i) && b.cell(i) == e && b.cell(i + step) == f
}

/// Number of active pairs below `n` with values (e, f).
pub open spec fn pair_count(b: Board, mask: Bitboard, step: int, e: int, f: int, n: int) -> int
    decreases n,
{
    if n <= 0 {
        0
    } else {
        pair_count(b, mask, step, e, f, n - 1) + if pair_is(b, mask, step, e, f, n - 1) {
            1int
        } else {
            0int
        }
    }
}

/// Sum over `f < fl`, `f != e`, of `w(e, f)` times the count of (e, f) pairs.
pub open spec fn inner_sum(
    b: Board,
    mask: Bitboard,
    step: int,
    w: spec_fn(int, int) -> int,
    e: int,
    fl: int,
    n: int,
) -> int
    decreases fl,
{
    if fl <= 0 {
        0
    } else {
        inner_sum(b, mask, step, w, e, fl - 1, n) + if e != fl - 1 {
            w(e, fl - 1) * pair_count(b, mask, step, e, fl - 1, n)
        } else {
            0
        }
    }
}

/// Sum over `e < el` of `inner_sum(e, m)`.
pub open spec fn outer_sum(
    b: Board,
    mask: Bitboard,
    step: int,
    w: spec_fn(int, int) -> int,
    m: int,
    el: int,
    n: int,
) -> int
    decreases el,
{
    if el <= 0 {
        0
    } else {
        outer_sum(b, mask, step, w, m, el - 1, n) + inner_sum(b, mask, step, w, el - 1, m, n)
    }
}

/// The indicator version of `inner_sum` at a single index.
spec fn inner_at(b: Board, mask: Bitboard, step: int, w: spec_fn(int, int) -> int, e: int, fl: int, i: int) -> int
    decreases fl,
{
    if fl <= 0 {
        0
    } else {
        inner_at(b, mask, step, w, e, fl - 1, i) + if e != fl - 1 && pair_is(b, mask, step, e, fl - 1, i) {
            w(e, fl - 1)
        } else {
            0
        }
    }
}

spec fn outer_at(b: Board, mask: Bitboard, step: int, w: spec_fn(int, int) -> int, m: int, el: int, i: int) -> int
    decreases el,
{
    if el <= 0 {
        0
    } else {
        outer_at(b, mask, step, w, m, el - 1, i) + inner_at(b, mask, step, w, el - 1, m, i)
    }
}

proof fn lemma_inner_step(b: Board, mask: Bitboard, step: int, w: spec_fn(int, int) -> int, e: int, fl: int, n: int)
    requires
        n > 0,
    ensures
        inner_sum(b, mask, step, w, e, fl, n) == inner_sum(b, mask, step, w, e, fl, n - 1) + inner_at(
            b,
            mask,
            step,
            w,
            e,
            fl,
            n - 1,
        ),
    decreases fl,
{
    if fl > 0 {
        lemma_inner_step(b, mask, step, w, e, fl - 1, n);
        let f = fl - 1;
        if e != f {
            let c = pair_count(b, mask, step, e, f, n - 1);
            let x = if pair_is(b, mask, step, e, f, n - 1) {
                1int
            } else {
                0int
            };
            assert(pair_count(b, mask, step, e, f, n) == c + x);
            assert(w(e, f) * (c + x) == w(e, f) * c + w(e, f) * x) by (nonlinear_arith);
            assert(w(e, f) * x == if x == 1 {
                w(e, f)
            } else {
                0
            }) by (nonlinear_arith)
                requires
                    x == 0 || x == 1,
            ;
        }
    }
}

proof fn lemma_outer_step(b: Board, mask: Bitboard, step: int, w: spec_fn(int, int) -> int, m: int, el: int, n: int)
    requires
        n > 0,
    ensures
        outer_sum(b, mask, step, w, m, el, n) == outer_sum(b, mask, step, w, m, el, n - 1) + outer_at(
            b,
            mask,
            step,
            w,
            m,
            el,
            n - 1,
        ),
    decreases el,
{
    if el > 0 {
        lemma_outer_step(b, mask, step, w, m, el - 1, n);
        lemma_inner_step(b, mask, step, w, el - 1, m, n);
    }
}

proof fn lemma_inner_at(b: Board, mask: Bitboard, step: int, w: spec_fn(int, int) -> int, e: int, fl: int, i: int)
    requires
        0 <= fl,
    ensures
        inner_at(b, mask, step, w, e, fl, i) == if active(b, mask, step, i) && b.cell(i) == e && b.cell(i + step)
            < fl && b.cell(i + step) >= 0 && e != b.cell(i + step) {
            w(e, b.cell(i + step))
        } else {
            0
        },
    decreases fl,
{
    if fl > 0 {
        lemma_inner_at(b, mask, step, w, e, fl - 1, i);
    }
}

proof fn lemma_outer_at(b: Board, mask: Bitboard, step: int, w: spec_fn(int, int) -> int, m: int, el: int, i: int)
    requires
        0 <= el,
        0 <= m,
    ensures
        outer_at(b, mask, step, w, m, el, i) == if active(b, mask, step, i) && 0 <= b.cell(i) < el && 0 <= b.cell(
            i + step,
        ) < m && b.cell(i) != b.cell(i + step) {
            w(b.cell(i), b.cell(i + step))
        } else {
            0
        },
    decreases el,
{
    if el > 0 {
        lemma_outer_at(b, mask, step, w, m, el - 1, i);
        lemma_inner_at(b, mask, step, w, el - 1, m, i);
    }
}

/// The sum over value pairs of weight times pair count equals the sum of
/// weights over the adjacent pairs themselves.
pub proof fn lemma_pair_sums(b: Board, mask: Bitboard, step: int, w: spec_fn(int, int) -> int, n: int)
    requires
        b.wf(),
        0 <= n,
        weights_ok(w, b.modulus(), 5),
    ensures
        outer_sum(b, mask, step, w, b.modulus(), b.modulus(), n) == pair_sum(b, mask, step, w, n),
    decreases n,
{
    b.lemma_wf();
    if n > 0 {
        lemma_pair_sums(b, mask, step, w, n - 1);
        lemma_outer_step(b, mask, step, w, b.modulus(), b.modulus(), n);
        lemma_outer_at(b, mask, step, w, b.modulus(), b.modulus(), n - 1);
        b.lemma_wf();
        let i = n - 1;
        if active(b, mask, step, i) {
            assert(b.valid(i));
            assert(b.valid(i + step));
            assert(0 <= b.cell(i) < b.modulus());
        }
    } else {
        reveal_with_fuel(outer_sum, 1);
        lemma_outer_zero(b, mask, step, w, b.modulus(), b.modulus());
    }
}

proof fn lemma_inner_zero(b: Board, mask: Bitboard, step: int, w: spec_fn(int, int) -> int, e: int, fl: int)
    ensures
        inner_sum(b, mask, step, w, e, fl, 0) == 0,
    decreases fl,
{
    if fl > 0 {
        lemma_inner_zero(b, mask, step, w, e, fl - 1);
        assert(w(e, fl - 1) * 0 == 0) by (nonlinear_arith);
    }
}

proof fn lemma_outer_zero(b: Board, mask: Bitboard, step: int, w: spec_fn(int, int) -> int, m: int, el: int)
    ensures
        outer_sum(b, mask, step, w, m, el, 0) == 0,
    decreases el,
{
    if el > 0 {
        lemma_outer_zero(b, mask, step, w, m, el - 1);
        lemma_inner_zero(b, mask, step, w, el - 1, m);
    }
}

/// A pair sum is at most `bound` per index when every weight is.
pub proof fn lemma_pair_sum_bound(b: Board, mask: Bitboard, step: int, w: spec_fn(int, int) -> int, n: int, bound: int)
    requires
        b.wf(),
        0 <= n,
        0 <= bound,
        weights_ok(w, b.modulus(), bound),
    ensures
        0 <= pair_sum(b, mask, step, w, n) <= bound * n,
    decreases n,
{
    if n > 0 {
        lemma_pair_sum_bound(b, mask, step, w, n - 1, bound);
        b.lemma_wf();
        if active(b, mask, step, n - 1) {
            assert(b.valid(n - 1));
            assert(b.valid(n - 1 + step));
        }
        assert(bound * (n - 1) + bound == bound * n) by (nonlinear_arith);
    } else {
        assert(bound * n == 0) by (nonlinear_arith)
            requires
                n == 0,
        ;
    }
}

proof fn lemma_inner_nonneg(b: Board, mask: Bitboard, step: int, w: spec_fn(int, int) -> int, e: int, fl: int, m: int, n: int)
    requires
        weights_ok(w, m, 5),
        0 <= e < m,
        fl <= m,
        0 <= n,
    ensures
        0 <= inner_sum(b, mask, step, w, e, fl, n),
    decreases fl,
{
    if fl > 0 {
        lemma_inner_nonneg(b, mask, step, w, e, fl - 1, m, n);
        lemma_pair_count_nonneg(b, mask, step, e, fl - 1, n);
        let c = pair_count(b, mask, step, e, fl - 1, n);
        let x = w(e, fl - 1);
        assert(0 <= x * c) by (nonlinear_arith)
            requires
                0 <= x,
                0 <= c,
        ;
    }
}

proof fn lemma_pair_count_nonneg(b: Board, mask: Bitboard, step: int, e: int, f: int, n: int)
    ensures
        0 <= pair_count(b, mask, step, e, f, n),
    decreases n,
{
    if n > 0 {
        lemma_pair_count_nonneg(b, mask, step, e, f, n - 1);
    }
}

/// Partial sums over value pairs never exceed the full sum.
proof fn lemma_outer_mono(b: Board, mask: Bitboard, step: int, w: spec_fn(int, int) -> int, m: int, el: int, n: int)
    requires
        weights_ok(w, m, 5),
        0 <= el <= m,
        0 <= n,
    ensures
        0 <= outer_sum(b, mask, step, w, m, el, n) <= outer_sum(b, mask, step, w, m, m, n),
    decreases m - el,
{
    if el < m {
        lemma_outer_mono(b, mask, step, w, m, el + 1, n);
        lemma_inner_nonneg(b, mask, step, w, el, m, m, n);
    }
    lemma_outer_nonneg(b, mask, step, w, m, el, n);
}

proof fn lemma_outer_nonneg(b: Board, mask: Bitboard, step: int, w: spec_fn(int, int) -> int, m: int, el: int, n: int)
    requires
        weights_ok(w, m, 5),
        el <= m,
        0 <= n,
    ensures
        0 <= outer_sum(b, mask, step, w, m, el, n),
    decreases el,
{
    if el > 0 {
        lemma_outer_nonneg(b, mask, step, w, m, el - 1, n);
        lemma_inner_nonneg(b, mask, step, w, el - 1, m, m, n);
    }
}

proof fn lemma_inner_mono(b: Board, mask: Bitboard, step: int, w: spec_fn(int, int) -> int, e: int, fl: int, m: int, n: int)
    requires
        weights_ok(w, m, 5),
        0 <= e < m,
        0 <= fl <= m,
        0 <= n,
    ensures
        inner_sum(b, mask, step, w, e, fl, n) <= inner_sum(b, mask, step, w, e, m, n),
    decreases m - fl,
{
    if fl < m {
        lemma_inner_mono(b, mask, step, w, e, fl + 1, m, n);
        lemma_pair_count_nonneg(b, mask, step, e, fl, n);
        let c = pair_count(b, mask, step, e, fl, n);
        let x = w(e, fl);
        assert(0 <= x * c) by (nonlinear_arith)
            requires
                0 <= x,
                0 <= c,
        ;
    }
}

/// Six adjacency sums of a board: circular, forward and backward distances,
/// each over the horizontal and the vertical pair masks.
pub struct AdjacencySums {
    pub circular_h: u32,
    pub circular_v: u32,
    pub forward_h: u32,
    pub forward_v: u32,
    pub backward_h: u32,
    pub backward_v: u32,
}

/// The six sums are those of `b` over the masks `h` (step 1) and `v` (step 15).
pub open spec fn sums_of(r: AdjacencySums, b: Board, h: Bitboard, v: Bitboard) -> bool {
    let m = b.modulus();
    &&& r.circular_h == pair_sum(b, h, 1, circular(m), 256)
    &&& r.circular_v == pair_sum(b, v, 15, circular(m), 256)
    &&& r.forward_h == pair_sum(b, h, 1, forward(m), 256)
    &&& r.forward_v == pair_sum(b, v, 15, forward(m), 256)
    &&& r.backward_h == pair_sum(b, h, 1, backward(m), 256)
    &&& r.backward_v == pair_sum(b, v, 15, backward(m), 256)
}

/// Count of active pairs with values (e, f), read off the planes.
fn count_pairs(
    b: &Board,
    first: &Bitboard,
    second_shifted: &Bitboard,
    mask: &Bitboard,
    step: u32,
    e: u8,
    f: u8,
) -> (r: u32)
    requires
        b.wf(),
        step == 1 || step == 15,
        forall|i: int| 0 <= i < 256 ==> #[trigger] first.bit(i) == (b.valid(i) && b.cell(i) == e),
        forall|i: int|
            0 <= i < 256 ==> #[trigger] second_shifted.bit(i) == (b.valid(i + step) && b.cell(i + step) == f),
    ensures
        r == pair_count(*b, *mask, step as int, e as int, f as int, 256),
        r <= 256,
{
    let x = first.and(second_shifted).and(mask);
    proof {
        lemma_count_congruent(*b, *mask, step as int, e as int, f as int, x, 256);
    }
    x.count_ones()
}

proof fn lemma_count_congruent(b: Board, mask: Bitboard, step: int, e: int, f: int, x: Bitboard, n: int)
    requires
        0 <= n <= 256,
        forall|i: int| 0 <= i < 256 ==> #[trigger] x.bit(i) == pair_is(b, mask, step, e, f, i),
    ensures
        x.count() >= 0,
        bits::count_upto(x@, n) == pair_count(b, mask, step, e, f, n),
    decreases n,
{
    if n > 0 {
        lemma_count_congruent(b, mask, step, e, f, x, n - 1);
    }
}

/// Weights of one ordered value pair modulo `m`: (circular, forward, backward).
fn weights(m: usize, e: usize, f: usize) -> (r: (u32, u32, u32))
    requires
        2 <= m <= 5,
        e < m,
        f < m,
    ensures
        r.0 == (circular(m as int))(e as int, f as int),
        r.1 == (forward(m as int))(e as int, f as int),
        r.2 == (backward(m as int))(e as int, f as int),
        r.0 <= 2,
        r.1 < m,
        r.2 < m,
{
    let diff = if e > f {
        e - f
    } else {
        f - e
    };
    let cw = if diff <= m - diff {
        diff
    } else {
        m - diff
    };
    let fw = (f + m - e) % m;
    let bw = (e + m - f) % m;
    proof {
        let x = (f + m - e) as int;
        let y = (e + m - f) as int;
        if f >= e {
            vstd::arithmetic::div_mod::lemma_fundamental_div_mod_converse_mod(x, m as int, 1, f - e);
        } else {
            vstd::arithmetic::div_mod::lemma_fundamental_div_mod_converse_mod(x, m as int, 0, x);
        }
        if e >= f {
            vstd::arithmetic::div_mod::lemma_fundamental_div_mod_converse_mod(y, m as int, 1, e - f);
        } else {
            vstd::arithmetic::div_mod::lemma_fundamental_div_mod_converse_mod(y, m as int, 0, y);
        }
    }
    (cw as u32, fw as u32, bw as u32)
}

/// Compute the six adjacency sums of a board for the given pair masks.
#[verifier::rlimit(60)]
pub fn measure_pairs(board: &Board, h_mask: Bitboard, v_mask: Bitboard) -> (r: AdjacencySums)
    requires
        board.wf(),
    ensures
        sums_of(r, *board, h_mask, v_mask),
{
    let m = board.m() as usize;
    proof {
        board.lemma_wf();
    }
    let mut sh: Vec<Bitboard> = Vec::new();
    let mut sv: Vec<Bitboard> = Vec::new();
    let mut d: usize = 0;
    while d < m
        invariant
            board.wf(),
            m == board.modulus(),
            2 <= m <= 5,
            0 <= d <= m,
            sh@.len() == d,
            sv@.len() == d,
            forall|k: int, i: int|
                0 <= k < d && 0 <= i < 256 ==> #[trigger] sh@[k].bit(i) == (board.valid(i + 1) && board.cell(i + 1) == k),
            forall|k: int, i: int|
                0 <= k < d && 0 <= i < 256 ==> #[trigger] sv@[k].bit(i) == (board.valid(i + 15) && board.cell(i + 15) == k),
        decreases m - d,
    {
        let p = board.plane(d as u8);
        sh.push(p.shr_1());
        sv.push(p.shr_stride());
        d = d + 1;
    }
    let ghost b = *board;
    let ghost mm = m as int;
    let mut ch: u32 = 0;
    let mut cv: u32 = 0;
    let mut fh: u32 = 0;
    let mut fv: u32 = 0;
    let mut bh: u32 = 0;
    let mut bv: u32 = 0;
    let mut d1: usize = 0;
    while d1 < m
        invariant
            board.wf(),
            b == *board,
            m == board.modulus(),
            mm == m,
            2 <= m <= 5,
            0 <= d1 <= m,
            sh@.len() == m,
            sv@.len() == m,
            forall|k: int, i: int|
                0 <= k < m && 0 <= i < 256 ==> #[trigger] sh@[k].bit(i) == (board.valid(i + 1) && board.cell(i + 1) == k),
            forall|k: int, i: int|
                0 <= k < m && 0 <= i < 256 ==> #[trigger] sv@[k].bit(i) == (board.valid(i + 15) && board.cell(i + 15) == k),
            ch == outer_sum(b, h_mask, 1, circular(mm), mm, d1 as int, 256),
            cv == outer_sum(b, v_mask, 15, circular(mm), mm, d1 as int, 256),
            fh == outer_sum(b, h_mask, 1, forward(mm), mm, d1 as int, 256),
            fv == outer_sum(b, v_mask, 15, forward(mm), mm, d1 as int, 256),
            bh == outer_sum(b, h_mask, 1, backward(mm), mm, d1 as int, 256),
            bv == outer_sum(b, v_mask, 15, backward(mm), mm, d1 as int, 256),
        decreases m - d1,
    {
        let p = board.plane(d1 as u8);
        let mut d2: usize = 0;
        while d2 < m
            invariant
                board.wf(),
                b == *board,
                m == board.modulus(),
                mm == m,
                2 <= m <= 5,
                0 <= d1 < m,
                0 <= d2 <= m,
                sh@.len() == m,
                sv@.len() == m,
                forall|i: int| 0 <= i < 256 ==> #[trigger] p.bit(i) == (board.valid(i) && board.cell(i) == d1),
                forall|k: int, i: int|
                    0 <= k < m && 0 <= i < 256 ==> #[trigger] sh@[k].bit(i) == (board.valid(i + 1) && board.cell(i + 1) == k),
                forall|k: int, i: int|
                    0 <= k < m && 0 <= i < 256 ==> #[trigger] sv@[k].bit(i) == (board.valid(i + 15) && board.cell(i + 15) == k),
                ch == outer_sum(b, h_mask, 1, circular(mm), mm, d1 as int, 256) + inner_sum(b, h_mask, 1, circular(mm), d1 as int, d2 as int, 256),
                cv == outer_sum(b, v_mask, 15, circular(mm), mm, d1 as int, 256) + inner_sum(b, v_mask, 15, circular(mm), d1 as int, d2 as int, 256),
                fh == outer_sum(b, h_mask, 1, forward(mm), mm, d1 as int, 256) + inner_sum(b, h_mask, 1, forward(mm), d1 as int, d2 as int, 256),
                fv == outer_sum(b, v_mask, 15, forward(mm), mm, d1 as int, 256) + inner_sum(b, v_mask, 15, forward(mm), d1 as int, d2 as int, 256),
                bh == outer_sum(b, h_mask, 1, backward(mm), mm, d1 as int, 256) + inner_sum(b, h_mask, 1, backward(mm), d1 as int, d2 as int, 256),
                bv == outer_sum(b, v_mask, 15, backward(mm), mm, d1 as int, 256) + inner_sum(b, v_mask, 15, backward(mm), d1 as int, d2 as int, 256),
            decreases m - d2,
        {
            if d1 != d2 {
                let hc = count_pairs(board, &p, &sh[d2], &h_mask, 1, d1 as u8, d2 as u8);
                let vc = count_pairs(board, &p, &sv[d2], &v_mask, 15, d1 as u8, d2 as u8);
                let (cw, fw, bw) = weights(m, d1, d2);
                proof {
                    lemma_weights_ok(mm);
                    lemma_bound_one(b, h_mask, 1, circular(mm), d1 as int, d2 as int);
                    lemma_bound_one(b, v_mask, 15, circular(mm), d1 as int, d2 as int);
                    lemma_bound_one(b, h_mask, 1, forward(mm), d1 as int, d2 as int);
                    lemma_bound_one(b, v_mask, 15, forward(mm), d1 as int, d2 as int);
                    lemma_bound_one(b, h_mask, 1, backward(mm), d1 as int, d2 as int);
                    lemma_bound_one(b, v_mask, 15, backward(mm), d1 as int, d2 as int);
                }
                ch = ch + cw * hc;
                cv = cv + cw * vc;
                fh = fh + fw * hc;
                fv = fv + fw * vc;
                bh = bh + bw * hc;
                bv = bv + bw * vc;
            }
            d2 = d2 + 1;
        }
        d1 = d1 + 1;
    }
    proof {
        lemma_weights_ok(mm);
        lemma_pair_sums(b, h_mask, 1, circular(mm), 256);
        lemma_pair_sums(b, v_mask, 15, circular(mm), 256);
        lemma_pair_sums(b, h_mask, 1, forward(mm), 256);
        lemma_pair_sums(b, v_mask, 15, forward(mm), 256);
        lemma_pair_sums(b, h_mask, 1, backward(mm), 256);
        lemma_pair_sums(b, v_mask, 15, backward(mm), 256);
    }
    AdjacencySums {
        circular_h: ch,
        circular_v: cv,
        forward_h: fh,
        forward_v: fv,
        backward_h: bh,
        backward_v: bv,
    }
}

/// The running sum of `measure_pairs` for one weight, including the next
/// term, stays within `u32`: partial sums never exceed the full sum, which is
/// at most 5 per index.
proof fn lemma_bound_one(b: Board, mask: Bitboard, step: int, w: spec_fn(int, int) -> int, e: int, f: int)
    requires
        b.wf(),
        weights_ok(w, b.modulus(), 5),
        0 <= e < b.modulus(),
        0 <= f < b.modulus(),
    ensures
        outer_sum(b, mask, step, w, b.modulus(), e, 256) + inner_sum(b, mask, step, w, e, f + 1, 256) <= 1280,
{
    let m = b.modulus();
    lemma_inner_mono(b, mask, step, w, e, f + 1, m, 256);
    lemma_outer_mono(b, mask, step, w, m, e + 1, 256);
    lemma_pair_sums(b, mask, step, w, 256);
    lemma_pair_sum_bound(b, mask, step, w, 256, 5);
}

/// The three distance weights are within bounds.
pub proof fn lemma_weights_ok(m: int)
    requires
        2 <= m <= 5,
    ensures
        weights_ok(circular(m), m, 5),
        weights_ok(forward(m), m, 5),
        weights_ok(backward(m), m, 5),
{
}

/// Whether bitboard index `i` is a cell of an `h` by `w` board with a right neighbour.
pub open spec fn has_right(h: int, w: int, i: int) -> bool {
    0 <= i < 256 && i / 15 < h && i % 15 + 1 < w
}

/// Whether bitboard index `i` is a cell of an `h` by `w` board with a neighbour below.
pub open spec fn has_below(h: int, w: int, i: int) -> bool {
    0 <= i < 256 && i / 15 + 1 < h && i % 15 < w
}

/// Masks of the board cells that have a right neighbour and a neighbour below.
pub fn pair_masks(h: u8, w: u8) -> (r: (Bitboard, Bitboard))
    requires
        w <= 15,
        15 * h + w <= 271,
    ensures
        forall|i: int| 0 <= i < 256 ==> #[trigger] r.0.bit(i) == has_right(h as int, w as int, i),
        forall|i: int| 0 <= i < 256 ==> #[trigger] r.1.bit(i) == has_below(h as int, w as int, i),
{
    let bh = h as usize;
    let bw = w as usize;
    let mut hm = Bitboard::zero();
    let mut vm = Bitboard::zero();
    let mut r: usize = 0;
    while r < bh
        invariant
            bh == h,
            bw == w,
            w <= 15,
            15 * h + w <= 271,
            0 <= r <= bh,
            forall|i: int| 0 <= i < 256 ==> #[trigger] hm.bit(i) == (has_right(h as int, w as int, i) && i / 15 < r),
            forall|i: int| 0 <= i < 256 ==> #[trigger] vm.bit(i) == (has_below(h as int, w as int, i) && i / 15 < r),
        decreases bh - r,
    {
        let mut c: usize = 0;
        while c < bw
            invariant
                bh == h,
                bw == w,
                w <= 15,
                15 * h + w <= 271,
                0 <= r < bh,
                0 <= c <= bw,
                forall|i: int|
                    0 <= i < 256 ==> #[trigger] hm.bit(i) == (has_right(h as int, w as int, i) && (i / 15 < r || (i
                        / 15 == r && i % 15 < c))),
                forall|i: int|
                    0 <= i < 256 ==> #[trigger] vm.bit(i) == (has_below(h as int, w as int, i) && (i / 15 < r || (i
                        / 15 == r && i % 15 < c))),
            decreases bw - c,
        {
            let ghost idx: int = 15 * r + c;
            proof {
                bits::lemma_stride_index(r as int, c as int);
            }
            let bit = (r * 15 + c) as u32;
            let ghost hb = hm;
            let ghost vb = vm;
            if c + 1 < bw {
                hm.set_bit(bit);
            }
            if r + 1 < bh {
                vm.set_bit(bit);
            }
            proof {
                assert forall|i: int| 0 <= i < 256 implies #[trigger] hm.bit(i) == (has_right(h as int, w as int, i)
                    && (i / 15 < r || (i / 15 == r && i % 15 < c + 1))) by {
                    bits::lemma_stride_split(i);
                    assert(hb.bit(i) == (has_right(h as int, w as int, i) && (i / 15 < r || (i / 15 == r && i % 15
                        < c))));
                    if i == idx {
                        assert(i / 15 == r && i % 15 == c);
                    } else if i / 15 == r && i % 15 == c {
                        assert(i == idx);
                    }
                }
                assert forall|i: int| 0 <= i < 256 implies #[trigger] vm.bit(i) == (has_below(h as int, w as int, i)
                    && (i / 15 < r || (i / 15 == r && i % 15 < c + 1))) by {
                    bits::lemma_stride_split(i);
                    assert(vb.bit(i) == (has_below(h as int, w as int, i) && (i / 15 < r || (i / 15 == r && i % 15
                        < c))));
                    if i == idx {
                        assert(i / 15 == r && i % 15 == c);
                    } else if i / 15 == r && i % 15 == c {
                        assert(i == idx);
                    }
                }
            }
            c = c + 1;
        }
        r = r + 1;
    }
    (hm, vm)
}

} // verus!
