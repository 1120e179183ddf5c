//! Exact suffix feasibility for small corner regions.
//!
//! If a region has deficit `D_s` and receives `H` placement-cell hits, solving
//! it requires `H = D_s + M * W`. The table minimizes `W`. A global completion
//! has only `(R - D) / M` such extra cycles, so a region needing more is
//! impossible. Charging entire pieces that touch the region would not be sound,
//! because their cells outside the region can still repair the rest of the board.
//!
//! A configuration of the region is a number in base M whose digit `k` is the
//! value of the region's `k`-th cell; an effect is a bit set whose bit `k`
//! says that a placement covers the `k`-th cell.

use vstd::prelude::*;
use crate::model::bitboard::Bitboard;
use crate::bits;
use crate::model::board::{Board, applied_value};
use crate::model::piece::Piece;
use crate::solver::finish::{
    cells_from, chosen_hits, excess_upto, finishes, places, lemma_cell_takes_turns, lemma_chosen_hits_range,
    lemma_excess_total, lemma_hits_off_board, lemma_placed_cells,
};

verus! {

/// Marks a configuration that no choice of the remaining placements solves.
pub const UNREACHABLE: u16 = 0xffff;

/// `m` to the power `k`.
pub open spec fn power(m: int, k: nat) -> int
    decreases k,
{
    if k == 0 {
        1
    } else {
        m * power(m, (k - 1) as nat)
    }
}

/// Digit `k` of configuration `c`: the value of the region's `k`-th cell.
pub open spec fn digit(c: int, k: nat, m: int) -> int {
    (c / power(m, k)) % m
}

/// Whether effect `e` covers the region's `k`-th cell.
pub open spec fn covers_cell(e: u32, k: nat) -> bool {
    e & (1u32 << (k as u32)) != 0
}

/// The low `k` digits of the configuration reached from `c` when a placement
/// with effect `e` is made: each covered digit drops by one, mod `m`.
pub open spec fn stepped_upto(c: int, e: u32, k: nat, m: int) -> int
    decreases k,
{
    if k == 0 {
        0
    } else {
        stepped_upto(c, e, (k - 1) as nat, m) + applied_value(
            digit(c, (k - 1) as nat, m),
            m,
            covers_cell(e, (k - 1) as nat),
        ) * power(m, (k - 1) as nat)
    }
}

/// The configuration of an `n`-cell region reached from `c` by a placement with effect `e`.
pub open spec fn stepped(c: int, e: u32, n: nat, m: int) -> int {
    stepped_upto(c, e, n, m)
}

/// Sum of the low `k` digits of `c`: the deficit of those cells.
pub open spec fn digit_sum(c: int, k: nat, m: int) -> int
    decreases k,
{
    if k == 0 {
        0
    } else {
        digit_sum(c, (k - 1) as nat, m) + digit(c, (k - 1) as nat, m)
    }
}

/// How many of the region's first `k` cells effect `e` covers.
pub open spec fn covered_count(e: u32, k: nat) -> int
    decreases k,
{
    if k == 0 {
        0
    } else {
        covered_count(e, (k - 1) as nat) + if covers_cell(e, (k - 1) as nat) {
            1int
        } else {
            0int
        }
    }
}

proof fn lemma_power_positive(m: int, k: nat)
    requires
        m >= 1,
    ensures
        power(m, k) >= 1,
    decreases k,
{
    if k > 0 {
        lemma_power_positive(m, (k - 1) as nat);
        assert(m * power(m, (k - 1) as nat) >= 1) by (nonlinear_arith)
            requires
                m >= 1,
                power(m, (k - 1) as nat) >= 1,
        ;
    }
}

proof fn lemma_power_monotone(m: int, a: nat, b: nat)
    requires
        m >= 1,
        a <= b,
    ensures
        power(m, a) <= power(m, b),
    decreases b,
{
    if a < b {
        lemma_power_monotone(m, a, (b - 1) as nat);
        lemma_power_positive(m, (b - 1) as nat);
        assert(power(m, (b - 1) as nat) <= m * power(m, (b - 1) as nat)) by (nonlinear_arith)
            requires
                m >= 1,
                power(m, (b - 1) as nat) >= 1,
        ;
    }
}

proof fn lemma_power_adds(m: int, a: nat, b: nat)
    ensures
        power(m, a + b) == power(m, a) * power(m, b),
    decreases b,
{
    if b > 0 {
        lemma_power_adds(m, a, (b - 1) as nat);
        assert(power(m, a + b) == m * power(m, (a + b - 1) as nat));
        assert((a + (b - 1)) as nat == (a + b - 1) as nat);
        assert(m * (power(m, a) * power(m, (b - 1) as nat)) == power(m, a) * (m * power(m, (b - 1) as nat)))
            by (nonlinear_arith);
    }
}

/// Powers of `m` grow with the exponent.
pub proof fn lemma_power_monotone_pub(m: int, a: nat, b: nat)
    requires
        m >= 1,
        a <= b,
    ensures
        power(m, a) <= power(m, b),
{
    lemma_power_monotone(m, a, b);
}

/// Dropping digit `k` and dividing once more by `m` gives the digits above `k`.
proof fn lemma_next_high(c: int, k: nat, m: int)
    requires
        c >= 0,
        m >= 2,
    ensures
        c / power(m, k + 1) == (c / power(m, k)) / m,
        c / power(m, k) == m * (c / power(m, k + 1)) + digit(c, k, m),
{
    lemma_power_positive(m, k);
    assert(power(m, k + 1) == m * power(m, k));
    vstd::arithmetic::div_mod::lemma_div_denominator(c, power(m, k), m);
    assert(power(m, k) * m == m * power(m, k)) by (nonlinear_arith);
    vstd::arithmetic::div_mod::lemma_fundamental_div_mod(c / power(m, k), m);
}

/// Digits lie in `0..m`.
proof fn lemma_digit_range(c: int, k: nat, m: int)
    requires
        m >= 2,
    ensures
        0 <= digit(c, k, m) < m,
{
    vstd::arithmetic::div_mod::lemma_mod_bound(c / power(m, k), m);
}

/// A stepped prefix of `k` digits is below `m^k`.
proof fn lemma_stepped_bound(c: int, e: u32, k: nat, m: int)
    requires
        m >= 2,
    ensures
        0 <= stepped_upto(c, e, k, m) < power(m, k),
    decreases k,
{
    if k > 0 {
        let j = (k - 1) as nat;
        lemma_stepped_bound(c, e, j, m);
        lemma_digit_range(c, j, m);
        lemma_power_positive(m, j);
        let v = applied_value(digit(c, j, m), m, covers_cell(e, j));
        assert(0 <= v < m);
        assert(0 <= v * power(m, j) <= (m - 1) * power(m, j)) by (nonlinear_arith)
            requires
                0 <= v < m,
                power(m, j) >= 1,
        ;
        assert((m - 1) * power(m, j) + power(m, j) == m * power(m, j)) by (nonlinear_arith);
    }
}

/// The digits above position `j` of a configuration below `m^n` leave room
/// for a full block of `m^j` below `m^n`.
proof fn lemma_high_part_bound(c: int, m: int, j: nat, n: nat)
    requires
        m >= 2,
        j <= n,
        0 <= c < power(m, n),
    ensures
        (c / power(m, j)) * power(m, j) + power(m, j) <= power(m, n),
{
    let d = (n - j) as nat;
    lemma_power_adds(m, d, j);
    assert((d + j) as nat == n);
    lemma_power_positive(m, j);
    lemma_power_positive(m, d);
    vstd::arithmetic::div_mod::lemma_multiply_divide_lt(c, power(m, j), power(m, d));
    assert(power(m, j) * power(m, d) == power(m, d) * power(m, j)) by (nonlinear_arith);
    let q = c / power(m, j);
    assert(q + 1 <= power(m, d));
    assert(q * power(m, j) + power(m, j) <= power(m, d) * power(m, j)) by (nonlinear_arith)
        requires
            q + 1 <= power(m, d),
            power(m, j) >= 1,
    ;
}

/// The configuration reached by a placement with effect `effect`.
#[verifier::spinoff_prover]
pub fn apply_effect(config: usize, effect: u32, cell_count: usize, modulus: usize) -> (r: usize)
    requires
        2 <= modulus <= 5,
        cell_count <= 16,
        power(modulus as int, cell_count as nat) <= u32::MAX,
        config < power(modulus as int, cell_count as nat),
    ensures
        r == stepped(config as int, effect, cell_count as nat, modulus as int),
        r < power(modulus as int, cell_count as nat),
{
    let ghost c = config as int;
    let ghost m = modulus as int;
    let ghost n = cell_count as nat;
    let mut result = config;
    let mut multiplier: usize = 1;
    let mut cell_index: usize = 0;
    while cell_index < cell_count
        invariant
            2 <= modulus <= 5,
            cell_count <= 16,
            power(m, n) <= u32::MAX,
            c < power(m, n),
            c == config,
            m == modulus,
            n == cell_count,
            cell_index <= cell_count,
            multiplier == power(m, cell_index as nat),
            result == stepped_upto(c, effect, cell_index as nat, m) + (c / power(m, cell_index as nat))
                * power(m, cell_index as nat),
        decreases cell_count - cell_index,
    {
        let ghost i = cell_index as nat;
        let ghost low = stepped_upto(c, effect, i, m);
        let ghost q = c / power(m, i);
        proof {
            lemma_stepped_bound(c, effect, i, m);
            lemma_power_positive(m, i);
            lemma_next_high(c, i, m);
            lemma_digit_range(c, i, m);
            lemma_high_part_bound(c, m, i + 1, n);
            lemma_high_part_bound(c, m, i, n);
            vstd::arithmetic::div_mod::lemma_fundamental_div_mod_converse(result as int, power(m, i), q, low);
            assert(q >= 0) by {
                vstd::arithmetic::div_mod::lemma_div_pos_is_pos(c, power(m, i));
            }
            assert(power(m, i + 1) == m * power(m, i));
        }
        let ghost dg = digit(c, i, m);
        assert(result / multiplier % modulus == dg);
        let ghost q1 = c / power(m, i + 1);
        if effect & (1u32 << (cell_index as u32)) != 0 {
            let d = result / multiplier % modulus;
            if d == 0 {
                proof {
                    assert(q == m * q1);
                    assert(result + (m - 1) * power(m, i) == low + (m - 1) * power(m, i) + q1 * power(
                        m,
                        i + 1,
                    )) by (nonlinear_arith)
                        requires
                            result == low + q * power(m, i),
                            q == m * q1,
                            power(m, i + 1) == m * power(m, i),
                    ;
                    assert(q1 * power(m, i + 1) + power(m, i + 1) <= power(m, n));
                    assert(low + (m - 1) * power(m, i) < power(m, i + 1)) by (nonlinear_arith)
                        requires
                            power(m, i + 1) == m * power(m, i),
                            0 <= low < power(m, i),
                    ;
                }
                result = result + (modulus - 1) * multiplier;
            } else {
                proof {
                    assert(q == m * q1 + d);
                    assert(result - power(m, i) == low + (d - 1) * power(m, i) + q1 * power(m, i + 1))
                        by (nonlinear_arith)
                        requires
                            result == low + q * power(m, i),
                            q == m * q1 + d,
                            power(m, i + 1) == m * power(m, i),
                    ;
                    assert(result >= power(m, i)) by (nonlinear_arith)
                        requires
                            result == low + q * power(m, i),
                            q >= d,
                            d >= 1,
                            low >= 0,
                            power(m, i) >= 1,
                    ;
                }
                result = result - multiplier;
            }
        } else {
            proof {
                assert(q == m * q1 + dg);
                assert(result == low + dg * power(m, i) + q1 * power(m, i + 1)) by (nonlinear_arith)
                    requires
                        result == low + q * power(m, i),
                        q == m * q1 + dg,
                        power(m, i + 1) == m * power(m, i),
                ;
            }
        }
        proof {
            lemma_power_monotone(m, i + 1, n);
        }
        multiplier = multiplier * modulus;
        cell_index = cell_index + 1;
    }
    proof {
        lemma_stepped_bound(c, effect, n, m);
        lemma_power_positive(m, n);
        assert(c / power(m, n) == 0) by {
            vstd::arithmetic::div_mod::lemma_basic_div(c, power(m, n));
        }
        assert((c / power(m, n)) * power(m, n) == 0);
    }
    result
}

/// Sum of the `cell_count` digits of `config`: the deficit of the region.
pub fn configuration_deficit(config: usize, cell_count: usize, modulus: usize) -> (r: u16)
    requires
        2 <= modulus <= 5,
        cell_count <= 16,
    ensures
        r == digit_sum(config as int, cell_count as nat, modulus as int),
{
    let ghost c = config as int;
    let ghost m = modulus as int;
    let mut rest = config;
    let mut deficit: u16 = 0;
    let mut k: usize = 0;
    while k < cell_count
        invariant
            2 <= modulus <= 5,
            cell_count <= 16,
            c == config,
            m == modulus,
            k <= cell_count,
            rest == c / power(m, k as nat),
            deficit == digit_sum(c, k as nat, m),
            deficit <= 4 * k,
        decreases cell_count - k,
    {
        proof {
            lemma_next_high(c, k as nat, m);
            lemma_digit_range(c, k as nat, m);
        }
        deficit = deficit + (rest % modulus) as u16;
        rest = rest / modulus;
        k = k + 1;
    }
    deficit
}

/// `e` is the effect on the region `cells` of a placement covering `mask`.
pub open spec fn is_effect_of(e: u32, mask: Bitboard, cells: Seq<u32>) -> bool {
    &&& e < (1u32 << (cells.len() as u32))
    &&& forall|k: nat| k < cells.len() ==> #[trigger] covers_cell(e, k) == mask.bit(cells[k as int] as int)
}

/// Some placement has effect `e`.
pub open spec fn some_placement_has(e: u32, placements: Seq<(usize, usize, Bitboard)>, cells: Seq<u32>) -> bool {
    exists|k: int| 0 <= k < placements.len() && #[trigger] is_effect_of(e, placements[k].2, cells)
}

/// Some listed effect is that of a placement covering `mask`.
pub open spec fn some_effect_of(effects: Seq<u32>, mask: Bitboard, cells: Seq<u32>) -> bool {
    exists|j: int| 0 <= j < effects.len() && #[trigger] is_effect_of(effects[j], mask, cells)
}

/// `effects` lists, in increasing order, the distinct effects on the region
/// `cells` of the placements: that of every placement, and no other.
pub open spec fn lists_effects(effects: Seq<u32>, placements: Seq<(usize, usize, Bitboard)>, cells: Seq<u32>) -> bool {
    &&& forall|j: int| 0 <= j < effects.len() ==> #[trigger] some_placement_has(effects[j], placements, cells)
    &&& forall|k: int| 0 <= k < placements.len() ==> #[trigger] some_effect_of(effects, placements[k].2, cells)
    &&& forall|i: int, j: int| 0 <= i < j < effects.len() ==> effects[i] < effects[j]
}

proof fn lemma_set_bit(e: u32, k: u32, j: u32)
    by (bit_vector)
    requires
        k < 16,
        j < 32,
        e < (1u32 << k),
    ensures
        ((e | (1u32 << k)) & (1u32 << j) != 0) == ((e & (1u32 << j) != 0) || j == k),
        (e | (1u32 << k)) < (1u32 << (k + 1)),
        e < (1u32 << (k + 1)),
{
}

proof fn lemma_bit_above(e: u32, k: u32)
    by (bit_vector)
    requires
        k < 16,
        e < (1u32 << k),
    ensures
        e & (1u32 << k) == 0,
{
}

/// The effect on the region `cells` of a placement covering `mask`.
fn effect_of(mask: &Bitboard, cells: &Vec<u32>) -> (r: u32)
    requires
        cells@.len() <= 16,
        forall|k: int| 0 <= k < cells@.len() ==> #[trigger] cells@[k] < 256,
    ensures
        is_effect_of(r, *mask, cells@),
{
    let mut effect: u32 = 0;
    let mut k: usize = 0;
    assert(0u32 < (1u32 << 0u32)) by (bit_vector);
    while k < cells.len()
        invariant
            cells@.len() <= 16,
            forall|j: int| 0 <= j < cells@.len() ==> #[trigger] cells@[j] < 256,
            k <= cells@.len(),
            effect < (1u32 << (k as u32)),
            forall|j: nat| j < k ==> #[trigger] covers_cell(effect, j) == mask.bit(cells@[j as int] as int),
        decreases cells@.len() - k,
    {
        let ghost before = effect;
        let hit = mask.get_bit(cells[k]);
        if hit {
            effect = effect | (1u32 << (k as u32));
        }
        proof {
            assert forall|j: nat| j < k + 1 implies #[trigger] covers_cell(effect, j) == mask.bit(
                cells@[j as int] as int,
            ) by {
                lemma_set_bit(before, k as u32, j as u32);
                if j < k {
                    assert(covers_cell(before, j) == mask.bit(cells@[j as int] as int));
                }
                if j == k && !hit {
                    lemma_bit_above(before, k as u32);
                }
            }
            lemma_set_bit(before, k as u32, 0);
            assert((k + 1) as u32 == (k as u32) + 1);
        }
        k = k + 1;
    }
    effect
}

/// How many of the region's `n` cells effect `e` covers.
fn count_covered(e: u32, n: usize) -> (r: u16)
    requires
        n <= 16,
    ensures
        r == covered_count(e, n as nat),
        r <= n,
{
    let mut count: u16 = 0;
    let mut k: usize = 0;
    while k < n
        invariant
            n <= 16,
            k <= n,
            count == covered_count(e, k as nat),
            count <= k,
        decreases n - k,
    {
        if e & (1u32 << (k as u32)) != 0 {
            count = count + 1;
        }
        k = k + 1;
    }
    count
}

/// The distinct effects on the region `cells` of a piece's placements, in
/// increasing order, each with the number of region cells it covers.
fn piece_effects(placements: &Vec<(usize, usize, Bitboard)>, cells: &Vec<u32>) -> (r: (Vec<u32>, Vec<u16>))
    requires
        cells@.len() <= 16,
        forall|k: int| 0 <= k < cells@.len() ==> #[trigger] cells@[k] < 256,
    ensures
        lists_effects(r.0@, placements@, cells@),
        r.1@.len() == r.0@.len(),
        forall|j: int| 0 <= j < r.0@.len() ==> #[trigger] r.1@[j] == covered_count(r.0@[j], cells@.len() as nat),
{
    let n = cells.len();
    let size = (1u32 << (n as u32)) as usize;
    let mut seen: Vec<bool> = Vec::new();
    while seen.len() < size
        invariant
            seen@.len() <= size,
            forall|e: int| 0 <= e < seen@.len() ==> !#[trigger] seen@[e],
        decreases size - seen@.len(),
    {
        seen.push(false);
    }
    let ghost mut found: Seq<u32> = Seq::empty();
    let mut k: usize = 0;
    while k < placements.len()
        invariant
            n == cells@.len(),
            n <= 16,
            forall|j: int| 0 <= j < cells@.len() ==> #[trigger] cells@[j] < 256,
            size == (1u32 << (n as u32)) as usize,
            seen@.len() == size,
            k <= placements@.len(),
            found.len() == k,
            forall|i: int| 0 <= i < k ==> #[trigger] is_effect_of(found[i], placements@[i].2, cells@),
            forall|e: int| 0 <= e < size ==> (#[trigger] seen@[e] <==> exists|i: int| 0 <= i < k && found[i] == e),
        decreases placements@.len() - k,
    {
        let e = effect_of(&placements[k].2, cells);
        seen.set(e as usize, true);
        proof {
            let old_found = found;
            found = found.push(e);
            assert forall|x: int| 0 <= x < size implies (#[trigger] seen@[x] <==> exists|i: int|
                0 <= i < k + 1 && found[i] == x) by {
                if x == e {
                    assert(found[k as int] == e);
                } else if seen@[x] {
                    let i = choose|i: int| 0 <= i < k && old_found[i] == x;
                    assert(found[i] == x);
                } else {
                    assert forall|i: int| 0 <= i < k + 1 implies found[i] != x by {
                        if i < k {
                            assert(found[i] == old_found[i]);
                        }
                    }
                }
            }
        }
        k = k + 1;
    }
    let mut effects: Vec<u32> = Vec::new();
    let mut counts: Vec<u16> = Vec::new();
    let mut e: usize = 0;
    while e < size
        invariant
            n == cells@.len(),
            n <= 16,
            size == (1u32 << (n as u32)) as usize,
            seen@.len() == size,
            found.len() == placements@.len(),
            forall|i: int| 0 <= i < found.len() ==> #[trigger] is_effect_of(found[i], placements@[i].2, cells@),
            forall|x: int| 0 <= x < size ==> (#[trigger] seen@[x] <==> exists|i: int| 0 <= i < found.len() && found[i] == x),
            e <= size,
            counts@.len() == effects@.len(),
            forall|j: int| 0 <= j < effects@.len() ==> #[trigger] effects@[j] < e && seen@[effects@[j] as int],
            forall|i: int, j: int| 0 <= i < j < effects@.len() ==> effects@[i] < effects@[j],
            forall|x: int| 0 <= x < e && seen@[x] ==> exists|j: int| 0 <= j < effects@.len() && #[trigger] effects@[j] == x,
            forall|j: int| 0 <= j < effects@.len() ==> #[trigger] counts@[j] == covered_count(effects@[j], n as nat),
        decreases size - e,
    {
        let ghost old_effects = effects@;
        if seen[e] {
            let c = count_covered(e as u32, n);
            effects.push(e as u32);
            counts.push(c);
            proof {
                assert(effects@[effects@.len() - 1] == e);
            }
        }
        proof {
            assert forall|x: int| 0 <= x < e + 1 && seen@[x] implies exists|j: int|
                0 <= j < effects@.len() && #[trigger] effects@[j] == x by {
                if x < e {
                    let j = choose|j: int| 0 <= j < old_effects.len() && #[trigger] old_effects[j] == x;
                    assert(effects@[j] == old_effects[j]);
                } else {
                    assert(effects@[effects@.len() - 1] == e);
                }
            }
        }
        e = e + 1;
    }
    proof {
        assert forall|j: int| 0 <= j < effects@.len() implies #[trigger] some_placement_has(effects@[j], placements@, cells@) by {
            let x = effects@[j] as int;
            assert(seen@[x]);
            let i = choose|i: int| 0 <= i < found.len() && found[i] == x;
            assert(is_effect_of(found[i], placements@[i].2, cells@));
            assert(is_effect_of(effects@[j], placements@[i].2, cells@));
        }
        assert forall|i: int| 0 <= i < placements@.len() implies #[trigger] some_effect_of(effects@, placements@[i].2, cells@) by {
            let x = found[i];
            assert(is_effect_of(found[i], placements@[i].2, cells@));
            assert((x as usize) < size);
            assert(seen@[x as int]);
            let j = choose|j: int| 0 <= j < effects@.len() && #[trigger] effects@[j] == x as int;
            assert(effects@[j] == x);
            assert(is_effect_of(effects@[j], placements@[i].2, cells@));
        }
        assert(forall|i: int, j: int| 0 <= i < j < effects@.len() ==> effects@[i] < effects@[j]);
    }
    (effects, counts)
}

/// The placement lists of the pieces, as sequences.
pub open spec fn placement_lists(placements: Seq<Vec<(usize, usize, Bitboard)>>) -> Seq<Seq<(usize, usize, Bitboard)>> {
    placements.map_values(|v: Vec<(usize, usize, Bitboard)>| v@)
}

/// The least number of region cells hit by one placement of each piece from
/// `p` on, choosing among the listed effects, that brings configuration `c`
/// to all zeros; capped at `UNREACHABLE - 1`, and `UNREACHABLE` if no choice
/// does.
pub open spec fn min_area(effects: Seq<Seq<u32>>, p: int, c: int, n: nat, m: int) -> int
    decreases effects.len() - p, 1int, 0int,
{
    if p < 0 || p >= effects.len() {
        if c == 0 {
            0
        } else {
            UNREACHABLE as int
        }
    } else {
        best_area(effects, p, c, n, m, effects[p].len() as int)
    }
}

/// The best of `min_area` over the first `j` effects listed for piece `p`.
pub open spec fn best_area(effects: Seq<Seq<u32>>, p: int, c: int, n: nat, m: int, j: int) -> int
    decreases effects.len() - p, 0int, j,
{
    if j <= 0 || p < 0 || p >= effects.len() {
        UNREACHABLE as int
    } else {
        let prev = best_area(effects, p, c, n, m, j - 1);
        let e = effects[p][j - 1];
        let suffix = min_area(effects, p + 1, stepped(c, e, n, m), n, m);
        if suffix == UNREACHABLE as int {
            prev
        } else {
            let area = if suffix + covered_count(e, n) < UNREACHABLE - 1 {
                suffix + covered_count(e, n)
            } else {
                UNREACHABLE - 1
            };
            if area < prev {
                area
            } else {
                prev
            }
        }
    }
}

/// The fewest extra cycles of M the region still needs in configuration `c`
/// with pieces `p..` to place: the committed area beyond the region's
/// deficit, divided by M; `UNREACHABLE` if no choice solves it.
pub open spec fn extra_cycles(effects: Seq<Seq<u32>>, p: int, c: int, n: nat, m: int) -> int {
    let area = min_area(effects, p, c, n, m);
    let deficit = digit_sum(c, n, m);
    if area == UNREACHABLE as int {
        UNREACHABLE as int
    } else if area >= deficit {
        (area - deficit) / m
    } else {
        0
    }
}

/// The most extra cycles any of the first `k` configurations needs with
/// pieces `p..` to place, or `UNREACHABLE` if one of them cannot be solved.
pub open spec fn layer_max_upto(effects: Seq<Seq<u32>>, p: int, k: int, n: nat, m: int) -> int
    decreases k,
{
    if k <= 0 {
        0
    } else {
        let prev = layer_max_upto(effects, p, k - 1, n, m);
        let x = extra_cycles(effects, p, k - 1, n, m);
        if x == UNREACHABLE as int || prev == UNREACHABLE as int {
            UNREACHABLE as int
        } else if x > prev {
            x
        } else {
            prev
        }
    }
}

/// The least committed areas of every configuration with pieces `p..` to place.
fn area_layer(
    effects: &Vec<Vec<u32>>,
    counts: &Vec<Vec<u16>>,
    next: &Vec<u16>,
    p: usize,
    config_count: usize,
    cell_count: usize,
    modulus: usize,
) -> (r: Vec<u16>)
    requires
        2 <= modulus <= 5,
        cell_count <= 16,
        config_count == power(modulus as int, cell_count as nat),
        config_count <= u32::MAX,
        p < effects@.len(),
        counts@.len() == effects@.len(),
        forall|q: int| 0 <= q < effects@.len() ==> (#[trigger] counts@[q])@.len() == effects@[q]@.len(),
        forall|q: int, j: int|
            0 <= q < effects@.len() && 0 <= j < effects@[q]@.len() ==> #[trigger] counts@[q]@[j]
                == covered_count(effects@[q]@[j], cell_count as nat),
        next@.len() == config_count,
        forall|c: int|
            0 <= c < config_count ==> #[trigger] next@[c] == min_area(
                effects@.map_values(|v: Vec<u32>| v@),
                p + 1,
                c,
                cell_count as nat,
                modulus as int,
            ),
    ensures
        r@.len() == config_count,
        forall|c: int|
            0 <= c < config_count ==> #[trigger] r@[c] == min_area(
                effects@.map_values(|v: Vec<u32>| v@),
                p as int,
                c,
                cell_count as nat,
                modulus as int,
            ),
{
    let ghost es = effects@.map_values(|v: Vec<u32>| v@);
    let ghost n = cell_count as nat;
    let ghost m = modulus as int;
    let piece_effects = &effects[p];
    let piece_counts = &counts[p];
    assert(es[p as int] == piece_effects@);
    let mut layer: Vec<u16> = Vec::new();
    let mut config: usize = 0;
    while config < config_count
        invariant
            2 <= modulus <= 5,
            cell_count <= 16,
            config_count == power(m, n),
            config_count <= u32::MAX,
            n == cell_count,
            m == modulus,
            es == effects@.map_values(|v: Vec<u32>| v@),
            p < effects@.len(),
            es[p as int] == piece_effects@,
            piece_counts@.len() == piece_effects@.len(),
            forall|j: int| 0 <= j < piece_effects@.len() ==> #[trigger] piece_counts@[j] == covered_count(piece_effects@[j], n),
            next@.len() == config_count,
            forall|c: int| 0 <= c < config_count ==> #[trigger] next@[c] == min_area(es, p + 1, c, n, m),
            config <= config_count,
            layer@.len() == config,
            forall|c: int| 0 <= c < config ==> #[trigger] layer@[c] == min_area(es, p as int, c, n, m),
        decreases config_count - config,
    {
        let mut best: u16 = UNREACHABLE;
        let mut j: usize = 0;
        while j < piece_effects.len()
            invariant
                2 <= modulus <= 5,
                cell_count <= 16,
                config_count == power(m, n),
                config_count <= u32::MAX,
                n == cell_count,
                m == modulus,
                p < es.len(),
                es[p as int] == piece_effects@,
                piece_counts@.len() == piece_effects@.len(),
                forall|i: int| 0 <= i < piece_effects@.len() ==> #[trigger] piece_counts@[i] == covered_count(piece_effects@[i], n),
                next@.len() == config_count,
                forall|c: int| 0 <= c < config_count ==> #[trigger] next@[c] == min_area(es, p + 1, c, n, m),
                config < config_count,
                j <= piece_effects@.len(),
                best == best_area(es, p as int, config as int, n, m, j as int),
            decreases piece_effects@.len() - j,
        {
            let effect = piece_effects[j];
            let next_config = apply_effect(config, effect, cell_count, modulus);
            let suffix = next[next_config];
            if suffix != UNREACHABLE {
                let sum = suffix as u32 + piece_counts[j] as u32;
                let area: u16 = if sum < (UNREACHABLE - 1) as u32 {
                    sum as u16
                } else {
                    UNREACHABLE - 1
                };
                if area < best {
                    best = area;
                }
            }
            j = j + 1;
        }
        layer.push(best);
        config = config + 1;
    }
    layer
}

/// The extra cycles of every configuration, from its least committed area,
/// and the most of them (or `UNREACHABLE` if one cannot be solved).
fn extra_layer(
    areas: &Vec<u16>,
    deficits: &Vec<u16>,
    Ghost(es): Ghost<Seq<Seq<u32>>>,
    Ghost(p): Ghost<int>,
    config_count: usize,
    cell_count: usize,
    modulus: usize,
) -> (r: (Vec<u16>, u16))
    requires
        2 <= modulus <= 5,
        cell_count <= 16,
        areas@.len() == config_count,
        deficits@.len() == config_count,
        forall|c: int|
            0 <= c < config_count ==> #[trigger] areas@[c] == min_area(es, p, c, cell_count as nat, modulus as int),
        forall|c: int|
            0 <= c < config_count ==> #[trigger] deficits@[c] == digit_sum(c, cell_count as nat, modulus as int),
    ensures
        r.0@.len() == config_count,
        forall|c: int|
            0 <= c < config_count ==> #[trigger] r.0@[c] == extra_cycles(es, p, c, cell_count as nat, modulus as int),
        r.1 == layer_max_upto(es, p, config_count as int, cell_count as nat, modulus as int),
{
    let ghost n = cell_count as nat;
    let ghost m = modulus as int;
    let mut extras: Vec<u16> = Vec::new();
    let mut maximum: u16 = 0;
    let mut config: usize = 0;
    while config < config_count
        invariant
            2 <= modulus <= 5,
            cell_count <= 16,
            n == cell_count,
            m == modulus,
            areas@.len() == config_count,
            deficits@.len() == config_count,
            forall|c: int| 0 <= c < config_count ==> #[trigger] areas@[c] == min_area(es, p, c, n, m),
            forall|c: int| 0 <= c < config_count ==> #[trigger] deficits@[c] == digit_sum(c, n, m),
            config <= config_count,
            extras@.len() == config,
            forall|c: int| 0 <= c < config ==> #[trigger] extras@[c] == extra_cycles(es, p, c, n, m),
            maximum == layer_max_upto(es, p, config as int, n, m),
        decreases config_count - config,
    {
        let area = areas[config];
        assert(area == min_area(es, p, config as int, n, m));
        if area == UNREACHABLE {
            extras.push(UNREACHABLE);
            maximum = UNREACHABLE;
        } else {
            let deficit = deficits[config];
            assert(deficit == digit_sum(config as int, n, m));
            let extra: u16 = if area >= deficit {
                (area - deficit) / (modulus as u16)
            } else {
                0
            };
            extras.push(extra);
            if maximum != UNREACHABLE && extra > maximum {
                maximum = extra;
            }
        }
        config = config + 1;
    }
    (extras, maximum)
}

/// The low `k` digits of the region's configuration on board `b`: digit `j`
/// is the value of cell `cells[j]`.
pub open spec fn config_upto(b: Board, cells: Seq<u32>, k: nat, m: int) -> int
    decreases k,
{
    if k == 0 {
        0
    } else {
        config_upto(b, cells, (k - 1) as nat, m) + b.cell(cells[k - 1] as int) * power(m, (k - 1) as nat)
    }
}

/// Cell values below `m` make a configuration below `m^k`.
pub proof fn lemma_config_bound(b: Board, cells: Seq<u32>, k: nat, m: int)
    requires
        m >= 2,
        k <= cells.len(),
        forall|j: int| 0 <= j < k ==> 0 <= #[trigger] b.cell(cells[j] as int) < m,
    ensures
        0 <= config_upto(b, cells, k, m) < power(m, k),
    decreases k,
{
    if k > 0 {
        let j = (k - 1) as nat;
        lemma_config_bound(b, cells, j, m);
        lemma_power_positive(m, j);
        let v = b.cell(cells[j as int] as int);
        assert(0 <= v < m);
        assert(0 <= v * power(m, j) <= (m - 1) * power(m, j)) by (nonlinear_arith)
            requires
                0 <= v < m,
                power(m, j) >= 1,
        ;
        assert((m - 1) * power(m, j) + power(m, j) == m * power(m, j)) by (nonlinear_arith);
    }
}

/// A small region of the board with, for every suffix of the pieces and every
/// configuration of the region, the fewest extra cycles of M that solving the
/// region needs.
pub struct CellSet {
    /// The region's cells, as bitboard indices; cell `k` is digit `k`.
    cells: Vec<u32>,
    modulus: u8,
    /// M to the power of the number of cells.
    config_count: usize,
    /// The distinct effects of each piece's placements on the region.
    effects: Ghost<Seq<Seq<u32>>>,
    /// Extra cycles, by piece index and configuration.
    minimum_extra_cycles: Vec<Vec<u16>>,
    /// The most extra cycles over all configurations, by piece index.
    layer_maximum_extra_cycles: Vec<u16>,
}

impl CellSet {
    /// The region's cells.
    pub closed spec fn cells_spec(self) -> Seq<u32> {
        self.cells@
    }

    /// The modulus the tables are built for.
    pub closed spec fn modulus_spec(self) -> int {
        self.modulus as int
    }

    /// The distinct effects of each piece's placements on the region.
    pub closed spec fn effects_spec(self) -> Seq<Seq<u32>> {
        self.effects@
    }

    /// Number of configurations of the region.
    pub closed spec fn config_count_spec(self) -> int {
        self.config_count as int
    }

    /// The tables hold `extra_cycles` and `layer_max_upto` of the listed effects.
    pub closed spec fn wf(self) -> bool {
        let n = self.cells@.len();
        let m = self.modulus as int;
        let pieces = self.effects@.len();
        &&& 2 <= self.modulus <= 5
        &&& n <= 16
        &&& forall|k: int| 0 <= k < n ==> #[trigger] self.cells@[k] < 256
        &&& self.config_count == power(m, n)
        &&& (pieces + 1) * self.config_count <= u32::MAX
        &&& self.minimum_extra_cycles@.len() == pieces + 1
        &&& forall|p: int| 0 <= p <= pieces ==> (#[trigger] self.minimum_extra_cycles@[p])@.len() == self.config_count
        &&& forall|p: int, c: int|
            0 <= p <= pieces && 0 <= c < self.config_count ==> #[trigger] self.minimum_extra_cycles@[p]@[c]
                == extra_cycles(self.effects@, p, c, n, m)
        &&& self.layer_maximum_extra_cycles@.len() == pieces + 1
        &&& forall|p: int|
            0 <= p <= pieces ==> #[trigger] self.layer_maximum_extra_cycles@[p] == layer_max_upto(
                self.effects@,
                p,
                self.config_count as int,
                n,
                m,
            )
    }

    /// The listed effects are those of `placements`, piece by piece.
    pub open spec fn describes(self, placements: Seq<Seq<(usize, usize, Bitboard)>>) -> bool {
        &&& self.effects_spec().len() == placements.len()
        &&& forall|p: int|
            0 <= p < placements.len() ==> #[trigger] lists_effects(self.effects_spec()[p], placements[p], self.cells_spec())
    }

    /// Build the tables for the region `cells` and the pieces' placements.
    pub fn precompute(cells: Vec<u32>, placements: &[Vec<(usize, usize, Bitboard)>], modulus: u8) -> (r: Self)
        requires
            2 <= modulus <= 5,
            cells@.len() <= 16,
            forall|k: int| 0 <= k < cells@.len() ==> #[trigger] cells@[k] < 256,
            (placements@.len() + 1) * power(modulus as int, cells@.len() as nat) <= u32::MAX,
        ensures
            r.wf(),
            r.cells_spec() == cells@,
            r.modulus_spec() == modulus,
            r.describes(placement_lists(placements@)),
    {
        let n = cells.len();
        let m = modulus as usize;
        let ghost pm = placement_lists(placements@);
        let piece_count = placements.len();
        proof {
            lemma_power_positive(m as int, n as nat);
            assert(power(m as int, n as nat) <= (piece_count + 1) * power(m as int, n as nat)) by (nonlinear_arith)
                requires
                    power(m as int, n as nat) >= 1,
            ;
            assert(piece_count + 1 <= (piece_count + 1) * power(m as int, n as nat)) by (nonlinear_arith)
                requires
                    power(m as int, n as nat) >= 1,
            ;
        }
        let mut config_count: usize = 1;
        let mut k: usize = 0;
        while k < n
            invariant
                k <= n,
                2 <= m <= 5,
                power(m as int, n as nat) <= u32::MAX,
                config_count == power(m as int, k as nat),
            decreases n - k,
        {
            proof {
                lemma_power_monotone(m as int, (k + 1) as nat, n as nat);
                assert(power(m as int, (k + 1) as nat) == m * power(m as int, k as nat));
                assert(config_count * m == m * config_count) by (nonlinear_arith);
            }
            config_count = config_count * m;
            k = k + 1;
        }
        let mut effects: Vec<Vec<u32>> = Vec::new();
        let mut counts: Vec<Vec<u16>> = Vec::new();
        let mut q: usize = 0;
        while q < piece_count
            invariant
                n == cells@.len(),
                n <= 16,
                forall|k: int| 0 <= k < cells@.len() ==> #[trigger] cells@[k] < 256,
                piece_count == placements@.len(),
                pm == placement_lists(placements@),
                q <= piece_count,
                effects@.len() == q,
                counts@.len() == q,
                forall|i: int| 0 <= i < q ==> (#[trigger] counts@[i])@.len() == effects@[i]@.len(),
                forall|i: int, j: int|
                    0 <= i < q && 0 <= j < effects@[i]@.len() ==> #[trigger] counts@[i]@[j] == covered_count(
                        effects@[i]@[j],
                        n as nat,
                    ),
                forall|i: int| 0 <= i < q ==> #[trigger] lists_effects(effects@[i]@, pm[i], cells@),
            decreases piece_count - q,
        {
            let (piece_effects, piece_counts) = piece_effects(&placements[q], &cells);
            effects.push(piece_effects);
            counts.push(piece_counts);
            q = q + 1;
        }
        let ghost es = effects@.map_values(|v: Vec<u32>| v@);
        let mut areas: Vec<Vec<u16>> = Vec::new();
        let mut i: usize = 0;
        while i <= piece_count
            invariant
                piece_count + 1 <= u32::MAX,
                i <= piece_count + 1,
                areas@.len() == i,
            decreases piece_count + 1 - i,
        {
            areas.push(Vec::new());
            i = i + 1;
        }
        let mut last: Vec<u16> = Vec::new();
        let mut c: usize = 0;
        while c < config_count
            invariant
                c <= config_count,
                last@.len() == c,
                effects@.len() == piece_count,
                es == effects@.map_values(|v: Vec<u32>| v@),
                forall|x: int| 0 <= x < c ==> #[trigger] last@[x] == min_area(es, piece_count as int, x, n as nat, m as int),
            decreases config_count - c,
        {
            if c == 0 {
                last.push(0);
            } else {
                last.push(UNREACHABLE);
            }
            c = c + 1;
        }
        areas.set(piece_count, last);
        let mut p = piece_count;
        while p > 0
            invariant
                2 <= m <= 5,
                n <= 16,
                config_count == power(m as int, n as nat),
                config_count <= u32::MAX,
                p <= piece_count,
                effects@.len() == piece_count,
                es == effects@.map_values(|v: Vec<u32>| v@),
                counts@.len() == effects@.len(),
                forall|i: int| 0 <= i < piece_count ==> (#[trigger] counts@[i])@.len() == effects@[i]@.len(),
                forall|i: int, j: int|
                    0 <= i < piece_count && 0 <= j < effects@[i]@.len() ==> #[trigger] counts@[i]@[j] == covered_count(
                        effects@[i]@[j],
                        n as nat,
                    ),
                areas@.len() == piece_count + 1,
                forall|i: int| p <= i <= piece_count ==> (#[trigger] areas@[i])@.len() == config_count,
                forall|i: int, x: int|
                    p <= i <= piece_count && 0 <= x < config_count ==> #[trigger] areas@[i]@[x] == min_area(
                        es,
                        i,
                        x,
                        n as nat,
                        m as int,
                    ),
            decreases p,
        {
            p = p - 1;
            let layer = area_layer(&effects, &counts, &areas[p + 1], p, config_count, n, m);
            areas.set(p, layer);
        }
        let mut deficits: Vec<u16> = Vec::new();
        while deficits.len() < config_count
            invariant
                2 <= m <= 5,
                n <= 16,
                deficits@.len() <= config_count,
                forall|c: int| 0 <= c < deficits@.len() ==> #[trigger] deficits@[c] == digit_sum(c, n as nat, m as int),
            decreases config_count - deficits@.len(),
        {
            let config = deficits.len();
            deficits.push(configuration_deficit(config, n, m));
        }
        let mut minimum_extra_cycles: Vec<Vec<u16>> = Vec::new();
        let mut layer_maximum_extra_cycles: Vec<u16> = Vec::new();
        let mut p: usize = 0;
        while p <= piece_count
            invariant
                deficits@.len() == config_count,
                forall|c: int| 0 <= c < config_count ==> #[trigger] deficits@[c] == digit_sum(c, n as nat, m as int),
                piece_count + 1 <= u32::MAX,
                2 <= m <= 5,
                n <= 16,
                p <= piece_count + 1,
                areas@.len() == piece_count + 1,
                forall|i: int| 0 <= i <= piece_count ==> (#[trigger] areas@[i])@.len() == config_count,
                forall|i: int, x: int|
                    0 <= i <= piece_count && 0 <= x < config_count ==> #[trigger] areas@[i]@[x] == min_area(
                        es,
                        i,
                        x,
                        n as nat,
                        m as int,
                    ),
                minimum_extra_cycles@.len() == p,
                layer_maximum_extra_cycles@.len() == p,
                forall|i: int| 0 <= i < p ==> (#[trigger] minimum_extra_cycles@[i])@.len() == config_count,
                forall|i: int, x: int|
                    0 <= i < p && 0 <= x < config_count ==> #[trigger] minimum_extra_cycles@[i]@[x] == extra_cycles(
                        es,
                        i,
                        x,
                        n as nat,
                        m as int,
                    ),
                forall|i: int|
                    0 <= i < p ==> #[trigger] layer_maximum_extra_cycles@[i] == layer_max_upto(
                        es,
                        i,
                        config_count as int,
                        n as nat,
                        m as int,
                    ),
            decreases piece_count + 1 - p,
        {
            let (extras, maximum) = extra_layer(&areas[p], &deficits, Ghost(es), Ghost(p as int), config_count, n, m);
            minimum_extra_cycles.push(extras);
            layer_maximum_extra_cycles.push(maximum);
            p = p + 1;
        }
        let r = CellSet {
            cells,
            modulus,
            config_count,
            effects: Ghost(es),
            minimum_extra_cycles,
            layer_maximum_extra_cycles,
        };
        proof {
            assert forall|i: int| 0 <= i < pm.len() implies #[trigger] lists_effects(
                r.effects_spec()[i],
                pm[i],
                r.cells_spec(),
            ) by {
                assert(es[i] == effects@[i]@);
            }
        }
        r
    }

    /// Whether the region allows the state: either every configuration needs
    /// at most `available` extra cycles with pieces `p..` to place, or the
    /// configuration on `b` does.
    pub open spec fn allows_spec(self, b: Board, p: int, available: int) -> bool {
        let n = self.cells_spec().len();
        let m = self.modulus_spec();
        let most = layer_max_upto(self.effects_spec(), p, self.config_count_spec(), n, m);
        let needed = extra_cycles(self.effects_spec(), p, config_upto(b, self.cells_spec(), n, m), n, m);
        ||| most != UNREACHABLE as int && available >= most
        ||| needed != UNREACHABLE as int && needed <= available
    }

    /// The region's configuration on `board`.
    pub fn encode<const MODULUS: usize>(&self, board: &Board) -> (r: usize)
        requires
            self.wf(),
            board.wf(),
            MODULUS == self.modulus_spec(),
            board.modulus() == MODULUS,
            forall|k: int| 0 <= k < self.cells_spec().len() ==> #[trigger] board.valid(self.cells_spec()[k] as int),
        ensures
            r == config_upto(*board, self.cells_spec(), self.cells_spec().len() as nat, MODULUS as int),
            r < self.config_count_spec(),
    {
        let ghost m = MODULUS as int;
        let n = self.cells.len();
        proof {
            board.lemma_wf();
            assert forall|j: int| 0 <= j < n implies #[trigger] board.valid(self.cells@[j] as int) by {
                assert(board.valid(self.cells_spec()[j] as int));
            }
            assert forall|j: int| 0 <= j < n implies 0 <= #[trigger] board.cell(self.cells@[j] as int) < m by {
                assert(board.valid(self.cells@[j] as int));
            }
            lemma_config_bound(*board, self.cells@, n as nat, m);
            lemma_power_positive(m, n as nat);
            assert(self.config_count <= (self.effects@.len() + 1) * self.config_count) by (nonlinear_arith)
                requires
                    self.config_count >= 1,
            ;
        }
        let mut config: usize = 0;
        let mut multiplier: usize = 1;
        let mut k: usize = 0;
        while k < n
            invariant
                self.wf(),
                board.wf(),
                n == self.cells@.len(),
                m == MODULUS,
                board.modulus() == m,
                self.modulus == m,
                forall|j: int| 0 <= j < n ==> #[trigger] board.valid(self.cells@[j] as int),
                forall|j: int| 0 <= j < n ==> 0 <= #[trigger] board.cell(self.cells@[j] as int) < m,
                k <= n,
                multiplier == power(m, k as nat),
                config == config_upto(*board, self.cells@, k as nat, m),
                self.config_count <= u32::MAX,
            decreases n - k,
        {
            let cell = self.cells[k];
            proof {
                bits::lemma_stride_split(cell as int);
                lemma_config_bound(*board, self.cells@, (k + 1) as nat, m);
                lemma_power_monotone(m, (k + 1) as nat, n as nat);
                assert(power(m, (k + 1) as nat) == m * power(m, k as nat));
                board.lemma_wf();
            }
            let value = board.get((cell / 15) as usize, (cell % 15) as usize);
            proof {
                assert(15 * (cell / 15) + cell % 15 == cell);
                assert(value == board.cell(cell as int));
            }
            config = config + (value as usize) * multiplier;
            multiplier = multiplier * MODULUS;
            k = k + 1;
        }
        config
    }

    /// Whether the region can still be solved with at most
    /// `available_extra_cycles` extra cycles by pieces `piece_index..`.
    pub fn allows<const MODULUS: usize>(&self, board: &Board, piece_index: usize, available_extra_cycles: u32) -> (r: bool)
        requires
            self.wf(),
            board.wf(),
            MODULUS == self.modulus_spec(),
            board.modulus() == MODULUS,
            forall|k: int| 0 <= k < self.cells_spec().len() ==> #[trigger] board.valid(self.cells_spec()[k] as int),
            piece_index <= self.effects_spec().len(),
        ensures
            r == self.allows_spec(*board, piece_index as int, available_extra_cycles as int),
    {
        let maximum_extra_cycles = self.layer_maximum_extra_cycles[piece_index];
        if maximum_extra_cycles != UNREACHABLE && available_extra_cycles >= maximum_extra_cycles as u32 {
            return true;
        }
        let config = self.encode::<MODULUS>(board);
        let minimum_extra_cycles = self.minimum_extra_cycles[piece_index][config];
        minimum_extra_cycles != UNREACHABLE && minimum_extra_cycles as u32 <= available_extra_cycles
    }

    /// The extra cycles the region needs in configuration `config` with
    /// pieces `piece_index..` to place.
    pub fn minimum_extra_cycles(&self, piece_index: usize, config: usize) -> (r: u16)
        requires
            self.wf(),
            piece_index <= self.effects_spec().len(),
            config < self.config_count_spec(),
        ensures
            r == extra_cycles(
                self.effects_spec(),
                piece_index as int,
                config as int,
                self.cells_spec().len() as nat,
                self.modulus_spec(),
            ),
    {
        self.minimum_extra_cycles[piece_index][config]
    }
}

/// Size of the corner regions checked for modulus `m` on an `h` by `w`
/// board: 4 by 4 at most for M = 2, 3 by 3 for M = 3 or 4, none for M = 5.
pub open spec fn corner_size(h: int, w: int, m: int) -> Option<(int, int)> {
    if m == 2 {
        Some((if h < 4 { h } else { 4 }, if w < 4 { w } else { 4 }))
    } else if m == 3 || m == 4 {
        Some((3, 3))
    } else {
        None
    }
}

/// The corner region size for modulus `modulus` on a `height` by `width` board.
pub fn corner_rectangle(height: u8, width: u8, modulus: u8) -> (r: Option<(usize, usize)>)
    requires
        2 <= modulus <= 5,
    ensures
        r matches Some(size) ==> corner_size(height as int, width as int, modulus as int) == Some(
            (size.0 as int, size.1 as int),
        ),
        r is None <==> corner_size(height as int, width as int, modulus as int) is None,
{
    if modulus == 2 {
        let h: u8 = if height < 4 { height } else { 4 };
        let w: u8 = if width < 4 { width } else { 4 };
        Some((h as usize, w as usize))
    } else if modulus == 3 || modulus == 4 {
        Some((3, 3))
    } else {
        None
    }
}

/// Top row of corner `i` (top-left, top-right, bottom-left, bottom-right).
pub open spec fn corner_row(h: int, sh: int, i: int) -> int {
    if i < 2 {
        0
    } else {
        h - sh
    }
}

/// Left column of corner `i` (top-left, top-right, bottom-left, bottom-right).
pub open spec fn corner_col(w: int, sw: int, i: int) -> int {
    if i % 2 == 0 {
        0
    } else {
        w - sw
    }
}

/// The cells of the `sh` by `sw` rectangle whose top-left cell is at row
/// `sr`, column `sc`, row by row, as bitboard indices.
pub open spec fn rectangle_cells(sr: int, sc: int, sh: int, sw: int) -> Seq<u32> {
    Seq::new((sh * sw) as nat, |t: int| (15 * (sr + t / sw) + sc + t % sw) as u32)
}

/// Cell `x` of a rectangle within the board sits at its row and column.
proof fn lemma_rectangle_cell(sr: int, sc: int, sh: int, sw: int, x: int)
    requires
        0 <= sr,
        0 <= sc,
        sr + sh <= 14,
        sc + sw <= 14,
        1 <= sw,
        0 <= x < sh * sw,
    ensures
        rectangle_cells(sr, sc, sh, sw)[x] as int == 15 * (sr + x / sw) + sc + x % sw,
        (rectangle_cells(sr, sc, sh, sw)[x] as int) / 15 == sr + x / sw,
        (rectangle_cells(sr, sc, sh, sw)[x] as int) % 15 == sc + x % sw,
        x == sw * (x / sw) + x % sw,
{
    let row = x / sw;
    let col = x % sw;
    vstd::arithmetic::div_mod::lemma_fundamental_div_mod(x, sw);
    assert(row < sh) by {
        assert(sw * sh == sh * sw) by (nonlinear_arith);
        vstd::arithmetic::div_mod::lemma_multiply_divide_lt(x, sw, sh);
    }
    assert(0 <= row) by {
        vstd::arithmetic::div_mod::lemma_div_pos_is_pos(x, sw);
    }
    assert(0 <= col < sw) by {
        vstd::arithmetic::div_mod::lemma_mod_bound(x, sw);
    }
    bits::lemma_stride_index(sr + row, sc + col);
}

/// `cells` is the rectangle at corner `i`.
pub open spec fn is_corner(cells: Seq<u32>, h: int, w: int, sh: int, sw: int, i: int) -> bool {
    cells == rectangle_cells(corner_row(h, sh, i), corner_col(w, sw, i), sh, sw)
}

/// The region is one of the four corner rectangles.
pub open spec fn at_some_corner(cells: Seq<u32>, h: int, w: int, sh: int, sw: int) -> bool {
    exists|i: int| 0 <= i < 4 && #[trigger] is_corner(cells, h, w, sh, sw, i)
}

/// Some listed region is the rectangle at corner `i`.
pub open spec fn corner_listed(sets: Seq<Seq<u32>>, h: int, w: int, sh: int, sw: int, i: int) -> bool {
    exists|k: int| 0 <= k < sets.len() && #[trigger] is_corner(sets[k], h, w, sh, sw, i)
}

/// `sets` lists the distinct `sh` by `sw` corner rectangles of an `h` by `w` board.
pub open spec fn are_corner_sets(sets: Seq<Seq<u32>>, h: int, w: int, sh: int, sw: int) -> bool {
    &&& 1 <= sets.len() <= 4
    &&& forall|k: int| 0 <= k < sets.len() ==> #[trigger] at_some_corner(sets[k], h, w, sh, sw)
    &&& forall|i: int| 0 <= i < 4 ==> #[trigger] corner_listed(sets, h, w, sh, sw, i)
    &&& forall|k: int, l: int| 0 <= k < l < sets.len() ==> sets[k] != sets[l]
}

/// The cells of a rectangle, row by row.
fn rectangle(start_row: usize, start_column: usize, set_height: usize, set_width: usize) -> (r: Vec<u32>)
    requires
        1 <= set_height,
        1 <= set_width,
        start_row + set_height <= 14,
        start_column + set_width <= 14,
    ensures
        r@ == rectangle_cells(start_row as int, start_column as int, set_height as int, set_width as int),
{
    let mut cells: Vec<u32> = Vec::new();
    let mut row: usize = 0;
    while row < set_height
        invariant
            1 <= set_width,
            start_row + set_height <= 14,
            start_column + set_width <= 14,
            row <= set_height,
            cells@.len() == row * set_width,
            forall|t: int|
                0 <= t < cells@.len() ==> #[trigger] cells@[t] == (15 * (start_row + t / set_width as int)
                    + start_column + t % set_width as int) as u32,
        decreases set_height - row,
    {
        let mut column: usize = 0;
        while column < set_width
            invariant
                1 <= set_width,
                start_row + set_height <= 14,
                start_column + set_width <= 14,
                row < set_height,
                column <= set_width,
                cells@.len() == row * set_width + column,
                forall|t: int|
                    0 <= t < cells@.len() ==> #[trigger] cells@[t] == (15 * (start_row + t / set_width as int)
                        + start_column + t % set_width as int) as u32,
            decreases set_width - column,
        {
            proof {
                let t = row * set_width + column;
                vstd::arithmetic::div_mod::lemma_fundamental_div_mod_converse(
                    t as int,
                    set_width as int,
                    row as int,
                    column as int,
                );
                assert(t == set_width * row + column) by (nonlinear_arith)
                    requires
                        t == row * set_width + column,
                ;
            }
            cells.push(((start_row + row) * 15 + start_column + column) as u32);
            column = column + 1;
        }
        proof {
            assert(row * set_width + set_width == (row + 1) * set_width) by (nonlinear_arith);
        }
        row = row + 1;
    }
    proof {
        assert(cells@ =~= rectangle_cells(start_row as int, start_column as int, set_height as int, set_width as int));
    }
    cells
}

/// Rectangles of one size that share their cells share their corner.
proof fn lemma_rectangle_start(a: (int, int), b: (int, int), sh: int, sw: int)
    requires
        1 <= sh,
        1 <= sw,
        0 <= a.0,
        0 <= a.1 < 15,
        0 <= b.0,
        0 <= b.1 < 15,
        15 * a.0 + a.1 < 256,
        15 * b.0 + b.1 < 256,
        rectangle_cells(a.0, a.1, sh, sw) == rectangle_cells(b.0, b.1, sh, sw),
    ensures
        a == b,
{
    assert(sh * sw >= 1) by (nonlinear_arith)
        requires
            1 <= sh,
            1 <= sw,
    ;
    assert(0int / sw == 0 && 0int % sw == 0);
    let x = 15 * a.0 + a.1;
    let y = 15 * b.0 + b.1;
    assert(rectangle_cells(a.0, a.1, sh, sw)[0] == x as u32);
    assert(rectangle_cells(b.0, b.1, sh, sw)[0] == y as u32);
    assert(x == y);
    bits::lemma_stride_index(a.0, a.1);
    bits::lemma_stride_index(b.0, b.1);
}

/// The distinct corner rectangles of the given size, in the order top-left,
/// top-right, bottom-left, bottom-right.
pub fn corner_cell_sets(height: u8, width: u8, rectangle_size: (usize, usize)) -> (r: Vec<Vec<u32>>)
    requires
        1 <= rectangle_size.0 <= height <= 14,
        1 <= rectangle_size.1 <= width <= 14,
    ensures
        are_corner_sets(
            r@.map_values(|v: Vec<u32>| v@),
            height as int,
            width as int,
            rectangle_size.0 as int,
            rectangle_size.1 as int,
        ),
{
    let (set_height, set_width) = rectangle_size;
    let ghost h = height as int;
    let ghost w = width as int;
    let ghost sh = set_height as int;
    let ghost sw = set_width as int;
    let height = height as usize;
    let width = width as usize;
    let mut sets: Vec<Vec<u32>> = Vec::new();
    let mut starts: Vec<(usize, usize)> = Vec::new();
    let mut i: usize = 0;
    while i < 4
        invariant
            1 <= set_height <= height <= 14,
            1 <= set_width <= width <= 14,
            h == height,
            w == width,
            sh == set_height,
            sw == set_width,
            i <= 4,
            sets@.len() == starts@.len(),
            sets@.len() <= i,
            i > 0 ==> sets@.len() >= 1,
            forall|k: int|
                0 <= k < sets@.len() ==> (#[trigger] sets@[k])@ == rectangle_cells(
                    starts@[k].0 as int,
                    starts@[k].1 as int,
                    sh,
                    sw,
                ),
            forall|k: int|
                0 <= k < starts@.len() ==> exists|c: int|
                    0 <= c < 4 && #[trigger] starts@[k] == (corner_row(h, sh, c) as usize, corner_col(w, sw, c) as usize),
            forall|k: int| 0 <= k < starts@.len() ==> (#[trigger] starts@[k]).0 + sh <= h && starts@[k].1 + sw <= w,
            forall|c: int|
                #![trigger corner_row(h, sh, c)]
                0 <= c < i ==> exists|k: int|
                    0 <= k < starts@.len() && #[trigger] starts@[k] == (corner_row(h, sh, c) as usize, corner_col(w, sw, c) as usize),
            forall|k: int, l: int| 0 <= k < l < starts@.len() ==> starts@[k] != starts@[l],
        decreases 4 - i,
    {
        let start_row = if i < 2 { 0 } else { height - set_height };
        let start_column = if i % 2 == 0 { 0 } else { width - set_width };
        let mut found = false;
        let mut k: usize = 0;
        while k < starts.len()
            invariant
                0 <= k <= starts@.len(),
                found ==> exists|j: int| 0 <= j < starts@.len() && starts@[j] == (start_row, start_column),
                !found ==> forall|j: int| 0 <= j < k ==> starts@[j] != (start_row, start_column),
            decreases starts@.len() - k,
        {
            if starts[k].0 == start_row && starts[k].1 == start_column {
                found = true;
            }
            k = k + 1;
        }
        let ghost old_starts = starts@;
        let ghost old_sets = sets@;
        if !found {
            let cells = rectangle(start_row, start_column, set_height, set_width);
            sets.push(cells);
            starts.push((start_row, start_column));
        }
        proof {
            assert((start_row, start_column) == (corner_row(h, sh, i as int) as usize, corner_col(w, sw, i as int) as usize));
            assert forall|k: int| 0 <= k < starts@.len() implies exists|c: int|
                0 <= c < 4 && #[trigger] starts@[k] == (corner_row(h, sh, c) as usize, corner_col(w, sw, c) as usize) by {
                if k < old_starts.len() {
                    assert(starts@[k] == old_starts[k]);
                } else {
                    assert(starts@[k] == (corner_row(h, sh, i as int) as usize, corner_col(w, sw, i as int) as usize));
                }
            }
            assert forall|c: int| #![trigger corner_row(h, sh, c)] 0 <= c < i + 1 implies exists|k: int|
                0 <= k < starts@.len() && #[trigger] starts@[k] == (corner_row(h, sh, c) as usize, corner_col(w, sw, c) as usize) by {
                if c < i {
                    let k = choose|k: int|
                        0 <= k < old_starts.len() && #[trigger] old_starts[k] == (corner_row(h, sh, c) as usize, corner_col(w, sw, c) as usize);
                    assert(starts@[k] == old_starts[k]);
                } else if found {
                    let j = choose|j: int| 0 <= j < old_starts.len() && old_starts[j] == (start_row, start_column);
                    assert(starts@[j] == old_starts[j]);
                } else {
                    assert(starts@[old_starts.len() as int] == (start_row, start_column));
                }
            }
        }
        i = i + 1;
    }
    proof {
        let ss = sets@.map_values(|v: Vec<u32>| v@);
        assert forall|k: int| 0 <= k < ss.len() implies #[trigger] at_some_corner(ss[k], h, w, sh, sw) by {
            let c = choose|c: int|
                0 <= c < 4 && #[trigger] starts@[k] == (corner_row(h, sh, c) as usize, corner_col(w, sw, c) as usize);
            assert(is_corner(ss[k], h, w, sh, sw, c));
        }
        assert forall|c: int| 0 <= c < 4 implies #[trigger] corner_listed(ss, h, w, sh, sw, c) by {
            let k = choose|k: int|
                0 <= k < starts@.len() && #[trigger] starts@[k] == (corner_row(h, sh, c) as usize, corner_col(w, sw, c) as usize);
            assert(is_corner(ss[k], h, w, sh, sw, c));
        }
        assert forall|k: int, l: int| 0 <= k < l < ss.len() implies ss[k] != ss[l] by {
            if ss[k] == ss[l] {
                lemma_rectangle_start(
                    (starts@[k].0 as int, starts@[k].1 as int),
                    (starts@[l].0 as int, starts@[l].1 as int),
                    sh,
                    sw,
                );
            }
        }
    }
    sets
}

/// The extra cycles of M left when `remaining` cells are still to be covered
/// and `deficit` of them are committed.
pub open spec fn available_cycles(remaining: int, deficit: int, m: int) -> int {
    (if remaining >= deficit {
        remaining - deficit
    } else {
        0
    }) / m
}

/// The corner regions checked at every search node.
pub struct CellSetBound {
    sets: Vec<CellSet>,
}

impl CellSetBound {
    /// The regions.
    pub closed spec fn sets_spec(self) -> Seq<CellSet> {
        self.sets@
    }

    /// Every region's tables are built for `placements` and modulus `m`, and
    /// its cells lie on an `h` by `w` board.
    pub open spec fn wf(self, placements: Seq<Seq<(usize, usize, Bitboard)>>, h: int, w: int, m: int) -> bool {
        forall|k: int|
            0 <= k < self.sets_spec().len() ==> {
                let set = #[trigger] self.sets_spec()[k];
                &&& set.wf()
                &&& set.describes(placements)
                &&& set.modulus_spec() == m
                &&& forall|j: int|
                    0 <= j < set.cells_spec().len() ==> crate::model::board::in_board(h, w, #[trigger] set.cells_spec()[j] as int)
            }
    }

    /// A bound checking the given regions.
    pub fn new(sets: Vec<CellSet>) -> (r: Self)
        ensures
            r.sets_spec() == sets@,
    {
        CellSetBound { sets }
    }

    /// Build the regions for the pieces' placements on a `height` by `width`
    /// board with modulus `modulus`: the distinct corner rectangles of
    /// `corner_size`, or none.
    pub fn precompute(placements: &[Vec<(usize, usize, Bitboard)>], height: u8, width: u8, modulus: u8) -> (r: Self)
        requires
            3 <= height <= 14,
            3 <= width <= 14,
            2 <= modulus <= 5,
            placements@.len() <= 4096,
        ensures
            r.wf(placement_lists(placements@), height as int, width as int, modulus as int),
            match corner_size(height as int, width as int, modulus as int) {
                Some(size) => are_corner_sets(
                    r.sets_spec().map_values(|set: CellSet| set.cells_spec()),
                    height as int,
                    width as int,
                    size.0,
                    size.1,
                ),
                None => r.sets_spec().len() == 0,
            },
            forall|k: int| 0 <= k < r.sets_spec().len() ==> distinct_cells(#[trigger] r.sets_spec()[k].cells_spec()),
    {
        let ghost pm = placement_lists(placements@);
        let mut sets: Vec<CellSet> = Vec::new();
        match corner_rectangle(height, width, modulus) {
            None => {},
            Some(rectangle_size) => {
                let (sh, sw) = rectangle_size;
                let all_cells = corner_cell_sets(height, width, rectangle_size);
                let ghost cs = all_cells@.map_values(|v: Vec<u32>| v@);
                let ghost n = sh * sw;
                proof {
                    assert(n <= 16) by (nonlinear_arith)
                        requires
                            n == sh * sw,
                            sh <= 4,
                            sw <= 4,
                    ;
                    if modulus == 2 {
                        lemma_power_monotone(2, n as nat, 16);
                        assert(power(2, 16) == 65536) by {
                            reveal_with_fuel(power, 17);
                        }
                    } else {
                        assert(corner_size(height as int, width as int, modulus as int) == Some((3int, 3int)));
                        assert(sh == 3 && sw == 3);
                        assert(n == 9);
                        assert(power(3, 9) == 19683) by {
                            reveal_with_fuel(power, 10);
                        }
                        assert(power(4, 9) == 262144) by {
                            reveal_with_fuel(power, 10);
                        }
                    }
                    assert((placements@.len() + 1) * power(modulus as int, n as nat) <= u32::MAX) by (nonlinear_arith)
                        requires
                            placements@.len() <= 4096,
                            power(modulus as int, n as nat) <= 262144,
                    ;
                }
                let mut k: usize = 0;
                while k < all_cells.len()
                    invariant
                        2 <= modulus <= 5,
                        3 <= height <= 14,
                        3 <= width <= 14,
                        1 <= sh <= height,
                        1 <= sw <= width,
                        n == sh * sw,
                        n <= 16,
                        (placements@.len() + 1) * power(modulus as int, n as nat) <= u32::MAX,
                        cs == all_cells@.map_values(|v: Vec<u32>| v@),
                        are_corner_sets(cs, height as int, width as int, sh as int, sw as int),
                        pm == placement_lists(placements@),
                        k <= all_cells@.len(),
                        sets@.len() == k,
                        forall|j: int| 0 <= j < k ==> (#[trigger] sets@[j]).cells_spec() == cs[j],
                        forall|j: int| 0 <= j < k ==> distinct_cells(#[trigger] sets@[j].cells_spec()),
                        forall|j: int|
                            0 <= j < k ==> {
                                let set = #[trigger] sets@[j];
                                &&& set.wf()
                                &&& set.describes(pm)
                                &&& set.modulus_spec() == modulus
                                &&& forall|x: int|
                                    0 <= x < set.cells_spec().len() ==> crate::model::board::in_board(
                                        height as int,
                                        width as int,
                                        #[trigger] set.cells_spec()[x] as int,
                                    )
                            },
                    decreases all_cells@.len() - k,
                {
                    let cells = all_cells[k].clone();
                    proof {
                        assert(cells@ == cs[k as int]);
                        assert(at_some_corner(cs[k as int], height as int, width as int, sh as int, sw as int));
                        let c = choose|c: int|
                            0 <= c < 4 && #[trigger] is_corner(cs[k as int], height as int, width as int, sh as int, sw as int, c);
                        let sr = corner_row(height as int, sh as int, c);
                        let sc = corner_col(width as int, sw as int, c);
                        assert forall|x: int| 0 <= x < cells@.len() implies #[trigger] cells@[x] < 256
                            && crate::model::board::in_board(height as int, width as int, cells@[x] as int) by {
                            let row = x / sw as int;
                            let col = x % sw as int;
                            vstd::arithmetic::div_mod::lemma_fundamental_div_mod(x, sw as int);
                            assert(row < sh) by {
                                assert(sw * sh == sh * sw) by (nonlinear_arith);
                                vstd::arithmetic::div_mod::lemma_multiply_divide_lt(x, sw as int, sh as int);
                            }
                            assert(0 <= row) by {
                                vstd::arithmetic::div_mod::lemma_div_pos_is_pos(x, sw as int);
                            }
                            assert(0 <= col < sw) by {
                                vstd::arithmetic::div_mod::lemma_mod_bound(x, sw as int);
                            }
                            bits::lemma_stride_index(sr + row, sc + col);
                        }
                        assert forall|x: int, y: int| 0 <= x < y < cells@.len() implies cells@[x] != cells@[y] by {
                            lemma_rectangle_cell(sr, sc, sh as int, sw as int, x);
                            lemma_rectangle_cell(sr, sc, sh as int, sw as int, y);
                        }
                    }
                    let set = CellSet::precompute(cells, placements, modulus);
                    sets.push(set);
                    k = k + 1;
                }
                proof {
                    assert(sets@.map_values(|set: CellSet| set.cells_spec()) =~= cs);
                }
            },
        }
        CellSetBound { sets }
    }

    /// Whether every region can still be solved: the remaining pieces cover
    /// `remaining_area` cells, of which the board's deficit is committed, so
    /// `(remaining_area - deficit) / M` extra cycles are available.
    pub fn allows<const MODULUS: usize>(&self, board: &Board, piece_index: usize, remaining_area: u32) -> (r: bool)
        requires
            board.wf(),
            board.modulus() == MODULUS,
            exists|pm: Seq<Seq<(usize, usize, Bitboard)>>|
                #[trigger] self.wf(pm, board.rows(), board.cols(), board.modulus()) && piece_index <= pm.len(),
        ensures
            r == forall|k: int|
                0 <= k < self.sets_spec().len() ==> #[trigger] self.sets_spec()[k].allows_spec(
                    *board,
                    piece_index as int,
                    available_cycles(remaining_area as int, board.deficit(), MODULUS as int),
                ),
    {
        proof {
            board.lemma_wf();
        }
        let available_extra_cycles = remaining_area.saturating_sub(board.total_deficit()) / MODULUS as u32;
        let ghost pm = choose|pm: Seq<Seq<(usize, usize, Bitboard)>>|
            #[trigger] self.wf(pm, board.rows(), board.cols(), board.modulus()) && piece_index <= pm.len();
        let mut k: usize = 0;
        while k < self.sets.len()
            invariant
                board.wf(),
                board.modulus() == MODULUS,
                self.wf(pm, board.rows(), board.cols(), board.modulus()),
                piece_index <= pm.len(),
                k <= self.sets@.len(),
                available_extra_cycles == available_cycles(remaining_area as int, board.deficit(), MODULUS as int),
                forall|j: int|
                    0 <= j < k ==> #[trigger] self.sets_spec()[j].allows_spec(*board, piece_index as int, available_extra_cycles as int),
            decreases self.sets@.len() - k,
        {
            let set = &self.sets[k];
            proof {
                assert(self.sets_spec()[k as int] == *set);
                assert forall|x: int| 0 <= x < set.cells_spec().len() implies #[trigger] board.valid(
                    set.cells_spec()[x] as int,
                ) by {
                    assert(crate::model::board::in_board(board.rows(), board.cols(), set.cells_spec()[x] as int));
                }
            }
            if !set.allows::<MODULUS>(board, piece_index, available_extra_cycles) {
                return false;
            }
            k = k + 1;
        }
        true
    }
}

/// The number whose base-`m` digits below `k` are `a(0), a(1), ...`.
pub open spec fn expand(a: spec_fn(int) -> int, k: nat, m: int) -> int
    decreases k,
{
    if k == 0 {
        0
    } else {
        expand(a, (k - 1) as nat, m) + a(k - 1) * power(m, (k - 1) as nat)
    }
}

/// Digits that agree give the same number.
proof fn lemma_expand_ext(a: spec_fn(int) -> int, b: spec_fn(int) -> int, k: nat, m: int)
    requires
        forall|j: int| 0 <= j < k ==> #[trigger] a(j) == b(j),
    ensures
        expand(a, k, m) == expand(b, k, m),
    decreases k,
{
    if k > 0 {
        lemma_expand_ext(a, b, (k - 1) as nat, m);
        assert(a(k - 1) == b(k - 1));
    }
}

/// Digits in `0..m` make a number in `0..m^k`.
proof fn lemma_expand_bound(a: spec_fn(int) -> int, k: nat, m: int)
    requires
        m >= 2,
        forall|j: int| 0 <= j < k ==> 0 <= #[trigger] a(j) < m,
    ensures
        0 <= expand(a, k, m) < power(m, k),
    decreases k,
{
    if k > 0 {
        let j = (k - 1) as nat;
        lemma_expand_bound(a, j, m);
        lemma_power_positive(m, j);
        let v = a(j as int);
        assert(0 <= v < m);
        assert(0 <= v * power(m, j) <= (m - 1) * power(m, j)) by (nonlinear_arith)
            requires
                0 <= v < m,
                power(m, j) >= 1,
        ;
        assert((m - 1) * power(m, j) + power(m, j) == m * power(m, j)) by (nonlinear_arith);
    }
}

/// Nonnegative digits make a nonnegative number.
proof fn lemma_expand_nonneg(a: spec_fn(int) -> int, k: nat, m: int)
    requires
        m >= 1,
        forall|j: int| 0 <= j < k ==> 0 <= #[trigger] a(j),
    ensures
        0 <= expand(a, k, m),
    decreases k,
{
    if k > 0 {
        let j = (k - 1) as nat;
        lemma_expand_nonneg(a, j, m);
        lemma_power_positive(m, j);
        let v = a(j as int);
        assert(0 <= v * power(m, j)) by (nonlinear_arith)
            requires
                0 <= v,
                power(m, j) >= 1,
        ;
    }
}

/// The digits from `k` on make the high part: `m^k` times their own number.
proof fn lemma_expand_split(a: spec_fn(int) -> int, k: nat, n: nat, m: int)
    requires
        k <= n,
    ensures
        expand(a, n, m) == expand(a, k, m) + power(m, k) * expand(|j: int| a(j + k), (n - k) as nat, m),
    decreases n,
{
    let sh = |j: int| a(j + k);
    if n > k {
        let n1 = (n - 1) as nat;
        lemma_expand_split(a, k, n1, m);
        let t = (n1 - k) as nat;
        assert((n - k) as nat == t + 1);
        assert(expand(sh, (t + 1) as nat, m) == expand(sh, t, m) + sh(t as int) * power(m, t));
        assert(sh(t as int) == a(n1 as int));
        lemma_power_adds(m, k, t);
        assert((k + t) as nat == n1);
        let x = expand(sh, t, m);
        let v = a(n1 as int);
        assert(power(m, k) * (x + v * power(m, t)) == power(m, k) * x + v * (power(m, k) * power(m, t)))
            by (nonlinear_arith);
    } else {
        assert(expand(sh, 0, m) == 0);
        assert(power(m, k) * 0 == 0) by (nonlinear_arith);
    }
}

/// Digit `k` of a number made of digits in `0..m` is `a(k)`.
proof fn lemma_expand_digit(a: spec_fn(int) -> int, n: nat, k: nat, m: int)
    requires
        m >= 2,
        k < n,
        forall|j: int| 0 <= j < n ==> 0 <= #[trigger] a(j) < m,
    ensures
        digit(expand(a, n, m), k, m) == a(k as int),
{
    let sh = |j: int| a(j + k);
    let sh2 = |j: int| sh(j + 1);
    let t = (n - k) as nat;
    lemma_expand_split(a, k, n, m);
    lemma_expand_split(sh, 1, t, m);
    assert(expand(sh, 0, m) == 0);
    assert(expand(sh, 1, m) == sh(0) * power(m, 0));
    assert(sh(0) == a(k as int));
    assert(power(m, 1) == m * power(m, 0));
    let low = expand(a, k, m);
    let high = expand(sh2, (t - 1) as nat, m);
    assert forall|j: int| 0 <= j < k implies 0 <= #[trigger] a(j) < m by {}
    lemma_expand_bound(a, k, m);
    assert forall|j: int| 0 <= j < (t - 1) as nat implies 0 <= #[trigger] sh2(j) by {
        assert(sh2(j) == a(j + 1 + k));
    }
    lemma_expand_nonneg(sh2, (t - 1) as nat, m);
    let p = power(m, k);
    let s = a(k as int) + m * high;
    assert(expand(sh, t, m) == s);
    assert(expand(a, n, m) == p * s + low);
    lemma_power_positive(m, k);
    assert(p * s == s * p) by (nonlinear_arith);
    vstd::arithmetic::div_mod::lemma_fundamental_div_mod_converse_div(expand(a, n, m), p, s, low);
    assert(m * high == high * m) by (nonlinear_arith);
    vstd::arithmetic::div_mod::lemma_fundamental_div_mod_converse_mod(s, m, high, a(k as int));
}

/// `g` summed over the listed cells below position `k`.
pub open spec fn list_sum(g: spec_fn(int) -> int, cells: Seq<u32>, k: int) -> int
    decreases k,
{
    if k <= 0 {
        0
    } else {
        list_sum(g, cells, k - 1) + g(cells[k - 1] as int)
    }
}

/// `g` summed over the indices below `n`.
pub open spec fn range_sum(g: spec_fn(int) -> int, n: int) -> int
    decreases n,
{
    if n <= 0 {
        0
    } else {
        range_sum(g, n - 1) + g(n - 1)
    }
}

/// No two listed cells are the same.
pub open spec fn distinct_cells(cells: Seq<u32>) -> bool {
    forall|i: int, j: int| 0 <= i < j < cells.len() ==> cells[i] != cells[j]
}

/// `g` on the cells listed below position `k`, zero elsewhere.
spec fn listed_part(g: spec_fn(int) -> int, cells: Seq<u32>, k: int) -> spec_fn(int) -> int {
    |x: int| if exists|j: int| 0 <= j < k && cells[j] == x { g(x) } else { 0 }
}

proof fn lemma_range_sum_ext(f: spec_fn(int) -> int, g: spec_fn(int) -> int, n: int)
    requires
        forall|x: int| 0 <= x < n ==> #[trigger] f(x) == g(x),
    ensures
        range_sum(f, n) == range_sum(g, n),
    decreases n,
{
    if n > 0 {
        lemma_range_sum_ext(f, g, n - 1);
        assert(f(n - 1) == g(n - 1));
    }
}

proof fn lemma_range_sum_mono(f: spec_fn(int) -> int, g: spec_fn(int) -> int, n: int)
    requires
        forall|x: int| 0 <= x < n ==> #[trigger] f(x) <= g(x),
    ensures
        range_sum(f, n) <= range_sum(g, n),
    decreases n,
{
    if n > 0 {
        lemma_range_sum_mono(f, g, n - 1);
        assert(f(n - 1) <= g(n - 1));
    }
}

proof fn lemma_range_sum_add(f: spec_fn(int) -> int, g: spec_fn(int) -> int, h: spec_fn(int) -> int, n: int)
    requires
        forall|x: int| 0 <= x < n ==> #[trigger] h(x) == f(x) + g(x),
    ensures
        range_sum(h, n) == range_sum(f, n) + range_sum(g, n),
    decreases n,
{
    if n > 0 {
        lemma_range_sum_add(f, g, h, n - 1);
        assert(h(n - 1) == f(n - 1) + g(n - 1));
    }
}

/// A value at one index, summed, is that value where the index is in range.
proof fn lemma_range_sum_single(y: int, v: int, n: int)
    requires
        0 <= n,
    ensures
        range_sum(|x: int| if x == y { v } else { 0 }, n) == if 0 <= y < n { v } else { 0 },
    decreases n,
{
    if n > 0 {
        lemma_range_sum_single(y, v, n - 1);
    }
}

/// Over a list of distinct cells, a sum is the sum over the board of `g`
/// kept on the listed cells.
proof fn lemma_list_sum_listed(g: spec_fn(int) -> int, cells: Seq<u32>, k: int)
    requires
        0 <= k <= cells.len(),
        distinct_cells(cells),
        forall|j: int| 0 <= j < cells.len() ==> #[trigger] cells[j] < 256,
    ensures
        list_sum(g, cells, k) == range_sum(listed_part(g, cells, k), 256),
    decreases k,
{
    if k == 0 {
        lemma_range_sum_ext(listed_part(g, cells, 0), |x: int| 0int, 256);
        lemma_range_sum_single(-1, 0, 256);
        lemma_range_sum_ext(|x: int| 0int, |x: int| if x == -1 { 0int } else { 0 }, 256);
    } else {
        lemma_list_sum_listed(g, cells, k - 1);
        let y = cells[k - 1] as int;
        let single = |x: int| if x == y { g(y) } else { 0 };
        assert forall|x: int| 0 <= x < 256 implies #[trigger] listed_part(g, cells, k)(x) == listed_part(g, cells, k - 1)(x)
            + single(x) by {
            if x == y {
                assert(!exists|j: int| 0 <= j < k - 1 && cells[j] == x) by {
                    if exists|j: int| 0 <= j < k - 1 && cells[j] == x {
                        let j = choose|j: int| 0 <= j < k - 1 && cells[j] == x;
                        assert(cells[j] != cells[k - 1]);
                    }
                }
                assert(cells[k - 1] == x);
            } else {
                if exists|j: int| 0 <= j < k && cells[j] == x {
                    let j = choose|j: int| 0 <= j < k && cells[j] == x;
                    assert(j != k - 1);
                }
            }
        }
        lemma_range_sum_add(listed_part(g, cells, k - 1), single, listed_part(g, cells, k), 256);
        lemma_range_sum_single(y, g(y), 256);
    }
}

/// Over distinct cells of the board, a sum of nonnegative terms is at most
/// the sum over the whole board.
proof fn lemma_list_sum_le_range(g: spec_fn(int) -> int, cells: Seq<u32>)
    requires
        distinct_cells(cells),
        forall|j: int| 0 <= j < cells.len() ==> #[trigger] cells[j] < 256,
        forall|x: int| 0 <= x < 256 ==> 0 <= #[trigger] g(x),
    ensures
        list_sum(g, cells, cells.len() as int) <= range_sum(g, 256),
{
    lemma_list_sum_listed(g, cells, cells.len() as int);
    assert forall|x: int| 0 <= x < 256 implies #[trigger] listed_part(g, cells, cells.len() as int)(x) <= g(x) by {}
    lemma_range_sum_mono(listed_part(g, cells, cells.len() as int), g, 256);
}

/// List sums are linear.
proof fn lemma_list_sum_sub(f: spec_fn(int) -> int, g: spec_fn(int) -> int, h: spec_fn(int) -> int, cells: Seq<u32>, k: int)
    requires
        forall|x: int| #[trigger] h(x) == f(x) - g(x),
    ensures
        list_sum(h, cells, k) == list_sum(f, cells, k) - list_sum(g, cells, k),
    decreases k,
{
    if k > 0 {
        lemma_list_sum_sub(f, g, h, cells, k - 1);
        assert(h(cells[k - 1] as int) == f(cells[k - 1] as int) - g(cells[k - 1] as int));
    }
}

/// Digit `j` of the region's configuration once the chosen placements of
/// pieces `p..k` are made on `b`: the value left on cell `cells[j]`.
pub open spec fn digits_after(
    b: Board,
    cells: Seq<u32>,
    pm: Seq<Seq<(usize, usize, Bitboard)>>,
    c: Seq<int>,
    p: int,
    k: int,
) -> spec_fn(int) -> int {
    |j: int| (b.cell(cells[j] as int) - (chosen_hits(pm, c, p, cells[j] as int) - chosen_hits(pm, c, k, cells[j] as int)))
        % b.modulus()
}

proof fn lemma_config_expand(b: Board, cells: Seq<u32>, k: nat, m: int)
    ensures
        config_upto(b, cells, k, m) == expand(|j: int| b.cell(cells[j] as int), k, m),
    decreases k,
{
    if k > 0 {
        lemma_config_expand(b, cells, (k - 1) as nat, m);
    }
}

proof fn lemma_stepped_expand(c: int, e: u32, k: nat, m: int)
    ensures
        stepped_upto(c, e, k, m) == expand(
            |j: int| applied_value(digit(c, j as nat, m), m, covers_cell(e, j as nat)),
            k,
            m,
        ),
    decreases k,
{
    if k > 0 {
        lemma_stepped_expand(c, e, (k - 1) as nat, m);
    }
}

proof fn lemma_expand_zero(k: nat, m: int)
    ensures
        expand(|j: int| 0int, k, m) == 0,
    decreases k,
{
    if k > 0 {
        lemma_expand_zero((k - 1) as nat, m);
    }
}

/// The digit sum of a configuration made of the listed cells' values is
/// their sum.
proof fn lemma_digit_sum_list(g: spec_fn(int) -> int, cells: Seq<u32>, n: nat, k: nat, m: int)
    requires
        m >= 2,
        k <= n <= cells.len(),
        forall|j: int| 0 <= j < n ==> 0 <= #[trigger] g(cells[j] as int) < m,
    ensures
        digit_sum(expand(|j: int| g(cells[j] as int), n, m), k, m) == list_sum(g, cells, k as int),
    decreases k,
{
    if k > 0 {
        lemma_digit_sum_list(g, cells, n, (k - 1) as nat, m);
        let a = |j: int| g(cells[j] as int);
        assert forall|j: int| 0 <= j < n implies 0 <= #[trigger] a(j) < m by {
            assert(0 <= g(cells[j] as int) < m);
        }
        lemma_expand_digit(a, n, (k - 1) as nat, m);
    }
}

/// Placing a piece over a cell takes its value down by one, modulo `m`.
proof fn lemma_applied_mod(y: int, m: int, hit: bool)
    requires
        m >= 2,
    ensures
        applied_value(y % m, m, hit) == (y - if hit { 1int } else { 0int }) % m,
{
    if hit {
        vstd::arithmetic::div_mod::lemma_fundamental_div_mod(y, m);
        vstd::arithmetic::div_mod::lemma_mod_bound(y, m);
        let q = y / m;
        let r = y % m;
        if r == 0 {
            assert(y - 1 == (q - 1) * m + (m - 1)) by (nonlinear_arith)
                requires
                    y == m * q + r,
                    r == 0,
            ;
            vstd::arithmetic::div_mod::lemma_fundamental_div_mod_converse_mod(y - 1, m, q - 1, m - 1);
        } else {
            assert(y - 1 == q * m + (r - 1)) by (nonlinear_arith)
                requires
                    y == m * q + r,
            ;
            vstd::arithmetic::div_mod::lemma_fundamental_div_mod_converse_mod(y - 1, m, q, r - 1);
        }
    }
}

/// Taking the best over more listed effects never does worse, and the
/// best over those up to a solving effect is at most that effect's area.
proof fn lemma_best_area_le(effects: Seq<Seq<u32>>, p: int, c: int, n: nat, m: int, j: int, idx: int)
    requires
        0 <= p < effects.len(),
        0 <= idx < j <= effects[p].len(),
        min_area(effects, p + 1, stepped(c, effects[p][idx], n, m), n, m) != UNREACHABLE as int,
    ensures
        best_area(effects, p, c, n, m, j) <= min_area(effects, p + 1, stepped(c, effects[p][idx], n, m), n, m)
            + covered_count(effects[p][idx], n),
        best_area(effects, p, c, n, m, j) < UNREACHABLE as int,
    decreases j,
{
    if j > idx + 1 {
        lemma_best_area_le(effects, p, c, n, m, j - 1, idx);
    }
}

proof fn lemma_list_sum_nonneg(g: spec_fn(int) -> int, cells: Seq<u32>, k: int)
    requires
        forall|x: int| 0 <= #[trigger] g(x),
    ensures
        0 <= list_sum(g, cells, k),
    decreases k,
{
    if k > 0 {
        lemma_list_sum_nonneg(g, cells, k - 1);
        assert(0 <= g(cells[k - 1] as int));
    }
}

/// Over the listed cells, the hits of pieces `k..` are those of pieces
/// `k + 1..` and the cells piece `k`'s placement covers.
proof fn lemma_list_hits_step(pm: Seq<Seq<(usize, usize, Bitboard)>>, c: Seq<int>, k: int, cells: Seq<u32>, e: u32, n: int)
    requires
        0 <= k < pm.len(),
        0 <= n <= cells.len(),
        forall|j: nat| j < cells.len() ==> #[trigger] covers_cell(e, j) == pm[k][c[k]].2.bit(cells[j as int] as int),
    ensures
        list_sum(|x: int| chosen_hits(pm, c, k, x), cells, n) == list_sum(|x: int| chosen_hits(pm, c, k + 1, x), cells, n)
            + covered_count(e, n as nat),
    decreases n,
{
    if n > 0 {
        lemma_list_hits_step(pm, c, k, cells, e, n - 1);
        assert(covers_cell(e, (n - 1) as nat) == pm[k][c[k]].2.bit(cells[n - 1] as int));
    }
}

/// Along a finishing choice, the region's table needs no more cells of the
/// remaining pieces than the chosen placements put on it.
proof fn lemma_path_area(
    effects: Seq<Seq<u32>>,
    cells: Seq<u32>,
    b: Board,
    pm: Seq<Seq<(usize, usize, Bitboard)>>,
    c: Seq<int>,
    p: int,
    k: int,
)
    requires
        b.wf(),
        effects.len() == pm.len(),
        p <= k <= pm.len(),
        finishes(b, pm, c, p),
        forall|i: int| p <= i < pm.len() ==> #[trigger] lists_effects(effects[i], pm[i], cells),
        forall|j: int| 0 <= j < cells.len() ==> #[trigger] b.valid(cells[j] as int),
    ensures
        min_area(
            effects,
            k,
            expand(digits_after(b, cells, pm, c, p, k), cells.len() as nat, b.modulus()),
            cells.len() as nat,
            b.modulus(),
        ) != UNREACHABLE as int,
        min_area(
            effects,
            k,
            expand(digits_after(b, cells, pm, c, p, k), cells.len() as nat, b.modulus()),
            cells.len() as nat,
            b.modulus(),
        ) <= list_sum(|x: int| chosen_hits(pm, c, k, x), cells, cells.len() as int),
    decreases pm.len() - k,
{
    b.lemma_wf();
    let m = b.modulus();
    let n = cells.len() as nat;
    let dk = digits_after(b, cells, pm, c, p, k);
    assert forall|x: int| 0 <= #[trigger] chosen_hits(pm, c, k, x) by {
        lemma_chosen_hits_range(pm, c, k, x);
    }
    if k == pm.len() {
        assert forall|j: int| 0 <= j < n implies #[trigger] dk(j) == (|j: int| 0int)(j) by {
            assert(b.valid(cells[j] as int));
            assert(chosen_hits(pm, c, k, cells[j] as int) == 0);
        }
        lemma_expand_ext(dk, |j: int| 0int, n, m);
        lemma_expand_zero(n, m);
        lemma_list_sum_nonneg(|x: int| chosen_hits(pm, c, k, x), cells, n as int);
    } else {
        let pl = pm[k][c[k]];
        assert(lists_effects(effects[k], pm[k], cells));
        assert(0 <= c[k] < pm[k].len());
        assert(some_effect_of(effects[k], pl.2, cells));
        let idx = choose|j: int| 0 <= j < effects[k].len() && #[trigger] is_effect_of(effects[k][j], pl.2, cells);
        let e = effects[k][idx];
        let dk1 = digits_after(b, cells, pm, c, p, k + 1);
        let ck = expand(dk, n, m);
        assert forall|j: int| 0 <= j < n implies 0 <= #[trigger] dk(j) < m by {
            vstd::arithmetic::div_mod::lemma_mod_bound(
                b.cell(cells[j] as int) - (chosen_hits(pm, c, p, cells[j] as int) - chosen_hits(pm, c, k, cells[j] as int)),
                m,
            );
        }
        let sa = |j: int| applied_value(digit(ck, j as nat, m), m, covers_cell(e, j as nat));
        assert forall|j: int| 0 <= j < n implies #[trigger] sa(j) == dk1(j) by {
            lemma_expand_digit(dk, n, j as nat, m);
            let x = cells[j] as int;
            let hit = pl.2.bit(x);
            assert(covers_cell(e, j as nat) == hit);
            assert(chosen_hits(pm, c, k, x) == chosen_hits(pm, c, k + 1, x) + if hit { 1int } else { 0int });
            let y = b.cell(x) - (chosen_hits(pm, c, p, x) - chosen_hits(pm, c, k, x));
            lemma_applied_mod(y, m, hit);
            assert(y - (if hit { 1int } else { 0int }) == b.cell(x) - (chosen_hits(pm, c, p, x) - chosen_hits(
                pm,
                c,
                k + 1,
                x,
            )));
        }
        lemma_stepped_expand(ck, e, n, m);
        lemma_expand_ext(sa, dk1, n, m);
        lemma_path_area(effects, cells, b, pm, c, p, k + 1);
        lemma_best_area_le(effects, k, ck, n, m, effects[k].len() as int, idx);
        lemma_list_hits_step(pm, c, k, cells, e, n as int);
    }
}

/// Areas are capped at `UNREACHABLE`.
proof fn lemma_best_area_cap(effects: Seq<Seq<u32>>, p: int, c: int, n: nat, m: int, j: int)
    ensures
        best_area(effects, p, c, n, m, j) <= UNREACHABLE as int,
    decreases j,
{
    if j > 0 && 0 <= p < effects.len() {
        lemma_best_area_cap(effects, p, c, n, m, j - 1);
    }
}

proof fn lemma_min_area_cap(effects: Seq<Seq<u32>>, p: int, c: int, n: nat, m: int)
    ensures
        min_area(effects, p, c, n, m) <= UNREACHABLE as int,
{
    if 0 <= p < effects.len() {
        lemma_best_area_cap(effects, p, c, n, m, effects[p].len() as int);
    }
}

/// Sums of the listed cells' values, each in `0..m`, are not negative.
proof fn lemma_list_sum_nonneg_on(g: spec_fn(int) -> int, cells: Seq<u32>, k: int, m: int)
    requires
        k <= cells.len(),
        forall|j: int| 0 <= j < k ==> 0 <= #[trigger] g(cells[j] as int) < m,
    ensures
        0 <= list_sum(g, cells, k),
    decreases k,
{
    if k > 0 {
        lemma_list_sum_nonneg_on(g, cells, k - 1, m);
        assert(0 <= g(cells[k - 1] as int));
    }
}

proof fn lemma_range_excess(b: Board, pm: Seq<Seq<(usize, usize, Bitboard)>>, c: Seq<int>, d: int, n: int)
    ensures
        range_sum(|x: int| chosen_hits(pm, c, d, x) - b.cell(x), n) == excess_upto(b, pm, c, d, n),
    decreases n,
{
    if n > 0 {
        lemma_range_excess(b, pm, c, d, n - 1);
    }
}

impl CellSet {
    /// A board that the remaining pieces can finish passes the region: where
    /// the chosen placements of pieces `d..` (from the listed ones, each a
    /// piece of `sp` moved to its anchor within the board) leave every cell
    /// at zero, the region's configuration is solvable by pieces `d..` and
    /// needs no more extra turns of M than the cells of those pieces leave
    /// beyond the board's deficit.
    pub proof fn lemma_allows_finishable(
        self,
        sp: Seq<Piece>,
        b: Board,
        pm: Seq<Seq<(usize, usize, Bitboard)>>,
        d: int,
        c: Seq<int>,
    )
        requires
            self.wf(),
            self.describes(pm),
            self.modulus_spec() == b.modulus(),
            distinct_cells(self.cells_spec()),
            forall|j: int| 0 <= j < self.cells_spec().len() ==> #[trigger] b.valid(self.cells_spec()[j] as int),
            b.wf(),
            pm.len() == sp.len(),
            forall|k: int| 0 <= k < sp.len() ==> #[trigger] sp[k].wf(),
            finishes(b, pm, c, d),
            forall|k: int| d <= k < pm.len() ==> #[trigger] places(b, sp[k], pm[k][c[k]]),
        ensures
            self.allows_spec(b, d, available_cycles(cells_from(sp, d), b.deficit(), b.modulus())),
    {
        b.lemma_wf();
        let m = b.modulus();
        let cells = self.cells_spec();
        let n = cells.len() as nat;
        let effects = self.effects_spec();
        assert forall|i: int| d <= i < pm.len() implies #[trigger] lists_effects(effects[i], pm[i], cells) by {}
        lemma_path_area(effects, cells, b, pm, c, d, d);
        let dp = digits_after(b, cells, pm, c, d, d);
        let vals = |x: int| b.cell(x);
        let cellf = |j: int| vals(cells[j] as int);
        assert forall|j: int| 0 <= j < n implies #[trigger] dp(j) == cellf(j) by {
            assert(b.valid(cells[j] as int));
            vstd::arithmetic::div_mod::lemma_small_mod(b.cell(cells[j] as int) as nat, m as nat);
        }
        lemma_expand_ext(dp, cellf, n, m);
        lemma_config_expand(b, cells, n, m);
        lemma_expand_ext(|j: int| b.cell(cells[j] as int), cellf, n, m);
        let cfg = config_upto(b, cells, n, m);
        assert(cfg == expand(dp, n, m));
        let area = min_area(effects, d, cfg, n, m);
        let hits = |x: int| chosen_hits(pm, c, d, x);
        assert forall|j: int| 0 <= j < n implies 0 <= #[trigger] vals(cells[j] as int) < m by {
            assert(b.valid(cells[j] as int));
        }
        lemma_digit_sum_list(vals, cells, n, n, m);
        let deficit = digit_sum(cfg, n, m);
        assert(deficit == list_sum(vals, cells, n as int));
        let ex = |x: int| chosen_hits(pm, c, d, x) - b.cell(x);
        lemma_list_sum_sub(hits, vals, ex, cells, n as int);
        assert forall|k: int, j: int|
            d <= k < pm.len() && 0 <= j < 256 && #[trigger] pm[k][c[k]].2.bit(j) implies b.valid(j) by {
            assert(places(b, sp[k], pm[k][c[k]]));
            lemma_placed_cells(b, sp[k], pm[k][c[k]]);
        }
        assert forall|x: int| 0 <= x < 256 implies 0 <= #[trigger] ex(x) by {
            if b.valid(x) {
                lemma_cell_takes_turns(b, pm, c, d, x);
            } else {
                lemma_hits_off_board(b, pm, c, d, x);
            }
        }
        assert forall|j: int| 0 <= j < cells.len() implies #[trigger] cells[j] < 256 by {
            assert(b.valid(cells[j] as int));
        }
        lemma_list_sum_le_range(ex, cells);
        lemma_range_excess(b, pm, c, d, 256);
        lemma_excess_total(b, sp, pm, c, d);
        let remaining = cells_from(sp, d);
        let total = b.deficit();
        assert(area <= deficit + (remaining - total));
        lemma_min_area_cap(effects, d, cfg, n, m);
        assert(area < UNREACHABLE as int);
        if area >= deficit {
            assert(remaining >= total);
            vstd::arithmetic::div_mod::lemma_div_is_ordered(area - deficit, remaining - total, m);
            let x = area - deficit;
            vstd::arithmetic::div_mod::lemma_fundamental_div_mod(x, m);
            vstd::arithmetic::div_mod::lemma_div_pos_is_pos(x, m);
            assert(x / m <= x) by (nonlinear_arith)
                requires
                    x == m * (x / m) + x % m,
                    0 <= x % m,
                    x / m >= 0,
                    m >= 2,
            ;
            assert(deficit >= 0) by {
                lemma_list_sum_nonneg_on(vals, cells, n as int, m);
            }
        } else {
            vstd::arithmetic::div_mod::lemma_div_pos_is_pos(
                if remaining >= total { remaining - total } else { 0 },
                m,
            );
        }
    }
}

impl CellSetBound {
    /// A board that the remaining pieces can finish passes every region: see
    /// `CellSet::lemma_allows_finishable`, with the cells of pieces `d..` as
    /// the remaining area.
    pub proof fn lemma_allows_finishable(
        self,
        sp: Seq<Piece>,
        b: Board,
        pm: Seq<Seq<(usize, usize, Bitboard)>>,
        d: int,
        c: Seq<int>,
    )
        requires
            self.wf(pm, b.rows(), b.cols(), b.modulus()),
            forall|k: int| 0 <= k < self.sets_spec().len() ==> distinct_cells(#[trigger] self.sets_spec()[k].cells_spec()),
            b.wf(),
            pm.len() == sp.len(),
            forall|k: int| 0 <= k < sp.len() ==> #[trigger] sp[k].wf(),
            finishes(b, pm, c, d),
            forall|k: int| d <= k < pm.len() ==> #[trigger] places(b, sp[k], pm[k][c[k]]),
        ensures
            forall|k: int|
                0 <= k < self.sets_spec().len() ==> #[trigger] self.sets_spec()[k].allows_spec(
                    b,
                    d,
                    available_cycles(cells_from(sp, d), b.deficit(), b.modulus()),
                ),
    {
        assert forall|k: int| 0 <= k < self.sets_spec().len() implies #[trigger] self.sets_spec()[k].allows_spec(
            b,
            d,
            available_cycles(cells_from(sp, d), b.deficit(), b.modulus()),
        ) by {
            let set = self.sets_spec()[k];
            assert forall|j: int| 0 <= j < set.cells_spec().len() implies #[trigger] b.valid(set.cells_spec()[j] as int) by {
                assert(crate::model::board::in_board(b.rows(), b.cols(), set.cells_spec()[j] as int));
            }
            set.lemma_allows_finishable(sp, b, pm, d, c);
        }
    }
}

} // verus!
