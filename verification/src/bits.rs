//! Bit-level model of a 256-bit board stored as four little-endian `u64` limbs.
//!
//! Bit index `i` lives in limb `i / 64` at position `i % 64`. Everything the
//! bitboard types promise is stated over [`bit`] and [`count`].

use vstd::prelude::*;

verus! {

/// Bit `j` (0-based, `j < 64`) of a single limb.
pub open spec fn limb_bit(x: u64, j: int) -> bool {
    ((x >> (j as u64)) & 1u64) == 1u64
}

/// Bit `i` of a 256-bit value; false outside `0..256`.
pub open spec fn bit(a: [u64; 4], i: int) -> bool {
    0 <= i < 256 && limb_bit(a[i / 64], i % 64)
}

/// Number of set bits among positions `0..n` of a limb.
pub open spec fn limb_count_upto(x: u64, n: int) -> nat
    decreases n,
{
    if n <= 0 {
        0
    } else {
        limb_count_upto(x, n - 1) + if limb_bit(x, n - 1) { 1nat } else { 0nat }
    }
}

/// Number of set bits among positions `0..n` of a 256-bit value.
pub open spec fn count_upto(a: [u64; 4], n: int) -> nat
    decreases n,
{
    if n <= 0 {
        0
    } else {
        count_upto(a, n - 1) + if bit(a, n - 1) { 1nat } else { 0nat }
    }
}

/// Number of set bits of a 256-bit value.
pub open spec fn count(a: [u64; 4]) -> nat {
    count_upto(a, 256)
}

/// The all-zero value.
pub open spec fn zero() -> [u64; 4] {
    [0u64, 0u64, 0u64, 0u64]
}

pub proof fn lemma_index(q: int, r: int)
    requires
        0 <= r < 64,
    ensures
        (64 * q + r) / 64 == q,
        (64 * q + r) % 64 == r,
{
    vstd::arithmetic::div_mod::lemma_fundamental_div_mod_converse_div(64 * q + r, 64, q, r);
    vstd::arithmetic::div_mod::lemma_fundamental_div_mod_converse_mod(64 * q + r, 64, q, r);
}

/// Splitting a cell index into row and column with the board stride 15.
pub proof fn lemma_stride_index(r: int, c: int)
    requires
        0 <= c < 15,
    ensures
        (15 * r + c) / 15 == r,
        (15 * r + c) % 15 == c,
{
    vstd::arithmetic::div_mod::lemma_fundamental_div_mod_converse_div(15 * r + c, 15, r, c);
    vstd::arithmetic::div_mod::lemma_fundamental_div_mod_converse_mod(15 * r + c, 15, r, c);
}

/// Every index is row times 15 plus column.
pub proof fn lemma_stride_split(i: int)
    requires
        0 <= i,
    ensures
        i == 15 * (i / 15) + i % 15,
        0 <= i % 15 < 15,
        0 <= i / 15,
{
}

pub proof fn lemma_index_bounds(i: int)
    requires
        0 <= i < 256,
    ensures
        0 <= i / 64 < 4,
        0 <= i % 64 < 64,
        i == 64 * (i / 64) + i % 64,
{
}

proof fn lemma_limb_ops(x: u64, y: u64, j: u64)
    by (bit_vector)
    requires
        j < 64,
    ensures
        (((x & y) >> j) & 1u64 == 1u64) == (((x >> j) & 1u64 == 1u64) && ((y >> j) & 1u64 == 1u64)),
        (((x | y) >> j) & 1u64 == 1u64) == (((x >> j) & 1u64 == 1u64) || ((y >> j) & 1u64 == 1u64)),
        (((x ^ y) >> j) & 1u64 == 1u64) == (((x >> j) & 1u64 == 1u64) != ((y >> j) & 1u64 == 1u64)),
        (((!x) >> j) & 1u64 == 1u64) == !((x >> j) & 1u64 == 1u64),
        ((0u64 >> j) & 1u64 == 1u64) == false,
        ((0xffff_ffff_ffff_ffffu64 >> j) & 1u64 == 1u64),
{
}

/// Bitwise operations act position by position on a limb.
pub proof fn lemma_limb_bit_ops(x: u64, y: u64, j: int)
    requires
        0 <= j < 64,
    ensures
        limb_bit(x & y, j) == (limb_bit(x, j) && limb_bit(y, j)),
        limb_bit(x | y, j) == (limb_bit(x, j) || limb_bit(y, j)),
        limb_bit(x ^ y, j) == (limb_bit(x, j) != limb_bit(y, j)),
        limb_bit(!x, j) == !limb_bit(x, j),
        !limb_bit(0u64, j),
        limb_bit(0xffff_ffff_ffff_ffffu64, j),
{
    lemma_limb_ops(x, y, j as u64);
}

proof fn lemma_shl_bv(x: u64, s: u64, j: u64)
    by (bit_vector)
    requires
        s < 64,
        j < 64,
    ensures
        (((x << s) >> j) & 1u64 == 1u64) == (j >= s && ((x >> ((j - s) as u64)) & 1u64 == 1u64)),
{
}

proof fn lemma_shr_bv(x: u64, s: u64, j: u64)
    by (bit_vector)
    requires
        s < 64,
        j < 64,
    ensures
        (((x >> s) >> j) & 1u64 == 1u64) == (j + s < 64 && ((x >> ((j + s) as u64)) & 1u64 == 1u64)),
{
}

/// Shifting a limb left by `s` moves bit `j - s` to `j`.
pub proof fn lemma_limb_shl(x: u64, s: int, j: int)
    requires
        0 <= s < 64,
        0 <= j < 64,
    ensures
        limb_bit(x << (s as u64), j) == (j >= s && limb_bit(x, j - s)),
{
    lemma_shl_bv(x, s as u64, j as u64);
}

/// Shifting a limb right by `s` moves bit `j + s` to `j`.
pub proof fn lemma_limb_shr(x: u64, s: int, j: int)
    requires
        0 <= s < 64,
        0 <= j < 64,
    ensures
        limb_bit(x >> (s as u64), j) == (j + s < 64 && limb_bit(x, j + s)),
{
    lemma_shr_bv(x, s as u64, j as u64);
}

proof fn lemma_single_bv(s: u64, j: u64)
    by (bit_vector)
    requires
        s < 64,
        j < 64,
    ensures
        (((1u64 << s) >> j) & 1u64 == 1u64) == (j == s),
{
}

/// The limb `1 << s` has exactly bit `s` set.
pub proof fn lemma_limb_single(s: int, j: int)
    requires
        0 <= s < 64,
        0 <= j < 64,
    ensures
        limb_bit(1u64 << (s as u64), j) == (j == s),
{
    lemma_single_bv(s as u64, j as u64);
}

/// A limb is zero exactly when none of its bits is set.
pub proof fn lemma_limb_zero(x: u64)
    ensures
        (x == 0) == (forall|j: int| 0 <= j < 64 ==> !#[trigger] limb_bit(x, j)),
{
    if x != 0 {
        assert(x != 0 ==> (x >> (vstd::std_specs::bits::u64_trailing_zeros(x) as u64)) & 1u64
            == 1u64) by {
            vstd::std_specs::bits::axiom_u64_trailing_zeros(x);
        }
        vstd::std_specs::bits::axiom_u64_trailing_zeros(x);
        let t = vstd::std_specs::bits::u64_trailing_zeros(x) as int;
        assert(limb_bit(x, t));
    } else {
        assert forall|j: int| 0 <= j < 64 implies !#[trigger] limb_bit(x, j) by {
            lemma_limb_bit_ops(x, x, j);
        }
    }
}

/// Two limbs with the same bits are equal.
pub proof fn lemma_limb_ext(x: u64, y: u64)
    requires
        forall|j: int| 0 <= j < 64 ==> #[trigger] limb_bit(x, j) == limb_bit(y, j),
    ensures
        x == y,
{
    assert forall|j: int| 0 <= j < 64 implies !#[trigger] limb_bit(x ^ y, j) by {
        lemma_limb_bit_ops(x, y, j);
        assert(limb_bit(x, j) == limb_bit(y, j));
    }
    lemma_limb_zero(x ^ y);
    assert((x ^ y) == 0u64 ==> x == y) by (bit_vector);
}

/// Two 256-bit values with the same bits are equal.
pub proof fn lemma_ext(a: [u64; 4], b: [u64; 4])
    requires
        forall|i: int| 0 <= i < 256 ==> #[trigger] bit(a, i) == bit(b, i),
    ensures
        a == b,
{
    assert forall|k: int| 0 <= k < 4 implies a[k] == b[k] by {
        assert forall|j: int| 0 <= j < 64 implies #[trigger] limb_bit(a[k], j) == limb_bit(
            b[k],
            j,
        ) by {
            lemma_index(k, j);
            assert(bit(a, 64 * k + j) == bit(b, 64 * k + j));
        }
        lemma_limb_ext(a[k], b[k]);
    }
    assert(a =~= b);
}

/// Reading a bit of a value given by its four limbs.
pub proof fn lemma_bit_of(a: [u64; 4], k: int, j: int)
    requires
        0 <= k < 4,
        0 <= j < 64,
    ensures
        bit(a, 64 * k + j) == limb_bit(a[k], j),
{
    lemma_index(k, j);
}

/// `count_upto` only looks at bits below `n`.
pub proof fn lemma_count_upto_congruent(a: [u64; 4], b: [u64; 4], n: int)
    requires
        forall|i: int| 0 <= i < n ==> #[trigger] bit(a, i) == bit(b, i),
    ensures
        count_upto(a, n) == count_upto(b, n),
    decreases n,
{
    if n > 0 {
        lemma_count_upto_congruent(a, b, n - 1);
    }
}

/// A count is bounded by the number of positions looked at.
pub proof fn lemma_count_upto_bound(a: [u64; 4], n: int)
    requires
        0 <= n,
    ensures
        count_upto(a, n) <= n,
    decreases n,
{
    if n > 0 {
        lemma_count_upto_bound(a, n - 1);
    }
}

/// The count of a union of disjoint values is the sum of their counts.
pub proof fn lemma_count_upto_disjoint_union(a: [u64; 4], b: [u64; 4], u: [u64; 4], n: int)
    requires
        forall|i: int| 0 <= i < n ==> !(#[trigger] bit(a, i) && bit(b, i)),
        forall|i: int| 0 <= i < n ==> #[trigger] bit(u, i) == (bit(a, i) || bit(b, i)),
    ensures
        count_upto(u, n) == count_upto(a, n) + count_upto(b, n),
    decreases n,
{
    if n > 0 {
        lemma_count_upto_disjoint_union(a, b, u, n - 1);
        assert(bit(u, n - 1) == (bit(a, n - 1) || bit(b, n - 1)));
        assert(!(bit(a, n - 1) && bit(b, n - 1)));
    }
}

/// Number of indices `i < n` with both bit `i` and bit `i + d` set.
pub open spec fn pair_count_upto(a: [u64; 4], d: int, n: int) -> nat
    decreases n,
{
    if n <= 0 {
        0
    } else {
        pair_count_upto(a, d, n - 1) + if bit(a, n - 1) && bit(a, n - 1 + d) {
            1nat
        } else {
            0nat
        }
    }
}

/// Counting the bits of a value that marks adjacent pairs.
pub proof fn lemma_pair_count(a: [u64; 4], p: [u64; 4], d: int, n: int)
    requires
        forall|i: int| 0 <= i < n ==> #[trigger] bit(p, i) == (bit(a, i) && bit(a, i + d)),
    ensures
        count_upto(p, n) == pair_count_upto(a, d, n),
        count_upto(p, n) <= count_upto(a, n),
    decreases n,
{
    if n > 0 {
        lemma_pair_count(a, p, d, n - 1);
    }
}

/// Counts are monotone under inclusion.
pub proof fn lemma_count_upto_subset(a: [u64; 4], b: [u64; 4], n: int)
    requires
        forall|i: int| 0 <= i < n && #[trigger] bit(a, i) ==> bit(b, i),
    ensures
        count_upto(a, n) <= count_upto(b, n),
    decreases n,
{
    if n > 0 {
        lemma_count_upto_subset(a, b, n - 1);
    }
}

/// A count of a value with no bits set below `n` is zero.
pub proof fn lemma_count_upto_empty(a: [u64; 4], n: int)
    requires
        forall|i: int| 0 <= i < n ==> !#[trigger] bit(a, i),
    ensures
        count_upto(a, n) == 0,
    decreases n,
{
    if n > 0 {
        lemma_count_upto_empty(a, n - 1);
    }
}

/// A value with a single bit `s` set below `n` has count one.
pub proof fn lemma_count_upto_single(a: [u64; 4], s: int, n: int)
    requires
        0 <= s < n,
        forall|i: int| 0 <= i < n ==> #[trigger] bit(a, i) == (i == s),
    ensures
        count_upto(a, n) == 1,
    decreases n,
{
    if n - 1 == s {
        lemma_count_upto_empty(a, n - 1);
    } else {
        lemma_count_upto_single(a, s, n - 1);
    }
}

/// Counting bits of a limb in steps of one position.
pub proof fn lemma_count_limb_step(a: [u64; 4], k: int, j: int)
    requires
        0 <= k < 4,
        0 <= j <= 64,
    ensures
        count_upto(a, 64 * k + j) == count_upto(a, 64 * k) + limb_count_upto(a[k], j),
    decreases j,
{
    if j > 0 {
        lemma_count_limb_step(a, k, j - 1);
        lemma_bit_of(a, k, j - 1);
    }
}

/// Counting bits one limb at a time.
pub proof fn lemma_count_by_limbs(a: [u64; 4])
    ensures
        count(a) == limb_count_upto(a[0], 64) + limb_count_upto(a[1], 64) + limb_count_upto(
            a[2],
            64,
        ) + limb_count_upto(a[3], 64),
{
    lemma_count_limb_step(a, 0, 64);
    lemma_count_limb_step(a, 1, 64);
    lemma_count_limb_step(a, 2, 64);
    lemma_count_limb_step(a, 3, 64);
}

/// Number of set bits of one limb.
pub fn limb_popcount(x: u64) -> (r: u32)
    ensures
        r == limb_count_upto(x, 64),
{
    let mut y = x;
    let mut c: u32 = 0;
    proof {
        lemma_limb_count_bound(x, 64);
    }
    while y != 0
        invariant
            c + limb_count_upto(y, 64) == limb_count_upto(x, 64),
            limb_count_upto(x, 64) <= 64,
        decreases limb_count_upto(y, 64),
    {
        proof {
            lemma_tz(y);
        }
        let t = y.trailing_zeros();
        let cleared = y ^ (1u64 << t);
        proof {
            assert forall|j: int| 0 <= j < 64 implies #[trigger] limb_bit(cleared, j) == (limb_bit(y, j) && j != t)
                by {
                lemma_limb_bit_ops(y, 1u64 << t, j);
                lemma_limb_single(t as int, j);
            }
            lemma_limb_count_drop(y, cleared, t as int, 64);
        }
        y = cleared;
        c = c + 1;
    }
    proof {
        lemma_limb_zero(y);
        lemma_limb_count_none(y, 64);
    }
    c
}

/// At most `n` of the first `n` bits are set.
proof fn lemma_limb_count_bound(x: u64, n: int)
    requires
        0 <= n,
    ensures
        limb_count_upto(x, n) <= n,
    decreases n,
{
    if n > 0 {
        lemma_limb_count_bound(x, n - 1);
    }
}

/// No set bit among the first `n` means none is counted.
proof fn lemma_limb_count_none(x: u64, n: int)
    requires
        0 <= n <= 64,
        forall|j: int| 0 <= j < 64 ==> !#[trigger] limb_bit(x, j),
    ensures
        limb_count_upto(x, n) == 0,
    decreases n,
{
    if n > 0 {
        lemma_limb_count_none(x, n - 1);
    }
}

/// `y` is `x` with its set bit `t` cleared: below `n > t`, one fewer is set.
proof fn lemma_limb_count_drop(x: u64, y: u64, t: int, n: int)
    requires
        0 <= t < 64,
        0 <= n <= 64,
        limb_bit(x, t),
        forall|j: int| 0 <= j < 64 ==> #[trigger] limb_bit(y, j) == (limb_bit(x, j) && j != t),
    ensures
        limb_count_upto(y, n) + (if n > t { 1nat } else { 0nat }) == limb_count_upto(x, n),
    decreases n,
{
    if n > 0 {
        lemma_limb_count_drop(x, y, t, n - 1);
        assert(limb_bit(y, n - 1) == (limb_bit(x, n - 1) && n - 1 != t));
    }
}

/// Number of set bits of a 256-bit value.
pub fn popcount(a: &[u64; 4]) -> (r: u32)
    ensures
        r == count(*a),
        r <= 256,
{
    proof {
        lemma_count_by_limbs(*a);
        lemma_count_upto_bound(*a, 256);
    }
    limb_popcount(a[0]) + limb_popcount(a[1]) + limb_popcount(a[2]) + limb_popcount(a[3])
}

/// Limb `i` of `a` shifted left by `64 * ls + bs` bits.
fn shl_limb(a: &[u64; 4], i: usize, ls: usize, bs: u64) -> (r: u64)
    requires
        i < 4,
        ls < 4,
        bs < 64,
    ensures
        forall|j: int|
            0 <= j < 64 ==> #[trigger] limb_bit(r, j) == (64 * i + j >= 64 * ls + bs && bit(
                *a,
                64 * i + j - (64 * ls + bs),
            )),
{
    if i < ls {
        proof {
            assert forall|j: int| 0 <= j < 64 implies #[trigger] limb_bit(0u64, j) == (64 * i + j
                >= 64 * ls + bs && bit(*a, 64 * i + j - (64 * ls + bs))) by {
                lemma_limb_bit_ops(0u64, 0u64, j);
            }
        }
        return 0;
    }
    let src = i - ls;
    let hi = a[src] << bs;
    if bs > 0 && src > 0 {
        let lo = a[src - 1] >> (64 - bs);
        let r = hi | lo;
        proof {
            assert forall|j: int| 0 <= j < 64 implies #[trigger] limb_bit(r, j) == (64 * i + j
                >= 64 * ls + bs && bit(*a, 64 * i + j - (64 * ls + bs))) by {
                lemma_limb_bit_ops(hi, lo, j);
                lemma_limb_shl(a[src as int], bs as int, j);
                lemma_limb_shr(a[src - 1], 64 - bs, j);
                if j >= bs {
                    lemma_bit_of(*a, src as int, j - bs);
                } else {
                    lemma_bit_of(*a, src - 1, j + 64 - bs);
                }
            }
        }
        r
    } else {
        proof {
            assert forall|j: int| 0 <= j < 64 implies #[trigger] limb_bit(hi, j) == (64 * i + j
                >= 64 * ls + bs && bit(*a, 64 * i + j - (64 * ls + bs))) by {
                lemma_limb_shl(a[src as int], bs as int, j);
                if j >= bs {
                    lemma_bit_of(*a, src as int, j - bs);
                }
            }
        }
        hi
    }
}

/// `a` shifted towards higher bit indices by `n`; bits beyond 255 are lost.
pub fn shl(a: &[u64; 4], n: u32) -> (r: [u64; 4])
    ensures
        forall|i: int| 0 <= i < 256 ==> #[trigger] bit(r, i) == (i >= n && bit(*a, i - n)),
{
    if n >= 256 {
        let r = [0u64, 0u64, 0u64, 0u64];
        proof {
            assert forall|i: int| 0 <= i < 256 implies #[trigger] bit(r, i) == (i >= n && bit(
                *a,
                i - n,
            )) by {
                lemma_index_bounds(i);
                lemma_limb_bit_ops(0u64, 0u64, i % 64);
                assert(r[i / 64] == 0u64);
            }
        }
        return r;
    }
    let ls = (n / 64) as usize;
    let bs = (n % 64) as u64;
    let r = [shl_limb(a, 0, ls, bs), shl_limb(a, 1, ls, bs), shl_limb(a, 2, ls, bs), shl_limb(a, 3, ls, bs)];
    proof {
        assert forall|i: int| 0 <= i < 256 implies #[trigger] bit(r, i) == (i >= n && bit(
            *a,
            i - n,
        )) by {
            lemma_index_bounds(i);
            let k = i / 64;
            let j = i % 64;
            assert(limb_bit(r[k], j) == (64 * k + j >= 64 * ls + bs && bit(
                *a,
                64 * k + j - (64 * ls + bs),
            )));
        }
    }
    r
}

/// Limb `i` of `a` shifted right by `64 * ls + bs` bits.
fn shr_limb(a: &[u64; 4], i: usize, ls: usize, bs: u64) -> (r: u64)
    requires
        i < 4,
        ls < 4,
        bs < 64,
    ensures
        forall|j: int|
            0 <= j < 64 ==> #[trigger] limb_bit(r, j) == bit(*a, 64 * i + j + (64 * ls + bs)),
{
    let src = i + ls;
    if src >= 4 {
        proof {
            assert forall|j: int| 0 <= j < 64 implies #[trigger] limb_bit(0u64, j) == bit(
                *a,
                64 * i + j + (64 * ls + bs),
            ) by {
                lemma_limb_bit_ops(0u64, 0u64, j);
            }
        }
        return 0;
    }
    let lo = a[src] >> bs;
    if bs > 0 && src + 1 < 4 {
        let hi = a[src + 1] << (64 - bs);
        let r = lo | hi;
        proof {
            assert forall|j: int| 0 <= j < 64 implies #[trigger] limb_bit(r, j) == bit(
                *a,
                64 * i + j + (64 * ls + bs),
            ) by {
                lemma_limb_bit_ops(lo, hi, j);
                lemma_limb_shr(a[src as int], bs as int, j);
                lemma_limb_shl(a[src + 1], 64 - bs, j);
                if j + bs < 64 {
                    lemma_bit_of(*a, src as int, j + bs);
                } else {
                    lemma_bit_of(*a, src + 1, j + bs - 64);
                }
            }
        }
        r
    } else {
        proof {
            assert forall|j: int| 0 <= j < 64 implies #[trigger] limb_bit(lo, j) == bit(
                *a,
                64 * i + j + (64 * ls + bs),
            ) by {
                lemma_limb_shr(a[src as int], bs as int, j);
                if j + bs < 64 {
                    lemma_bit_of(*a, src as int, j + bs);
                }
            }
        }
        lo
    }
}

/// `a` shifted towards lower bit indices by `n`; bits below 0 are lost.
pub fn shr(a: &[u64; 4], n: u32) -> (r: [u64; 4])
    ensures
        forall|i: int| 0 <= i < 256 ==> #[trigger] bit(r, i) == bit(*a, i + n),
{
    if n >= 256 {
        let r = [0u64, 0u64, 0u64, 0u64];
        proof {
            assert forall|i: int| 0 <= i < 256 implies #[trigger] bit(r, i) == bit(*a, i + n) by {
                lemma_index_bounds(i);
                lemma_limb_bit_ops(0u64, 0u64, i % 64);
                assert(r[i / 64] == 0u64);
            }
        }
        return r;
    }
    let ls = (n / 64) as usize;
    let bs = (n % 64) as u64;
    let r = [shr_limb(a, 0, ls, bs), shr_limb(a, 1, ls, bs), shr_limb(a, 2, ls, bs), shr_limb(a, 3, ls, bs)];
    proof {
        assert forall|i: int| 0 <= i < 256 implies #[trigger] bit(r, i) == bit(*a, i + n) by {
            lemma_index_bounds(i);
            let k = i / 64;
            let j = i % 64;
            assert(limb_bit(r[k], j) == bit(*a, 64 * k + j + (64 * ls + bs)));
        }
    }
    r
}

/// Bitwise AND of two values.
pub fn and(a: &[u64; 4], b: &[u64; 4]) -> (r: [u64; 4])
    ensures
        r == [a[0] & b[0], a[1] & b[1], a[2] & b[2], a[3] & b[3]],
        forall|i: int| 0 <= i < 256 ==> #[trigger] bit(r, i) == (bit(*a, i) && bit(*b, i)),
{
    let r = [a[0] & b[0], a[1] & b[1], a[2] & b[2], a[3] & b[3]];
    proof {
        assert forall|i: int| 0 <= i < 256 implies #[trigger] bit(r, i) == (bit(*a, i) && bit(
            *b,
            i,
        )) by {
            lemma_index_bounds(i);
            lemma_limb_bit_ops(a[i / 64], b[i / 64], i % 64);
        }
    }
    r
}

/// Bitwise OR of two values.
pub fn or(a: &[u64; 4], b: &[u64; 4]) -> (r: [u64; 4])
    ensures
        r == [a[0] | b[0], a[1] | b[1], a[2] | b[2], a[3] | b[3]],
        forall|i: int| 0 <= i < 256 ==> #[trigger] bit(r, i) == (bit(*a, i) || bit(*b, i)),
{
    let r = [a[0] | b[0], a[1] | b[1], a[2] | b[2], a[3] | b[3]];
    proof {
        assert forall|i: int| 0 <= i < 256 implies #[trigger] bit(r, i) == (bit(*a, i) || bit(
            *b,
            i,
        )) by {
            lemma_index_bounds(i);
            lemma_limb_bit_ops(a[i / 64], b[i / 64], i % 64);
        }
    }
    r
}

/// Bitwise XOR of two values.
pub fn xor(a: &[u64; 4], b: &[u64; 4]) -> (r: [u64; 4])
    ensures
        r == [a[0] ^ b[0], a[1] ^ b[1], a[2] ^ b[2], a[3] ^ b[3]],
        forall|i: int| 0 <= i < 256 ==> #[trigger] bit(r, i) == (bit(*a, i) != bit(*b, i)),
{
    let r = [a[0] ^ b[0], a[1] ^ b[1], a[2] ^ b[2], a[3] ^ b[3]];
    proof {
        assert forall|i: int| 0 <= i < 256 implies #[trigger] bit(r, i) == (bit(*a, i) != bit(
            *b,
            i,
        )) by {
            lemma_index_bounds(i);
            lemma_limb_bit_ops(a[i / 64], b[i / 64], i % 64);
        }
    }
    r
}

/// Bitwise NOT of all 256 bits.
pub fn not(a: &[u64; 4]) -> (r: [u64; 4])
    ensures
        r == [!a[0], !a[1], !a[2], !a[3]],
        forall|i: int| 0 <= i < 256 ==> #[trigger] bit(r, i) == !bit(*a, i),
{
    let r = [!a[0], !a[1], !a[2], !a[3]];
    proof {
        assert forall|i: int| 0 <= i < 256 implies #[trigger] bit(r, i) == !bit(*a, i) by {
            lemma_index_bounds(i);
            lemma_limb_bit_ops(a[i / 64], a[i / 64], i % 64);
        }
    }
    r
}

/// The all-zero value has no bit set and count zero.
pub proof fn lemma_zero()
    ensures
        forall|i: int| 0 <= i < 256 ==> !#[trigger] bit(zero(), i),
        count(zero()) == 0,
{
    assert forall|i: int| 0 <= i < 256 implies !#[trigger] bit(zero(), i) by {
        lemma_index_bounds(i);
        lemma_limb_bit_ops(0u64, 0u64, i % 64);
        assert(zero()[i / 64] == 0u64);
    }
    lemma_count_upto_empty(zero(), 256);
}

/// The value with exactly bit `index` set.
pub fn single(index: u32) -> (r: [u64; 4])
    requires
        index < 256,
    ensures
        forall|i: int| 0 <= i < 256 ==> #[trigger] bit(r, i) == (i == index),
        count(r) == 1,
{
    let k = (index / 64) as usize;
    let s = (index % 64) as u64;
    let l = 1u64 << s;
    let r = if k == 0 {
        [l, 0u64, 0u64, 0u64]
    } else if k == 1 {
        [0u64, l, 0u64, 0u64]
    } else if k == 2 {
        [0u64, 0u64, l, 0u64]
    } else {
        [0u64, 0u64, 0u64, l]
    };
    proof {
        assert forall|i: int| 0 <= i < 256 implies #[trigger] bit(r, i) == (i == index) by {
            lemma_index_bounds(i);
            lemma_limb_single(s as int, i % 64);
            lemma_limb_bit_ops(0u64, 0u64, i % 64);
            if i / 64 == k {
                assert(r[i / 64] == l);
            } else {
                assert(r[i / 64] == 0u64);
            }
        }
        lemma_count_upto_single(r, index as int, 256);
    }
    r
}

/// Whether bit `index` is set.
pub fn get(a: &[u64; 4], index: u32) -> (r: bool)
    requires
        index < 256,
    ensures
        r == bit(*a, index as int),
{
    let limb = a[(index / 64) as usize];
    let s = (index % 64) as u64;
    proof {
        assert(((limb >> s) & 1u64 != 0u64) == ((limb >> s) & 1u64 == 1u64)) by (bit_vector);
    }
    (limb >> s) & 1 != 0
}

/// `a` with bit `index` set.
pub fn set(a: &[u64; 4], index: u32) -> (r: [u64; 4])
    requires
        index < 256,
    ensures
        forall|i: int| 0 <= i < 256 ==> #[trigger] bit(r, i) == (bit(*a, i) || i == index),
{
    let s = single(index);
    or(a, &s)
}

/// `a` with bit `index` cleared.
pub fn clear(a: &[u64; 4], index: u32) -> (r: [u64; 4])
    requires
        index < 256,
    ensures
        forall|i: int| 0 <= i < 256 ==> #[trigger] bit(r, i) == (bit(*a, i) && i != index),
{
    let s = single(index);
    let ns = not(&s);
    and(a, &ns)
}

/// Whether no bit is set.
pub fn is_zero(a: &[u64; 4]) -> (r: bool)
    ensures
        r == (forall|i: int| 0 <= i < 256 ==> !#[trigger] bit(*a, i)),
        r == (*a == zero()),
{
    let r = a[0] == 0 && a[1] == 0 && a[2] == 0 && a[3] == 0;
    proof {
        lemma_zero();
        let z = zero();
        assert(z[0] == 0u64 && z[1] == 0u64 && z[2] == 0u64 && z[3] == 0u64);
        if r {
            assert(*a =~= z);
        } else {
            let k: int = if a[0] != 0 { 0 } else if a[1] != 0 { 1 } else if a[2] != 0 { 2 } else { 3 };
            lemma_limb_zero(a[k]);
            let j = choose|j: int| 0 <= j < 64 && #[trigger] limb_bit(a[k], j);
            lemma_bit_of(*a, k, j);
            assert(bit(*a, 64 * k + j));
        }
    }
    r
}

proof fn lemma_tz(x: u64)
    requires
        x != 0,
    ensures
        0 <= vstd::std_specs::bits::u64_trailing_zeros(x) < 64,
        limb_bit(x, vstd::std_specs::bits::u64_trailing_zeros(x) as int),
        forall|j: int|
            0 <= j < vstd::std_specs::bits::u64_trailing_zeros(x) ==> !#[trigger] limb_bit(x, j),
{
    vstd::std_specs::bits::axiom_u64_trailing_zeros(x);
    let t = vstd::std_specs::bits::u64_trailing_zeros(x);
    assert forall|j: int| 0 <= j < t implies !#[trigger] limb_bit(x, j) by {
        assert((x >> (j as u64)) & 1u64 == 0u64);
    }
}

/// Index of the lowest set bit, or 256 when no bit is set.
pub fn lowest(a: &[u64; 4]) -> (r: u32)
    ensures
        r <= 256,
        r < 256 ==> bit(*a, r as int),
        forall|i: int| 0 <= i < r ==> !#[trigger] bit(*a, i),
{
    proof {
        assert forall|i: int| 0 <= i < 256 implies #[trigger] bit(*a, i) == limb_bit(
            a[i / 64],
            i % 64,
        ) by {
            lemma_index_bounds(i);
        }
    }
    if a[0] != 0 {
        proof {
            lemma_tz(a[0]);
            lemma_bit_of(*a, 0, vstd::std_specs::bits::u64_trailing_zeros(a[0]) as int);
        }
        return a[0].trailing_zeros();
    }
    proof {
        lemma_limb_zero(a[0]);
    }
    if a[1] != 0 {
        proof {
            lemma_tz(a[1]);
            lemma_bit_of(*a, 1, vstd::std_specs::bits::u64_trailing_zeros(a[1]) as int);
        }
        return 64 + a[1].trailing_zeros();
    }
    proof {
        lemma_limb_zero(a[1]);
    }
    if a[2] != 0 {
        proof {
            lemma_tz(a[2]);
            lemma_bit_of(*a, 2, vstd::std_specs::bits::u64_trailing_zeros(a[2]) as int);
        }
        return 128 + a[2].trailing_zeros();
    }
    proof {
        lemma_limb_zero(a[2]);
    }
    if a[3] != 0 {
        proof {
            lemma_tz(a[3]);
            lemma_bit_of(*a, 3, vstd::std_specs::bits::u64_trailing_zeros(a[3]) as int);
        }
        return 192 + a[3].trailing_zeros();
    }
    proof {
        lemma_limb_zero(a[3]);
    }
    256
}

/// Clearing a set bit `s` lowers the count below `n > s` by one.
pub proof fn lemma_count_clear(a: [u64; 4], b: [u64; 4], s: int, n: int)
    requires
        0 <= s < 256,
        bit(a, s),
        forall|i: int| 0 <= i < 256 ==> #[trigger] bit(b, i) == (bit(a, i) && i != s),
        0 <= n <= 256,
    ensures
        count_upto(a, n) == count_upto(b, n) + if s < n {
            1nat
        } else {
            0nat
        },
    decreases n,
{
    if n > 0 {
        lemma_count_clear(a, b, s, n - 1);
    }
}

} // verus!
