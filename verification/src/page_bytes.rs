//! Byte-string tools for reading a saved page: decimal numbers, the last
//! occurrence of a marker before an index, equality and byte order.

use vstd::prelude::*;
use crate::page::{occurs_at, occurs_at_exec};

verus! {

/// An ASCII decimal digit.
pub open spec fn is_digit(c: u8) -> bool {
    48 <= c && c <= 57
}

/// A nonempty run of ASCII digits.
pub open spec fn all_digits(s: Seq<u8>) -> bool {
    s.len() > 0 && forall|i: int| 0 <= i < s.len() ==> #[trigger] is_digit(s[i])
}

/// The value of a run of decimal digits.
pub open spec fn decimal(s: Seq<u8>) -> int
    decreases s.len(),
{
    if s.len() == 0 {
        0
    } else {
        10 * decimal(s.drop_last()) + (s.last() - 48)
    }
}

/// The number `s` spells, where it is a run of digits worth at most `max`.
pub open spec fn number_in(s: Seq<u8>, max: int) -> Option<int> {
    if all_digits(s) && decimal(s) <= max {
        Some(decimal(s))
    } else {
        None
    }
}

/// Ten to the power `k`.
pub open spec fn ten_to(k: nat) -> int
    decreases k,
{
    if k == 0 {
        1
    } else {
        10 * ten_to((k - 1) as nat)
    }
}

/// Decimal digits are positional: the digits of `a` followed by those of `b`
/// spell `a`'s number shifted up by as many places as `b` has digits, plus
/// `b`'s number.
pub proof fn lemma_decimal_concat(a: Seq<u8>, b: Seq<u8>)
    ensures
        decimal(a + b) == decimal(a) * ten_to(b.len()) + decimal(b),
    decreases b.len(),
{
    if b.len() == 0 {
        assert(a + b =~= a);
    } else {
        let b1 = b.drop_last();
        assert((a + b).drop_last() =~= a + b1);
        assert((a + b).last() == b.last());
        lemma_decimal_concat(a, b1);
        let x = decimal(a);
        let t = ten_to(b1.len());
        assert(ten_to(b.len()) == 10 * t);
        assert(10 * (x * t + decimal(b1)) + (b.last() - 48) == x * (10 * t) + (10 * decimal(b1) + (b.last() - 48)))
            by (nonlinear_arith);
    }
}

/// One more digit multiplies the number by ten and adds the digit's value;
/// a single digit is worth its distance from `0`.
pub proof fn lemma_decimal_push(s: Seq<u8>, c: u8)
    ensures
        decimal(s.push(c)) == 10 * decimal(s) + (c - 48),
        decimal(seq![c]) == c - 48,
{
    lemma_decimal_concat(s, seq![c]);
    assert(s + seq![c] =~= s.push(c));
    assert(seq![c].drop_last() =~= Seq::<u8>::empty());
    assert(decimal(Seq::<u8>::empty()) == 0);
    assert(ten_to(0) == 1);
    assert(ten_to(1) == 10);
    assert(decimal(s) * 10 == 10 * decimal(s)) by (nonlinear_arith);
}

proof fn lemma_decimal_nonneg(s: Seq<u8>)
    requires
        forall|i: int| 0 <= i < s.len() ==> #[trigger] is_digit(s[i]),
    ensures
        decimal(s) >= 0,
    decreases s.len(),
{
    if s.len() > 0 {
        assert forall|i: int| 0 <= i < s.drop_last().len() implies #[trigger] is_digit(s.drop_last()[i]) by {
            assert(s.drop_last()[i] == s[i]);
        }
        lemma_decimal_nonneg(s.drop_last());
        assert(is_digit(s[s.len() - 1]));
    }
}

/// The number `s` spells, if it is a run of ASCII digits worth at most `max`.
pub fn parse_decimal(s: &[u8], max: u64) -> (r: Option<u64>)
    ensures
        r matches Some(v) ==> number_in(s@, max as int) == Some(v as int),
        r is None ==> number_in(s@, max as int) is None,
{
    if s.len() == 0 {
        return None;
    }
    let mut i: usize = 0;
    while i < s.len()
        invariant
            0 <= i <= s@.len(),
            forall|j: int| 0 <= j < i ==> #[trigger] is_digit(s@[j]),
        decreases s@.len() - i,
    {
        if s[i] < 48 || s[i] > 57 {
            proof {
                assert(!is_digit(s@[i as int]));
            }
            return None;
        }
        i = i + 1;
    }
    let cap: u128 = max as u128 + 1;
    let mut v: u128 = 0;
    let mut k: usize = 0;
    while k < s.len()
        invariant
            0 <= k <= s@.len(),
            all_digits(s@),
            cap == max + 1,
            v == if decimal(s@.take(k as int)) < cap {
                decimal(s@.take(k as int))
            } else {
                cap as int
            },
        decreases s@.len() - k,
    {
        proof {
            assert(is_digit(s@[k as int]));
        }
        let d = (s[k] - 48) as u128;
        proof {
            assert(s@.take(k + 1).drop_last() =~= s@.take(k as int));
            assert(s@.take(k + 1).last() == s@[k as int]);
            assert forall|j: int| 0 <= j < s@.take(k as int).len() implies #[trigger] is_digit(s@.take(k as int)[j]) by {
                assert(s@.take(k as int)[j] == s@[j]);
            }
            lemma_decimal_nonneg(s@.take(k as int));
        }
        let next = v * 10 + d;
        v = if next < cap {
            next
        } else {
            cap
        };
        k = k + 1;
    }
    proof {
        assert(s@.take(k as int) =~= s@);
    }
    if v <= max as u128 {
        Some(v as u64)
    } else {
        None
    }
}

/// The last start at or below `s`, and at or above `lo`, where `needle` occurs in `hay`.
pub open spec fn last_down_from(hay: Seq<u8>, needle: Seq<u8>, lo: int, s: int) -> Option<int>
    decreases s - lo + 1,
{
    if s < lo || s < 0 {
        None
    } else if occurs_at(hay, needle, s) {
        Some(s)
    } else {
        last_down_from(hay, needle, lo, s - 1)
    }
}

/// The last occurrence of `needle` lying wholly in `hay[lo..hi]`.
pub open spec fn last_within(hay: Seq<u8>, needle: Seq<u8>, lo: int, hi: int) -> Option<int> {
    last_down_from(hay, needle, lo, hi - needle.len())
}

/// The last occurrence of `needle` lying wholly in `hay[lo..hi]`.
pub fn rfind_within(hay: &[u8], needle: &[u8], lo: usize, hi: usize) -> (r: Option<usize>)
    requires
        lo <= hi <= hay@.len(),
    ensures
        r matches Some(i) ==> last_within(hay@, needle@, lo as int, hi as int) == Some(i as int),
        r is None ==> last_within(hay@, needle@, lo as int, hi as int) is None,
        r matches Some(i) ==> lo <= i && i + needle@.len() <= hi,
{
    if needle.len() > hi || hi - needle.len() < lo {
        proof {
            assert(last_down_from(hay@, needle@, lo as int, hi - needle@.len()) is None);
        }
        return None;
    }
    let mut s = hi - needle.len();
    loop
        invariant
            lo <= s,
            s + needle@.len() <= hi <= hay@.len(),
            last_within(hay@, needle@, lo as int, hi as int) == last_down_from(hay@, needle@, lo as int, s as int),
        decreases s,
    {
        if occurs_at_exec(hay, needle, s) {
            return Some(s);
        }
        if s == lo {
            proof {
                assert(last_down_from(hay@, needle@, lo as int, s - 1) is None);
            }
            return None;
        }
        s = s - 1;
    }
}

/// Whether two byte strings are equal.
pub fn bytes_equal(a: &[u8], b: &[u8]) -> (r: bool)
    ensures
        r == (a@ == b@),
{
    if a.len() != b.len() {
        return false;
    }
    let mut i: usize = 0;
    while i < a.len()
        invariant
            a@.len() == b@.len(),
            0 <= i <= a@.len(),
            a@.subrange(0, i as int) == b@.subrange(0, i as int),
        decreases a@.len() - i,
    {
        if a[i] != b[i] {
            proof {
                assert(a@[i as int] != b@[i as int]);
            }
            return false;
        }
        i = i + 1;
        proof {
            assert(a@.subrange(0, i as int) =~= b@.subrange(0, i as int));
        }
    }
    proof {
        assert(a@ =~= a@.subrange(0, i as int));
        assert(b@ =~= b@.subrange(0, i as int));
    }
    true
}

/// Byte order: `a` sorts before `b`.
pub open spec fn lex_lt(a: Seq<u8>, b: Seq<u8>) -> bool
    decreases a.len(),
{
    if a.len() == 0 {
        b.len() > 0
    } else if b.len() == 0 {
        false
    } else if a[0] != b[0] {
        a[0] < b[0]
    } else {
        lex_lt(a.drop_first(), b.drop_first())
    }
}

/// Byte order is transitive.
pub proof fn lemma_lex_transitive(a: Seq<u8>, b: Seq<u8>, c: Seq<u8>)
    requires
        lex_lt(a, b),
        lex_lt(b, c),
    ensures
        lex_lt(a, c),
    decreases a.len(),
{
    if a.len() > 0 && b.len() > 0 && c.len() > 0 && a[0] == b[0] && b[0] == c[0] {
        lemma_lex_transitive(a.drop_first(), b.drop_first(), c.drop_first());
    }
}

/// Byte order is total and strict.
pub proof fn lemma_lex_total(a: Seq<u8>, b: Seq<u8>)
    ensures
        a != b ==> lex_lt(a, b) || lex_lt(b, a),
        !(lex_lt(a, b) && lex_lt(b, a)),
        !lex_lt(a, a),
    decreases a.len(),
{
    if a.len() > 0 && b.len() > 0 && a[0] == b[0] {
        lemma_lex_total(a.drop_first(), b.drop_first());
        if a != b {
            assert(a =~= seq![a[0]] + a.drop_first());
            assert(b =~= seq![b[0]] + b.drop_first());
        }
    }
    if a.len() > 0 {
        lemma_lex_total(a.drop_first(), a.drop_first());
    }
    if a.len() == 0 && b.len() == 0 {
        assert(a =~= b);
    }
}

/// Whether `a` sorts before `b` in byte order.
pub fn bytes_less(a: &[u8], b: &[u8]) -> (r: bool)
    ensures
        r == lex_lt(a@, b@),
{
    let mut i: usize = 0;
    proof {
        assert(a@.skip(0) =~= a@);
        assert(b@.skip(0) =~= b@);
    }
    loop
        invariant
            i <= a@.len(),
            i <= b@.len(),
            lex_lt(a@, b@) == lex_lt(a@.skip(i as int), b@.skip(i as int)),
        decreases a@.len() - i,
    {
        if i == a.len() {
            return i < b.len();
        }
        if i == b.len() {
            return false;
        }
        if a[i] != b[i] {
            return a[i] < b[i];
        }
        proof {
            assert(a@.skip(i as int).drop_first() =~= a@.skip(i + 1));
            assert(b@.skip(i as int).drop_first() =~= b@.skip(i + 1));
        }
        i = i + 1;
    }
}

} // verus!
