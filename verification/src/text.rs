//! Decimal digits for the text renderings of boards and pieces.

use vstd::prelude::*;
use vstd::string::StringExecFns;

verus! {

/// The digit `d` as text.
pub open spec fn digit_text(d: int) -> Seq<char> {
    if d == 0 {
        "0"@
    } else if d == 1 {
        "1"@
    } else if d == 2 {
        "2"@
    } else if d == 3 {
        "3"@
    } else if d == 4 {
        "4"@
    } else if d == 5 {
        "5"@
    } else if d == 6 {
        "6"@
    } else if d == 7 {
        "7"@
    } else if d == 8 {
        "8"@
    } else {
        "9"@
    }
}

/// `n`, below 100, in decimal without leading zeros.
pub open spec fn decimal(n: int) -> Seq<char> {
    if n < 10 {
        digit_text(n)
    } else {
        digit_text(n / 10) + digit_text(n % 10)
    }
}

/// The digit `d` as text.
fn digit_str(d: u8) -> (r: &'static str)
    requires
        d < 10,
    ensures
        r@ == digit_text(d as int),
{
    if d == 0 {
        "0"
    } else if d == 1 {
        "1"
    } else if d == 2 {
        "2"
    } else if d == 3 {
        "3"
    } else if d == 4 {
        "4"
    } else if d == 5 {
        "5"
    } else if d == 6 {
        "6"
    } else if d == 7 {
        "7"
    } else if d == 8 {
        "8"
    } else {
        "9"
    }
}

/// Append `n`, below 100, in decimal.
pub fn append_decimal(s: &mut String, n: u8)
    requires
        n < 100,
    ensures
        final(s)@ == old(s)@ + decimal(n as int),
{
    if n < 10 {
        s.append(digit_str(n));
    } else {
        s.append(digit_str(n / 10));
        s.append(digit_str(n % 10));
        proof {
            assert(final(s)@ =~= old(s)@ + decimal(n as int));
        }
    }
}

} // verus!
