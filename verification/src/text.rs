//! Numbers in messages.

use vstd::prelude::*;

verus! {

/// The decimal digits of a number, without leading zeros.
pub open spec fn decimal(n: nat) -> Seq<char>
    decreases n,
{
    if n < 10 {
        seq![decimal_digit(n as int)]
    } else {
        decimal(n / 10).push(decimal_digit((n % 10) as int))
    }
}

/// The digit for a number below 10.
pub open spec fn decimal_digit(n: int) -> char {
    "0123456789"@[n]
}

/// Writes a number in decimal digits.
pub fn to_decimal(n: u64) -> (r: String)
    ensures
        r@ == decimal(n as nat),
    decreases n,
{
    if n < 10 {
        digit_text(n)
    } else {
        let mut s: String = to_decimal(n / 10);
        let d: String = digit_text(n % 10);
        s.append(d.as_str());
        s
    }
}

/// Writes a number below 10.
fn digit_text(n: u64) -> (r: String)
    requires
        n < 10,
    ensures
        r@ == seq![decimal_digit(n as int)],
{
    let digits: &str = "0123456789";
    proof {
        reveal_strlit("0123456789");
    }
    let d: &str = digits.substring_char(n as usize, n as usize + 1);
    let r: String = d.to_owned();
    assert(r@ =~= seq![decimal_digit(n as int)]);
    r
}

} // verus!
