//! Building the texts that errors carry.

use vstd::prelude::*;

verus! {

/// The decimal digit `d` as text.
pub open spec fn digit_text(d: int) -> Seq<char> {
    if d == 0 {
        "0"@
    } else if d == 1 {
        "1"@
    } else if d == 2 {
        "2"@
    } else if d == 3 {
        "3"@
    } else if d == 4 {
        "4"@
    } else if d == 5 {
        "5"@
    } else if d == 6 {
        "6"@
    } else if d == 7 {
        "7"@
    } else if d == 8 {
        "8"@
    } else {
        "9"@
    }
}

/// `n` in decimal notation, without leading zeros.
pub open spec fn decimal_text(n: nat) -> Seq<char>
    decreases n,
{
    if n < 10 {
        digit_text(n as int)
    } else {
        decimal_text(n / 10) + digit_text((n % 10) as int)
    }
}

fn digit(d: u64) -> (s: &'static str)
    requires
        d < 10,
    ensures
        s@ == digit_text(d as int),
{
    if d == 0 {
        "0"
    } else if d == 1 {
        "1"
    } else if d == 2 {
        "2"
    } else if d == 3 {
        "3"
    } else if d == 4 {
        "4"
    } else if d == 5 {
        "5"
    } else if d == 6 {
        "6"
    } else if d == 7 {
        "7"
    } else if d == 8 {
        "8"
    } else {
        "9"
    }
}

/// `n` in decimal notation.
pub fn decimal(n: u64) -> (s: String)
    ensures
        s@ == decimal_text(n as nat),
    decreases n,
{
    if n < 10 {
        digit(n).to_owned()
    } else {
        let mut s = decimal(n / 10);
        s.append(digit(n % 10));
        s
    }
}

/// `before`, then `n` in decimal notation, then `after`.
pub fn with_number(before: &str, n: u64, after: &str) -> (s: String)
    ensures
        s@ == before@ + decimal_text(n as nat) + after@,
{
    let mut s = before.to_owned();
    let d = decimal(n);
    s.append(d.as_str());
    s.append(after);
    s
}

/// `before`, `n`, `between`, `m`, `after`, with both numbers in decimal
/// notation.
pub fn with_numbers(before: &str, n: u64, between: &str, m: u64, after: &str) -> (s: String)
    ensures
        s@ == before@ + decimal_text(n as nat) + between@ + decimal_text(m as nat) + after@,
{
    let mut s = with_number(before, n, between);
    let d = decimal(m);
    s.append(d.as_str());
    s.append(after);
    s
}

} // verus!
