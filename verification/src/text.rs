//! Building the text of messages: numbers spelled in decimal and in hexadecimal.

use vstd::prelude::*;
use vstd::string::*;

verus! {

/// The one-character text of a digit, for digits up to hexadecimal `f`.
pub open spec fn digit(d: int) -> Seq<char> {
    if d == 0 { "0"@ } else if d == 1 { "1"@ } else if d == 2 { "2"@ } else if d == 3 { "3"@ }
    else if d == 4 { "4"@ } else if d == 5 { "5"@ } else if d == 6 { "6"@ } else if d == 7 { "7"@ }
    else if d == 8 { "8"@ } else if d == 9 { "9"@ } else if d == 10 { "a"@ } else if d == 11 { "b"@ }
    else if d == 12 { "c"@ } else if d == 13 { "d"@ } else if d == 14 { "e"@ } else { "f"@ }
}

/// The decimal text of `n`, without leading zeros.
pub open spec fn decimal(n: nat) -> Seq<char>
    decreases n,
{
    if n < 10 {
        digit(n as int)
    } else {
        decimal(n / 10) + digit((n % 10) as int)
    }
}

/// The hexadecimal text of `n`, padded with zeros to `width` digits.
pub open spec fn hexadecimal(n: nat, width: nat) -> Seq<char>
    decreases width,
{
    if width == 0 {
        Seq::empty()
    } else {
        hexadecimal(n / 16, (width - 1) as nat) + digit((n % 16) as int)
    }
}

fn digit_text(d: u8) -> (r: &'static str)
    requires
        d < 16,
    ensures
        r@ == digit(d as int),
{
    match d {
        0 => "0",
        1 => "1",
        2 => "2",
        3 => "3",
        4 => "4",
        5 => "5",
        6 => "6",
        7 => "7",
        8 => "8",
        9 => "9",
        10 => "a",
        11 => "b",
        12 => "c",
        13 => "d",
        14 => "e",
        _ => "f",
    }
}

/// Append the decimal text of `n`.
pub fn push_decimal(out: &mut String, n: u64)
    ensures
        final(out)@ == old(out)@ + decimal(n as nat),
    decreases n,
{
    if n >= 10 {
        push_decimal(out, n / 10);
    }
    out.append(digit_text((n % 10) as u8));
    proof {
        assert(final(out)@ =~= old(out)@ + decimal(n as nat));
    }
}

/// Append the hexadecimal text of `n` in `width` digits.
pub fn push_hexadecimal(out: &mut String, n: u32, width: u8)
    ensures
        final(out)@ == old(out)@ + hexadecimal(n as nat, width as nat),
    decreases width,
{
    if width > 0 {
        push_hexadecimal(out, n / 16, width - 1);
        out.append(digit_text((n % 16) as u8));
    }
    proof {
        assert(final(out)@ =~= old(out)@ + hexadecimal(n as nat, width as nat));
    }
}

/// `m`, then `s`.
pub fn add_text(m: String, s: &str) -> (r: String)
    ensures
        r@ == m@ + s@,
{
    m.concat(s)
}

/// `m`, then `n` in decimal.
pub fn add_number(m: String, n: u64) -> (r: String)
    ensures
        r@ == m@ + decimal(n as nat),
{
    let mut out = m;
    push_decimal(&mut out, n);
    out
}

/// `before`, then `after`.
pub fn joined(before: &str, after: &str) -> (r: String)
    ensures
        r@ == before@ + after@,
{
    add_text(String::from_str(before), after)
}

/// `before`, then `n` in decimal.
pub fn numbered(before: &str, n: u64) -> (r: String)
    ensures
        r@ == before@ + decimal(n as nat),
{
    add_number(String::from_str(before), n)
}

} // verus!
