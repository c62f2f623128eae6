//! Building strings: characters appended one at a time, and numbers written
//! out in decimal and in hexadecimal.

use vstd::prelude::*;
use vstd::string::StringExecFns;

verus! {

/// The digits that numbers are written with, lowest first.
pub open spec fn digits() -> Seq<char> {
    "0123456789ABCDEF"@
}

/// `n` written in decimal, without leading zeros.
pub open spec fn decimal(n: nat) -> Seq<char>
    decreases n,
{
    if n < 10 {
        seq![digits()[n as int]]
    } else {
        decimal(n / 10).push(digits()[(n % 10) as int])
    }
}

/// `n` written in hexadecimal with upper-case letters, without leading
/// zeros.
pub open spec fn hex_upper(n: nat) -> Seq<char>
    decreases n,
{
    if n < 16 {
        seq![digits()[n as int]]
    } else {
        hex_upper(n / 16).push(digits()[(n % 16) as int])
    }
}

/// `String::push` of the standard library: the character is appended to
/// the end of the string.
pub assume_specification[ String::push ](s: &mut String, c: char)
    ensures
        final(s)@ == old(s)@.push(c),
;

/// The digit of value `d`.
pub fn digit(d: u32) -> (c: char)
    requires
        d < 16,
    ensures
        c == digits()[d as int],
{
    proof {
        reveal_strlit("0123456789ABCDEF");
    }
    "0123456789ABCDEF".get_char(d as usize)
}

/// Appends `n` in decimal to `out`.
pub fn push_decimal(out: &mut String, n: u32)
    ensures
        final(out)@ == old(out)@ + decimal(n as nat),
    decreases n,
{
    if n >= 10 {
        push_decimal(out, n / 10);
    }
    out.push(digit(n % 10));
    assert(out@ =~= old(out)@ + decimal(n as nat));
}

/// Appends `n` in upper-case hexadecimal to `out`.
pub fn push_hex_upper(out: &mut String, n: u32)
    ensures
        final(out)@ == old(out)@ + hex_upper(n as nat),
    decreases n,
{
    if n >= 16 {
        push_hex_upper(out, n / 16);
    }
    out.push(digit(n % 16));
    assert(out@ =~= old(out)@ + hex_upper(n as nat));
}

/// Appends `part` to `out`.
pub fn push_text(out: &mut String, part: &str)
    ensures
        final(out)@ == old(out)@ + part@,
{
    out.append(part);
}

} // verus!
