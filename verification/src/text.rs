//! Small text helpers shared by the formatters: hexadecimal and decimal
//! digits.

use vstd::prelude::*;

verus! {

/// The upper-case hexadecimal digit for `d` (taken modulo 16).
pub open spec fn hex_digit(d: int) -> char {
    let d = d % 16;
    if d < 10 {
        (('0' as int) + d) as char
    } else {
        (('A' as int) + d - 10) as char
    }
}

/// Four upper-case hexadecimal digits of `v`, most significant first.
pub open spec fn hex4(v: u16) -> Seq<char> {
    seq![hex_digit(v as int / 4096), hex_digit(v as int / 256), hex_digit(v as int / 16), hex_digit(v as int)]
}

fn digit_char(d: u16) -> (c: char)
    requires
        d < 16,
    ensures
        c == hex_digit(d as int),
{
    if d < 10 {
        ((48 + d) as u8) as char
    } else {
        ((55 + d) as u8) as char
    }
}

/// Appends the four upper-case hexadecimal digits of `v` to `out`.
pub fn push_hex4(out: &mut String, v: u16)
    ensures
        final(out)@ == old(out)@ + hex4(v),
{
    push_char(out, digit_char(v / 4096));
    push_char(out, digit_char((v / 256) % 16));
    push_char(out, digit_char((v / 16) % 16));
    push_char(out, digit_char(v % 16));
}

/// The decimal digits of `n`, most significant first, with no leading
/// zero.
pub open spec fn decimal(n: nat) -> Seq<char>
    decreases n,
{
    if n < 10 {
        seq![(('0' as int) + n) as char]
    } else {
        decimal(n / 10).push((('0' as int) + n % 10) as char)
    }
}

/// Appends the decimal digits of `n` to `out`.
pub fn push_decimal(out: &mut String, n: u32)
    ensures
        final(out)@ == old(out)@ + decimal(n as nat),
    decreases n,
{
    if n >= 10 {
        push_decimal(out, n / 10);
    }
    let d = (n % 10) as u8;
    push_char(out, (48u8 + d) as char);
    proof {
        assert(((48u8 + d) as char) == (('0' as int) + (n as nat) % 10) as char);
        if n >= 10 {
            assert(old(out)@ + decimal((n / 10) as nat) + seq![((48u8 + d) as char)] =~= old(out)@
                + decimal(n as nat));
        } else {
            assert(old(out)@.push((48u8 + d) as char) =~= old(out)@ + decimal(n as nat));
        }
    }
}

/// `String::push`, which appends one character: the contract claims that
/// the string afterwards is the string before with `c` at its end.
#[verifier::external_body]
fn push_char(out: &mut String, c: char)
    ensures
        final(out)@ == old(out)@.push(c),
{
    out.push(c);
}

} // verus!
