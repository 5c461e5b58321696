//! Decimal rendering of counts and status codes.

use vstd::prelude::*;

verus! {

/// The character of a decimal digit.
pub open spec fn digit_char(d: nat) -> char {
    ((d + 48) as u32) as char
}

/// The decimal digits of `n`, as `usize`'s `Display` writes them.
pub open spec fn decimal_digits(n: nat) -> Seq<char>
    decreases n,
{
    if n < 10 {
        seq![digit_char(n)]
    } else {
        decimal_digits(n / 10).push(digit_char(n % 10))
    }
}

fn push_decimal(out: &mut Vec<char>, n: usize)
    ensures
        final(out)@ == old(out)@ + decimal_digits(n as nat),
    decreases n,
{
    if n >= 10 {
        push_decimal(out, n / 10);
    }
    let d: u8 = (n % 10) as u8;
    let c: char = (d + 48) as char;
    assert(c == digit_char((n % 10) as nat));
    out.push(c);
    proof {
        if n < 10 {
            assert(old(out)@ + decimal_digits(n as nat) =~= old(out)@.push(c));
        } else {
            assert((old(out)@ + decimal_digits((n / 10) as nat)).push(c) =~= old(out)@ + decimal_digits(n as nat));
        }
    }
}

/// `n` written in decimal.
pub fn decimal(n: usize) -> (res: Vec<char>)
    ensures
        res@ == decimal_digits(n as nat),
{
    let mut out: Vec<char> = Vec::new();
    push_decimal(&mut out, n);
    assert(out@ =~= decimal_digits(n as nat));
    out
}

/// The decimal form of a signed integer, as `i32`'s `Display` writes it.
pub open spec fn signed_digits(v: int) -> Seq<char> {
    if v < 0 {
        seq!['-'] + decimal_digits((-v) as nat)
    } else {
        decimal_digits(v as nat)
    }
}

/// `v` written in decimal, with a leading `-` when negative.
pub fn signed_decimal(v: i32) -> (res: Vec<char>)
    ensures
        res@ == signed_digits(v as int),
{
    if v < 0 {
        let wide: i64 = v as i64;
        let m: u32 = (-wide) as u32;
        let mut out: Vec<char> = Vec::new();
        out.push('-');
        push_decimal(&mut out, m as usize);
        assert(out@ =~= signed_digits(v as int));
        out
    } else {
        let m: u32 = v as u32;
        decimal(m as usize)
    }
}

} // verus!
