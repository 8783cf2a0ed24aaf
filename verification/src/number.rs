//! Decimal notation.
use vstd::prelude::*;

verus! {

/// The decimal digit of a number below ten.
pub open spec fn digit(d: int) -> char {
    (0x30 + d) as char
}

/// A natural number in decimal notation.
pub open spec fn decimal(n: nat) -> Seq<char>
    decreases n,
{
    if n < 10 {
        seq![digit(n as int)]
    } else {
        decimal(n / 10).push(digit((n % 10) as int))
    }
}

/// An integer in decimal notation, with a leading minus sign when it is negative.
pub open spec fn signed_decimal(n: int) -> Seq<char> {
    if n < 0 {
        seq!['-'] + decimal((-n) as nat)
    } else {
        decimal(n as nat)
    }
}

/// A natural number in decimal notation, filled up on the left with zeros to `width` digits.
pub open spec fn padded_decimal(n: nat, width: nat) -> Seq<char> {
    let d = decimal(n);
    if d.len() < width {
        Seq::new((width - d.len()) as nat, |i: int| '0') + d
    } else {
        d
    }
}

fn digit_char(d: u64) -> (c: char)
    requires
        d < 10,
    ensures
        c == digit(d as int),
{
    match d {
        0 => '0',
        1 => '1',
        2 => '2',
        3 => '3',
        4 => '4',
        5 => '5',
        6 => '6',
        7 => '7',
        8 => '8',
        _ => '9',
    }
}

/// Writes a natural number in decimal notation.
pub fn write_decimal(n: u64) -> (r: Vec<char>)
    ensures
        r@ == decimal(n as nat),
    decreases n,
{
    if n < 10 {
        let mut out: Vec<char> = Vec::new();
        out.push(digit_char(n));
        assert(out@ =~= seq![digit(n as int)]);
        out
    } else {
        let mut out = write_decimal(n / 10);
        out.push(digit_char(n % 10));
        out
    }
}

/// Writes an integer in decimal notation.
pub fn write_signed(n: i64) -> (r: Vec<char>)
    ensures
        r@ == signed_decimal(n as int),
{
    if n >= 0 {
        write_decimal(n as u64)
    } else {
        let m: u64 = (-(n + 1)) as u64 + 1;
        let d = write_decimal(m);
        let mut out: Vec<char> = Vec::new();
        out.push('-');
        crate::text::extend(&mut out, d.as_slice());
        assert(out@ =~= seq!['-'] + d@);
        out
    }
}

/// Writes a natural number with at least `width` digits.
pub fn write_padded(n: u64, width: usize) -> (r: Vec<char>)
    ensures
        r@ == padded_decimal(n as nat, width as nat),
{
    let d = write_decimal(n);
    let mut out: Vec<char> = Vec::new();
    let mut k: usize = d.len();
    while k < width
        invariant
            out@.len() + d@.len() == k,
            d@.len() <= k,
            k <= width || k == d@.len(),
            forall|i: int| 0 <= i < out@.len() ==> out@[i] == '0',
        decreases width - k,
    {
        out.push('0');
        k += 1;
    }
    crate::text::extend(&mut out, d.as_slice());
    assert(out@ =~= padded_decimal(n as nat, width as nat));
    out
}

} // verus!
