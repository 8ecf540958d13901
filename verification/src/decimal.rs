//! Writing a count of tenths as a decimal number with one digit behind the
//! point.

use vstd::prelude::*;

verus! {

/// The byte `-`.
pub const MINUS: u8 = 45;

/// The byte `.`.
pub const POINT: u8 = 46;

/// The byte `0`.
pub const ZERO: u8 = 48;

/// The decimal digits of `n`, the most significant first, without leading
/// zeros; `0` for zero.
pub open spec fn digits(n: nat) -> Seq<u8>
    decreases n,
{
    if n < 10 {
        seq![(ZERO + n) as u8]
    } else {
        digits(n / 10).push((ZERO + n % 10) as u8)
    }
}

/// `tenths` tenths as text: a minus sign where it is below zero, the whole
/// part, a point and one digit. So `-5` reads `-0.5` and `120` reads `12.0`.
pub open spec fn tenths_text(tenths: int) -> Seq<u8> {
    let size = if tenths < 0 { -tenths } else { tenths };
    let sign = if tenths < 0 { seq![MINUS] } else { Seq::<u8>::empty() };
    sign + digits((size / 10) as nat) + seq![POINT, (ZERO + size % 10) as u8]
}

/// Appends the decimal digits of `n`.
fn push_digits(out: &mut Vec<u8>, n: u64)
    ensures
        final(out)@ == old(out)@ + digits(n as nat),
    decreases n,
{
    if n >= 10 {
        push_digits(out, n / 10);
    }
    out.push(ZERO + (n % 10) as u8);
}

/// Appends `tenths` tenths as text.
pub fn push_tenths(out: &mut Vec<u8>, tenths: i64)
    ensures
        final(out)@ == old(out)@ + tenths_text(tenths as int),
{
    let size: u64 = if tenths < 0 { (-(tenths as i128)) as u64 } else { tenths as u64 };
    if tenths < 0 {
        out.push(MINUS);
    }
    push_digits(out, size / 10);
    out.push(POINT);
    out.push(ZERO + (size % 10) as u8);
}

} // verus!
