//! Exact fractions, for scores that are quotients of two counts.

use vstd::prelude::*;

verus! {

/// A fraction of two unsigned integers. A similarity or a confidence is
/// handed out in this form, so that nothing is rounded.
#[derive(Clone, Copy, Debug, PartialEq, Eq, Structural)]
pub struct Ratio {
    /// The numerator.
    pub num: u128,
    /// The denominator; never zero in a ratio that this library returns.
    pub den: u128,
}

/// A fraction of two mathematical integers.
pub struct Fraction {
    pub num: int,
    pub den: int,
}

impl View for Ratio {
    type V = Fraction;

    open spec fn view(&self) -> Fraction {
        Fraction { num: self.num as int, den: self.den as int }
    }
}

impl Fraction {
    /// Whether `self` is at most `other`, for positive denominators.
    pub open spec fn le(self, other: Fraction) -> bool {
        self.num * other.den <= other.num * self.den
    }

    /// Whether the fraction lies between zero and one.
    pub open spec fn is_unit(self) -> bool {
        0 <= self.num <= self.den && self.den > 0
    }

    /// One minus the fraction.
    pub open spec fn complement(self) -> Fraction {
        Fraction { num: self.den - self.num, den: self.den }
    }
}

/// The product of `a` and `b` in two parts: the first times 2^64 plus the
/// second, the second below 2^64.
fn wide_product(a: u128, b: u128) -> (parts: (u128, u128))
    requires
        b <= 0xffff_ffff_ffff_ffff,
    ensures
        parts.0 * 0x1_0000_0000_0000_0000 + parts.1 == a * b,
        parts.1 < 0x1_0000_0000_0000_0000,
{
    let high: u128 = a / 0x1_0000_0000_0000_0000;
    let low: u128 = a % 0x1_0000_0000_0000_0000;
    assert(high * b <= 0xffff_ffff_ffff_ffff * 0xffff_ffff_ffff_ffff && low * b
        <= 0xffff_ffff_ffff_ffff * 0xffff_ffff_ffff_ffff) by (nonlinear_arith)
        requires
            high <= 0xffff_ffff_ffff_ffff,
            low <= 0xffff_ffff_ffff_ffff,
            b <= 0xffff_ffff_ffff_ffff,
    ;
    let low_product: u128 = low * b;
    let carry: u128 = low_product / 0x1_0000_0000_0000_0000;
    let rest: u128 = low_product % 0x1_0000_0000_0000_0000;
    let upper: u128 = high * b + carry;
    assert(upper * 0x1_0000_0000_0000_0000 + rest == a * b) by (nonlinear_arith)
        requires
            a == high * 0x1_0000_0000_0000_0000 + low,
            low_product == low * b,
            low_product == carry * 0x1_0000_0000_0000_0000 + rest,
            upper == high * b + carry,
    ;
    (upper, rest)
}

/// Whether `a * b` is at most `c * d`, whatever the size of `a` and `d`.
pub(crate) fn product_le(a: u128, b: u128, c: u128, d: u128) -> (le: bool)
    requires
        b <= 0xffff_ffff_ffff_ffff,
        c <= 0xffff_ffff_ffff_ffff,
    ensures
        le == (a * b <= c * d),
{
    let left = wide_product(a, b);
    let right = wide_product(d, c);
    assert(d * c == c * d) by (nonlinear_arith);
    left.0 < right.0 || (left.0 == right.0 && left.1 <= right.1)
}

impl Ratio {
    /// The ratio 0/1.
    pub fn zero() -> (r: Ratio)
        ensures
            r@ == (Fraction { num: 0, den: 1 }),
    {
        Ratio { num: 0, den: 1 }
    }

    /// The ratio 1/1.
    pub fn one() -> (r: Ratio)
        ensures
            r@ == (Fraction { num: 1, den: 1 }),
    {
        Ratio { num: 1, den: 1 }
    }
}

} // verus!
