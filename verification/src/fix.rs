//! Signed fixed-point numbers with 64 fractional bits.
//!
//! A [`Fix`] holds a real number `q` as the integer `q * 2^64` in an `i128`
//! (64 integer bits, 64 fractional bits). Geohash bisection needs only a few
//! operations — comparison, addition, halving, absolute value — and all of
//! them are exact integer arithmetic on the raw representation. Contracts
//! speak of the raw integer, obtained through the view `@`.
//!
//! Halving matches fixed-point division by two: the exact quotient rounded
//! toward zero, captured by [`half_toward_zero`].

use vstd::prelude::*;

verus! {

/// The raw representation of the number one: `2^64`.
pub const UNIT_BITS: i128 = 18446744073709551616;

/// A signed fixed-point number: the represented value is `bits / 2^64`.
#[derive(Clone, Copy, Debug, PartialEq, Eq, Structural)]
pub struct Fix {
    /// The represented value times `2^64`.
    pub bits: i128,
}

impl View for Fix {
    type V = int;

    open spec fn view(&self) -> int {
        self.bits as int
    }
}

impl Fix {
    /// Builds the number `bits / 2^64` from its raw representation.
    pub fn from_bits(bits: i128) -> (r: Fix)
        ensures
            r@ == bits as int,
    {
        Fix { bits }
    }

    /// The raw representation: the represented value times `2^64`.
    pub fn to_bits(self) -> (r: i128)
        ensures
            r as int == self@,
    {
        self.bits
    }

    /// The absolute value.
    pub fn abs(self) -> (r: Fix)
        requires
            i128::MIN < self@,
        ensures
            r@ == abs_value(self@),
    {
        if self.bits < 0 {
            Fix { bits: -self.bits }
        } else {
            self
        }
    }
}

/// The absolute value of an integer.
pub open spec fn abs_value(x: int) -> int {
    if x >= 0 {
        x
    } else {
        -x
    }
}

/// Half of `x`, rounded toward zero: the raw result of dividing the
/// fixed-point number `x / 2^64` by two.
pub open spec fn half_toward_zero(x: int) -> int {
    if x >= 0 {
        x / 2
    } else {
        -((-x) / 2)
    }
}

/// Divides a raw fixed-point value by two, rounding toward zero.
pub(crate) fn half_bits(x: i128) -> (r: i128)
    requires
        i128::MIN < x,
    ensures
        r as int == half_toward_zero(x as int),
{
    if x >= 0 {
        x / 2
    } else {
        -((-x) / 2)
    }
}

} // verus!
