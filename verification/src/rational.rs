//! Unsigned rationals as EXIF stores them.

use vstd::prelude::*;

verus! {

/// An EXIF unsigned rational: a numerator over a denominator, 32 bits each.
#[derive(Clone, Copy, Debug, PartialEq, Eq, Structural)]
pub struct Rational {
    pub numerator: u32,
    pub denominator: u32,
}

impl Rational {
    /// The rational `numerator / denominator`.
    pub fn new(numerator: u32, denominator: u32) -> (r: Rational)
        ensures
            r == (Rational { numerator, denominator }),
    {
        Rational { numerator, denominator }
    }

    /// The whole number `value`, written over 1.
    pub fn whole(value: u32) -> (r: Rational)
        ensures
            r == (Rational { numerator: value, denominator: 1 }),
    {
        Rational { numerator: value, denominator: 1 }
    }
}

} // verus!
