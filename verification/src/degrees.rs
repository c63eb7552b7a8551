//! Exact decimal degrees.
//!
//! A latitude or longitude is a signed rational number of degrees. Nothing is
//! rounded on the way from the stored tags to a [`Degrees`] value, and the
//! only rounding on the way back is the one the seconds field asks for.

use vstd::prelude::*;

verus! {

/// The largest denominator a [`Degrees`] value may have: 2^108.
///
/// It leaves room for the three denominators of a triple, each below 2^32,
/// times the 3600 seconds of a degree.
pub const MAX_DENOMINATOR: u128 = 0x1000_0000_0000_0000_0000_0000_0000;

/// What a [`Degrees`] value denotes: the number `± numerator / denominator`.
pub struct DegreesView {
    pub negative: bool,
    pub numerator: nat,
    pub denominator: nat,
}

impl DegreesView {
    /// The denominator is positive and at most [`MAX_DENOMINATOR`].
    pub open spec fn wf(self) -> bool {
        0 < self.denominator <= MAX_DENOMINATOR
    }

    /// The numerator with the sign applied.
    pub open spec fn signed_numerator(self) -> int {
        if self.negative {
            -(self.numerator as int)
        } else {
            self.numerator as int
        }
    }

    /// The number is below zero. A zero with the sign flag set is not.
    pub open spec fn below_zero(self) -> bool {
        self.negative && self.numerator > 0
    }

    /// The absolute value.
    pub open spec fn magnitude(self) -> DegreesView {
        DegreesView { negative: false, numerator: self.numerator, denominator: self.denominator }
    }

    /// The magnitude with the given sign flag.
    pub open spec fn with_sign(self, negative: bool) -> DegreesView {
        DegreesView { negative, numerator: self.numerator, denominator: self.denominator }
    }

    /// The two numbers differ by at most `tolerance_numerator / tolerance_denominator`.
    pub open spec fn within(
        self,
        other: DegreesView,
        tolerance_numerator: nat,
        tolerance_denominator: nat,
    ) -> bool {
        let gap = self.signed_numerator() * other.denominator - other.signed_numerator()
            * self.denominator;
        let bound = tolerance_numerator * (self.denominator * other.denominator);
        -bound <= gap * tolerance_denominator <= bound
    }
}

/// A signed angle in degrees, held exactly as `± numerator / denominator`.
///
/// The fraction need not be in lowest terms, and zero may carry either sign.
/// The denominator is never zero and never above [`MAX_DENOMINATOR`].
#[derive(Clone, Copy, Debug)]
pub struct Degrees {
    negative: bool,
    numerator: u128,
    denominator: u128,
}

impl View for Degrees {
    type V = DegreesView;

    closed spec fn view(&self) -> DegreesView {
        DegreesView {
            negative: self.negative,
            numerator: self.numerator as nat,
            denominator: self.denominator as nat,
        }
    }
}

impl Degrees {
    /// What holds of every value of this type that a program can hold.
    #[verifier::type_invariant]
    pub closed spec fn inv(self) -> bool {
        0 < self.denominator <= MAX_DENOMINATOR
    }

    /// A value that a program can hold denotes a well-formed fraction.
    pub proof fn lemma_well_formed(self)
        requires
            self.inv(),
        ensures
            self@.wf(),
    {
    }

    /// The value `± numerator / denominator`, or `None` where the denominator
    /// is zero or above [`MAX_DENOMINATOR`].
    pub fn new(negative: bool, numerator: u128, denominator: u128) -> (r: Option<Degrees>)
        ensures
            r is Some <==> 0 < denominator <= MAX_DENOMINATOR,
            r is Some ==> r.unwrap()@ == (DegreesView {
                negative,
                numerator: numerator as nat,
                denominator: denominator as nat,
            }),
    {
        if denominator == 0 || denominator > MAX_DENOMINATOR {
            None
        } else {
            Some(Degrees { negative, numerator, denominator })
        }
    }

    /// The sign flag. It may be set on a zero.
    pub fn negative(&self) -> (r: bool)
        ensures
            r == self@.negative,
    {
        self.negative
    }

    /// The numerator of the magnitude.
    pub fn numerator(&self) -> (r: u128)
        ensures
            r == self@.numerator,
    {
        self.numerator
    }

    /// The denominator.
    pub fn denominator(&self) -> (r: u128)
        ensures
            r == self@.denominator,
            self@.wf(),
    {
        proof {
            use_type_invariant(self);
        }
        self.denominator
    }

    /// Whether the angle is below zero.
    pub fn is_below_zero(&self) -> (r: bool)
        ensures
            r == self@.below_zero(),
    {
        self.negative && self.numerator > 0
    }

    /// The absolute value.
    pub fn magnitude(&self) -> (r: Degrees)
        ensures
            r@ == self@.magnitude(),
    {
        proof {
            use_type_invariant(self);
        }
        Degrees { negative: false, numerator: self.numerator, denominator: self.denominator }
    }

    /// The same magnitude under the given sign flag.
    pub fn with_sign(&self, negative: bool) -> (r: Degrees)
        ensures
            r@ == self@.with_sign(negative),
    {
        proof {
            use_type_invariant(self);
        }
        Degrees { negative, numerator: self.numerator, denominator: self.denominator }
    }
}

} // verus!
