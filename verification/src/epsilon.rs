//! The approximate-equality primitive shared by every algorithm: two values
//! are indistinguishable when their difference is strictly smaller in
//! magnitude than the tolerance.

use crate::scalar::Scalar;
use vstd::math::abs;
use vstd::prelude::*;

verus! {

/// Whether two unit counts differ by strictly less than the magnitude of
/// `precision`. The tolerance is read as a magnitude: its sign is ignored.
pub open spec fn close_units(a: int, b: int, precision: int) -> bool {
    abs(b - a) < abs(precision)
}

/// Whether a unit count is strictly smaller in magnitude than the magnitude
/// of `precision`.
pub open spec fn near_zero_units(a: int, precision: int) -> bool {
    abs(a) < abs(precision)
}

/// A trait for things that can be approximately equal.
pub trait Epsilon {
    type RHS;

    type Precision;

    /// What [`Self::close`] decides.
    spec fn close_spec(&self, other: Self::RHS, precision: Self::Precision) -> bool;

    /// What [`Self::near_zero`] decides.
    spec fn near_zero_spec(&self, precision: Self::Precision) -> bool;

    /// Return true if self and `other` differ no more than by a given amount.
    fn close(&self, other: Self::RHS, precision: Self::Precision) -> (r: bool)
        ensures
            r == self.close_spec(other, precision),
    ;

    /// Return true if self is close to zero.
    fn near_zero(&self, precision: Self::Precision) -> (r: bool)
        ensures
            r == self.near_zero_spec(precision),
    ;
}

impl Epsilon for Scalar {
    type RHS = Scalar;

    type Precision = Scalar;

    open spec fn close_spec(&self, other: Scalar, precision: Scalar) -> bool {
        close_units(self.units as int, other.units as int, precision.units as int)
    }

    open spec fn near_zero_spec(&self, precision: Scalar) -> bool {
        near_zero_units(self.units as int, precision.units as int)
    }

    fn close(&self, other: Scalar, precision: Scalar) -> (r: bool) {
        let d: i128 = other.units as i128 - self.units as i128;
        let dm: i128 = if d < 0 {
            -d
        } else {
            d
        };
        let p: i128 = precision.units as i128;
        let pm: i128 = if p < 0 {
            -p
        } else {
            p
        };
        dm < pm
    }

    fn near_zero(&self, precision: Scalar) -> (r: bool) {
        let a: i128 = self.units as i128;
        let am: i128 = if a < 0 {
            -a
        } else {
            a
        };
        let p: i128 = precision.units as i128;
        let pm: i128 = if p < 0 {
            -p
        } else {
            p
        };
        am < pm
    }
}

/// Law: the approximate-equality primitive is symmetric in the sign of its
/// tolerance argument — a tolerance and its negation decide alike, both for
/// `close` and for `near_zero`.
pub proof fn lemma_tolerance_sign_symmetric(a: int, b: int, precision: int)
    ensures
        close_units(a, b, precision) == close_units(a, b, -precision),
        near_zero_units(a, precision) == near_zero_units(a, -precision),
{
}

} // verus!
