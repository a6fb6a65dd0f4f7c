//! The scalar domain of the root-finding algorithms: a signed fixed-point
//! number, together with the exact integer arithmetic the algorithms need.

use vstd::math::abs;
use vstd::prelude::*;

verus! {

/// Number of fixed-point units to the whole: a [`Scalar`] holding `units`
/// stands for the real number `units / SCALE`.
pub const SCALE: i64 = 1_000_000_000_000;

/// A scalar of the search domain: a signed fixed-point number counted in
/// units of `1 / SCALE`.
#[derive(Clone, Copy, Debug, PartialEq, Eq, Structural)]
pub struct Scalar {
    /// The value, counted in units of `1 / SCALE`.
    pub units: i64,
}

/// Truncating division (rounds toward zero), the rounding the algorithms use
/// when a quotient falls between two representable scalars.
pub open spec fn div_trunc(a: int, b: int) -> int {
    if (a >= 0) == (b >= 0) {
        abs(a) as int / abs(b) as int
    } else {
        -(abs(a) as int / abs(b) as int)
    }
}

/// The midpoint of two unit counts, rounded toward the smaller one.
pub open spec fn mid_units(a: int, b: int) -> int {
    if a <= b {
        a + (b - a) / 2
    } else {
        b + (a - b) / 2
    }
}

/// The midpoint of an interval, rounded toward the lower endpoint; the
/// endpoints may come in either order.
pub(crate) fn midpoint(left: Scalar, right: Scalar) -> (m: Scalar)
    ensures
        m.units == mid_units(left.units as int, right.units as int),
        left.units <= right.units ==> left.units <= m.units <= right.units,
        right.units <= left.units ==> right.units <= m.units <= left.units,
{
    let lo: i64 = if left.units <= right.units {
        left.units
    } else {
        right.units
    };
    let hi: i64 = if left.units <= right.units {
        right.units
    } else {
        left.units
    };
    let width: u128 = (hi as i128 - lo as i128) as u128;
    let half: i64 = (width / 2) as i64;
    Scalar { units: lo + half }
}

/// Whether the product of the two values is strictly positive, decided from
/// the signs alone so that no intermediate product is formed.
pub(crate) fn product_pos(a: i64, b: i64) -> (r: bool)
    ensures
        r == ((a as int) * (b as int) > 0),
{
    let r = (a > 0 && b > 0) || (a < 0 && b < 0);
    proof {
        assert(r == ((a as int) * (b as int) > 0)) by (nonlinear_arith)
            requires
                r == ((a > 0 && b > 0) || (a < 0 && b < 0)),
        ;
    }
    r
}

/// Whether the product of the two values is zero or negative: the two values
/// have opposite signs, or one of them is zero.
pub(crate) fn product_nonpos(a: i64, b: i64) -> (r: bool)
    ensures
        r == ((a as int) * (b as int) <= 0),
{
    !product_pos(a, b)
}

/// Whether `a` is strictly smaller than `b` in absolute value.
pub(crate) fn abs_lt(a: i64, b: i64) -> (r: bool)
    ensures
        r == (abs(a as int) < abs(b as int)),
{
    let am: i128 = if a < 0 {
        -(a as i128)
    } else {
        a as i128
    };
    let bm: i128 = if b < 0 {
        -(b as i128)
    } else {
        b as i128
    };
    am < bm
}

/// A product of two values bounded in magnitude is bounded by the product of
/// the bounds.
pub(crate) proof fn lemma_mul_in_range(a: int, b: int, am: int, bm: int)
    requires
        -am <= a <= am,
        -bm <= b <= bm,
        0 <= am,
        0 <= bm,
    ensures
        -(am * bm) <= a * b <= am * bm,
{
    assert(-(am * bm) <= a * b <= am * bm) by (nonlinear_arith)
        requires
            -am <= a <= am,
            -bm <= b <= bm,
            0 <= am,
            0 <= bm,
    ;
}

/// Truncating division on wide integers, computed through unsigned division
/// of the magnitudes.
pub(crate) fn div_trunc_i128(a: i128, b: i128) -> (q: i128)
    requires
        b != 0,
        a != i128::MIN,
        b != i128::MIN,
    ensures
        q == div_trunc(a as int, b as int),
        abs(q as int) <= abs(a as int),
{
    let am: u128 = if a < 0 {
        (-a) as u128
    } else {
        a as u128
    };
    let bm: u128 = if b < 0 {
        (-b) as u128
    } else {
        b as u128
    };
    let qm: u128 = am / bm;
    proof {
        assert(am / bm <= am) by (nonlinear_arith)
            requires
                bm >= 1,
        ;
    }
    if (a < 0) != (b < 0) {
        -(qm as i128)
    } else {
        qm as i128
    }
}

} // verus!
