//! Angles: arctangent, arcsine and tangent by polynomial approximation.
//!
//! The functions here are defined by the polynomials they evaluate, in
//! fixed-point arithmetic with its rounding.  The arctangent polynomial is
//! the classical eight-term odd approximation on `[-1, 1]` and stays within
//! a few parts in `10^8` of the true arctangent; sine and cosine are their
//! Taylor polynomials on `[0, pi/4]`.

use crate::fixed::{Fixed, ONE_RAW};
use vstd::prelude::*;

verus! {

/// The raw value nearest to pi.
pub const PI_RAW: i64 = 13493037705;

/// The raw value nearest to pi / 2.
pub const HALF_PI_RAW: i64 = 6746518852;

/// The raw value nearest to -pi / 2.
pub const NEG_HALF_PI_RAW: i64 = -6746518852;

/// The raw value of minus one.
pub const NEG_ONE_RAW: i64 = -0x1_0000_0000;

/// The raw value nearest to pi / 4.
pub const QUARTER_PI_RAW: i64 = 3373259426;

/// The raw value nearest to 2 pi.
pub const TWO_PI_RAW: i64 = 26986075409;

pub const ATAN_C1: i64 = 4294964431;

pub const ATAN_C3: i64 = -1431506417;

pub const ATAN_C5: i64 = 856697197;

pub const ATAN_C7: i64 = -597366966;

pub const ATAN_C9: i64 = 414120936;

pub const ATAN_C11: i64 = -240131132;

pub const ATAN_C13: i64 = 93893263;

pub const ATAN_C15: i64 = -17412047;

/// One Horner step: `c + s * p`.
pub open spec fn spec_horner(c: i64, s: Fixed, p: Fixed) -> Fixed {
    Fixed { raw: c }.add(s.mul(p))
}

/// Computes `spec_horner`.
#[verifier::when_used_as_spec(spec_horner)]
pub fn horner(c: i64, s: Fixed, p: Fixed) -> (r: Fixed)
    ensures
        r == spec_horner(c, s, p),
{
    Fixed::from_raw(c).add(s.mul(p))
}

/// The arctangent polynomial, meant for `-1 <= z <= 1`:
/// `z * (c1 + c3 z^2 + c5 z^4 + ... + c15 z^14)`.
pub open spec fn spec_atan_unit(z: Fixed) -> Fixed {
    let s = z.mul(z);
    let h15 = Fixed { raw: ATAN_C15 };
    let h13 = horner(ATAN_C13, s, h15);
    let h11 = horner(ATAN_C11, s, h13);
    let h9 = horner(ATAN_C9, s, h11);
    let h7 = horner(ATAN_C7, s, h9);
    let h5 = horner(ATAN_C5, s, h7);
    let h3 = horner(ATAN_C3, s, h5);
    let h1 = horner(ATAN_C1, s, h3);
    z.mul(h1)
}

/// Computes `spec_atan_unit`.
#[verifier::when_used_as_spec(spec_atan_unit)]
pub fn atan_unit(z: Fixed) -> (r: Fixed)
    ensures
        r == spec_atan_unit(z),
{
    let s = z.mul(z);
    let h15 = Fixed::from_raw(ATAN_C15);
    let h13 = horner(ATAN_C13, s, h15);
    let h11 = horner(ATAN_C11, s, h13);
    let h9 = horner(ATAN_C9, s, h11);
    let h7 = horner(ATAN_C7, s, h9);
    let h5 = horner(ATAN_C5, s, h7);
    let h3 = horner(ATAN_C3, s, h5);
    let h1 = horner(ATAN_C1, s, h3);
    z.mul(h1)
}

/// The angle of the point `(x, y)` against the positive x axis, in
/// `(-pi, pi]` up to rounding; zero at the origin.  The quotient of the
/// smaller by the larger coordinate goes through the arctangent polynomial
/// and the result is moved into the right quadrant.
pub open spec fn spec_atan2(y: Fixed, x: Fixed) -> Fixed {
    if x.raw == 0 && y.raw == 0 {
        Fixed::zero()
    } else if y.abs().raw <= x.abs().raw {
        let a = atan_unit(y.div(x));
        if x.raw > 0 {
            a
        } else if y.raw >= 0 {
            a.add(Fixed { raw: PI_RAW })
        } else {
            a.sub(Fixed { raw: PI_RAW })
        }
    } else {
        let a = atan_unit(x.div(y));
        if y.raw > 0 {
            Fixed { raw: HALF_PI_RAW }.sub(a)
        } else {
            Fixed { raw: NEG_HALF_PI_RAW }.sub(a)
        }
    }
}

/// Computes `spec_atan2`.
#[verifier::when_used_as_spec(spec_atan2)]
pub fn atan2(y: Fixed, x: Fixed) -> (r: Fixed)
    ensures
        r == spec_atan2(y, x),
{
    if x.raw == 0 && y.raw == 0 {
        Fixed::zero()
    } else if y.abs().raw <= x.abs().raw {
        let a = atan_unit(y.div(x));
        if x.raw > 0 {
            a
        } else if y.raw >= 0 {
            a.add(Fixed::from_raw(PI_RAW))
        } else {
            a.sub(Fixed::from_raw(PI_RAW))
        }
    } else {
        let a = atan_unit(x.div(y));
        if y.raw > 0 {
            Fixed::from_raw(HALF_PI_RAW).sub(a)
        } else {
            Fixed::from_raw(NEG_HALF_PI_RAW).sub(a)
        }
    }
}

/// `y` clamped to `[-1, 1]`.
pub open spec fn spec_clamp_unit(y: Fixed) -> Fixed {
    if y.raw > ONE_RAW {
        Fixed::one()
    } else if y.raw < -ONE_RAW {
        Fixed { raw: NEG_ONE_RAW }
    } else {
        y
    }
}

/// Computes `spec_clamp_unit`.
#[verifier::when_used_as_spec(spec_clamp_unit)]
pub fn clamp_unit(y: Fixed) -> (r: Fixed)
    ensures
        r == spec_clamp_unit(y),
        -ONE_RAW <= r.raw <= ONE_RAW,
{
    if y.raw > ONE_RAW {
        Fixed::one()
    } else if y.raw < -ONE_RAW {
        Fixed::from_raw(NEG_ONE_RAW)
    } else {
        y
    }
}

/// The arcsine of `y` clamped to `[-1, 1]`: the angle of the point
/// `(sqrt(1 - y^2), y)`.
pub open spec fn spec_asin(y: Fixed) -> Fixed {
    let c = clamp_unit(y);
    atan2(c, Fixed::one().sub(c.mul(c)).sqrt())
}

/// Computes `spec_asin`.
#[verifier::when_used_as_spec(spec_asin)]
pub fn asin(y: Fixed) -> (r: Fixed)
    ensures
        r == spec_asin(y),
{
    let c = clamp_unit(y);
    atan2(c, Fixed::one().sub(c.mul(c)).sqrt())
}

/// The sine polynomial `x - x^3/6 + x^5/120 - x^7/5040 + x^9/362880`.
pub open spec fn spec_sin_poly(x: Fixed) -> Fixed {
    let s = x.mul(x);
    let h9 = Fixed::from_ratio(1, 362880);
    let h7 = Fixed::from_ratio(1, 5040).neg().add(s.mul(h9));
    let h5 = Fixed::from_ratio(1, 120).add(s.mul(h7));
    let h3 = Fixed::from_ratio(1, 6).neg().add(s.mul(h5));
    let h1 = Fixed::one().add(s.mul(h3));
    x.mul(h1)
}

/// Computes `spec_sin_poly`.
#[verifier::when_used_as_spec(spec_sin_poly)]
pub fn sin_poly(x: Fixed) -> (r: Fixed)
    ensures
        r == spec_sin_poly(x),
{
    let s = x.mul(x);
    let h9 = Fixed::from_ratio(1, 362880);
    let h7 = Fixed::from_ratio(1, 5040).neg().add(s.mul(h9));
    let h5 = Fixed::from_ratio(1, 120).add(s.mul(h7));
    let h3 = Fixed::from_ratio(1, 6).neg().add(s.mul(h5));
    let h1 = Fixed::one().add(s.mul(h3));
    x.mul(h1)
}

/// The cosine polynomial
/// `1 - x^2/2 + x^4/24 - x^6/720 + x^8/40320 - x^10/3628800`.
pub open spec fn spec_cos_poly(x: Fixed) -> Fixed {
    let s = x.mul(x);
    let h10 = Fixed::from_ratio(1, 3628800).neg();
    let h8 = Fixed::from_ratio(1, 40320).add(s.mul(h10));
    let h6 = Fixed::from_ratio(1, 720).neg().add(s.mul(h8));
    let h4 = Fixed::from_ratio(1, 24).add(s.mul(h6));
    let h2 = Fixed::from_ratio(1, 2).neg().add(s.mul(h4));
    Fixed::one().add(s.mul(h2))
}

/// Computes `spec_cos_poly`.
#[verifier::when_used_as_spec(spec_cos_poly)]
pub fn cos_poly(x: Fixed) -> (r: Fixed)
    ensures
        r == spec_cos_poly(x),
{
    let s = x.mul(x);
    let h10 = Fixed::from_ratio(1, 3628800).neg();
    let h8 = Fixed::from_ratio(1, 40320).add(s.mul(h10));
    let h6 = Fixed::from_ratio(1, 720).neg().add(s.mul(h8));
    let h4 = Fixed::from_ratio(1, 24).add(s.mul(h6));
    let h2 = Fixed::from_ratio(1, 2).neg().add(s.mul(h4));
    Fixed::one().add(s.mul(h2))
}

/// The tangent of an angle in radians, meant for `0 <= x < pi/2`: the
/// quotient of the sine and cosine polynomials up to `pi/4`, and the
/// reciprocal of the tangent of the complement beyond.
pub open spec fn spec_tan(x: Fixed) -> Fixed {
    if x.raw <= QUARTER_PI_RAW {
        sin_poly(x).div(cos_poly(x))
    } else {
        let c = Fixed { raw: HALF_PI_RAW }.sub(x);
        cos_poly(c).div(sin_poly(c))
    }
}

/// Computes `spec_tan`.
#[verifier::when_used_as_spec(spec_tan)]
pub fn tan(x: Fixed) -> (r: Fixed)
    ensures
        r == spec_tan(x),
{
    if x.raw <= QUARTER_PI_RAW {
        sin_poly(x).div(cos_poly(x))
    } else {
        let c = Fixed::from_raw(HALF_PI_RAW).sub(x);
        cos_poly(c).div(sin_poly(c))
    }
}

/// An angle given in degrees, in radians: `degrees * pi / 180`.
pub open spec fn spec_radians(degrees: Fixed) -> Fixed {
    degrees.mul(Fixed { raw: PI_RAW }).div(Fixed::from_int(180))
}

/// Computes `spec_radians`.
#[verifier::when_used_as_spec(spec_radians)]
pub fn radians(degrees: Fixed) -> (r: Fixed)
    ensures
        r == spec_radians(degrees),
{
    degrees.mul(Fixed::from_raw(PI_RAW)).div(Fixed::from_int(180))
}

} // verus!
