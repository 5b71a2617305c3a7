//! Three-component vectors over fixed-point scalars.

use crate::fixed::{
    floor_sqrt, is_floor_sqrt, lemma_floor_sqrt_exists, lemma_floor_sqrt_unique, lemma_product_sign,
    lemma_quot_bounds, magnitude, quot, Fixed, ONE_RAW,
};
use vstd::prelude::*;

verus! {

/// A point or a direction in space.
#[derive(Clone, Copy, PartialEq, Eq, Debug, Structural)]
pub struct Vec3 {
    pub x: Fixed,
    pub y: Fixed,
    pub z: Fixed,
}

impl Vec3 {
    /// The vector with the given components.
    pub open spec fn spec_new(x: Fixed, y: Fixed, z: Fixed) -> Vec3 {
        Vec3 { x, y, z }
    }

    /// The vector whose components are all zero.
    pub open spec fn spec_zero() -> Vec3 {
        Vec3 { x: Fixed::zero(), y: Fixed::zero(), z: Fixed::zero() }
    }

    /// The vector of three whole numbers.
    pub open spec fn spec_from_ints(x: i32, y: i32, z: i32) -> Vec3 {
        Vec3 { x: Fixed::from_int(x), y: Fixed::from_int(y), z: Fixed::from_int(z) }
    }

    /// Componentwise sum.
    pub open spec fn spec_add(self, rhs: Vec3) -> Vec3 {
        Vec3 { x: self.x.add(rhs.x), y: self.y.add(rhs.y), z: self.z.add(rhs.z) }
    }

    /// Componentwise difference.
    pub open spec fn spec_sub(self, rhs: Vec3) -> Vec3 {
        Vec3 { x: self.x.sub(rhs.x), y: self.y.sub(rhs.y), z: self.z.sub(rhs.z) }
    }

    /// Componentwise product.
    pub open spec fn spec_mul(self, rhs: Vec3) -> Vec3 {
        Vec3 { x: self.x.mul(rhs.x), y: self.y.mul(rhs.y), z: self.z.mul(rhs.z) }
    }

    /// Every component multiplied by `k`.
    pub open spec fn spec_scale(self, k: Fixed) -> Vec3 {
        Vec3 { x: self.x.mul(k), y: self.y.mul(k), z: self.z.mul(k) }
    }

    /// Every component divided by `k`.
    pub open spec fn spec_div(self, k: Fixed) -> Vec3 {
        Vec3 { x: self.x.div(k), y: self.y.div(k), z: self.z.div(k) }
    }

    /// The opposite vector.
    pub open spec fn spec_invert(self) -> Vec3 {
        Vec3 { x: self.x.neg(), y: self.y.neg(), z: self.z.neg() }
    }

    /// Inner product, summed left to right.
    pub open spec fn spec_dot(self, rhs: Vec3) -> Fixed {
        self.x.mul(rhs.x).add(self.y.mul(rhs.y)).add(self.z.mul(rhs.z))
    }

    /// Vector product.
    pub open spec fn spec_cross(self, rhs: Vec3) -> Vec3 {
        Vec3 {
            x: self.y.mul(rhs.z).sub(self.z.mul(rhs.y)),
            y: self.z.mul(rhs.x).sub(self.x.mul(rhs.z)),
            z: self.x.mul(rhs.y).sub(self.y.mul(rhs.x)),
        }
    }

    /// Inner product of the vector with itself.
    pub open spec fn spec_squared_length(self) -> Fixed {
        self.spec_dot(self)
    }

    /// Euclidean norm, rounded down: in raw units, the integer square root
    /// of the sum of the squared components.
    pub open spec fn spec_length(self) -> Fixed {
        Fixed::norm(self.x, self.y, self.z)
    }

    /// The vector divided by its norm.
    pub open spec fn spec_normalize(self) -> Vec3 {
        self.spec_div(self.spec_length())
    }

    /// Computes `spec_new`.
    #[verifier::when_used_as_spec(spec_new)]
    pub fn new(x: Fixed, y: Fixed, z: Fixed) -> (r: Vec3)
        ensures
            r == Vec3::spec_new(x, y, z),
    {
        Vec3 { x, y, z }
    }

    /// Computes `spec_zero`.
    #[verifier::when_used_as_spec(spec_zero)]
    pub fn zero() -> (r: Vec3)
        ensures
            r == Vec3::spec_zero(),
    {
        Vec3 { x: Fixed::zero(), y: Fixed::zero(), z: Fixed::zero() }
    }

    /// Computes `spec_from_ints`.
    #[verifier::when_used_as_spec(spec_from_ints)]
    pub fn from_ints(x: i32, y: i32, z: i32) -> (r: Vec3)
        ensures
            r == Vec3::spec_from_ints(x, y, z),
    {
        Vec3 { x: Fixed::from_int(x), y: Fixed::from_int(y), z: Fixed::from_int(z) }
    }

    /// Computes `spec_add`.
    #[verifier::when_used_as_spec(spec_add)]
    pub fn add(self, rhs: Vec3) -> (r: Vec3)
        ensures
            r == self.spec_add(rhs),
    {
        Vec3 { x: self.x.add(rhs.x), y: self.y.add(rhs.y), z: self.z.add(rhs.z) }
    }

    /// Computes `spec_sub`.
    #[verifier::when_used_as_spec(spec_sub)]
    pub fn sub(self, rhs: Vec3) -> (r: Vec3)
        ensures
            r == self.spec_sub(rhs),
    {
        Vec3 { x: self.x.sub(rhs.x), y: self.y.sub(rhs.y), z: self.z.sub(rhs.z) }
    }

    /// Computes `spec_mul`.
    #[verifier::when_used_as_spec(spec_mul)]
    pub fn mul(self, rhs: Vec3) -> (r: Vec3)
        ensures
            r == self.spec_mul(rhs),
    {
        Vec3 { x: self.x.mul(rhs.x), y: self.y.mul(rhs.y), z: self.z.mul(rhs.z) }
    }

    /// Computes `spec_scale`.
    #[verifier::when_used_as_spec(spec_scale)]
    pub fn scale(self, k: Fixed) -> (r: Vec3)
        ensures
            r == self.spec_scale(k),
    {
        Vec3 { x: self.x.mul(k), y: self.y.mul(k), z: self.z.mul(k) }
    }

    /// Computes `spec_div`.
    #[verifier::when_used_as_spec(spec_div)]
    pub fn div(self, k: Fixed) -> (r: Vec3)
        ensures
            r == self.spec_div(k),
    {
        Vec3 { x: self.x.div(k), y: self.y.div(k), z: self.z.div(k) }
    }

    /// Computes `spec_invert`.
    #[verifier::when_used_as_spec(spec_invert)]
    pub fn invert(self) -> (r: Vec3)
        ensures
            r == self.spec_invert(),
    {
        Vec3 { x: self.x.neg(), y: self.y.neg(), z: self.z.neg() }
    }

    /// Computes `spec_dot`.
    #[verifier::when_used_as_spec(spec_dot)]
    pub fn dot(self, rhs: Vec3) -> (r: Fixed)
        ensures
            r == self.spec_dot(rhs),
    {
        self.x.mul(rhs.x).add(self.y.mul(rhs.y)).add(self.z.mul(rhs.z))
    }

    /// Computes `spec_cross`.
    #[verifier::when_used_as_spec(spec_cross)]
    pub fn cross(self, rhs: Vec3) -> (r: Vec3)
        ensures
            r == self.spec_cross(rhs),
    {
        Vec3 {
            x: self.y.mul(rhs.z).sub(self.z.mul(rhs.y)),
            y: self.z.mul(rhs.x).sub(self.x.mul(rhs.z)),
            z: self.x.mul(rhs.y).sub(self.y.mul(rhs.x)),
        }
    }

    /// Computes `spec_squared_length`.
    #[verifier::when_used_as_spec(spec_squared_length)]
    pub fn squared_length(self) -> (r: Fixed)
        ensures
            r == self.spec_squared_length(),
    {
        self.dot(self)
    }

    /// Computes `spec_length`.
    #[verifier::when_used_as_spec(spec_length)]
    pub fn length(self) -> (r: Fixed)
        ensures
            r == self.spec_length(),
    {
        Fixed::norm(self.x, self.y, self.z)
    }

    /// A zero-length vector has no direction: its zero components stay
    /// zero and the others saturate.
    #[verifier::when_used_as_spec(spec_normalize)]
    pub fn normalize(self) -> (r: Vec3)
        ensures
            r == self.spec_normalize(),
    {
        self.div(self.length())
    }
}

/// The sum of the squares of the raw components.
pub open spec fn raw_square_sum(v: Vec3) -> int {
    v.x.raw * v.x.raw + v.y.raw * v.y.raw + v.z.raw * v.z.raw
}

/// No component is so large that the norm saturates: every magnitude is
/// at most `2^30`.
pub open spec fn moderate(v: Vec3) -> bool {
    &&& -0x4000_0000_0000_0000 <= v.x.raw <= 0x4000_0000_0000_0000
    &&& -0x4000_0000_0000_0000 <= v.y.raw <= 0x4000_0000_0000_0000
    &&& -0x4000_0000_0000_0000 <= v.z.raw <= 0x4000_0000_0000_0000
}

/// The length of a moderate vector is the exact integer square root of its
/// raw square sum, and no component is longer than the vector.
pub proof fn lemma_length_is_root(v: Vec3)
    requires
        moderate(v),
    ensures
        is_floor_sqrt(raw_square_sum(v), v.length().raw as int),
        magnitude(v.x.raw as int) <= v.length().raw,
        magnitude(v.y.raw as int) <= v.length().raw,
        magnitude(v.z.raw as int) <= v.length().raw,
{
    let n = raw_square_sum(v);
    let (x, y, z) = (v.x.raw as int, v.y.raw as int, v.z.raw as int);
    let (mx, my, mz) = (magnitude(x), magnitude(y), magnitude(z));
    lemma_product_sign(x, x);
    lemma_product_sign(y, y);
    lemma_product_sign(z, z);
    let bound = 0x4000_0000_0000_0000int;
    assert(mx * mx <= bound * bound && my * my <= bound * bound && mz * mz <= bound * bound)
        by (nonlinear_arith)
        requires
            0 <= mx <= bound,
            0 <= my <= bound,
            0 <= mz <= bound,
    ;
    assert(bound * bound == 0x1000_0000_0000_0000_0000_0000_0000_0000int) by (nonlinear_arith)
        requires
            bound == 0x4000_0000_0000_0000int,
    ;
    lemma_floor_sqrt_exists(n);
    let r = floor_sqrt(n);
    let top = 0x7fff_ffff_ffff_ffffint;
    assert(r <= top) by (nonlinear_arith)
        requires
            0 <= r,
            r * r <= n,
            n <= 3 * 0x1000_0000_0000_0000_0000_0000_0000_0000int,
            top == 0x7fff_ffff_ffff_ffffint,
    ;
    assert(mx <= r && my <= r && mz <= r) by (nonlinear_arith)
        requires
            0 <= r,
            n < (r + 1) * (r + 1),
            mx * mx <= n,
            my * my <= n,
            mz * mz <= n,
            0 <= mx,
            0 <= my,
            0 <= mz,
    ;
}

/// What rounding does to one component of a normalized vector: for a
/// component `v` of a vector of length `len`, the component `w` of the
/// normalized vector satisfies `v^2 - 2 |v| len / 2^32 <= (w len / 2^32)^2
/// <= v^2`, here multiplied out.
proof fn lemma_normalized_component(v: Fixed, len: Fixed)
    requires
        len.raw > 0,
        magnitude(v.raw as int) <= len.raw,
    ensures
        ({
            let w = v.div(len).raw as int;
            let l = len.raw as int;
            let m = magnitude(v.raw as int);
            &&& magnitude(w) <= ONE_RAW
            &&& (w * w) * (l * l) <= (ONE_RAW * ONE_RAW) * (m * m)
            &&& (ONE_RAW * ONE_RAW) * (m * m) - 2 * ONE_RAW * l * m <= (w * w) * (l * l)
        }),
{
    let s = ONE_RAW as int;
    let l = len.raw as int;
    let m = magnitude(v.raw as int);
    let n = v.raw * s;
    lemma_product_sign(v.raw as int, s);
    lemma_quot_bounds(n, l);
    let q = quot(n, l);
    let mq = magnitude(q);
    assert(magnitude(n) == m * s);
    assert(mq <= s) by (nonlinear_arith)
        requires
            mq * l <= m * s,
            m <= l,
            l > 0,
            mq >= 0,
            s > 0,
    ;
    let w = v.div(len).raw as int;
    assert(w == q);
    lemma_product_sign(w, w);
    assert(w * w == mq * mq);
    assert((mq * mq) * (l * l) <= (s * s) * (m * m)) by (nonlinear_arith)
        requires
            0 <= mq * l <= m * s,
    ;
    assert((s * s) * (m * m) - 2 * s * l * m <= (mq * mq) * (l * l)) by (nonlinear_arith)
        requires
            0 <= mq * l,
            m * s < mq * l + l,
            0 <= m,
            0 < l,
            0 < s,
    ;
}

/// A normalized vector has unit length, up to rounding.  For a vector `v`
/// of positive length whose components have magnitude at most `2^30`, the
/// length of `normalize(v)` lies between `1 - 4 / 2^32` and
/// `1 + (1 / length(v) + 1) / 2^32`: in raw units, between
/// `2^32 - 4` and `2^32 + 2^32 / l + 1` for the raw length `l` of `v`.
pub proof fn lemma_normalize_has_unit_length(v: Vec3)
    requires
        moderate(v),
        v.length().raw > 0,
    ensures
        ONE_RAW - 4 <= v.normalize().length().raw,
        v.normalize().length().raw <= ONE_RAW + ONE_RAW / v.length().raw + 1,
{
    let s = ONE_RAW as int;
    let len = v.length();
    let l = len.raw as int;
    let n = raw_square_sum(v);
    lemma_length_is_root(v);
    lemma_normalized_component(v.x, len);
    lemma_normalized_component(v.y, len);
    lemma_normalized_component(v.z, len);
    let w = v.normalize();
    let (wx, wy, wz) = (w.x.raw as int, w.y.raw as int, w.z.raw as int);
    let (mx, my, mz) = (
        magnitude(v.x.raw as int),
        magnitude(v.y.raw as int),
        magnitude(v.z.raw as int),
    );
    lemma_product_sign(v.x.raw as int, v.x.raw as int);
    lemma_product_sign(v.y.raw as int, v.y.raw as int);
    lemma_product_sign(v.z.raw as int, v.z.raw as int);
    let total = raw_square_sum(w);
    assert(wx * wx >= 0 && wy * wy >= 0 && wz * wz >= 0) by (nonlinear_arith);
    assert(n == mx * mx + my * my + mz * mz);
    assert(total * (l * l) == (wx * wx) * (l * l) + (wy * wy) * (l * l) + (wz * wz) * (l * l))
        by (nonlinear_arith)
        requires
            total == wx * wx + wy * wy + wz * wz,
    ;
    assert((s * s) * n == (s * s) * (mx * mx) + (s * s) * (my * my) + (s * s) * (mz * mz))
        by (nonlinear_arith)
        requires
            n == mx * mx + my * my + mz * mz,
    ;
    // total * l^2 <= s^2 * n <= s^2 * (l^2 + 2 l)
    assert(total * (l * l) <= (s * s) * n);
    assert(total * l <= (s * s) * l + 2 * (s * s)) by (nonlinear_arith)
        requires
            total * (l * l) <= (s * s) * n,
            n < (l + 1) * (l + 1),
            l > 0,
            s > 0,
            total >= 0,
    ;
    // total * l^2 >= s^2 * n - 2 s l (mx + my + mz) >= s^2 l^2 - 6 s l^2
    assert(total * (l * l) >= (s * s) * n - 2 * s * l * (mx + my + mz)) by (nonlinear_arith)
        requires
            (s * s) * (mx * mx) - 2 * s * l * mx <= (wx * wx) * (l * l),
            (s * s) * (my * my) - 2 * s * l * my <= (wy * wy) * (l * l),
            (s * s) * (mz * mz) - 2 * s * l * mz <= (wz * wz) * (l * l),
            total * (l * l) == (wx * wx) * (l * l) + (wy * wy) * (l * l) + (wz * wz) * (l * l),
            (s * s) * n == (s * s) * (mx * mx) + (s * s) * (my * my) + (s * s) * (mz * mz),
    ;
    assert(total >= s * s - 6 * s) by (nonlinear_arith)
        requires
            total * (l * l) >= (s * s) * n - 2 * s * l * (mx + my + mz),
            l * l <= n,
            0 <= mx <= l,
            0 <= my <= l,
            0 <= mz <= l,
            l > 0,
            s > 0,
    ;
    assert(moderate(w));
    lemma_length_is_root(w);
    let r = w.length().raw as int;
    assert(s - 4 <= r) by (nonlinear_arith)
        requires
            total < (r + 1) * (r + 1),
            total >= s * s - 6 * s,
            r >= 0,
            s == 0x1_0000_0000,
    ;
    let q = s / l;
    lemma_fundamental_div_mod_for_bound(s, l);
    assert(r <= s + q + 1) by (nonlinear_arith)
        requires
            r * r <= total,
            total * l <= (s * s) * l + 2 * (s * s),
            s < (q + 1) * l,
            q >= 0,
            l > 0,
            s > 0,
            r >= 0,
    ;
}

/// `s < (s / l + 1) * l` for positive `l`.
proof fn lemma_fundamental_div_mod_for_bound(s: int, l: int)
    requires
        s >= 0,
        l > 0,
    ensures
        s / l >= 0,
        s < (s / l + 1) * l,
{
    vstd::arithmetic::div_mod::lemma_fundamental_div_mod(s, l);
    vstd::arithmetic::div_mod::lemma_mod_bound(s, l);
    assert(s / l >= 0 && s < (s / l + 1) * l) by (nonlinear_arith)
        requires
            s == l * (s / l) + (s % l),
            0 <= s % l < l,
            s >= 0,
            l > 0,
    ;
}

/// No component of a normalized vector has a magnitude above one, whatever
/// the vector.
pub proof fn lemma_normalized_components_are_bounded(v: Vec3)
    ensures
        -ONE_RAW <= v.normalize().x.raw <= ONE_RAW,
        -ONE_RAW <= v.normalize().y.raw <= ONE_RAW,
        -ONE_RAW <= v.normalize().z.raw <= ONE_RAW,
{
    let n = raw_square_sum(v);
    assert(v.x.raw * v.x.raw >= 0 && v.y.raw * v.y.raw >= 0 && v.z.raw * v.z.raw >= 0)
        by (nonlinear_arith);
    lemma_floor_sqrt_exists(n);
    let r = floor_sqrt(n);
    let (m0, m1, m2) = (
        magnitude(v.x.raw as int),
        magnitude(v.y.raw as int),
        magnitude(v.z.raw as int),
    );
    lemma_product_sign(v.x.raw as int, v.x.raw as int);
    lemma_product_sign(v.y.raw as int, v.y.raw as int);
    lemma_product_sign(v.z.raw as int, v.z.raw as int);
    assert(m0 <= r && m1 <= r && m2 <= r) by (nonlinear_arith)
        requires
            0 <= r,
            n < (r + 1) * (r + 1),
            m0 * m0 <= n,
            m1 * m1 <= n,
            m2 * m2 <= n,
            0 <= m0,
            0 <= m1,
            0 <= m2,
    ;
    let len = v.length();
    lemma_bounded_quotient(v.x, len);
    lemma_bounded_quotient(v.y, len);
    lemma_bounded_quotient(v.z, len);
}

/// A quotient by a divisor that is at least as large as the numerator, or
/// short of it by one at the edge of the range, has magnitude at most one.
proof fn lemma_bounded_quotient(x: Fixed, len: Fixed)
    requires
        len.raw >= 0,
        magnitude(x.raw as int) <= len.raw || (len.raw == i64::MAX),
    ensures
        -ONE_RAW <= x.div(len).raw <= ONE_RAW,
{
    let s = ONE_RAW as int;
    if len.raw > 0 {
        let l = len.raw as int;
        let m = magnitude(x.raw as int);
        lemma_product_sign(x.raw as int, s);
        lemma_quot_bounds(x.raw * s, l);
        let mq = magnitude(quot(x.raw * s, l));
        assert(mq <= s) by (nonlinear_arith)
            requires
                mq * l <= m * s,
                m <= l || (l == 0x7fff_ffff_ffff_ffff && m <= l + 1),
                l > 0,
                mq >= 0,
                s == 0x1_0000_0000,
        ;
    }
}

} // verus!
