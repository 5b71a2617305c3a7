//! How far rounding moves results from what exact arithmetic gives.
//!
//! In exact arithmetic the point at which a ray is reported to hit a sphere
//! has distance `r` from the centre, and a reflected direction has length
//! one.  Here every product, quotient and root is rounded, and the theorems
//! of this module bound what that does.

use crate::color::Color;
use crate::fixed::{
    is_floor_sqrt, lemma_div_one, lemma_floor_sqrt_exists, lemma_mul_unit, lemma_mul_whole,
    lemma_product_bound, lemma_product_sign, lemma_quot_bounds, magnitude, quot, Fixed, ONE_RAW,
};
use crate::intersection::{Intersectable, Intersection};
use crate::material::Material;
use crate::mesh::{lemma_parallel_bound_value, spec_intersects, Triangle};
use crate::ray::Ray;
use crate::scatter::{
    can_double, is_axis, lemma_axis_mirror, spec_incidence_cosine, spec_index_ratio,
    spec_leaving, spec_mirror, spec_outward_normal,
    spec_reflect, spec_refract, spec_refract_discriminant, spec_refraction,
    spec_refraction_origin, spec_shlick_approximation,
};
use crate::sphere::Sphere;
use crate::vector::{
    lemma_length_is_root, lemma_normalize_has_unit_length, moderate, raw_square_sum, Vec3,
};
use vstd::prelude::*;

verus! {

/// Every component of `v` has magnitude at most `bound`, in raw units.
pub open spec fn within_box(v: Vec3, bound: int) -> bool {
    &&& magnitude(v.x.raw as int) <= bound
    &&& magnitude(v.y.raw as int) <= bound
    &&& magnitude(v.z.raw as int) <= bound
}

/// A sphere and a ray of moderate size: the centre and the origin of the
/// ray lie within 512 of the origin along every axis, the radius is at most
/// 1024, the components of the direction are at most 2, and the squared
/// length of the direction is at least a quarter.
pub open spec fn moderate_pair(sphere: &Sphere, ray: &Ray) -> bool {
    &&& within_box(ray.origin, 0x200_0000_0000)
    &&& within_box(sphere.origin, 0x200_0000_0000)
    &&& within_box(ray.direction, 0x2_0000_0000)
    &&& 0 < sphere.radius.raw <= 0x400_0000_0000
    &&& sphere.quadratic_a(ray).raw >= 0x4000_0000
}

/// The squared distance between two points, in raw units.
pub open spec fn raw_square_distance(p: Vec3, c: Vec3) -> int {
    (p.x.raw - c.x.raw) * (p.x.raw - c.x.raw) + (p.y.raw - c.y.raw) * (p.y.raw - c.y.raw) + (
    p.z.raw - c.z.raw) * (p.z.raw - c.z.raw)
}

/// The sum of the magnitudes of the components of `p - c`, in raw units.
pub open spec fn raw_taxicab_distance(p: Vec3, c: Vec3) -> int {
    magnitude(p.x.raw - c.x.raw) + magnitude(p.y.raw - c.y.raw) + magnitude(p.z.raw - c.z.raw)
}

/// The rounding error of a product that does not saturate: the product of
/// the raw values is the raw value of the product times `2^32` plus an
/// error of magnitude below `2^32` that has the sign of the product.
pub proof fn lemma_mul_error(x: Fixed, y: Fixed) -> (e: int)
    requires
        magnitude(x.raw as int) * magnitude(y.raw as int) <= 0x4000_0000_0000_0000_0000_0000,
    ensures
        x.raw * y.raw == x.mul(y).raw * ONE_RAW + e,
        -ONE_RAW < e < ONE_RAW,
        x.raw * y.raw >= 0 ==> e >= 0,
        x.raw * y.raw <= 0 ==> e <= 0,
        magnitude(x.mul(y).raw as int) * ONE_RAW <= magnitude(x.raw as int) * magnitude(
            y.raw as int,
        ),
{
    let n = x.raw * y.raw;
    lemma_product_sign(x.raw as int, y.raw as int);
    lemma_quot_bounds(n, ONE_RAW as int);
    let q = quot(n, ONE_RAW as int);
    assert(magnitude(q) <= 0x4000_0000_0000_0000);
    n - q * ONE_RAW
}

/// The rounding error of an inner product that does not saturate.
pub proof fn lemma_dot_error(u: Vec3, v: Vec3, bu: int, bv: int) -> (e: int)
    requires
        within_box(u, bu),
        within_box(v, bv),
        0 <= bu,
        0 <= bv,
        bu * bv <= 0x1000_0000_0000_0000_0000_0000,
    ensures
        u.x.raw * v.x.raw + u.y.raw * v.y.raw + u.z.raw * v.z.raw == u.dot(v).raw * ONE_RAW + e,
        -3 * ONE_RAW < e < 3 * ONE_RAW,
        u == v ==> e >= 0 && u.dot(v).raw >= 0,
        magnitude(u.dot(v).raw as int) * ONE_RAW <= 3 * (bu * bv),
{
    lemma_product_bound(magnitude(u.x.raw as int), magnitude(v.x.raw as int), bu, bv);
    lemma_product_bound(magnitude(u.y.raw as int), magnitude(v.y.raw as int), bu, bv);
    lemma_product_bound(magnitude(u.z.raw as int), magnitude(v.z.raw as int), bu, bv);
    let ex = lemma_mul_error(u.x, v.x);
    let ey = lemma_mul_error(u.y, v.y);
    let ez = lemma_mul_error(u.z, v.z);
    if u == v {
        lemma_product_sign(u.x.raw as int, u.x.raw as int);
        lemma_product_sign(u.y.raw as int, u.y.raw as int);
        lemma_product_sign(u.z.raw as int, u.z.raw as int);
        lemma_quot_bounds(u.x.raw * u.x.raw, ONE_RAW as int);
        lemma_quot_bounds(u.y.raw * u.y.raw, ONE_RAW as int);
        lemma_quot_bounds(u.z.raw * u.z.raw, ONE_RAW as int);
    }
    ex + ey + ez
}

/// `(x + y)^2 = x^2 + 2 x y + y^2`.
proof fn lemma_binomial(x: int, y: int)
    ensures
        (x + y) * (x + y) == x * x + 2 * (x * y) + y * y,
{
    assert((x + y) * (x + y) == x * x + 2 * (x * y) + y * y) by (nonlinear_arith);
}

/// `(a b) (c d) = (a c) (b d)`.
proof fn lemma_swap_middle(a: int, b: int, c: int, d: int)
    ensures
        (a * b) * (c * d) == (a * c) * (b * d),
{
    let ab = a * b;
    let cd = c * d;
    assert(ab * cd == a * (b * cd)) by (nonlinear_arith)
        requires
            ab == a * b,
    ;
    assert(b * cd == c * (b * d)) by (nonlinear_arith)
        requires
            cd == c * d,
    ;
    let bd = b * d;
    assert(a * (c * bd) == (a * c) * bd) by (nonlinear_arith);
}

/// Squaring `s p + e == s o + t d`.
proof fn lemma_component_square(s: int, p: int, e: int, o: int, t: int, d: int)
    requires
        s * p + e == s * o + t * d,
    ensures
        (s * s) * (p * p) + 2 * (s * (p * e)) + e * e == (s * s) * (o * o) + 2 * ((s * t) * (o
            * d)) + (t * t) * (d * d),
{
    let sp = s * p;
    let so = s * o;
    let td = t * d;
    lemma_binomial(sp, e);
    lemma_binomial(so, td);
    lemma_swap_middle(s, p, s, p);
    lemma_swap_middle(s, o, s, o);
    lemma_swap_middle(t, d, t, d);
    lemma_swap_middle(s, o, t, d);
    assert(sp * e == s * (p * e)) by (nonlinear_arith)
        requires
            sp == s * p,
    ;
}

/// The quadratic `a t^2 + 2 b t + c`, scaled: `a t^2 + 2 s b t + s^2 c`.
pub open spec fn scaled_quadratic(s: int, a: int, b: int, c: int, t: int) -> int {
    a * (t * t) + 2 * (s * (b * t)) + (s * s) * c
}

/// The squared distance minus the squared radius, in terms of the scaled
/// quadratic and the rounding errors of the coefficients.
proof fn lemma_residual(
    s: int,
    w: int,
    x: int,
    y: int,
    t: int,
    a: int,
    b: int,
    c: int,
    rr: int,
    r2: int,
    ea: int,
    eb: int,
    ec: int,
    er: int,
    sum_oo: int,
    sum_od: int,
    sum_dd: int,
)
    requires
        (s * s) * w + 2 * (s * x) + y == (s * s) * sum_oo + 2 * ((s * t) * sum_od) + (t * t)
            * sum_dd,
        sum_dd == a * s + ea,
        sum_od == b * s + eb,
        sum_oo == (c + rr) * s + ec,
        r2 == rr * s + er,
    ensures
        (s * s) * (w - r2) == s * scaled_quadratic(s, a, b, c, t) + (s * s) * (ec - er) + 2 * ((s
            * t) * eb) + (t * t) * ea - 2 * (s * x) - y,
{
    let m = scaled_quadratic(s, a, b, c, t);
    let ss = s * s;
    let tt = t * t;
    let st = s * t;
    let bt = b * t;
    let rrs = rr * s;
    let cs = c * s;
    assert(sum_oo == cs + rrs + ec) by (nonlinear_arith)
        requires
            sum_oo == (c + rr) * s + ec,
            cs == c * s,
            rrs == rr * s,
    ;
    assert(ss * sum_oo == ss * cs + ss * rrs + ss * ec) by (nonlinear_arith)
        requires
            sum_oo == cs + rrs + ec,
    ;
    assert(ss * cs == s * (ss * c)) by (nonlinear_arith)
        requires
            cs == c * s,
    ;
    let bs = b * s;
    assert(st * sum_od == st * bs + st * eb) by (nonlinear_arith)
        requires
            sum_od == bs + eb,
    ;
    lemma_swap_middle(s, t, b, s);
    assert((s * b) * (t * s) == s * (s * bt)) by {
        lemma_swap_middle(s, b, t, s);
        assert((s * t) * (b * s) == (s * b) * (t * s));
        let sb = s * b;
        assert(sb * (t * s) == s * (b * (t * s))) by (nonlinear_arith)
            requires
                sb == s * b,
        ;
        assert(b * (t * s) == s * bt) by (nonlinear_arith)
            requires
                bt == b * t,
        ;
    }
    assert(st * bs == s * (s * bt));
    let a_s = a * s;
    assert(tt * sum_dd == tt * a_s + tt * ea) by (nonlinear_arith)
        requires
            sum_dd == a_s + ea,
    ;
    assert(tt * a_s == s * (a * tt)) by (nonlinear_arith)
        requires
            a_s == a * s,
    ;
    let att = a * tt;
    let sbt = s * bt;
    let ssc = ss * c;
    assert(m == att + 2 * sbt + ssc);
    assert(s * m == s * att + 2 * (s * sbt) + s * ssc) by (nonlinear_arith)
        requires
            m == att + 2 * sbt + ssc,
    ;
    assert(ss * r2 == ss * rrs + ss * er) by (nonlinear_arith)
        requires
            r2 == rrs + er,
    ;
    assert(ss * (w - r2) == ss * w - ss * r2) by (nonlinear_arith);
    assert(ss * (ec - er) == ss * ec - ss * er) by (nonlinear_arith);
}

/// The scaled quadratic is small at a computed root.  With `g = a t + s b`
/// the quadratic times `a` is `g^2 - s^2 (b^2 - a c)`; `g` is the rounded
/// root of the discriminant up to the rounding of the quotient, and the
/// discriminant is `b^2 - a c` up to the rounding of the products.
proof fn lemma_quadratic_at_root(
    s: int,
    a: int,
    b: int,
    c: int,
    t: int,
    root: int,
    signed_root: int,
    et: int,
    bb: int,
    ac: int,
    e3: int,
    e4: int,
)
    requires
        s > 0,
        4 * a >= s,
        root >= 0,
        signed_root == root || signed_root == -root,
        a * t == (-b + signed_root) * s - et,
        -a < et < a,
        b * b == bb * s + e3,
        a * c == ac * s + e4,
        0 <= e3 < s,
        -s < e4 < s,
        root * root <= (bb - ac) * s,
        (bb - ac) * s < (root + 1) * (root + 1),
    ensures
        magnitude(scaled_quadratic(s, a, b, c, t)) <= 10 * (root * s) + 8 * (s * s) + a,
{
    let m = scaled_quadratic(s, a, b, c, t);
    let ss = s * s;
    let tt = t * t;
    let at = a * t;
    let sb = s * b;
    let bt = b * t;
    let g = at + sb;
    let rs = root * s;
    let srs = signed_root * s;
    assert(at == srs - sb - et) by (nonlinear_arith)
        requires
            at == (-b + signed_root) * s - et,
            srs == signed_root * s,
            sb == s * b,
    ;
    assert(g == srs - et);
    // a m = g^2 - s^2 b^2 + s^2 a c
    lemma_binomial(at, sb);
    lemma_swap_middle(a, t, a, t);
    assert((a * a) * tt == a * (a * tt)) by (nonlinear_arith);
    lemma_swap_middle(a, t, s, b);
    assert((a * s) * (t * b) == a * (s * bt)) by (nonlinear_arith)
        requires
            bt == b * t,
    ;
    lemma_swap_middle(s, b, s, b);
    let att = a * tt;
    let sbt = s * bt;
    let ssc = ss * c;
    assert(m == att + 2 * sbt + ssc);
    assert(a * m == a * att + 2 * (a * sbt) + a * ssc) by (nonlinear_arith)
        requires
            m == att + 2 * sbt + ssc,
    ;
    let ac_exact = a * c;
    assert(a * ssc == ss * ac_exact) by (nonlinear_arith)
        requires
            ssc == ss * c,
            ac_exact == a * c,
    ;
    let bsq = b * b;
    assert(a * m == g * g - ss * bsq + ss * ac_exact);
    // g^2 = (root s)^2 - 2 (signed_root s) et + et^2
    lemma_binomial(srs, -et);
    assert(srs * (-et) == -(srs * et)) by (nonlinear_arith);
    assert((-et) * (-et) == et * et) by (nonlinear_arith);
    assert(srs * srs == rs * rs) by (nonlinear_arith)
        requires
            srs == signed_root * s,
            rs == root * s,
            signed_root == root || signed_root == -root,
    ;
    assert(g * g == rs * rs - 2 * (srs * et) + et * et);
    // s^2 (b^2 - a c) = (root s)^2 + s^2 (e6 + e3 - e4)
    let disc_s = (bb - ac) * s;
    let e6 = disc_s - root * root;
    assert((root + 1) * (root + 1) == root * root + 2 * root + 1) by (nonlinear_arith);
    assert(0 <= e6 <= 2 * root);
    let k = e6 + e3 - e4;
    assert(bsq - ac_exact == root * root + k) by (nonlinear_arith)
        requires
            bsq == bb * s + e3,
            ac_exact == ac * s + e4,
            disc_s == (bb - ac) * s,
            e6 == disc_s - root * root,
            k == e6 + e3 - e4,
    ;
    assert(ss * bsq - ss * ac_exact == ss * (root * root) + ss * k) by (nonlinear_arith)
        requires
            bsq - ac_exact == root * root + k,
    ;
    lemma_swap_middle(root, s, root, s);
    assert(ss * (root * root) == rs * rs) by (nonlinear_arith)
        requires
            (root * s) * (root * s) == (root * root) * (s * s),
            rs == root * s,
            ss == s * s,
    ;
    assert(a * m == -2 * (srs * et) + et * et - ss * k);
    assert(rs >= 0) by (nonlinear_arith)
        requires
            rs == root * s,
            root >= 0,
            s > 0,
    ;
    assert(magnitude(srs) == rs) by (nonlinear_arith)
        requires
            srs == signed_root * s,
            rs == root * s,
            signed_root == root || signed_root == -root,
            rs >= 0,
            magnitude(srs) == if srs < 0 {
                -srs
            } else {
                srs
            },
    ;
    lemma_product_sign(srs, et);
    assert(magnitude(srs * et) <= rs * a) by (nonlinear_arith)
        requires
            magnitude(srs * et) == rs * magnitude(et),
            magnitude(et) < a,
            magnitude(et) >= 0,
            rs >= 0,
    ;
    assert(0 <= et * et <= a * a) by (nonlinear_arith)
        requires
            -a < et < a,
    ;
    assert(-(ss * s) <= ss * k <= ss * (2 * root + 2 * s)) by (nonlinear_arith)
        requires
            -s < k < 2 * root + 2 * s,
            ss == s * s,
            s > 0,
    ;
    assert(ss * s <= ss * (2 * root + 2 * s)) by (nonlinear_arith)
        requires
            ss == s * s,
            s > 0,
            root >= 0,
    ;
    let big = ss * (2 * root + 2 * s);
    assert(magnitude(a * m) <= 2 * (rs * a) + a * a + big);
    assert(big <= a * (8 * rs + 8 * ss)) by (nonlinear_arith)
        requires
            big == ss * (2 * root + 2 * s),
            ss == s * s,
            4 * a >= s,
            s > 0,
            root >= 0,
            rs == root * s,
    ;
    assert(2 * (rs * a) + a * a + a * (8 * rs + 8 * ss) == a * (10 * rs + 8 * ss + a))
        by (nonlinear_arith);
    lemma_product_sign(a, m);
    assert(magnitude(m) <= 10 * rs + 8 * ss + a) by (nonlinear_arith)
        requires
            magnitude(a) * magnitude(m) <= a * (10 * rs + 8 * ss + a),
            a > 0,
            magnitude(a) == a,
            magnitude(m) >= 0,
    ;
}

/// The magnitude of a product of bounded factors.
proof fn lemma_bounded_product(x: int, y: int, bx: int, by: int)
    requires
        magnitude(x) <= bx,
        magnitude(y) <= by,
    ensures
        magnitude(x * y) <= bx * by,
        magnitude(x) * magnitude(y) <= bx * by,
{
    lemma_product_sign(x, y);
    lemma_product_bound(magnitude(x), magnitude(y), bx, by);
}

/// From the residual identity and the bounds on its terms to the bound on
/// the residual.
proof fn lemma_tolerance(
    s: int,
    delta: int,
    m: int,
    ecr: int,
    t: int,
    eb: int,
    ea: int,
    x: int,
    y: int,
    root: int,
    a: int,
    taxi: int,
)
    requires
        s > 0,
        (s * s) * delta == s * m + (s * s) * ecr + 2 * ((s * t) * eb) + (t * t) * ea - 2 * (s
            * x) - y,
        magnitude(m) <= 10 * (root * s) + 8 * (s * s) + a,
        -s < ecr < 3 * s,
        -3 * s < eb < 3 * s,
        0 <= ea < 3 * s,
        magnitude(x) <= s * taxi,
        0 <= y <= 3 * (s * s),
    ensures
        s * magnitude(delta) <= s * (10 * root + 11 * s + 6 * magnitude(t) + 2 * taxi + 3) + 3
            * (t * t) + a,
{
    let ss = s * s;
    let tt = t * t;
    let st = s * t;
    let mt = magnitude(t);
    let bound_m = 10 * (root * s) + 8 * ss + a;
    lemma_product_sign(s, m);
    assert(magnitude(s * m) <= s * bound_m) by (nonlinear_arith)
        requires
            magnitude(s * m) == magnitude(s) * magnitude(m),
            magnitude(s) == s,
            s > 0,
            0 <= magnitude(m) <= bound_m,
    ;
    lemma_bounded_product(ss, ecr, ss, 3 * s);
    assert(ss >= 0) by (nonlinear_arith)
        requires
            ss == s * s,
    ;
    lemma_product_sign(s, t);
    lemma_bounded_product(st, eb, s * mt, 3 * s);
    assert(tt >= 0) by (nonlinear_arith)
        requires
            tt == t * t,
    ;
    lemma_bounded_product(tt, ea, tt, 3 * s);
    lemma_bounded_product(s, x, s, s * taxi);
    let total = s * bound_m + ss * (3 * s) + 2 * ((s * mt) * (3 * s)) + tt * (3 * s) + 2 * (s * (s
        * taxi)) + 3 * ss;
    lemma_product_sign(ss, delta);
    assert(magnitude(ss * delta) <= total);
    let inner = bound_m + 3 * ss + 6 * (s * mt) + 3 * tt + 2 * (s * taxi) + 3 * s;
    assert(total == s * inner) by (nonlinear_arith)
        requires
            total == s * bound_m + ss * (3 * s) + 2 * ((s * mt) * (3 * s)) + tt * (3 * s) + 2 * (s
                * (s * taxi)) + 3 * ss,
            inner == bound_m + 3 * ss + 6 * (s * mt) + 3 * tt + 2 * (s * taxi) + 3 * s,
            ss == s * s,
    ;
    let md = magnitude(delta);
    assert(s * md <= inner) by (nonlinear_arith)
        requires
            (s * s) * md <= s * inner,
            s > 0,
            md >= 0,
    ;
    assert(inner == s * (10 * root + 11 * s + 6 * mt + 2 * taxi + 3) + 3 * tt + a)
        by (nonlinear_arith)
        requires
            inner == bound_m + 3 * ss + 6 * (s * mt) + 3 * tt + 2 * (s * taxi) + 3 * s,
            bound_m == 10 * (root * s) + 8 * ss + a,
            ss == s * s,
    ;
}

/// How far the squared distance of a reported hit from the centre of the
/// sphere may be from the squared radius, times `2^32`, in raw units: with
/// the distance `t`, the rounded root `q` of the discriminant, the
/// coefficient `a` and the offset `d` of the point from the centre (all as
/// real numbers), this stands for
/// `(10 q + 11 + 6 |t| + 3 t^2 + 2 (|d.x| + |d.y| + |d.z|)) / 2^32`,
/// plus `(3 + a) / 2^64`.
pub open spec fn sphere_tolerance(sphere: &Sphere, ray: &Ray, distance: Fixed, point: Vec3) -> int {
    ONE_RAW * (10 * sphere.discriminant(ray).sqrt().raw + 11 * ONE_RAW + 6 * magnitude(
        distance.raw as int,
    ) + 2 * raw_taxicab_distance(point, sphere.origin) + 3) + 3 * (distance.raw * distance.raw)
        + sphere.quadratic_a(ray).raw
}

/// The point of the ray at a computed root lies on the sphere, up to the
/// tolerance.
proof fn lemma_point_at_root(sphere: &Sphere, ray: &Ray, far: bool)
    requires
        moderate_pair(sphere, ray),
        sphere.discriminant(ray).raw > 0,
    ensures
        ({
            let t = if far {
                sphere.far_root(ray)
            } else {
                sphere.near_root(ray)
            };
            let p = ray.point_along(t);
            &&& ONE_RAW * magnitude(
                raw_square_distance(p, sphere.origin) - sphere.radius.raw * sphere.radius.raw,
            ) <= sphere_tolerance(sphere, ray, t, p)
            &&& within_box(p.sub(sphere.origin), 0x8_0000_0000_0000)
            &&& p.sub(sphere.origin).x.raw == p.x.raw - sphere.origin.x.raw
            &&& p.sub(sphere.origin).y.raw == p.y.raw - sphere.origin.y.raw
            &&& p.sub(sphere.origin).z.raw == p.z.raw - sphere.origin.z.raw
        }),
{
    let s = ONE_RAW as int;
    let o = ray.origin;
    let cen = sphere.origin;
    let d = ray.direction;
    let radius = sphere.radius;
    let oc = o.sub(cen);
    let bd = 0x2_0000_0000int;
    let bo = 0x400_0000_0000int;
    assert(within_box(oc, bo));
    // the coefficients
    let ea = lemma_dot_error(d, d, bd, bd);
    let eb = lemma_dot_error(oc, d, bo, bd);
    let ec = lemma_dot_error(oc, oc, bo, bo);
    let af = sphere.quadratic_a(ray);
    let bf = sphere.quadratic_b(ray);
    let cf = sphere.quadratic_c(ray);
    let a = af.raw as int;
    let b = bf.raw as int;
    let c1 = oc.dot(oc).raw as int;
    let sum_dd = d.x.raw * d.x.raw + d.y.raw * d.y.raw + d.z.raw * d.z.raw;
    let sum_od = oc.x.raw * d.x.raw + oc.y.raw * d.y.raw + oc.z.raw * d.z.raw;
    let sum_oo = oc.x.raw * oc.x.raw + oc.y.raw * oc.y.raw + oc.z.raw * oc.z.raw;
    lemma_bounded_product(radius.raw as int, radius.raw as int, bo, bo);
    let er = lemma_mul_error(radius, radius);
    let rr = radius.mul(radius).raw as int;
    let r2 = radius.raw * radius.raw;
    assert(r2 >= 0) by (nonlinear_arith)
        requires
            r2 == radius.raw * radius.raw,
    ;
    let c = cf.raw as int;
    assert(c == c1 - rr);
    // the discriminant
    lemma_bounded_product(b, b, 0x1800_0000_0000, 0x1800_0000_0000);
    let e3 = lemma_mul_error(bf, bf);
    let bb = bf.mul(bf).raw as int;
    assert(b * b >= 0) by (nonlinear_arith);
    lemma_bounded_product(a, c, 0xc_0000_0000, 0x80_0000_0000_0000);
    let e4 = lemma_mul_error(af, cf);
    let ac = af.mul(cf).raw as int;
    let disc = sphere.discriminant(ray).raw as int;
    assert(disc == bb - ac);
    lemma_floor_sqrt_exists(disc * s);
    let root = crate::fixed::floor_sqrt(disc * s);
    assert(root <= 0x4000_0000_0000) by (nonlinear_arith)
        requires
            0 <= root,
            root * root <= disc * s,
            disc <= 0x1000_0000_0000_0000,
            s == 0x1_0000_0000,
    ;
    assert(sphere.discriminant(ray).sqrt().raw == root);
    // the root of the quadratic
    let signed_root = if far {
        root
    } else {
        -root
    };
    let num = -b + signed_root;
    let tf = if far {
        sphere.far_root(ray)
    } else {
        sphere.near_root(ray)
    };
    let n = num * s;
    lemma_quot_bounds(n, a);
    let q = quot(n, a);
    lemma_product_sign(num, s);
    lemma_product_sign(q, a);
    assert(magnitude(q) <= 0x2_0000_0000_0000) by (nonlinear_arith)
        requires
            magnitude(q) * a <= magnitude(num) * s,
            magnitude(num) <= 0x8000_0000_0000,
            a >= 0x4000_0000,
            s == 0x1_0000_0000,
            magnitude(q) >= 0,
    ;
    let t = tf.raw as int;
    assert(t == q);
    let et = n - t * a;
    assert(-a < et < a);
    assert(a * t == num * s - et) by (nonlinear_arith)
        requires
            et == n - t * a,
            n == num * s,
    ;
    // the point
    let td = d.scale(tf);
    lemma_bounded_product(d.x.raw as int, t, bd, 0x2_0000_0000_0000);
    lemma_bounded_product(d.y.raw as int, t, bd, 0x2_0000_0000_0000);
    lemma_bounded_product(d.z.raw as int, t, bd, 0x2_0000_0000_0000);
    let ex = lemma_mul_error(d.x, tf);
    let ey = lemma_mul_error(d.y, tf);
    let ez = lemma_mul_error(d.z, tf);
    let p = ray.point_along(tf);
    let px = p.x.raw - cen.x.raw;
    let py = p.y.raw - cen.y.raw;
    let pz = p.z.raw - cen.z.raw;
    assert(px == oc.x.raw + td.x.raw);
    assert(py == oc.y.raw + td.y.raw);
    assert(pz == oc.z.raw + td.z.raw);
    assert(s * px + ex == s * oc.x.raw + t * d.x.raw) by (nonlinear_arith)
        requires
            px == oc.x.raw + td.x.raw,
            d.x.raw * t == td.x.raw * s + ex,
    ;
    assert(s * py + ey == s * oc.y.raw + t * d.y.raw) by (nonlinear_arith)
        requires
            py == oc.y.raw + td.y.raw,
            d.y.raw * t == td.y.raw * s + ey,
    ;
    assert(s * pz + ez == s * oc.z.raw + t * d.z.raw) by (nonlinear_arith)
        requires
            pz == oc.z.raw + td.z.raw,
            d.z.raw * t == td.z.raw * s + ez,
    ;
    lemma_component_square(s, px, ex, oc.x.raw as int, t, d.x.raw as int);
    lemma_component_square(s, py, ey, oc.y.raw as int, t, d.y.raw as int);
    lemma_component_square(s, pz, ez, oc.z.raw as int, t, d.z.raw as int);
    let w = px * px + py * py + pz * pz;
    let x = px * ex + py * ey + pz * ez;
    let y = ex * ex + ey * ey + ez * ez;
    let ss = s * s;
    let st = s * t;
    let tt = t * t;
    assert(ss * w == ss * (px * px) + ss * (py * py) + ss * (pz * pz)) by (nonlinear_arith)
        requires
            w == px * px + py * py + pz * pz,
    ;
    assert(s * x == s * (px * ex) + s * (py * ey) + s * (pz * ez)) by (nonlinear_arith)
        requires
            x == px * ex + py * ey + pz * ez,
    ;
    assert(ss * sum_oo == ss * (oc.x.raw * oc.x.raw) + ss * (oc.y.raw * oc.y.raw) + ss * (oc.z.raw
        * oc.z.raw)) by (nonlinear_arith)
        requires
            sum_oo == oc.x.raw * oc.x.raw + oc.y.raw * oc.y.raw + oc.z.raw * oc.z.raw,
    ;
    assert(st * sum_od == st * (oc.x.raw * d.x.raw) + st * (oc.y.raw * d.y.raw) + st * (oc.z.raw
        * d.z.raw)) by (nonlinear_arith)
        requires
            sum_od == oc.x.raw * d.x.raw + oc.y.raw * d.y.raw + oc.z.raw * d.z.raw,
    ;
    assert(tt * sum_dd == tt * (d.x.raw * d.x.raw) + tt * (d.y.raw * d.y.raw) + tt * (d.z.raw
        * d.z.raw)) by (nonlinear_arith)
        requires
            sum_dd == d.x.raw * d.x.raw + d.y.raw * d.y.raw + d.z.raw * d.z.raw,
    ;
    assert(ss * w + 2 * (s * x) + y == ss * sum_oo + 2 * (st * sum_od) + tt * sum_dd);
    lemma_residual(s, w, x, y, t, a, b, c, rr, r2, ea, eb, ec, er, sum_oo, sum_od, sum_dd);
    lemma_quadratic_at_root(s, a, b, c, t, root, signed_root, et, bb, ac, e3, e4);
    // the bounds on the error terms
    let taxi = raw_taxicab_distance(p, cen);
    lemma_bounded_product(px, ex, magnitude(px), s);
    lemma_bounded_product(py, ey, magnitude(py), s);
    lemma_bounded_product(pz, ez, magnitude(pz), s);
    assert(magnitude(x) <= s * taxi) by (nonlinear_arith)
        requires
            x == px * ex + py * ey + pz * ez,
            magnitude(px * ex) <= magnitude(px) * s,
            magnitude(py * ey) <= magnitude(py) * s,
            magnitude(pz * ez) <= magnitude(pz) * s,
            taxi == magnitude(px) + magnitude(py) + magnitude(pz),
            magnitude(x) == if x < 0 {
                -x
            } else {
                x
            },
            magnitude(px * ex) == if px * ex < 0 {
                -(px * ex)
            } else {
                px * ex
            },
            magnitude(py * ey) == if py * ey < 0 {
                -(py * ey)
            } else {
                py * ey
            },
            magnitude(pz * ez) == if pz * ez < 0 {
                -(pz * ez)
            } else {
                pz * ez
            },
    ;
    assert(0 <= y <= 3 * ss) by (nonlinear_arith)
        requires
            y == ex * ex + ey * ey + ez * ez,
            -s < ex < s,
            -s < ey < s,
            -s < ez < s,
            ss == s * s,
    ;
    let m = scaled_quadratic(s, a, b, c, t);
    lemma_tolerance(s, w - r2, m, ec - er, t, eb, ea, x, y, root, a, taxi);
}

/// A reported hit lies on the sphere, up to rounding.  For a sphere and a
/// ray of moderate size, the squared distance of the hit point from the
/// centre differs from the squared radius by no more than the tolerance.
pub proof fn lemma_hit_lies_on_sphere(sphere: &Sphere, ray: &Ray, t_min: Fixed, t_max: Fixed)
    requires
        moderate_pair(sphere, ray),
        sphere.hit(ray, t_min, t_max) is Some,
    ensures
        ({
            let h = sphere.hit(ray, t_min, t_max)->0;
            ONE_RAW * magnitude(
                raw_square_distance(h.point, sphere.origin) - sphere.radius.raw
                    * sphere.radius.raw,
            ) <= sphere_tolerance(sphere, ray, h.distance, h.point)
        }),
{
    lemma_point_at_root(sphere, ray, false);
    lemma_point_at_root(sphere, ray, true);
}

/// The hit point of a sphere and a ray of moderate size lies within `2^19`
/// of the centre along every axis, and the normal is the offset of the
/// point from the centre divided by the radius.
proof fn lemma_hit_point_is_near(sphere: &Sphere, ray: &Ray, t_min: Fixed, t_max: Fixed)
    requires
        moderate_pair(sphere, ray),
        sphere.hit(ray, t_min, t_max) is Some,
    ensures
        ({
            let h = sphere.hit(ray, t_min, t_max)->0;
            let offset = h.point.sub(sphere.origin);
            &&& within_box(offset, 0x8_0000_0000_0000)
            &&& offset.x.raw == h.point.x.raw - sphere.origin.x.raw
            &&& offset.y.raw == h.point.y.raw - sphere.origin.y.raw
            &&& offset.z.raw == h.point.z.raw - sphere.origin.z.raw
            &&& h.normal == offset.div(sphere.radius)
        }),
{
    lemma_point_at_root(sphere, ray, false);
    lemma_point_at_root(sphere, ray, true);
}

/// How far the squared length of the normal at a reported hit may be from
/// one, times the squared radius, in raw units: the tolerance of the hit
/// point, and the rounding of the division by the radius.
pub open spec fn normal_tolerance(sphere: &Sphere, ray: &Ray, distance: Fixed, point: Vec3) -> int {
    ONE_RAW * sphere_tolerance(sphere, ray, distance, point) + 2 * ONE_RAW * (sphere.radius.raw
        * raw_taxicab_distance(point, sphere.origin)) + 3 * (sphere.radius.raw * sphere.radius.raw)
}

/// The normal at a reported hit has unit length, up to rounding.  For a
/// sphere and a ray of moderate size and a radius of at least `2^-10`, the
/// squared length of the normal differs from one, times the squared
/// radius, by no more than the tolerance.
pub proof fn lemma_sphere_normal_is_unit(sphere: &Sphere, ray: &Ray, t_min: Fixed, t_max: Fixed)
    requires
        moderate_pair(sphere, ray),
        sphere.radius.raw >= 0x40_0000,
        sphere.hit(ray, t_min, t_max) is Some,
    ensures
        ({
            let h = sphere.hit(ray, t_min, t_max)->0;
            (sphere.radius.raw * sphere.radius.raw) * magnitude(
                raw_square_sum(h.normal) - ONE_RAW * ONE_RAW,
            ) <= normal_tolerance(sphere, ray, h.distance, h.point)
        }),
{
    let s = ONE_RAW as int;
    let ss = s * s;
    let h = sphere.hit(ray, t_min, t_max)->0;
    let r = sphere.radius.raw as int;
    let cen = sphere.origin;
    lemma_hit_lies_on_sphere(sphere, ray, t_min, t_max);
    let tol = sphere_tolerance(sphere, ray, h.distance, h.point);
    lemma_hit_point_is_near(sphere, ray, t_min, t_max);
    let pc = h.point.sub(cen);
    let (p0, p1, p2) = (pc.x.raw as int, pc.y.raw as int, pc.z.raw as int);
    let e0 = lemma_radius_division(pc.x, sphere.radius);
    let e1 = lemma_radius_division(pc.y, sphere.radius);
    let e2 = lemma_radius_division(pc.z, sphere.radius);
    let n = h.normal;
    let (n0, n1, n2) = (n.x.raw as int, n.y.raw as int, n.z.raw as int);
    let big_p = raw_square_distance(h.point, cen);
    let big_n = raw_square_sum(n);
    let delta = big_p - r * r;
    let rr = r * r;
    lemma_scaled_square(s, r, p0, n0, e0);
    lemma_scaled_square(s, r, p1, n1, e1);
    lemma_scaled_square(s, r, p2, n2, e2);
    let cross = p0 * e0 + p1 * e1 + p2 * e2;
    let squares = e0 * e0 + e1 * e1 + e2 * e2;
    assert(rr * big_n == rr * (n0 * n0) + rr * (n1 * n1) + rr * (n2 * n2)) by (nonlinear_arith)
        requires
            big_n == n0 * n0 + n1 * n1 + n2 * n2,
    ;
    assert(ss * big_p == ss * (p0 * p0) + ss * (p1 * p1) + ss * (p2 * p2)) by (nonlinear_arith)
        requires
            big_p == p0 * p0 + p1 * p1 + p2 * p2,
    ;
    assert(s * cross == s * (p0 * e0) + s * (p1 * e1) + s * (p2 * e2)) by (nonlinear_arith)
        requires
            cross == p0 * e0 + p1 * e1 + p2 * e2,
    ;
    assert(rr * big_n == ss * big_p - 2 * (s * cross) + squares);
    assert(rr * (big_n - ss) == ss * delta - 2 * (s * cross) + squares) by (nonlinear_arith)
        requires
            rr * big_n == ss * big_p - 2 * (s * cross) + squares,
            delta == big_p - rr,
    ;
    let taxi = raw_taxicab_distance(h.point, cen);
    lemma_bounded_product(p0, e0, magnitude(p0), r);
    lemma_bounded_product(p1, e1, magnitude(p1), r);
    lemma_bounded_product(p2, e2, magnitude(p2), r);
    assert(magnitude(cross) <= r * taxi) by (nonlinear_arith)
        requires
            magnitude(p0 * e0) <= magnitude(p0) * r,
            magnitude(p1 * e1) <= magnitude(p1) * r,
            magnitude(p2 * e2) <= magnitude(p2) * r,
            taxi == magnitude(p0) + magnitude(p1) + magnitude(p2),
            cross == p0 * e0 + p1 * e1 + p2 * e2,
            magnitude(cross) == if cross < 0 {
                -cross
            } else {
                cross
            },
            magnitude(p0 * e0) == if p0 * e0 < 0 {
                -(p0 * e0)
            } else {
                p0 * e0
            },
            magnitude(p1 * e1) == if p1 * e1 < 0 {
                -(p1 * e1)
            } else {
                p1 * e1
            },
            magnitude(p2 * e2) == if p2 * e2 < 0 {
                -(p2 * e2)
            } else {
                p2 * e2
            },
    ;
    lemma_bounded_product(e0, e0, r, r);
    lemma_bounded_product(e1, e1, r, r);
    lemma_bounded_product(e2, e2, r, r);
    assert(e0 * e0 >= 0 && e1 * e1 >= 0 && e2 * e2 >= 0) by (nonlinear_arith);
    lemma_product_sign(ss, delta);
    lemma_product_sign(s, s * magnitude(delta));
    assert(ss * magnitude(delta) <= s * tol) by (nonlinear_arith)
        requires
            s * magnitude(delta) <= tol,
            ss == s * s,
            s > 0,
    ;
    lemma_bounded_product(s, cross, s, r * taxi);
    lemma_product_sign(rr, big_n - ss);
    assert(rr >= 0) by (nonlinear_arith)
        requires
            rr == r * r,
    ;
    assert(ss >= 0) by (nonlinear_arith)
        requires
            ss == s * s,
    ;
    assert(2 * s * (r * taxi) == 2 * (s * (r * taxi))) by (nonlinear_arith);
}

/// The rounding error of the division of a component of the offset of the
/// hit point by the radius.
proof fn lemma_radius_division(x: Fixed, radius: Fixed) -> (e: int)
    requires
        radius.raw >= 0x40_0000,
        magnitude(x.raw as int) <= 0x8_0000_0000_0000,
    ensures
        x.raw * ONE_RAW == x.div(radius).raw * radius.raw + e,
        magnitude(e) <= radius.raw,
{
    let s = ONE_RAW as int;
    let r = radius.raw as int;
    let n = x.raw * s;
    lemma_product_sign(x.raw as int, s);
    lemma_quot_bounds(n, r);
    let q = quot(n, r);
    lemma_product_sign(q, r);
    assert(magnitude(q) <= 0x2000_0000_0000_0000) by (nonlinear_arith)
        requires
            magnitude(q) * r <= magnitude(x.raw as int) * s,
            magnitude(x.raw as int) <= 0x8_0000_0000_0000,
            r >= 0x40_0000,
            s == 0x1_0000_0000,
            magnitude(q) >= 0,
    ;
    n - q * r
}

/// Squaring `p s = n r + e`.
proof fn lemma_scaled_square(s: int, r: int, p: int, n: int, e: int)
    requires
        p * s == n * r + e,
    ensures
        (r * r) * (n * n) == (s * s) * (p * p) - 2 * (s * (p * e)) + e * e,
{
    let ps = p * s;
    let nr = n * r;
    assert(nr == ps - e);
    lemma_binomial(ps, -e);
    assert(ps * (-e) == -(ps * e)) by (nonlinear_arith);
    assert((-e) * (-e) == e * e) by (nonlinear_arith);
    lemma_swap_middle(n, r, n, r);
    lemma_swap_middle(p, s, p, s);
    assert((n * n) * (r * r) == (r * r) * (n * n)) by (nonlinear_arith);
    assert((p * p) * (s * s) == (s * s) * (p * p)) by (nonlinear_arith);
    assert(ps * e == s * (p * e)) by (nonlinear_arith)
        requires
            ps == p * s,
    ;
}

/// `u` has length one up to `2^-16`.
pub open spec fn nearly_unit(u: Vec3) -> bool {
    moderate(u) && ONE_RAW - 0x1_0000 <= u.length().raw <= ONE_RAW + 0x1_0000
}

/// The square of `s v - n k`.
proof fn lemma_mirror_component(s: int, v: int, n: int, k: int)
    ensures
        (s * v - n * k) * (s * v - n * k) == (s * s) * (v * v) - 2 * ((s * k) * (v * n)) + (k * k)
            * (n * n),
{
    let sv = s * v;
    let nk = n * k;
    lemma_binomial(sv, -nk);
    assert(sv * (-nk) == -(sv * nk)) by (nonlinear_arith);
    assert((-nk) * (-nk) == nk * nk) by (nonlinear_arith);
    lemma_swap_middle(s, v, s, v);
    lemma_swap_middle(n, k, n, k);
    assert((n * n) * (k * k) == (k * k) * (n * n)) by (nonlinear_arith);
    lemma_swap_middle(s, v, n, k);
    assert((s * n) * (v * k) == (s * k) * (v * n)) by {
        lemma_swap_middle(s, n, v, k);
        lemma_swap_middle(s, k, v, n);
        assert((s * v) * (n * k) == (s * v) * (k * n)) by (nonlinear_arith);
    }
}

/// What goes into the squared length of a mirror image: the factor
/// `k = 2 (v . n)`, the rounding error `e` of the inner product, and the
/// contributions `cross` and `squares` of the rounding of `n k`.
struct MirrorTerms {
    k: int,
    e: int,
    cross: int,
    squares: int,
}

/// The squared length of a mirror image, multiplied out.  For `v` and `n`
/// with components of magnitude at most `1 + 2^-16`, the image
/// `m = v - n k` with `k = 2 (v . n)` satisfies
/// `s^2 |m|^2 = s^2 |v|^2 + k^2 (|n|^2 - s^2) - 2 s k e + cross + squares`
/// in raw units, where `s = 2^32`.
proof fn lemma_mirror_expansion(v: Vec3, n: Vec3) -> (r: MirrorTerms)
    requires
        within_box(v, 0x1_0001_0000),
        within_box(n, 0x1_0001_0000),
    ensures
        r.k == 2 * v.dot(n).raw,
        r.k == Fixed::from_int(2).mul(v.dot(n)).raw,
        magnitude(r.k) <= 0x6_000c_0006,
        v.x.raw * n.x.raw + v.y.raw * n.y.raw + v.z.raw * n.z.raw == v.dot(n).raw * ONE_RAW + r.e,
        -3 * ONE_RAW < r.e < 3 * ONE_RAW,
        within_box(n.scale(Fixed::from_int(2).mul(v.dot(n))), 0x6_0013_0000),
        moderate(spec_mirror(v, n)),
        within_box(spec_mirror(v, n), 0x7_0014_0000),
        (ONE_RAW * ONE_RAW) * raw_square_sum(spec_mirror(v, n)) == (ONE_RAW * ONE_RAW)
            * raw_square_sum(v) + (r.k * r.k) * (raw_square_sum(n) - ONE_RAW * ONE_RAW) - 2 * ((
        ONE_RAW * r.k) * r.e) + r.cross + r.squares,
        magnitude(r.cross) <= 0x2b_0000_0000_0000_0000_0000_0000,
        0 <= r.squares <= 3 * (ONE_RAW * ONE_RAW),
{
    let s = ONE_RAW as int;
    let bound = 0x1_0001_0000int;
    let big_v = raw_square_sum(v);
    let big_n = raw_square_sum(n);
    let e = lemma_dot_error(v, n, bound, bound);
    let df = v.dot(n);
    let d = df.raw as int;
    let sum_vn = v.x.raw * n.x.raw + v.y.raw * n.y.raw + v.z.raw * n.z.raw;
    let d_max = 0x3_0006_0003int;
    assert(magnitude(d) <= d_max);
    lemma_mul_whole(df, 2);
    let kf = Fixed::from_int(2).mul(df);
    let k = kf.raw as int;
    assert(d * 2 == 2 * d) by (nonlinear_arith);
    assert(k == 2 * d);
    let k_max = 2 * d_max;
    lemma_bounded_product(n.x.raw as int, k, bound, k_max);
    lemma_bounded_product(n.y.raw as int, k, bound, k_max);
    lemma_bounded_product(n.z.raw as int, k, bound, k_max);
    let ex = lemma_mul_error(n.x, kf);
    let ey = lemma_mul_error(n.y, kf);
    let ez = lemma_mul_error(n.z, kf);
    let w = n.scale(kf);
    let m = spec_mirror(v, n);
    let w_max = 0x6_0013_0000int;
    assert(magnitude(w.x.raw as int) <= w_max && magnitude(w.y.raw as int) <= w_max && magnitude(
        w.z.raw as int,
    ) <= w_max);
    assert(m.x.raw == v.x.raw - w.x.raw && m.y.raw == v.y.raw - w.y.raw && m.z.raw == v.z.raw
        - w.z.raw);
    // s m_i = u_i + e_i with u_i = s v_i - n_i k
    let ux = s * v.x.raw - n.x.raw * k;
    let uy = s * v.y.raw - n.y.raw * k;
    let uz = s * v.z.raw - n.z.raw * k;
    assert(s * m.x.raw == ux + ex && s * m.y.raw == uy + ey && s * m.z.raw == uz + ez)
        by (nonlinear_arith)
        requires
            m.x.raw == v.x.raw - w.x.raw,
            m.y.raw == v.y.raw - w.y.raw,
            m.z.raw == v.z.raw - w.z.raw,
            n.x.raw * k == w.x.raw * s + ex,
            n.y.raw * k == w.y.raw * s + ey,
            n.z.raw * k == w.z.raw * s + ez,
            ux == s * v.x.raw - n.x.raw * k,
            uy == s * v.y.raw - n.y.raw * k,
            uz == s * v.z.raw - n.z.raw * k,
    ;
    // the sum of the squares of the u_i
    lemma_mirror_component(s, v.x.raw as int, n.x.raw as int, k);
    lemma_mirror_component(s, v.y.raw as int, n.y.raw as int, k);
    lemma_mirror_component(s, v.z.raw as int, n.z.raw as int, k);
    let ss = s * s;
    let sk = s * k;
    let kk = k * k;
    let sum_u = ux * ux + uy * uy + uz * uz;
    assert(ss * big_v == ss * (v.x.raw * v.x.raw) + ss * (v.y.raw * v.y.raw) + ss * (v.z.raw
        * v.z.raw)) by (nonlinear_arith)
        requires
            big_v == v.x.raw * v.x.raw + v.y.raw * v.y.raw + v.z.raw * v.z.raw,
    ;
    assert(sk * sum_vn == sk * (v.x.raw * n.x.raw) + sk * (v.y.raw * n.y.raw) + sk * (v.z.raw
        * n.z.raw)) by (nonlinear_arith)
        requires
            sum_vn == v.x.raw * n.x.raw + v.y.raw * n.y.raw + v.z.raw * n.z.raw,
    ;
    assert(kk * big_n == kk * (n.x.raw * n.x.raw) + kk * (n.y.raw * n.y.raw) + kk * (n.z.raw
        * n.z.raw)) by (nonlinear_arith)
        requires
            big_n == n.x.raw * n.x.raw + n.y.raw * n.y.raw + n.z.raw * n.z.raw,
    ;
    assert(sum_u == ss * big_v - 2 * (sk * sum_vn) + kk * big_n);
    assert(2 * (sk * sum_vn) == ss * kk + 2 * (sk * e)) by (nonlinear_arith)
        requires
            sum_vn == d * s + e,
            k == 2 * d,
            sk == s * k,
            ss == s * s,
            kk == k * k,
    ;
    assert(sum_u == ss * big_v + kk * (big_n - ss) - 2 * (sk * e)) by (nonlinear_arith)
        requires
            sum_u == ss * big_v - 2 * (sk * sum_vn) + kk * big_n,
            2 * (sk * sum_vn) == ss * kk + 2 * (sk * e),
    ;
    // from the u_i to the s m_i
    let u_max = s * bound + bound * k_max;
    lemma_bounded_product(s, v.x.raw as int, s, bound);
    lemma_bounded_product(s, v.y.raw as int, s, bound);
    lemma_bounded_product(s, v.z.raw as int, s, bound);
    assert(magnitude(ux) <= u_max && magnitude(uy) <= u_max && magnitude(uz) <= u_max);
    lemma_bounded_product(ux, ex, u_max, s);
    lemma_bounded_product(uy, ey, u_max, s);
    lemma_bounded_product(uz, ez, u_max, s);
    let mx = m.x.raw as int;
    let my = m.y.raw as int;
    let mz = m.z.raw as int;
    lemma_binomial(ux, ex);
    lemma_binomial(uy, ey);
    lemma_binomial(uz, ez);
    lemma_swap_middle(s, mx, s, mx);
    lemma_swap_middle(s, my, s, my);
    lemma_swap_middle(s, mz, s, mz);
    lemma_bounded_product(ex, ex, s, s);
    lemma_bounded_product(ey, ey, s, s);
    lemma_bounded_product(ez, ez, s, s);
    assert(ex * ex >= 0 && ey * ey >= 0 && ez * ez >= 0) by (nonlinear_arith);
    let big_m = raw_square_sum(m);
    assert(ss * big_m == ss * (mx * mx) + ss * (my * my) + ss * (mz * mz)) by (nonlinear_arith)
        requires
            big_m == mx * mx + my * my + mz * mz,
    ;
    let cross = 2 * (ux * ex) + 2 * (uy * ey) + 2 * (uz * ez);
    let squares = ex * ex + ey * ey + ez * ez;
    assert(ss * big_m == sum_u + cross + squares);
    assert(6 * (u_max * s) <= 0x2b_0000_0000_0000_0000_0000_0000) by (nonlinear_arith)
        requires
            u_max == s * bound + bound * k_max,
            s == 0x1_0000_0000,
            bound == 0x1_0001_0000,
            k_max == 0x6_000c_0006,
    ;
    MirrorTerms { k, e, cross, squares }
}

/// The mirror image of a vector of nearly unit length in a mirror with a
/// normal of nearly unit length is moderate and at least half a unit long.
proof fn lemma_mirror_is_long(v: Vec3, n: Vec3)
    requires
        nearly_unit(v),
        nearly_unit(n),
    ensures
        moderate(spec_mirror(v, n)),
        spec_mirror(v, n).length().raw > 0x8000_0000,
{
    let s = ONE_RAW as int;
    lemma_length_is_root(v);
    lemma_length_is_root(n);
    let lv = v.length().raw as int;
    let ln = n.length().raw as int;
    let big_v = raw_square_sum(v);
    let big_n = raw_square_sum(n);
    let r = lemma_mirror_expansion(v, n);
    let m = spec_mirror(v, n);
    let big_m = raw_square_sum(m);
    let ss = s * s;
    let kk = r.k * r.k;
    let low = 0xffff_0000int;
    assert(big_v >= low * low && big_n >= low * low) by (nonlinear_arith)
        requires
            lv >= low,
            ln >= low,
            lv * lv <= big_v,
            ln * ln <= big_n,
            low >= 0,
    ;
    assert(low * low == 0xfffe_0001_0000_0000 && s * s == 0x1_0000_0000_0000_0000)
        by (nonlinear_arith)
        requires
            low == 0xffff_0000,
            s == 0x1_0000_0000,
    ;
    let gap = 0x2_0000_0000_0000int;
    let k_max = 0x6_000c_0006int;
    lemma_product_sign(r.k, r.k);
    lemma_bounded_product(r.k, r.k, k_max, k_max);
    assert(kk * (big_n - ss) >= -((k_max * k_max) * gap)) by (nonlinear_arith)
        requires
            0 <= kk <= k_max * k_max,
            big_n - ss >= -gap,
            gap >= 0,
    ;
    lemma_product_sign(s, r.k);
    lemma_bounded_product(s, r.k, s, k_max);
    lemma_bounded_product(s * r.k, r.e, s * k_max, 3 * s);
    assert(ss * big_v >= ss * (low * low)) by (nonlinear_arith)
        requires
            big_v >= low * low,
            ss >= 0,
    ;
    let half = 0x8000_0001int;
    assert(ss * big_m >= ss * (half * half)) by (nonlinear_arith)
        requires
            ss * big_m >= ss * (low * low) - (k_max * k_max) * gap - 2 * ((s * k_max) * (3 * s))
                - 0x2b_0000_0000_0000_0000_0000_0000,
            ss == s * s,
            s == 0x1_0000_0000,
            low == 0xffff_0000,
            k_max == 0x6_000c_0006,
            gap == 0x2_0000_0000_0000,
            half == 0x8000_0001,
    ;
    assert(big_m >= half * half) by (nonlinear_arith)
        requires
            ss * big_m >= ss * (half * half),
            ss > 0,
    ;
    let lm = m.length().raw as int;
    lemma_length_is_root(m);
    assert(lm >= half) by (nonlinear_arith)
        requires
            big_m < (lm + 1) * (lm + 1),
            big_m >= half * half,
            lm >= 0,
            half >= 0,
    ;
}

/// A reflected direction has unit length, up to rounding.  For a direction
/// and a normal that have length one up to `2^-16`, the length of
/// `reflect(v, n)` lies between `1 - 4 / 2^32` and `1 + 2 / 2^32`.
pub proof fn lemma_reflection_has_unit_length(v: Vec3, n: Vec3)
    requires
        nearly_unit(v),
        nearly_unit(n),
    ensures
        ONE_RAW - 4 <= spec_reflect(v, n).length().raw <= ONE_RAW + 2,
{
    lemma_mirror_is_long(v, n);
    let m = spec_mirror(v, n);
    lemma_normalize_has_unit_length(m);
    let lm = m.length().raw as int;
    assert(ONE_RAW as int / lm <= 1) by (nonlinear_arith)
        requires
            lm > 0x8000_0000,
    ;
}

/// The exact vector product of two vectors of raw values.
pub open spec fn raw_cross(u: (int, int, int), v: (int, int, int)) -> (int, int, int) {
    (u.1 * v.2 - u.2 * v.1, u.2 * v.0 - u.0 * v.2, u.0 * v.1 - u.1 * v.0)
}

/// The exact inner product of two vectors of raw values.
pub open spec fn raw_dot(u: (int, int, int), v: (int, int, int)) -> int {
    u.0 * v.0 + u.1 * v.1 + u.2 * v.2
}

/// The raw values of the components of a vector.
pub open spec fn raw_of(v: Vec3) -> (int, int, int) {
    (v.x.raw as int, v.y.raw as int, v.z.raw as int)
}

/// `x (p - q) = x p - x q`, and the three factors of a product commute.
proof fn lemma_term(x: int, p: int, q: int)
    ensures
        x * (p * q) == p * (q * x),
        x * (p * q) == q * (x * p),
        x * (p - q) == x * p - x * q,
{
    assert(x * (p * q) == p * (q * x)) by (nonlinear_arith);
    assert(x * (p * q) == q * (x * p)) by (nonlinear_arith);
    assert(x * (p - q) == x * p - x * q) by (nonlinear_arith);
}

/// The triple product does not change when its factors are rotated:
/// `a . (b x c) = b . (c x a)`.
proof fn lemma_triple_product_rotates(a: (int, int, int), b: (int, int, int), c: (int, int, int))
    ensures
        raw_dot(a, raw_cross(b, c)) == raw_dot(b, raw_cross(c, a)),
{
    lemma_term(a.0, b.1 * c.2, b.2 * c.1);
    lemma_term(a.1, b.2 * c.0, b.0 * c.2);
    lemma_term(a.2, b.0 * c.1, b.1 * c.0);
    lemma_term(b.0, c.1 * a.2, c.2 * a.1);
    lemma_term(b.1, c.2 * a.0, c.0 * a.2);
    lemma_term(b.2, c.0 * a.1, c.1 * a.0);
    lemma_term(a.0, b.1, c.2);
    lemma_term(a.0, b.2, c.1);
    lemma_term(a.1, b.2, c.0);
    lemma_term(a.1, b.0, c.2);
    lemma_term(a.2, b.0, c.1);
    lemma_term(a.2, b.1, c.0);
    lemma_term(b.0, c.1, a.2);
    lemma_term(b.0, c.2, a.1);
    lemma_term(b.1, c.2, a.0);
    lemma_term(b.1, c.0, a.2);
    lemma_term(b.2, c.0, a.1);
    lemma_term(b.2, c.1, a.0);
}

/// Exchanging the factors of a vector product changes its sign.
proof fn lemma_cross_anticommutes(a: (int, int, int), b: (int, int, int), c: (int, int, int))
    ensures
        raw_dot(a, raw_cross(b, c)) == -raw_dot(a, raw_cross(c, b)),
{
    lemma_term(a.0, b.1 * c.2, b.2 * c.1);
    lemma_term(a.1, b.2 * c.0, b.0 * c.2);
    lemma_term(a.2, b.0 * c.1, b.1 * c.0);
    lemma_term(a.0, c.1 * b.2, c.2 * b.1);
    lemma_term(a.1, c.2 * b.0, c.0 * b.2);
    lemma_term(a.2, c.0 * b.1, c.1 * b.0);
    assert(b.1 * c.2 == c.2 * b.1 && b.2 * c.1 == c.1 * b.2 && b.2 * c.0 == c.0 * b.2 && b.0
        * c.2 == c.2 * b.0 && b.0 * c.1 == c.1 * b.0 && b.1 * c.0 == c.0 * b.1)
        by (nonlinear_arith);
}

/// The rounding error of a vector product that does not saturate: every
/// exact component is the computed component times `2^32` plus an error of
/// magnitude below `2^33`.
proof fn lemma_cross_error(u: Vec3, v: Vec3, bu: int, bv: int) -> (e: (int, int, int))
    requires
        within_box(u, bu),
        within_box(v, bv),
        0 <= bu,
        0 <= bv,
        bu * bv <= 0x1000_0000_0000_0000_0000_0000,
    ensures
        raw_cross(raw_of(u), raw_of(v)).0 == u.cross(v).x.raw * ONE_RAW + e.0,
        raw_cross(raw_of(u), raw_of(v)).1 == u.cross(v).y.raw * ONE_RAW + e.1,
        raw_cross(raw_of(u), raw_of(v)).2 == u.cross(v).z.raw * ONE_RAW + e.2,
        -2 * ONE_RAW < e.0 < 2 * ONE_RAW,
        -2 * ONE_RAW < e.1 < 2 * ONE_RAW,
        -2 * ONE_RAW < e.2 < 2 * ONE_RAW,
        magnitude(u.cross(v).x.raw as int) * ONE_RAW <= 2 * (bu * bv),
        magnitude(u.cross(v).y.raw as int) * ONE_RAW <= 2 * (bu * bv),
        magnitude(u.cross(v).z.raw as int) * ONE_RAW <= 2 * (bu * bv),
{
    lemma_bounded_product(u.x.raw as int, v.y.raw as int, bu, bv);
    lemma_bounded_product(u.x.raw as int, v.z.raw as int, bu, bv);
    lemma_bounded_product(u.y.raw as int, v.x.raw as int, bu, bv);
    lemma_bounded_product(u.y.raw as int, v.z.raw as int, bu, bv);
    lemma_bounded_product(u.z.raw as int, v.x.raw as int, bu, bv);
    lemma_bounded_product(u.z.raw as int, v.y.raw as int, bu, bv);
    let e_yz = lemma_mul_error(u.y, v.z);
    let e_zy = lemma_mul_error(u.z, v.y);
    let e_zx = lemma_mul_error(u.z, v.x);
    let e_xz = lemma_mul_error(u.x, v.z);
    let e_xy = lemma_mul_error(u.x, v.y);
    let e_yx = lemma_mul_error(u.y, v.x);
    (e_yz - e_zy, e_zx - e_xz, e_xy - e_yx)
}

/// The rounding error of an inner product whose factors have different
/// bounds on their components.
proof fn lemma_inner_error(u: Vec3, v: Vec3, bu: int, bv: int) -> (e: int)
    requires
        within_box(u, bu),
        within_box(v, bv),
        0 <= bu,
        0 <= bv,
        bu * bv <= 0x1000_0000_0000_0000_0000_0000,
    ensures
        raw_dot(raw_of(u), raw_of(v)) == u.dot(v).raw * ONE_RAW + e,
        -3 * ONE_RAW < e < 3 * ONE_RAW,
        magnitude(u.dot(v).raw as int) * ONE_RAW <= 3 * (bu * bv),
{
    lemma_dot_error(u, v, bu, bv)
}

/// A triangle and a ray of moderate size: the corners and the origin of
/// the ray lie within 256 of the origin along every axis, and the
/// components of the direction are at most 2.
pub open spec fn moderate_triangle_pair(triangle: &Triangle, ray: &Ray) -> bool {
    &&& within_box(ray.origin, 0x100_0000_0000)
    &&& within_box(triangle.vertices[0], 0x100_0000_0000)
    &&& within_box(triangle.vertices[1], 0x100_0000_0000)
    &&& within_box(triangle.vertices[2], 0x100_0000_0000)
    &&& within_box(ray.direction, 0x2_0000_0000)
}

/// The sum of the magnitudes of the components.
pub open spec fn raw_taxicab(v: (int, int, int)) -> int {
    magnitude(v.0) + magnitude(v.1) + magnitude(v.2)
}

/// The exact normal of the plane of a triangle, not normalized: the vector
/// product of the edges, in squared raw units.
pub open spec fn raw_plane_normal(triangle: &Triangle) -> (int, int, int) {
    raw_cross(raw_of(triangle.edge1()), raw_of(triangle.edge2()))
}

/// How far the inner product of the exact plane normal with the offset of a
/// reported hit from the first corner may be from zero, in cubed raw units.
/// With the distance `t`, the determinant `a`, the edges `e1` and `e2` and
/// the exact normal `n` (all as real numbers, sums over the components),
/// this stands for
/// `(2 sum |e2| + 3 + |a| + 2 |t| sum |e1| + 3 |t| + sum |n|) / 2^32`.
pub open spec fn plane_tolerance(triangle: &Triangle, ray: &Ray, distance: Fixed) -> int {
    2 * ONE_RAW * raw_taxicab(raw_of(triangle.edge2())) + 3 * (ONE_RAW * ONE_RAW) + magnitude(
        triangle.determinant(ray).raw as int,
    ) * ONE_RAW + 2 * magnitude(distance.raw as int) * raw_taxicab(raw_of(triangle.edge1())) + 3
        * magnitude(distance.raw as int) * ONE_RAW + raw_taxicab(raw_plane_normal(triangle))
}

/// A sum of three products of bounded factors.
proof fn lemma_bounded_sum(u: (int, int, int), e: (int, int, int), bound: int)
    requires
        magnitude(e.0) <= bound,
        magnitude(e.1) <= bound,
        magnitude(e.2) <= bound,
    ensures
        magnitude(raw_dot(u, e)) <= raw_taxicab(u) * bound,
{
    lemma_bounded_product(u.0, e.0, magnitude(u.0), bound);
    lemma_bounded_product(u.1, e.1, magnitude(u.1), bound);
    lemma_bounded_product(u.2, e.2, magnitude(u.2), bound);
    assert(raw_taxicab(u) * bound == magnitude(u.0) * bound + magnitude(u.1) * bound + magnitude(
        u.2,
    ) * bound) by (nonlinear_arith)
        requires
            raw_taxicab(u) == magnitude(u.0) + magnitude(u.1) + magnitude(u.2),
    ;
}

/// `u . (s v + e) = s (u . v) + u . e`, componentwise.
proof fn lemma_dot_splits(
    u: (int, int, int),
    v: (int, int, int),
    e: (int, int, int),
    w: (int, int, int),
    s: int,
)
    requires
        w.0 == v.0 * s + e.0,
        w.1 == v.1 * s + e.1,
        w.2 == v.2 * s + e.2,
    ensures
        raw_dot(u, w) == raw_dot(u, v) * s + raw_dot(u, e),
{
    assert(u.0 * w.0 == (u.0 * v.0) * s + u.0 * e.0) by (nonlinear_arith)
        requires
            w.0 == v.0 * s + e.0,
    ;
    assert(u.1 * w.1 == (u.1 * v.1) * s + u.1 * e.1) by (nonlinear_arith)
        requires
            w.1 == v.1 * s + e.1,
    ;
    assert(u.2 * w.2 == (u.2 * v.2) * s + u.2 * e.2) by (nonlinear_arith)
        requires
            w.2 == v.2 * s + e.2,
    ;
    assert(raw_dot(u, v) * s == (u.0 * v.0) * s + (u.1 * v.1) * s + (u.2 * v.2) * s)
        by (nonlinear_arith)
        requires
            raw_dot(u, v) == u.0 * v.0 + u.1 * v.1 + u.2 * v.2,
    ;
}

/// `s (u . v) = (s u) . v`, written out.
proof fn lemma_scaled_dot(s: int, u: (int, int, int), v: (int, int, int))
    ensures
        s * raw_dot(u, v) == (s * u.0) * v.0 + (s * u.1) * v.1 + (s * u.2) * v.2,
{
    let (x0, x1, x2) = (u.0 * v.0, u.1 * v.1, u.2 * v.2);
    assert(s * (x0 + x1 + x2) == s * x0 + s * x1 + s * x2) by (nonlinear_arith);
    let (a0, a1, a2) = (u.0, u.1, u.2);
    let (b0, b1, b2) = (v.0, v.1, v.2);
    assert(s * (a0 * b0) == (s * a0) * b0) by (nonlinear_arith);
    assert(s * (a1 * b1) == (s * a1) * b1) by (nonlinear_arith);
    assert(s * (a2 * b2) == (s * a2) * b2) by (nonlinear_arith);
}

/// The inner product of the plane normal with the offset of the hit point,
/// in terms of the rounding errors.
proof fn lemma_plane_identity(
    s: int,
    ro: (int, int, int),
    rd: (int, int, int),
    rp: (int, int, int),
    td: (int, int, int),
    ep: (int, int, int),
    normal: (int, int, int),
    t: int,
    num: int,
    a0: int,
    en: int,
    ea: int,
    rn: int,
    ra: int,
    et: int,
)
    requires
        rp.0 == ro.0 + td.0,
        rp.1 == ro.1 + td.1,
        rp.2 == ro.2 + td.2,
        rd.0 * t == td.0 * s + ep.0,
        rd.1 * t == td.1 * s + ep.1,
        rd.2 * t == td.2 * s + ep.2,
        raw_dot(ro, normal) == (num * s + en) * s + rn,
        -raw_dot(rd, normal) == (a0 * s + ea) * s + ra,
        et == num * s - t * a0,
    ensures
        s * raw_dot(rp, normal) == s * rn + en * (s * s) + et * (s * s) - t * ra - (t * ea) * s
            - raw_dot(ep, normal),
{
    let ss = s * s;
    let target = raw_dot(rp, normal);
    let on = raw_dot(ro, normal);
    let dn = raw_dot(rd, normal);
    let epn = raw_dot(ep, normal);
    let (n0, n1, n2) = (normal.0, normal.1, normal.2);
    lemma_scaled_dot(s, rp, normal);
    lemma_scaled_dot(s, ro, normal);
    lemma_scaled_dot(t, rd, normal);
    let (p0, p1, p2) = (rp.0, rp.1, rp.2);
    let (o0, o1, o2) = (ro.0, ro.1, ro.2);
    let (d0, d1, d2) = (rd.0, rd.1, rd.2);
    let (t0, t1, t2) = (td.0, td.1, td.2);
    let (e0, e1, e2) = (ep.0, ep.1, ep.2);
    assert(s * p0 == s * o0 + t * d0 - e0) by (nonlinear_arith)
        requires
            p0 == o0 + t0,
            d0 * t == t0 * s + e0,
    ;
    assert(s * p1 == s * o1 + t * d1 - e1) by (nonlinear_arith)
        requires
            p1 == o1 + t1,
            d1 * t == t1 * s + e1,
    ;
    assert(s * p2 == s * o2 + t * d2 - e2) by (nonlinear_arith)
        requires
            p2 == o2 + t2,
            d2 * t == t2 * s + e2,
    ;
    let (so0, so1, so2) = (s * o0, s * o1, s * o2);
    let (td0, td1, td2) = (t * d0, t * d1, t * d2);
    assert((so0 + td0 - e0) * n0 == so0 * n0 + td0 * n0 - e0 * n0) by (nonlinear_arith);
    assert((so1 + td1 - e1) * n1 == so1 * n1 + td1 * n1 - e1 * n1) by (nonlinear_arith);
    assert((so2 + td2 - e2) * n2 == so2 * n2 + td2 * n2 - e2 * n2) by (nonlinear_arith);
    assert(s * target == s * on + t * dn - epn);
    // s (off . n) and t (d . n)
    let x = num * s;
    let y = t * a0;
    let xe = x + en;
    assert(on == xe * s + rn);
    assert(s * on == xe * ss + s * rn) by (nonlinear_arith)
        requires
            on == xe * s + rn,
            ss == s * s,
    ;
    assert(xe * ss == x * ss + en * ss) by (nonlinear_arith)
        requires
            xe == x + en,
    ;
    let ae = a0 * s + ea;
    let minus_dn = -dn;
    assert(minus_dn == ae * s + ra);
    assert(t * minus_dn == (t * ae) * s + t * ra) by (nonlinear_arith)
        requires
            minus_dn == ae * s + ra,
    ;
    assert(t * ae == y * s + t * ea) by (nonlinear_arith)
        requires
            ae == a0 * s + ea,
            y == t * a0,
    ;
    let tea = t * ea;
    assert((y * s + tea) * s == y * ss + tea * s) by (nonlinear_arith)
        requires
            ss == s * s,
    ;
    assert(t * dn == -(t * minus_dn)) by (nonlinear_arith)
        requires
            minus_dn == -dn,
    ;
    assert(x * ss - y * ss == et * ss) by (nonlinear_arith)
        requires
            et == x - y,
    ;
}

/// From the identity and the bounds on the errors to the bound on the
/// inner product.
proof fn lemma_plane_bound(
    s: int,
    target: int,
    rn: int,
    en: int,
    et: int,
    t: int,
    ra: int,
    ea: int,
    epn: int,
    taxi1: int,
    taxi2: int,
    taxin: int,
    ma: int,
)
    requires
        s > 0,
        s * target == s * rn + en * (s * s) + et * (s * s) - t * ra - (t * ea) * s - epn,
        magnitude(rn) <= taxi2 * (2 * s),
        magnitude(ra) <= taxi1 * (2 * s),
        magnitude(epn) <= taxin * s,
        -3 * s < en < 3 * s,
        -3 * s < ea < 3 * s,
        magnitude(et) <= ma,
    ensures
        magnitude(target) <= 2 * s * taxi2 + 3 * (s * s) + ma * s + 2 * magnitude(t) * taxi1 + 3
            * magnitude(t) * s + taxin,
{
    let ss = s * s;
    let mt = magnitude(t);
    assert(ss > 0) by (nonlinear_arith)
        requires
            ss == s * s,
            s > 0,
    ;
    lemma_bounded_product(s, rn, s, taxi2 * (2 * s));
    lemma_bounded_product(en, ss, 3 * s, ss);
    lemma_bounded_product(et, ss, ma, ss);
    lemma_bounded_product(t, ra, mt, taxi1 * (2 * s));
    lemma_bounded_product(t, ea, mt, 3 * s);
    lemma_bounded_product(t * ea, s, mt * (3 * s), s);
    let total = s * (taxi2 * (2 * s)) + (3 * s) * ss + ma * ss + mt * (taxi1 * (2 * s)) + (mt * (3
        * s)) * s + taxin * s;
    lemma_product_sign(s, target);
    assert(s * magnitude(target) <= total);
    let inner = 2 * s * taxi2 + 3 * ss + ma * s + 2 * mt * taxi1 + 3 * mt * s + taxin;
    let (p1, p2, p3, p4, p5) = (taxi2 * (2 * s), (3 * s) * ss, mt * (taxi1 * (2 * s)), (mt * (3
        * s)) * s, ma * ss);
    assert(s * p1 == s * (2 * s * taxi2)) by (nonlinear_arith)
        requires
            p1 == taxi2 * (2 * s),
    ;
    assert(p2 == s * (3 * ss)) by (nonlinear_arith)
        requires
            p2 == (3 * s) * ss,
    ;
    assert(p3 == s * (2 * mt * taxi1)) by (nonlinear_arith)
        requires
            p3 == mt * (taxi1 * (2 * s)),
    ;
    assert(p4 == s * (3 * mt * s)) by (nonlinear_arith)
        requires
            p4 == (mt * (3 * s)) * s,
    ;
    assert(p5 == s * (ma * s)) by (nonlinear_arith)
        requires
            p5 == ma * ss,
            ss == s * s,
    ;
    let (q1, q2, q3, q4, q5) = (2 * s * taxi2, 3 * ss, 2 * mt * taxi1, 3 * mt * s, ma * s);
    assert(s * inner == s * q1 + s * q2 + s * q5 + s * q3 + s * q4 + s * taxin)
        by (nonlinear_arith)
        requires
            inner == q1 + q2 + q5 + q3 + q4 + taxin,
    ;
    assert(taxin * s == s * taxin) by (nonlinear_arith);
    assert(total == s * inner);
    let m = magnitude(target);
    assert(m <= inner) by (nonlinear_arith)
        requires
            s * m <= s * inner,
            s > 0,
    ;
}

/// A reported hit lies in the plane of the triangle, up to rounding.  For a
/// triangle and a ray of moderate size and a hit at a distance of at most
/// `2^18`, the inner product of the exact plane normal with the offset of
/// the hit point from the first corner stays within the tolerance.
pub proof fn lemma_hit_lies_in_plane(
    triangle: &Triangle,
    ray: &Ray,
    material: &Material,
    t_min: Fixed,
    t_max: Fixed,
)
    requires
        moderate_triangle_pair(triangle, ray),
        spec_intersects(triangle, ray, material, t_min, t_max) is Some,
        magnitude(triangle.plane_distance(ray).raw as int) <= 0x4_0000_0000_0000,
    ensures
        ({
            let h = spec_intersects(triangle, ray, material, t_min, t_max)->0;
            magnitude(
                raw_dot(raw_of(h.point.sub(triangle.vertices[0])), raw_plane_normal(triangle)),
            ) <= plane_tolerance(triangle, ray, h.distance)
        }),
{
    reveal(spec_intersects);
    let s = ONE_RAW as int;
    let v0 = triangle.vertices[0];
    let e1 = triangle.edge1();
    let e2 = triangle.edge2();
    let d = ray.direction;
    let off = ray.origin.sub(v0);
    let be = 0x200_0000_0000int;
    let bd = 0x2_0000_0000int;
    assert(within_box(e1, be) && within_box(e2, be) && within_box(off, be));
    let (r1, r2, rd, ro) = (raw_of(e1), raw_of(e2), raw_of(d), raw_of(off));
    let normal = raw_cross(r1, r2);
    // the determinant
    let h = d.cross(e2);
    let eh = lemma_cross_error(d, e2, bd, be);
    let bh = 0x1000_0000_0000int;
    assert(within_box(h, bh));
    let ea = lemma_inner_error(e1, h, be, bh);
    let a0 = triangle.determinant(ray).raw as int;
    let big_h = raw_cross(rd, r2);
    lemma_dot_splits(r1, raw_of(h), eh, big_h, s);
    let ra = raw_dot(r1, eh);
    assert(raw_dot(r1, big_h) == (a0 * s + ea) * s + ra);
    lemma_triple_product_rotates(r1, rd, r2);
    lemma_cross_anticommutes(rd, r2, r1);
    assert(-raw_dot(rd, normal) == (a0 * s + ea) * s + ra);
    // the numerator
    let q = off.cross(e1);
    let eq = lemma_cross_error(off, e1, be, be);
    let bq = 0x8_0000_0000_0000int;
    assert(within_box(q, bq));
    let en = lemma_inner_error(e2, q, be, bq);
    let num = e2.dot(q).raw as int;
    let big_q = raw_cross(ro, r1);
    lemma_dot_splits(r2, raw_of(q), eq, big_q, s);
    let rn = raw_dot(r2, eq);
    assert(raw_dot(r2, big_q) == (num * s + en) * s + rn);
    lemma_triple_product_rotates(r2, ro, r1);
    assert(raw_dot(ro, normal) == (num * s + en) * s + rn);
    // the distance
    let tf = triangle.plane_distance(ray);
    let t = tf.raw as int;
    lemma_parallel_bound_value();
    let et = lemma_plane_distance_error(triangle, ray);
    // the point
    lemma_bounded_product(d.x.raw as int, t, bd, 0x4_0000_0000_0000);
    lemma_bounded_product(d.y.raw as int, t, bd, 0x4_0000_0000_0000);
    lemma_bounded_product(d.z.raw as int, t, bd, 0x4_0000_0000_0000);
    let ex = lemma_mul_error(d.x, tf);
    let ey = lemma_mul_error(d.y, tf);
    let ez = lemma_mul_error(d.z, tf);
    let ep = (ex, ey, ez);
    let td = d.scale(tf);
    let p = ray.point_along(tf);
    let rp = raw_of(p.sub(v0));
    assert(rp.0 == ro.0 + td.x.raw && rp.1 == ro.1 + td.y.raw && rp.2 == ro.2 + td.z.raw);
    lemma_plane_identity(s, ro, rd, rp, raw_of(td), ep, normal, t, num, a0, en, ea, rn, ra, et);
    // the bounds
    lemma_bounded_sum(r1, eh, 2 * s);
    lemma_bounded_sum(r2, eq, 2 * s);
    lemma_bounded_sum(normal, ep, s);
    let epn = raw_dot(ep, normal);
    assert(epn == raw_dot(normal, ep)) by (nonlinear_arith)
        requires
            epn == ex * normal.0 + ey * normal.1 + ez * normal.2,
            raw_dot(normal, ep) == normal.0 * ex + normal.1 * ey + normal.2 * ez,
    ;
    lemma_plane_bound(
        s,
        raw_dot(rp, normal),
        rn,
        en,
        et,
        t,
        ra,
        ea,
        epn,
        raw_taxicab(r1),
        raw_taxicab(r2),
        raw_taxicab(normal),
        magnitude(a0),
    );
}

/// The rounding error of the distance to the plane: the numerator times
/// `2^32` is the distance times the determinant plus an error of smaller
/// magnitude than the determinant, when the distance does not saturate.
proof fn lemma_plane_distance_error(triangle: &Triangle, ray: &Ray) -> (et: int)
    requires
        triangle.determinant(ray).raw != 0,
        i64::MIN < triangle.plane_distance(ray).raw < i64::MAX,
    ensures
        et == triangle.edge2().dot(ray.origin.sub(triangle.vertices[0]).cross(triangle.edge1())).raw
            * ONE_RAW - triangle.plane_distance(ray).raw * triangle.determinant(ray).raw,
        magnitude(et) <= magnitude(triangle.determinant(ray).raw as int),
{
    let a0 = triangle.determinant(ray).raw as int;
    let num = triangle.edge2().dot(
        ray.origin.sub(triangle.vertices[0]).cross(triangle.edge1()),
    ).raw as int;
    let t = triangle.plane_distance(ray).raw as int;
    let n = num * ONE_RAW;
    let ma = magnitude(a0);
    let mn = magnitude(n);
    lemma_fundamental_quotient(mn, ma);
    let k = mn / ma;
    assert(magnitude(t) == k);
    lemma_product_sign(t, a0);
    assert(magnitude(t * a0) == k * ma);
    assert(mn - k * ma == mn % ma);
    n - t * a0
}

/// `n = d (n / d) + n % d` with `0 <= n % d < d`, for positive `d`.
proof fn lemma_fundamental_quotient(n: int, d: int)
    requires
        n >= 0,
        d > 0,
    ensures
        n == (n / d) * d + n % d,
        0 <= n % d < d,
        n / d >= 0,
{
    vstd::arithmetic::div_mod::lemma_fundamental_div_mod(n, d);
    vstd::arithmetic::div_mod::lemma_mod_bound(n, d);
    assert(n / d >= 0 && (n / d) * d == d * (n / d)) by (nonlinear_arith)
        requires
            n == d * (n / d) + n % d,
            0 <= n % d < d,
            n >= 0,
            d > 0,
    ;
}

/// Every component of `a` is within `k` raw units of that of `b`.
pub open spec fn close(a: Vec3, b: Vec3, k: int) -> bool {
    &&& magnitude(a.x.raw - b.x.raw) <= k
    &&& magnitude(a.y.raw - b.y.raw) <= k
    &&& magnitude(a.z.raw - b.z.raw) <= k
}

/// Normalizing one component of a vector whose length is one up to `c` raw
/// units moves the component by at most `c` raw units.
proof fn lemma_normalized_component_is_close(x: Fixed, len: Fixed, c: int)
    requires
        0 <= c <= 0x10_0000,
        ONE_RAW - c <= len.raw <= ONE_RAW + c,
        magnitude(x.raw as int) <= len.raw,
    ensures
        magnitude(x.div(len).raw - x.raw) <= c,
{
    let s = ONE_RAW as int;
    let l = len.raw as int;
    let m = magnitude(x.raw as int);
    let n = x.raw * s;
    lemma_product_sign(x.raw as int, s);
    lemma_quot_bounds(n, l);
    let q = quot(n, l);
    let mq = magnitude(q);
    let gap = s - l;
    assert(m * s == m * l + m * gap) by (nonlinear_arith)
        requires
            gap == s - l,
    ;
    assert(m * gap <= l * c && -(m * gap) <= l * c) by (nonlinear_arith)
        requires
            -c <= gap <= c,
            0 <= m <= l,
            c >= 0,
    ;
    assert(mq - m <= c) by (nonlinear_arith)
        requires
            mq * l <= m * l + l * c,
            l > 0,
    ;
    assert(m - mq <= c) by (nonlinear_arith)
        requires
            m * l - l * c < mq * l + l,
            l > 0,
    ;
    assert(x.div(len).raw == q);
}

/// Normalizing a vector whose length is one up to `c` raw units moves no
/// component by more than `c` raw units.
pub proof fn lemma_normalize_is_close(x: Vec3, c: int)
    requires
        moderate(x),
        0 <= c <= 0x10_0000,
        ONE_RAW - c <= x.length().raw <= ONE_RAW + c,
    ensures
        close(x.normalize(), x, c),
{
    lemma_length_is_root(x);
    lemma_normalized_component_is_close(x.x, x.length(), c);
    lemma_normalized_component_is_close(x.y, x.length(), c);
    lemma_normalized_component_is_close(x.z, x.length(), c);
}

/// Vectors whose components differ by at most `k` raw units have lengths
/// that differ by at most `3 k`.
pub proof fn lemma_close_vectors_have_close_lengths(x: Vec3, u: Vec3, k: int)
    requires
        moderate(x),
        moderate(u),
        0 <= k,
        close(x, u, k),
    ensures
        magnitude(x.length().raw - u.length().raw) <= 3 * k,
{
    lemma_length_is_root(x);
    lemma_length_is_root(u);
    lemma_length_grows_slowly(x, u, k);
    lemma_length_grows_slowly(u, x, k);
}

/// One half of `lemma_close_vectors_have_close_lengths`.
proof fn lemma_length_grows_slowly(x: Vec3, u: Vec3, k: int)
    requires
        moderate(x),
        moderate(u),
        0 <= k,
        close(x, u, k) || close(u, x, k),
    ensures
        x.length().raw <= u.length().raw + 3 * k,
{
    lemma_length_is_root(x);
    lemma_length_is_root(u);
    let lx = x.length().raw as int;
    let lu = u.length().raw as int;
    let (x0, x1, x2) = (x.x.raw as int, x.y.raw as int, x.z.raw as int);
    let (u0, u1, u2) = (u.x.raw as int, u.y.raw as int, u.z.raw as int);
    lemma_square_of_nearby(x0, u0, k, lu);
    lemma_square_of_nearby(x1, u1, k, lu);
    lemma_square_of_nearby(x2, u2, k, lu);
    let sum_x = raw_square_sum(x);
    let sum_u = raw_square_sum(u);
    assert(sum_x <= sum_u + 6 * (k * lu) + 3 * (k * k));
    let top = lu + 1 + 3 * k;
    assert(sum_x < top * top) by (nonlinear_arith)
        requires
            sum_x <= sum_u + 6 * (k * lu) + 3 * (k * k),
            sum_u < (lu + 1) * (lu + 1),
            top == lu + 1 + 3 * k,
            k >= 0,
            lu >= 0,
    ;
    assert(lx < top) by (nonlinear_arith)
        requires
            lx * lx <= sum_x,
            sum_x < top * top,
            lx >= 0,
            top >= 0,
    ;
}

/// `x^2 <= u^2 + 2 k l + k^2` when `|x - u| <= k` and `|u| <= l`.
proof fn lemma_square_of_nearby(x: int, u: int, k: int, l: int)
    requires
        magnitude(x - u) <= k,
        magnitude(u) <= l,
    ensures
        x * x <= u * u + 2 * (k * l) + k * k,
{
    let e = x - u;
    lemma_binomial(u, e);
    lemma_bounded_product(u, e, l, k);
    lemma_bounded_product(e, e, k, k);
    assert(l * k == k * l) by (nonlinear_arith);
}

/// The opposite of a vector of nearly unit length has the same length, and
/// its normalized form is close to it and has unit length up to rounding.
proof fn lemma_opposite_direction(n: Vec3)
    requires
        nearly_unit(n),
    ensures
        ({
            let d = n.invert();
            let uv = d.normalize();
            &&& d.x.raw == -n.x.raw && d.y.raw == -n.y.raw && d.z.raw == -n.z.raw
            &&& moderate(d)
            &&& d.length() == n.length()
            &&& raw_square_sum(d) == raw_square_sum(n)
            &&& close(uv, d, 0x1_0000)
            &&& ONE_RAW - 4 <= uv.length().raw <= ONE_RAW + 2
            &&& within_box(uv, 0x1_0002_0000)
            &&& within_box(n, 0x1_0001_0000)
            &&& moderate(uv)
        }),
{
    let d = n.invert();
    assert((-n.x.raw) * (-n.x.raw) == n.x.raw * n.x.raw && (-n.y.raw) * (-n.y.raw) == n.y.raw
        * n.y.raw && (-n.z.raw) * (-n.z.raw) == n.z.raw * n.z.raw) by (nonlinear_arith);
    lemma_length_is_root(n);
    lemma_length_is_root(d);
    lemma_normalize_has_unit_length(d);
    let l = d.length().raw as int;
    assert(ONE_RAW as int / l <= 1) by (nonlinear_arith)
        requires
            l > 0x8000_0000,
    ;
    lemma_normalize_is_close(d, 0x1_0000);
}

/// The inner product of the normalized direction of a ray that meets a
/// surface head-on with the normal is minus one, up to `2^-13`.
proof fn lemma_head_on_inner_product(n: Vec3)
    requires
        nearly_unit(n),
    ensures
        ({
            let dt = n.invert().normalize().dot(n);
            -ONE_RAW - 0x8_0000 <= dt.raw <= -ONE_RAW + 0x8_0000
        }),
{
    let s = ONE_RAW as int;
    let delta = 0x1_0000int;
    let d = n.invert();
    let uv = d.normalize();
    lemma_opposite_direction(n);
    lemma_length_is_root(n);
    let l = n.length().raw as int;
    let big_n = raw_square_sum(n);
    let e = lemma_dot_error(uv, n, 0x1_0002_0000, 0x1_0001_0000);
    let dt = uv.dot(n).raw as int;
    let (n0, n1, n2) = (n.x.raw as int, n.y.raw as int, n.z.raw as int);
    let (w0, w1, w2) = (uv.x.raw as int, uv.y.raw as int, uv.z.raw as int);
    // uv_i = -n_i + eta_i
    lemma_product_near_square(w0, n0, delta, l);
    lemma_product_near_square(w1, n1, delta, l);
    lemma_product_near_square(w2, n2, delta, l);
    let sum = w0 * n0 + w1 * n1 + w2 * n2;
    assert(-big_n - 3 * (delta * l) <= sum <= -big_n + 3 * (delta * l));
    assert(-(s * s) - 0x7_0000 * s <= sum <= -(s * s) + 0x7_0000 * s) by (nonlinear_arith)
        requires
            -big_n - 3 * (delta * l) <= sum <= -big_n + 3 * (delta * l),
            l * l <= big_n,
            big_n < (l + 1) * (l + 1),
            s - delta <= l <= s + delta,
            delta == 0x1_0000,
            s == 0x1_0000_0000,
    ;
    assert(-s - 0x8_0000 <= dt <= -s + 0x8_0000) by (nonlinear_arith)
        requires
            sum == dt * s + e,
            -3 * s < e < 3 * s,
            -(s * s) - 0x7_0000 * s <= sum <= -(s * s) + 0x7_0000 * s,
            s == 0x1_0000_0000,
    ;
}

/// `w n` is within `k l` of `-n^2` when `w` is within `k` of `-n` and
/// `|n| <= l`.
proof fn lemma_product_near_square(w: int, n: int, k: int, l: int)
    requires
        magnitude(w + n) <= k,
        magnitude(n) <= l,
    ensures
        -(n * n) - k * l <= w * n <= -(n * n) + k * l,
{
    let eta = w + n;
    assert(w * n == eta * n - n * n) by (nonlinear_arith)
        requires
            eta == w + n,
    ;
    lemma_bounded_product(eta, n, k, l);
}

/// At a head-on hit with the index ratio one, Snell's discriminant is the
/// square of the inner product, and its root is the magnitude of the inner
/// product or one raw unit less.
proof fn lemma_head_on_discriminant(n: Vec3)
    requires
        nearly_unit(n),
    ensures
        ({
            let uv = n.invert().normalize();
            let dt = uv.dot(n);
            let disc = spec_refract_discriminant(uv, n, Fixed::one());
            &&& disc == dt.mul(dt)
            &&& disc.raw > 0
            &&& (disc.sqrt().raw == -dt.raw || disc.sqrt().raw == -dt.raw - 1)
        }),
{
    let s = ONE_RAW as int;
    let uv = n.invert().normalize();
    let dtf = uv.dot(n);
    let dt = dtf.raw as int;
    lemma_head_on_inner_product(n);
    let m = -dt;
    lemma_bounded_product(dt, dt, s + 0x8_0000, s + 0x8_0000);
    let e3 = lemma_mul_error(dtf, dtf);
    let sqf = dtf.mul(dtf);
    let sq = sqf.raw as int;
    assert(dt * dt == m * m) by (nonlinear_arith)
        requires
            m == -dt,
    ;
    assert(m * m >= 0) by (nonlinear_arith);
    let (low, high) = (s - 0x8_0000, s + 0x8_0000);
    assert(low * low <= m * m <= high * high) by (nonlinear_arith)
        requires
            0 <= low <= m <= high,
    ;
    assert(s - 0x10_0100 <= sq <= s + 0x10_0100) by (nonlinear_arith)
        requires
            m * m == sq * s + e3,
            0 <= e3 < s,
            low * low <= m * m <= high * high,
            low == 0xfff8_0000,
            high == 0x1_0008_0000,
            s == 0x1_0000_0000,
    ;
    let one = Fixed::one();
    lemma_mul_unit(one);
    lemma_mul_unit(one.sub(sqf));
    assert(spec_refract_discriminant(uv, n, one) == sqf);
    lemma_floor_sqrt_exists(sq * s);
    let root = crate::fixed::floor_sqrt(sq * s);
    assert(root <= m) by (nonlinear_arith)
        requires
            root * root <= sq * s,
            sq * s <= m * m,
            root >= 0,
            m >= 0,
    ;
    assert(root >= m - 1) by (nonlinear_arith)
        requires
            sq * s < (root + 1) * (root + 1),
            m * m == sq * s + e3,
            e3 < s,
            2 * m - 1 >= s,
            root >= 0,
            m >= 1,
    ;
    assert(sqf.sqrt().raw == root);
}

/// Multiplying by nearby factors gives nearby products: for `r = m - j`
/// with `j` zero or one, the rounded products `n m` of opposite sign and
/// `n r` cancel up to three raw units.
proof fn lemma_scaled_terms_cancel(n: Fixed, dt: Fixed, root: Fixed)
    requires
        magnitude(n.raw as int) <= 0x1_0001_0000,
        -ONE_RAW - 0x8_0000 <= dt.raw <= -ONE_RAW + 0x8_0000,
        root.raw == -dt.raw || root.raw == -dt.raw - 1,
    ensures
        magnitude(n.mul(dt).raw + n.mul(root).raw) <= 3,
        magnitude(n.mul(dt).raw as int) <= 0x1_0009_0010,
        magnitude(n.mul(root).raw as int) <= 0x1_0009_0010,
{
    let s = ONE_RAW as int;
    lemma_bounded_product(n.raw as int, dt.raw as int, 0x1_0001_0000, s + 0x8_0000);
    lemma_bounded_product(n.raw as int, root.raw as int, 0x1_0001_0000, s + 0x8_0000);
    let eg = lemma_mul_error(n, dt);
    let eh = lemma_mul_error(n, root);
    let g = n.mul(dt).raw as int;
    let h = n.mul(root).raw as int;
    let j = -dt.raw - root.raw;
    assert(n.raw * root.raw == -(n.raw * dt.raw) - j * n.raw) by (nonlinear_arith)
        requires
            root.raw == -dt.raw - j,
    ;
    assert(j == 0 || j == 1);
    assert(j * n.raw == 0 || j * n.raw == n.raw) by (nonlinear_arith)
        requires
            j == 0 || j == 1,
    ;
    assert((g + h) * s == -eg - eh - j * n.raw) by (nonlinear_arith)
        requires
            n.raw * dt.raw == g * s + eg,
            n.raw * root.raw == h * s + eh,
            n.raw * root.raw == -(n.raw * dt.raw) - j * n.raw,
    ;
    assert(magnitude(g + h) <= 3) by (nonlinear_arith)
        requires
            magnitude((g + h) * s) < 4 * s,
            s > 0,
            magnitude((g + h) * s) == if (g + h) * s < 0 {
                -((g + h) * s)
            } else {
                (g + h) * s
            },
            magnitude(g + h) == if g + h < 0 {
                -(g + h)
            } else {
                g + h
            },
    ;
    assert(magnitude(g) <= 0x1_0009_0010 && magnitude(h) <= 0x1_0009_0010) by (nonlinear_arith)
        requires
            magnitude(g) * s <= 0x1_0001_0000 * (s + 0x8_0000),
            magnitude(h) * s <= 0x1_0001_0000 * (s + 0x8_0000),
            s == 0x1_0000_0000,
    ;
}

/// With the index ratio one, a ray that meets a surface head-on is
/// refracted into its own direction, up to 16 raw units.
proof fn lemma_head_on_refract(n: Vec3)
    requires
        nearly_unit(n),
    ensures
        spec_refract(n.invert(), n, Fixed::one()) is Some,
        close(spec_refract(n.invert(), n, Fixed::one())->0, n.invert().normalize(), 16),
{
    let one = Fixed::one();
    let d = n.invert();
    let uv = d.normalize();
    let dt = uv.dot(n);
    lemma_opposite_direction(n);
    lemma_head_on_inner_product(n);
    lemma_head_on_discriminant(n);
    let disc = spec_refract_discriminant(uv, n, one);
    let root = disc.sqrt();
    lemma_scaled_terms_cancel(n.x, dt, root);
    lemma_scaled_terms_cancel(n.y, dt, root);
    lemma_scaled_terms_cancel(n.z, dt, root);
    let first = uv.sub(n.scale(dt));
    lemma_mul_unit(first.x);
    lemma_mul_unit(first.y);
    lemma_mul_unit(first.z);
    let y = first.scale(one).sub(n.scale(root));
    assert(close(y, uv, 3));
    assert(moderate(y));
    lemma_close_vectors_have_close_lengths(y, uv, 3);
    lemma_normalize_is_close(y, 13);
    assert(spec_refract(d, n, one) == Some(y.normalize()));
}

/// At a head-on hit on a surface without contrast nothing is reflected:
/// Schlick's approximation gives zero.
proof fn lemma_head_on_reflectance(ray: &Ray, intersection: &Intersection)
    requires
        nearly_unit(intersection.normal),
        ray.direction == intersection.normal.invert(),
    ensures
        !spec_leaving(ray, intersection),
        spec_shlick_approximation(
            spec_incidence_cosine(Fixed::one(), ray, intersection),
            Fixed::one(),
        ) == Fixed::zero(),
{
    let s = ONE_RAW as int;
    let n = intersection.normal;
    let d = ray.direction;
    let one = Fixed::one();
    let zero = Fixed::zero();
    lemma_opposite_direction(n);
    lemma_length_is_root(n);
    let l = n.length().raw as int;
    let big_n = raw_square_sum(n);
    let e = lemma_dot_error(d, n, 0x1_0001_0000, 0x1_0001_0000);
    let along = d.dot(n);
    assert(d.x.raw * n.x.raw + d.y.raw * n.y.raw + d.z.raw * n.z.raw == -big_n) by (nonlinear_arith)
        requires
            d.x.raw == -n.x.raw,
            d.y.raw == -n.y.raw,
            d.z.raw == -n.z.raw,
            big_n == n.x.raw * n.x.raw + n.y.raw * n.y.raw + n.z.raw * n.z.raw,
    ;
    let a = -along.raw;
    assert(l * l - 3 * s < a * s < (l + 1) * (l + 1) + 3 * s) by (nonlinear_arith)
        requires
            -big_n == along.raw * s + e,
            a == -along.raw,
            -3 * s < e < 3 * s,
            l * l <= big_n,
            big_n < (l + 1) * (l + 1),
    ;
    assert(a > 0) by (nonlinear_arith)
        requires
            l * l - 3 * s < a * s,
            l >= 0xffff_0000,
            s == 0x1_0000_0000,
    ;
    assert(!spec_leaving(ray, intersection));
    // the cosine
    let af = along.neg();
    assert(af.raw == a);
    let cosine = af.div(d.length());
    assert(spec_incidence_cosine(one, ray, intersection) == cosine);
    lemma_product_sign(a, s);
    lemma_quot_bounds(a * s, l);
    let c = quot(a * s, l);
    assert(l - 5 <= c <= l + 6) by (nonlinear_arith)
        requires
            c >= 0,
            c * l <= a * s,
            a * s < c * l + l,
            l * l - 3 * s < a * s,
            a * s < (l + 1) * (l + 1) + 3 * s,
            0xffff_0000 <= l <= 0x1_0001_0000,
            s == 0x1_0000_0000,
    ;
    assert(cosine.raw == c);
    let x = one.sub(cosine);
    assert(magnitude(x.raw as int) <= 0x2_0000);
    // the fifth power vanishes
    lemma_bounded_product(x.raw as int, x.raw as int, 0x2_0000, 0x2_0000);
    let e1 = lemma_mul_error(x, x);
    let square = x.mul(x);
    assert(magnitude(square.raw as int) <= 4) by (nonlinear_arith)
        requires
            magnitude(square.raw as int) * s <= 0x2_0000 * 0x2_0000,
            s == 0x1_0000_0000,
            magnitude(square.raw as int) >= 0,
    ;
    lemma_bounded_product(square.raw as int, square.raw as int, 4, 4);
    let e2 = lemma_mul_error(square, square);
    let fourth = square.mul(square);
    assert(fourth.raw == 0) by (nonlinear_arith)
        requires
            magnitude(fourth.raw as int) * s <= 4 * 4,
            s == 0x1_0000_0000,
            magnitude(fourth.raw as int) == if fourth.raw < 0 {
                -fourth.raw
            } else {
                fourth.raw as int
            },
    ;
    lemma_mul_unit(x);
    assert(x.powi5() == zero);
    // the reflectance at normal incidence vanishes with the contrast
    lemma_mul_unit(zero);
    lemma_mul_unit(one);
    assert(one.sub(one) == zero);
    assert(zero.div(one.add(one)) == zero);
}

/// A ray that meets a surface head-on is not bent when both sides have the
/// same refraction index.  For a normal of length one up to `2^-16`, a ray
/// whose direction is the opposite of the normal, the index one and any
/// positive `chance`, the scattered ray is the refracted one: it is white,
/// it starts just behind the surface, and its direction is the normalized
/// direction of the incoming ray up to 16 raw units in every component.
pub proof fn lemma_perpendicular_passes_nearly_straight(
    ray: &Ray,
    intersection: &Intersection,
    chance: Fixed,
)
    requires
        nearly_unit(intersection.normal),
        ray.direction == intersection.normal.invert(),
        chance.raw > 0,
    ensures
        spec_refraction(Fixed::one(), ray, intersection, chance) matches Some(
            (attenuation, scattered),
        ) && attenuation == Color::white() && scattered.origin == spec_refraction_origin(
            intersection.point,
            intersection.normal,
        ) && close(scattered.direction, ray.direction.normalize(), 16),
{
    let one = Fixed::one();
    lemma_head_on_reflectance(ray, intersection);
    lemma_head_on_refract(intersection.normal);
    lemma_div_one(one);
    assert(spec_index_ratio(one, ray, intersection) == one);
    assert(spec_outward_normal(ray, intersection) == intersection.normal);
}

/// Negating a component of a vector negates that component of the
/// normalized vector and changes nothing else.
proof fn lemma_normalize_commutes_with_flips(v: Vec3, f: Vec3)
    requires
        moderate(v),
        f.x.raw == v.x.raw || f.x.raw == -v.x.raw,
        f.y.raw == v.y.raw || f.y.raw == -v.y.raw,
        f.z.raw == v.z.raw || f.z.raw == -v.z.raw,
    ensures
        f.length() == v.length(),
        f.x.raw == v.x.raw ==> f.normalize().x == v.normalize().x,
        f.y.raw == v.y.raw ==> f.normalize().y == v.normalize().y,
        f.z.raw == v.z.raw ==> f.normalize().z == v.normalize().z,
        f.x.raw == -v.x.raw ==> f.normalize().x.raw == -v.normalize().x.raw,
        f.y.raw == -v.y.raw ==> f.normalize().y.raw == -v.normalize().y.raw,
        f.z.raw == -v.z.raw ==> f.normalize().z.raw == -v.normalize().z.raw,
        within_box(v.normalize(), ONE_RAW as int),
{
    assert(f.x.raw * f.x.raw == v.x.raw * v.x.raw && f.y.raw * f.y.raw == v.y.raw * v.y.raw
        && f.z.raw * f.z.raw == v.z.raw * v.z.raw) by (nonlinear_arith)
        requires
            f.x.raw == v.x.raw || f.x.raw == -v.x.raw,
            f.y.raw == v.y.raw || f.y.raw == -v.y.raw,
            f.z.raw == v.z.raw || f.z.raw == -v.z.raw,
    ;
    lemma_length_is_root(v);
    let len = v.length();
    lemma_division_is_odd(v.x, len);
    lemma_division_is_odd(v.y, len);
    lemma_division_is_odd(v.z, len);
}

/// Division by a length at least as large as the numerator does not
/// saturate, and it is odd: the quotient of the opposite is the opposite
/// of the quotient.
proof fn lemma_division_is_odd(x: Fixed, len: Fixed)
    requires
        magnitude(x.raw as int) <= len.raw,
    ensures
        magnitude(x.div(len).raw as int) <= ONE_RAW,
        (Fixed { raw: (-x.raw) as i64 }).div(len).raw == -x.div(len).raw,
{
    let s = ONE_RAW as int;
    if len.raw > 0 {
        let l = len.raw as int;
        let n = x.raw * s;
        lemma_product_sign(x.raw as int, s);
        lemma_product_sign(-x.raw, s);
        lemma_quot_bounds(n, l);
        assert((-x.raw) * s == -n) by (nonlinear_arith)
            requires
                n == x.raw * s,
        ;
        let mq = magnitude(quot(n, l));
        assert(mq <= s) by (nonlinear_arith)
            requires
                mq * l <= magnitude(x.raw as int) * s,
                magnitude(x.raw as int) <= l,
                l > 0,
                mq >= 0,
                s > 0,
        ;
    }
}

/// Two reflections in the same mirror restore a direction, for mirrors
/// whose normal lies along an axis: the result is the direction normalized
/// twice.  For a direction that has unit length up to 4 raw units, that is
/// the direction itself up to 8 raw units in every component.
pub proof fn lemma_double_reflection_in_axis_mirror(v: Vec3, n: Vec3)
    requires
        is_axis(n),
        can_double(v),
    ensures
        spec_reflect(spec_reflect(v, n), n) == v.normalize().normalize(),
        ONE_RAW - 4 <= v.length().raw <= ONE_RAW + 4 ==> close(
            spec_reflect(spec_reflect(v, n), n),
            v,
            8,
        ),
{
    lemma_axis_mirror(v, n);
    let m1 = spec_mirror(v, n);
    lemma_normalize_commutes_with_flips(v, m1);
    let r1 = m1.normalize();
    lemma_axis_mirror(r1, n);
    let m2 = spec_mirror(r1, n);
    assert(m2 == v.normalize());
    if ONE_RAW - 4 <= v.length().raw <= ONE_RAW + 4 {
        lemma_normalize_is_close(v, 4);
        lemma_normalize_has_unit_length(v);
        let u = v.normalize();
        assert(ONE_RAW as int / (v.length().raw as int) <= 1) by (nonlinear_arith)
            requires
                v.length().raw > 0x8000_0000,
        ;
        lemma_normalize_is_close(u, 4);
    }
}

/// `u` has length one up to four raw units, as every normalized vector of
/// at least unit length has.
pub open spec fn rounded_unit(u: Vec3) -> bool {
    moderate(u) && ONE_RAW - 4 <= u.length().raw <= ONE_RAW + 4
}

/// The mirror image of a unit vector in a mirror with a unit normal has
/// length one up to 256 raw units.
proof fn lemma_mirror_keeps_length(v: Vec3, n: Vec3)
    requires
        rounded_unit(v),
        rounded_unit(n),
    ensures
        moderate(spec_mirror(v, n)),
        ONE_RAW - 0x100 <= spec_mirror(v, n).length().raw <= ONE_RAW + 0x100,
{
    let s = ONE_RAW as int;
    lemma_length_is_root(v);
    lemma_length_is_root(n);
    let lv = v.length().raw as int;
    let ln = n.length().raw as int;
    let big_v = raw_square_sum(v);
    let big_n = raw_square_sum(n);
    let r = lemma_mirror_expansion(v, n);
    let m = spec_mirror(v, n);
    let big_m = raw_square_sum(m);
    let ss = s * s;
    let kk = r.k * r.k;
    let (low, high) = (s - 4, s + 5);
    assert(low * low <= big_v < high * high && low * low <= big_n < high * high)
        by (nonlinear_arith)
        requires
            low <= lv,
            lv + 1 <= high,
            low <= ln,
            ln + 1 <= high,
            lv * lv <= big_v,
            big_v < (lv + 1) * (lv + 1),
            ln * ln <= big_n,
            big_n < (ln + 1) * (ln + 1),
            low >= 0,
    ;
    assert(low * low == ss - 8 * s + 16 && high * high == ss + 10 * s + 25) by (nonlinear_arith)
        requires
            low == s - 4,
            high == s + 5,
            ss == s * s,
    ;
    let k_max = 0x6_000c_0006int;
    lemma_product_sign(r.k, r.k);
    lemma_bounded_product(r.k, r.k, k_max, k_max);
    lemma_bounded_product(kk, big_n - ss, k_max * k_max, 10 * s + 25);
    lemma_product_sign(s, r.k);
    lemma_bounded_product(s, r.k, s, k_max);
    lemma_bounded_product(s * r.k, r.e, s * k_max, 3 * s);
    let slack = (k_max * k_max) * (10 * s + 25) + 2 * ((s * k_max) * (3 * s))
        + 0x2b_0000_0000_0000_0000_0000_0000 + 3 * ss;
    assert(slack <= ss * (440 * s)) by (nonlinear_arith)
        requires
            slack == (k_max * k_max) * (10 * s + 25) + 2 * ((s * k_max) * (3 * s))
                + 0x2b_0000_0000_0000_0000_0000_0000 + 3 * ss,
            ss == s * s,
            s == 0x1_0000_0000,
            k_max == 0x6_000c_0006,
    ;
    assert(ss * big_v - slack <= ss * big_m <= ss * big_v + slack);
    assert(ss * (low * low) <= ss * big_v && ss * big_v <= ss * (high * high)) by (nonlinear_arith)
        requires
            low * low <= big_v < high * high,
            ss >= 0,
    ;
    let (floor_m, ceiling_m) = (low * low - 440 * s, high * high + 440 * s);
    assert(ss * floor_m == ss * (low * low) - ss * (440 * s) && ss * ceiling_m == ss * (high
        * high) + ss * (440 * s)) by (nonlinear_arith)
        requires
            floor_m == low * low - 440 * s,
            ceiling_m == high * high + 440 * s,
    ;
    assert(floor_m <= big_m <= ceiling_m) by (nonlinear_arith)
        requires
            ss * floor_m <= ss * big_m <= ss * ceiling_m,
            ss > 0,
    ;
    let lm = m.length().raw as int;
    lemma_length_is_root(m);
    assert(s - 0x100 <= lm <= s + 0x100) by (nonlinear_arith)
        requires
            lm * lm <= big_m,
            big_m < (lm + 1) * (lm + 1),
            ss - 8 * s + 16 - 440 * s <= big_m <= ss + 10 * s + 25 + 440 * s,
            ss == s * s,
            s == 0x1_0000_0000,
            lm >= 0,
    ;
}

/// The sum of the inner products of `v` and of its rounded reflection with
/// `n`, in terms of the rounding errors.
proof fn lemma_second_inner_identity(
    s: int,
    n: (int, int, int),
    v: (int, int, int),
    w: (int, int, int),
    x: (int, int, int),
    e: (int, int, int),
    r: (int, int, int),
    k1: int,
    d1: int,
    d2: int,
    e1: int,
    e2: int,
)
    requires
        r.0 == v.0 - w.0 + x.0,
        r.1 == v.1 - w.1 + x.1,
        r.2 == v.2 - w.2 + x.2,
        n.0 * k1 == w.0 * s + e.0,
        n.1 * k1 == w.1 * s + e.1,
        n.2 * k1 == w.2 * s + e.2,
        raw_dot(r, n) == d2 * s + e2,
        raw_dot(v, n) == d1 * s + e1,
        k1 == 2 * d1,
    ensures
        (s * s) * (d1 + d2) == -(2 * (d1 * (raw_dot(n, n) - s * s))) + s * (e1 - e2) + raw_dot(
            e,
            n,
        ) + s * raw_dot(x, n),
{
    let ss = s * s;
    let (n0, n1, n2) = (n.0, n.1, n.2);
    let (v0, v1, v2) = (v.0, v.1, v.2);
    let (w0, w1, w2) = (w.0, w.1, w.2);
    let (x0, x1, x2) = (x.0, x.1, x.2);
    let (f0, f1, f2) = (e.0, e.1, e.2);
    let (r0, r1, r2) = (r.0, r.1, r.2);
    let sum_rn = raw_dot(r, n);
    let sum_vn = raw_dot(v, n);
    let sum_wn = raw_dot(w, n);
    let sum_xn = raw_dot(x, n);
    let sum_en = raw_dot(e, n);
    let big_n = raw_dot(n, n);
    assert(r0 * n0 == v0 * n0 - w0 * n0 + x0 * n0) by (nonlinear_arith)
        requires
            r0 == v0 - w0 + x0,
    ;
    assert(r1 * n1 == v1 * n1 - w1 * n1 + x1 * n1) by (nonlinear_arith)
        requires
            r1 == v1 - w1 + x1,
    ;
    assert(r2 * n2 == v2 * n2 - w2 * n2 + x2 * n2) by (nonlinear_arith)
        requires
            r2 == v2 - w2 + x2,
    ;
    assert(sum_rn == sum_vn - sum_wn + sum_xn);
    // s (w . n) = k1 |n|^2 - e . n
    assert((n0 * n0) * k1 == s * (w0 * n0) + f0 * n0) by (nonlinear_arith)
        requires
            n0 * k1 == w0 * s + f0,
    ;
    assert((n1 * n1) * k1 == s * (w1 * n1) + f1 * n1) by (nonlinear_arith)
        requires
            n1 * k1 == w1 * s + f1,
    ;
    assert((n2 * n2) * k1 == s * (w2 * n2) + f2 * n2) by (nonlinear_arith)
        requires
            n2 * k1 == w2 * s + f2,
    ;
    let (a0, a1, a2) = (n0 * n0, n1 * n1, n2 * n2);
    assert((a0 + a1 + a2) * k1 == a0 * k1 + a1 * k1 + a2 * k1) by (nonlinear_arith);
    let (b0, b1, b2) = (w0 * n0, w1 * n1, w2 * n2);
    assert(s * (b0 + b1 + b2) == s * b0 + s * b1 + s * b2) by (nonlinear_arith);
    assert(big_n * k1 == s * sum_wn + sum_en);
    // put together
    let gap = big_n - ss;
    assert(big_n * k1 == 2 * (d1 * ss) + 2 * (d1 * gap)) by (nonlinear_arith)
        requires
            k1 == 2 * d1,
            gap == big_n - ss,
    ;
    assert(s * sum_rn == s * sum_vn - s * sum_wn + s * sum_xn) by (nonlinear_arith)
        requires
            sum_rn == sum_vn - sum_wn + sum_xn,
    ;
    assert(s * sum_rn == ss * d2 + s * e2) by (nonlinear_arith)
        requires
            sum_rn == d2 * s + e2,
            ss == s * s,
    ;
    assert(s * sum_vn == ss * d1 + s * e1) by (nonlinear_arith)
        requires
            sum_vn == d1 * s + e1,
            ss == s * s,
    ;
    assert(d1 * ss == ss * d1) by (nonlinear_arith);
    assert(ss * (d1 + d2) == ss * d1 + ss * d2) by (nonlinear_arith);
    assert(s * (e1 - e2) == s * e1 - s * e2) by (nonlinear_arith);
}

/// The factors of two successive reflections in the same mirror cancel:
/// with `k1 = 2 (v . n)` and `k2 = 2 (reflect(v, n) . n)`, the sum
/// `k1 + k2` has magnitude at most 1700 raw units.
proof fn lemma_factors_cancel(v: Vec3, n: Vec3)
    requires
        rounded_unit(v),
        rounded_unit(n),
    ensures
        magnitude(2 * v.dot(n).raw + 2 * spec_reflect(v, n).dot(n).raw) <= 1700,
        within_box(spec_reflect(v, n), 0x1_0001_0000),
        close(spec_reflect(v, n), spec_mirror(v, n), 0x100),
{
    let s = ONE_RAW as int;
    let ss = s * s;
    let bound = 0x1_0001_0000int;
    lemma_length_is_root(v);
    lemma_length_is_root(n);
    let ln = n.length().raw as int;
    let r = lemma_mirror_expansion(v, n);
    let k1 = r.k;
    let e1 = r.e;
    let d1 = v.dot(n).raw as int;
    let kf = Fixed::from_int(2).mul(v.dot(n));
    lemma_bounded_product(n.x.raw as int, k1, bound, 0x6_000c_0006);
    lemma_bounded_product(n.y.raw as int, k1, bound, 0x6_000c_0006);
    lemma_bounded_product(n.z.raw as int, k1, bound, 0x6_000c_0006);
    let ex = lemma_mul_error(n.x, kf);
    let ey = lemma_mul_error(n.y, kf);
    let ez = lemma_mul_error(n.z, kf);
    let w = n.scale(kf);
    let m1 = spec_mirror(v, n);
    lemma_mirror_keeps_length(v, n);
    lemma_normalize_is_close(m1, 0x100);
    lemma_normalize_has_unit_length(m1);
    let r1 = spec_reflect(v, n);
    lemma_length_is_root(r1);
    let l1 = m1.length().raw as int;
    assert(s / l1 <= 1) by (nonlinear_arith)
        requires
            l1 > 0x8000_0000,
            s == 0x1_0000_0000,
    ;
    assert(within_box(r1, bound));
    let e2 = lemma_dot_error(r1, n, bound, bound);
    let d2 = r1.dot(n).raw as int;
    let rn = raw_of(n);
    let xi = (r1.x.raw - m1.x.raw, r1.y.raw - m1.y.raw, r1.z.raw - m1.z.raw);
    let err = (ex, ey, ez);
    let (rv, rw, rr) = (raw_of(v), raw_of(w), raw_of(r1));
    lemma_second_inner_identity(s, rn, rv, rw, xi, err, rr, k1, d1, d2, e1, e2);
    lemma_factor_bound(s, rn, xi, err, d1, d2, e1, e2, ln, raw_dot(rn, rn));
}

/// From the identity of `lemma_second_inner_identity` to the bound.
proof fn lemma_factor_bound(
    s: int,
    n: (int, int, int),
    x: (int, int, int),
    e: (int, int, int),
    d1: int,
    d2: int,
    e1: int,
    e2: int,
    ln: int,
    big_n: int,
)
    requires
        s == 0x1_0000_0000,
        (s * s) * (d1 + d2) == -(2 * (d1 * (big_n - s * s))) + s * (e1 - e2) + raw_dot(e, n) + s
            * raw_dot(x, n),
        magnitude(d1) <= 0x3_0006_0003,
        -3 * s < e1 < 3 * s,
        -3 * s < e2 < 3 * s,
        magnitude(e.0) <= s && magnitude(e.1) <= s && magnitude(e.2) <= s,
        magnitude(x.0) <= 0x100 && magnitude(x.1) <= 0x100 && magnitude(x.2) <= 0x100,
        magnitude(n.0) <= ln && magnitude(n.1) <= ln && magnitude(n.2) <= ln,
        s - 4 <= ln <= s + 4,
        ln * ln <= big_n,
        big_n < (ln + 1) * (ln + 1),
    ensures
        magnitude(2 * d1 + 2 * d2) <= 1700,
{
    let ss = s * s;
    let gap = big_n - ss;
    assert(-8 * s <= gap <= 10 * s + 25) by (nonlinear_arith)
        requires
            gap == big_n - ss,
            ss == s * s,
            ln * ln <= big_n,
            big_n < (ln + 1) * (ln + 1),
            s - 4 <= ln <= s + 4,
            s == 0x1_0000_0000,
    ;
    lemma_bounded_product(d1, gap, 0x3_0006_0003, 10 * s + 25);
    lemma_bounded_sum(n, e, s);
    lemma_bounded_sum(n, x, 0x100);
    let sum_en = raw_dot(e, n);
    let sum_xn = raw_dot(x, n);
    assert(sum_en == raw_dot(n, e) && sum_xn == raw_dot(n, x)) by (nonlinear_arith)
        requires
            sum_en == e.0 * n.0 + e.1 * n.1 + e.2 * n.2,
            sum_xn == x.0 * n.0 + x.1 * n.1 + x.2 * n.2,
            raw_dot(n, e) == n.0 * e.0 + n.1 * e.1 + n.2 * e.2,
            raw_dot(n, x) == n.0 * x.0 + n.1 * x.1 + n.2 * x.2,
    ;
    let taxi = raw_taxicab(n);
    assert(0 <= taxi <= 3 * (s + 4));
    lemma_bounded_product(s, e1 - e2, s, 6 * s);
    lemma_bounded_product(s, sum_xn, s, taxi * 0x100);
    let total = 2 * (0x3_0006_0003 * (10 * s + 25)) + s * (6 * s) + taxi * s + s * (taxi * 0x100);
    lemma_product_sign(ss, d1 + d2);
    assert(magnitude(ss * (d1 + d2)) <= total);
    assert(total <= ss * 850) by (nonlinear_arith)
        requires
            total == 2 * (0x3_0006_0003 * (10 * s + 25)) + s * (6 * s) + taxi * s + s * (taxi
                * 0x100),
            0 <= taxi <= 3 * (s + 4),
            ss == s * s,
            s == 0x1_0000_0000,
    ;
    assert(ss > 0) by (nonlinear_arith)
        requires
            ss == s * s,
            s > 0,
    ;
    let md = magnitude(d1 + d2);
    assert(md <= 850) by (nonlinear_arith)
        requires
            ss * md <= ss * 850,
            ss > 0,
    ;
}

/// Two reflections in the same mirror restore a direction, up to rounding.
/// For a direction and a normal that have length one up to four raw units,
/// every component of `reflect(reflect(v, n), n)` is within `2^13` raw
/// units, that is `2^-19`, of that of `v`.
pub proof fn lemma_double_reflection(v: Vec3, n: Vec3)
    requires
        rounded_unit(v),
        rounded_unit(n),
    ensures
        close(spec_reflect(spec_reflect(v, n), n), v, 0x2000),
{
    let s = ONE_RAW as int;
    let bound = 0x1_0001_0000int;
    lemma_length_is_root(v);
    lemma_length_is_root(n);
    lemma_factors_cancel(v, n);
    let r1 = spec_reflect(v, n);
    let m1 = spec_mirror(v, n);
    let first = lemma_mirror_expansion(v, n);
    let second = lemma_mirror_expansion(r1, n);
    let k1f = Fixed::from_int(2).mul(v.dot(n));
    let k2f = Fixed::from_int(2).mul(r1.dot(n));
    let m2 = spec_mirror(r1, n);
    lemma_sum_of_scaled(n.x, k1f, k2f, 1700);
    lemma_sum_of_scaled(n.y, k1f, k2f, 1700);
    lemma_sum_of_scaled(n.z, k1f, k2f, 1700);
    assert(close(m2, v, 1959));
    assert(moderate(m2));
    lemma_close_vectors_have_close_lengths(m2, v, 1959);
    lemma_normalize_is_close(m2, 5881);
}

/// The rounded products of a number with two factors that nearly cancel
/// nearly cancel.
proof fn lemma_sum_of_scaled(n: Fixed, k1: Fixed, k2: Fixed, bound: int)
    requires
        magnitude(n.raw as int) <= 0x1_0001_0000,
        magnitude(k1.raw as int) <= 0x6_000c_0006,
        magnitude(k2.raw as int) <= 0x6_000c_0006,
        magnitude(k1.raw + k2.raw) <= bound,
        0 <= bound <= 0x1_0000,
    ensures
        magnitude(n.mul(k1).raw + n.mul(k2).raw) <= bound + 3,
{
    let s = ONE_RAW as int;
    lemma_bounded_product(n.raw as int, k1.raw as int, 0x1_0001_0000, 0x6_000c_0006);
    lemma_bounded_product(n.raw as int, k2.raw as int, 0x1_0001_0000, 0x6_000c_0006);
    let e1 = lemma_mul_error(n, k1);
    let e2 = lemma_mul_error(n, k2);
    let g = n.mul(k1).raw + n.mul(k2).raw;
    let k = k1.raw + k2.raw;
    assert(g * s == n.raw * k - e1 - e2) by (nonlinear_arith)
        requires
            n.raw * k1.raw == n.mul(k1).raw * s + e1,
            n.raw * k2.raw == n.mul(k2).raw * s + e2,
            g == n.mul(k1).raw + n.mul(k2).raw,
            k == k1.raw + k2.raw,
    ;
    lemma_bounded_product(n.raw as int, k, 0x1_0001_0000, bound);
    lemma_product_sign(g, s);
    assert(magnitude(g) <= bound + 3) by (nonlinear_arith)
        requires
            magnitude(g) * s <= 0x1_0001_0000 * bound + 2 * s,
            0 <= bound <= 0x1_0000,
            s == 0x1_0000_0000,
            magnitude(g) >= 0,
    ;
}

} // verus!
