//! How light leaves a surface: diffuse, mirror-like, refracting and
//! textured scattering.
//!
//! Every function here is a pure function of its arguments.  The random
//! inputs (a point inside the unit sphere, a number in `[0, 1)`) are
//! parameters; `Material::scatter` draws them.

use crate::accuracy::{
    close, lemma_perpendicular_passes_nearly_straight, lemma_reflection_has_unit_length,
    nearly_unit,
};
use crate::color::Color;
use crate::fixed::{
    lemma_div_one, lemma_mul_unit, lemma_mul_whole, lemma_norm_along_axis,
    lemma_sqrt_whole_square, Fixed, ONE_RAW,
};
use crate::intersection::Intersection;
use crate::ray::Ray;
use crate::texture::Texture;
use crate::vector::Vec3;
use vstd::prelude::*;

verus! {

/// How far the origin of a scattered ray is moved off the surface, so that
/// the ray does not hit the surface it leaves: `10^-8`.
pub open spec fn spec_origin_offset() -> Fixed {
    Fixed::from_ratio(1, 100_000_000)
}

/// Computes `spec_origin_offset`.
#[verifier::when_used_as_spec(spec_origin_offset)]
pub fn origin_offset() -> (r: Fixed)
    ensures
        r == spec_origin_offset(),
{
    Fixed::from_ratio(1, 100_000_000)
}

/// The hit point moved off the surface along the normal.
pub open spec fn spec_reflection_origin(intersection: &Intersection) -> Vec3 {
    intersection.point.add(intersection.normal.scale(origin_offset()))
}

/// `origin` moved against `normal`.
pub open spec fn spec_refraction_origin(origin: Vec3, normal: Vec3) -> Vec3 {
    origin.sub(normal.scale(origin_offset()))
}

/// The mirror image of `v` at the plane with normal `n`, before it is
/// normalized: `v - 2 (v . n) n`.
pub open spec fn spec_mirror(v: Vec3, n: Vec3) -> Vec3 {
    v.sub(n.scale(Fixed::from_int(2).mul(v.dot(n))))
}

/// The direction in which a mirror with normal `n` reflects `v`:
/// `normalize(v - 2 (v . n) n)`.
pub open spec fn spec_reflect(v: Vec3, n: Vec3) -> Vec3 {
    spec_mirror(v, n).normalize()
}

/// The discriminant of Snell's law, `1 - r^2 (1 - (u . n)^2)`, for the unit
/// direction `u` and the ratio `r` of the refraction indices.
pub open spec fn spec_refract_discriminant(uv: Vec3, n: Vec3, ni_over_nt: Fixed) -> Fixed {
    let dt = uv.dot(n);
    Fixed::one().sub(ni_over_nt.mul(ni_over_nt).mul(Fixed::one().sub(dt.mul(dt))))
}

/// The direction into which `v` is refracted at a surface with normal `n`
/// facing the ray, or `None` at total internal reflection (discriminant not
/// positive): `normalize(r (u - n (u . n)) - n sqrt(discriminant))` with
/// `u = normalize(v)`.
pub open spec fn spec_refract(v: Vec3, n: Vec3, ni_over_nt: Fixed) -> Option<Vec3> {
    let uv = v.normalize();
    let dt = uv.dot(n);
    let discriminant = spec_refract_discriminant(uv, n, ni_over_nt);
    if discriminant.raw > 0 {
        Some(uv.sub(n.scale(dt)).scale(ni_over_nt).sub(n.scale(discriminant.sqrt())).normalize())
    } else {
        None
    }
}

/// Schlick's approximation of the reflectance:
/// `r0 + (1 - r0) (1 - cosine)^5` with `r0 = ((1 - n) / (1 + n))^2`.
pub open spec fn spec_shlick_approximation(cosine: Fixed, refraction_index: Fixed) -> Fixed {
    let root = Fixed::one().sub(refraction_index).div(Fixed::one().add(refraction_index));
    let r0 = root.mul(root);
    r0.add(Fixed::one().sub(r0).mul(Fixed::one().sub(cosine).powi5()))
}

/// The diffusely scattered ray: from the hit point, moved off the surface,
/// toward `point + normal + random_point`.
pub open spec fn spec_scatter_ray(intersection: &Intersection, random_point: Vec3) -> Ray {
    let target = intersection.point.add(intersection.normal).add(random_point);
    let origin = spec_reflection_origin(intersection);
    Ray { origin, direction: target.sub(origin).normalize() }
}

/// Diffuse scattering never absorbs.
pub open spec fn spec_diffusive(
    attenuation: Color,
    intersection: &Intersection,
    random_point: Vec3,
) -> Option<(Color, Ray)> {
    Some((attenuation, spec_scatter_ray(intersection, random_point)))
}

/// The direction of a fuzzy mirror reflection, before the test against the
/// normal: `reflect(direction, normal) + diffusiveness * random_point`.
pub open spec fn spec_fuzzed_reflection(
    diffusiveness: Fixed,
    ray: &Ray,
    intersection: &Intersection,
    random_point: Vec3,
) -> Vec3 {
    spec_reflect(ray.direction, intersection.normal).add(random_point.scale(diffusiveness))
}

/// Mirror-like scattering: the fuzzed reflection, or absorption when it
/// does not leave the surface (its inner product with the normal is not
/// positive).
pub open spec fn spec_reflection(
    attenuation: Color,
    diffusiveness: Fixed,
    ray: &Ray,
    intersection: &Intersection,
    random_point: Vec3,
) -> Option<(Color, Ray)> {
    let reflected = spec_fuzzed_reflection(diffusiveness, ray, intersection, random_point);
    if reflected.dot(intersection.normal).raw > 0 {
        Some(
            (
                attenuation,
                Ray { origin: spec_reflection_origin(intersection), direction: reflected },
            ),
        )
    } else {
        None
    }
}

/// The ray leaves the medium: its direction and the normal point the same
/// way.
pub open spec fn spec_leaving(ray: &Ray, intersection: &Intersection) -> bool {
    ray.direction.dot(intersection.normal).raw > 0
}

/// The normal turned against the ray.
pub open spec fn spec_outward_normal(ray: &Ray, intersection: &Intersection) -> Vec3 {
    if spec_leaving(ray, intersection) {
        intersection.normal.invert()
    } else {
        intersection.normal
    }
}

/// The ratio of the refraction indices on the two sides, in the order in
/// which the ray crosses them.
pub open spec fn spec_index_ratio(
    refraction_index: Fixed,
    ray: &Ray,
    intersection: &Intersection,
) -> Fixed {
    if spec_leaving(ray, intersection) {
        refraction_index
    } else {
        Fixed::one().div(refraction_index)
    }
}

/// The cosine that goes into Schlick's approximation.
pub open spec fn spec_incidence_cosine(
    refraction_index: Fixed,
    ray: &Ray,
    intersection: &Intersection,
) -> Fixed {
    let along = ray.direction.dot(intersection.normal);
    if spec_leaving(ray, intersection) {
        refraction_index.mul(along).div(ray.direction.length())
    } else {
        along.neg().div(ray.direction.length())
    }
}

/// Scattering at a transparent surface.  The ray is refracted when Snell's
/// law allows it and the reflectance is below `chance`; otherwise it is
/// reflected.  The attenuation is white.
pub open spec fn spec_refraction(
    refraction_index: Fixed,
    ray: &Ray,
    intersection: &Intersection,
    chance: Fixed,
) -> Option<(Color, Ray)> {
    let outward = spec_outward_normal(ray, intersection);
    let refracted = spec_refract(
        ray.direction,
        outward,
        spec_index_ratio(refraction_index, ray, intersection),
    );
    let reflectance = spec_shlick_approximation(
        spec_incidence_cosine(refraction_index, ray, intersection),
        refraction_index,
    );
    if refracted is Some && reflectance.raw < chance.raw {
        Some(
            (
                Color::white(),
                Ray {
                    origin: spec_refraction_origin(intersection.point, outward),
                    direction: refracted->0,
                },
            ),
        )
    } else {
        Some(
            (
                Color::white(),
                Ray {
                    origin: spec_reflection_origin(intersection),
                    direction: spec_reflect(ray.direction, intersection.normal),
                },
            ),
        )
    }
}

/// Scattering at a textured surface: diffuse, attenuated by the colour that
/// the texture shows in the direction of the normal.
pub open spec fn spec_texture(
    image: &Texture,
    intersection: &Intersection,
    random_point: Vec3,
) -> Option<(Color, Ray)> {
    Some((image.lookup(intersection.normal), spec_scatter_ray(intersection, random_point)))
}

/// Computes `spec_reflection_origin`.
#[verifier::when_used_as_spec(spec_reflection_origin)]
pub fn reflection_origin(intersection: &Intersection) -> (r: Vec3)
    ensures
        r == spec_reflection_origin(intersection),
{
    intersection.point.add(intersection.normal.scale(origin_offset()))
}

/// Computes `spec_refraction_origin`.
#[verifier::when_used_as_spec(spec_refraction_origin)]
pub fn refraction_origin(origin: Vec3, normal: Vec3) -> (r: Vec3)
    ensures
        r == spec_refraction_origin(origin, normal),
{
    origin.sub(normal.scale(origin_offset()))
}

/// Computes `spec_reflect`.
#[verifier::when_used_as_spec(spec_reflect)]
pub fn reflect(v: Vec3, n: Vec3) -> (r: Vec3)
    ensures
        r == spec_reflect(v, n),
        nearly_unit(v) && nearly_unit(n) ==> ONE_RAW - 4 <= r.length().raw <= ONE_RAW + 2,
{
    proof {
        if nearly_unit(v) && nearly_unit(n) {
            lemma_reflection_has_unit_length(v, n);
        }
    }
    v.sub(n.scale(Fixed::from_int(2).mul(v.dot(n)))).normalize()
}

/// Computes `spec_refract`.
#[verifier::when_used_as_spec(spec_refract)]
pub fn refract(v: Vec3, n: Vec3, ni_over_nt: Fixed) -> (r: Option<Vec3>)
    ensures
        r == spec_refract(v, n, ni_over_nt),
{
    let uv = v.normalize();
    let dt = uv.dot(n);
    let discriminant = Fixed::one().sub(
        ni_over_nt.mul(ni_over_nt).mul(Fixed::one().sub(dt.mul(dt))),
    );
    if discriminant.raw > 0 {
        Some(uv.sub(n.scale(dt)).scale(ni_over_nt).sub(n.scale(discriminant.sqrt())).normalize())
    } else {
        None
    }
}

/// Computes `spec_shlick_approximation`.
#[verifier::when_used_as_spec(spec_shlick_approximation)]
pub fn shlick_approximation(cosine: Fixed, refraction_index: Fixed) -> (r: Fixed)
    ensures
        r == spec_shlick_approximation(cosine, refraction_index),
{
    let root = Fixed::one().sub(refraction_index).div(Fixed::one().add(refraction_index));
    let r0 = root.mul(root);
    r0.add(Fixed::one().sub(r0).mul(Fixed::one().sub(cosine).powi5()))
}

/// Computes `spec_scatter_ray`.
#[verifier::when_used_as_spec(spec_scatter_ray)]
pub fn scatter_ray(intersection: &Intersection, random_point: Vec3) -> (r: Ray)
    ensures
        r == spec_scatter_ray(intersection, random_point),
{
    let target = intersection.point.add(intersection.normal).add(random_point);
    let origin = reflection_origin(intersection);
    let direction = target.sub(origin).normalize();
    Ray::new(origin, direction)
}

/// Computes `spec_diffusive`.
#[verifier::when_used_as_spec(spec_diffusive)]
pub fn diffusive(attenuation: Color, intersection: &Intersection, random_point: Vec3) -> (r: Option<
    (Color, Ray),
>)
    ensures
        r == spec_diffusive(attenuation, intersection, random_point),
{
    Some((attenuation, scatter_ray(intersection, random_point)))
}

/// Computes `spec_reflection`.
#[verifier::when_used_as_spec(spec_reflection)]
pub fn reflection(
    attenuation: Color,
    diffusiveness: Fixed,
    ray: &Ray,
    intersection: &Intersection,
    random_point: Vec3,
) -> (r: Option<(Color, Ray)>)
    ensures
        r == spec_reflection(attenuation, diffusiveness, ray, intersection, random_point),
        diffusiveness.raw == 0 ==> r == spec_reflection(
            attenuation,
            diffusiveness,
            ray,
            intersection,
            Vec3::zero(),
        ),
{
    proof {
        if diffusiveness.raw == 0 {
            lemma_sharp_mirror(attenuation, ray, intersection, random_point);
            lemma_sharp_mirror(attenuation, ray, intersection, Vec3::zero());
        }
    }
    let reflected = reflect(ray.direction, intersection.normal).add(
        random_point.scale(diffusiveness),
    );
    let origin = reflection_origin(intersection);
    if reflected.dot(intersection.normal).raw > 0 {
        Some((attenuation, Ray::new(origin, reflected)))
    } else {
        None
    }
}

/// Computes `spec_refraction`.
#[verifier::when_used_as_spec(spec_refraction)]
pub fn refraction(
    refraction_index: Fixed,
    ray: &Ray,
    intersection: &Intersection,
    chance: Fixed,
) -> (r: Option<(Color, Ray)>)
    ensures
        r == spec_refraction(refraction_index, ray, intersection, chance),
        r matches Some((attenuation, scattered)) && attenuation == Color::white() && (
        refraction_index == Fixed::one() && chance.raw > 0 && nearly_unit(intersection.normal)
            && ray.direction == intersection.normal.invert() ==> close(
            scattered.direction,
            ray.direction.normalize(),
            16,
        )),
{
    proof {
        if refraction_index == Fixed::one() && chance.raw > 0 && nearly_unit(intersection.normal)
            && ray.direction == intersection.normal.invert() {
            lemma_perpendicular_passes_nearly_straight(ray, intersection, chance);
        }
    }
    let attenuation = Color::white();
    let along = ray.direction.dot(intersection.normal);
    let (outward_normal, ni_over_nt, cosine) = if along.raw > 0 {
        (
            intersection.normal.invert(),
            refraction_index,
            refraction_index.mul(along).div(ray.direction.length()),
        )
    } else {
        (
            intersection.normal,
            Fixed::one().div(refraction_index),
            along.neg().div(ray.direction.length()),
        )
    };
    let refracted = refract(ray.direction, outward_normal, ni_over_nt);
    let reflectance = shlick_approximation(cosine, refraction_index);
    match refracted {
        Some(direction) if reflectance.raw < chance.raw => {
            let origin = refraction_origin(intersection.point, outward_normal);
            Some((attenuation, Ray::new(origin, direction)))
        },
        _ => {
            let origin = reflection_origin(intersection);
            let reflected = reflect(ray.direction, intersection.normal);
            Some((attenuation, Ray::new(origin, reflected)))
        },
    }
}

/// Computes `spec_texture`.
#[verifier::when_used_as_spec(spec_texture)]
pub fn texture(image: &Texture, intersection: &Intersection, random_point: Vec3) -> (r: Option<
    (Color, Ray),
>)
    ensures
        r == spec_texture(image, intersection, random_point),
{
    let color = image.lookup(intersection.normal);
    Some((color, scatter_ray(intersection, random_point)))
}

/// `n` is one of the six unit vectors along the axes.
pub open spec fn is_axis(n: Vec3) -> bool {
    ||| (n.x.raw == ONE_RAW || n.x.raw == -ONE_RAW) && n.y.raw == 0 && n.z.raw == 0
    ||| n.x.raw == 0 && (n.y.raw == ONE_RAW || n.y.raw == -ONE_RAW) && n.z.raw == 0
    ||| n.x.raw == 0 && n.y.raw == 0 && (n.z.raw == ONE_RAW || n.z.raw == -ONE_RAW)
}

/// No component of `v` is so large that doubling it saturates.
pub open spec fn can_double(v: Vec3) -> bool {
    &&& -0x2000_0000_0000_0000 <= v.x.raw <= 0x2000_0000_0000_0000
    &&& -0x2000_0000_0000_0000 <= v.y.raw <= 0x2000_0000_0000_0000
    &&& -0x2000_0000_0000_0000 <= v.z.raw <= 0x2000_0000_0000_0000
}

/// Multiplying by plus or minus one is exact.
proof fn lemma_mul_signed_unit(x: Fixed, u: Fixed)
    requires
        u.raw == ONE_RAW || u.raw == -ONE_RAW || u.raw == 0,
        x.raw > i64::MIN,
    ensures
        u.raw == ONE_RAW ==> x.mul(u) == x && u.mul(x) == x,
        u.raw == -ONE_RAW ==> x.mul(u).raw == -x.raw && u.mul(x).raw == -x.raw,
        u.raw == 0 ==> x.mul(u).raw == 0 && u.mul(x).raw == 0,
{
    lemma_mul_whole(x, 1);
    let minus_one: i32 = (-1) as i32;
    lemma_mul_whole(x, minus_one);
    lemma_mul_whole(x, 0);
    assert(x.raw * 1 == x.raw && x.raw * (-1) == -x.raw && x.raw * 0 == 0) by (nonlinear_arith);
    assert(u == Fixed::from_int(1) || u == Fixed::from_int(minus_one) || u == Fixed::from_int(0));
}

/// A mirror whose normal lies along an axis negates the component of `v`
/// along that axis and leaves the other two.
pub proof fn lemma_axis_mirror(v: Vec3, n: Vec3)
    requires
        is_axis(n),
        can_double(v),
    ensures
        n.x.raw != 0 ==> spec_mirror(v, n) == (Vec3 { x: v.x.neg(), y: v.y, z: v.z }),
        n.y.raw != 0 ==> spec_mirror(v, n) == (Vec3 { x: v.x, y: v.y.neg(), z: v.z }),
        n.z.raw != 0 ==> spec_mirror(v, n) == (Vec3 { x: v.x, y: v.y, z: v.z.neg() }),
        can_double(spec_mirror(v, n)),
{
    lemma_mul_signed_unit(v.x, n.x);
    lemma_mul_signed_unit(v.y, n.y);
    lemma_mul_signed_unit(v.z, n.z);
    let along = v.dot(n);
    lemma_mul_whole(along, 2);
    let twice = Fixed::from_int(2).mul(along);
    lemma_mul_signed_unit(twice, n.x);
    lemma_mul_signed_unit(twice, n.y);
    lemma_mul_signed_unit(twice, n.z);
}

/// Reflecting twice in the same mirror gives back the vector, for mirrors
/// whose normal lies along an axis: there the reflection `v - 2 (v . n) n`
/// is computed without rounding.
pub proof fn lemma_double_mirror(v: Vec3, n: Vec3)
    requires
        is_axis(n),
        can_double(v),
    ensures
        spec_mirror(spec_mirror(v, n), n) == v,
{
    lemma_axis_mirror(v, n);
    lemma_axis_mirror(spec_mirror(v, n), n);
}

/// A mirror without diffusiveness has no use for the random point: the
/// scattered ray leaves in the mirror direction `reflect(direction, normal)`
/// whatever the point is, and the ray is absorbed exactly when that
/// direction does not leave the surface.
pub proof fn lemma_sharp_mirror(
    attenuation: Color,
    ray: &Ray,
    intersection: &Intersection,
    random_point: Vec3,
)
    ensures
        spec_fuzzed_reflection(Fixed::zero(), ray, intersection, random_point) == spec_reflect(
            ray.direction,
            intersection.normal,
        ),
        spec_reflection(attenuation, Fixed::zero(), ray, intersection, random_point) == (if
        spec_reflect(ray.direction, intersection.normal).dot(intersection.normal).raw > 0 {
            Some(
                (
                    attenuation,
                    Ray {
                        origin: spec_reflection_origin(intersection),
                        direction: spec_reflect(ray.direction, intersection.normal),
                    },
                ),
            )
        } else {
            None
        }),
{
    lemma_mul_unit(random_point.x);
    lemma_mul_unit(random_point.y);
    lemma_mul_unit(random_point.z);
}

/// A ray that meets a surface head-on is not bent when both sides have the
/// same refraction index.  For a normal along an axis, a ray against the
/// normal, the index one and any positive `chance`, the scattered ray is
/// the refracted one, it starts just behind the surface and it keeps the
/// direction of the incoming ray.
pub proof fn lemma_perpendicular_passes_straight(
    ray: &Ray,
    intersection: &Intersection,
    chance: Fixed,
)
    requires
        is_axis(intersection.normal),
        ray.direction == intersection.normal.invert(),
        chance.raw > 0,
    ensures
        spec_refraction(Fixed::one(), ray, intersection, chance) == Some(
            (
                Color::white(),
                Ray {
                    origin: spec_refraction_origin(intersection.point, intersection.normal),
                    direction: ray.direction,
                },
            ),
        ),
{
    let n = intersection.normal;
    let d = ray.direction;
    let one = Fixed::one();
    lemma_unit_axis_arithmetic(d, n);
    lemma_sqrt_whole_square(1);
    lemma_norm_along_axis(d.x);
    lemma_norm_along_axis(d.y);
    lemma_norm_along_axis(d.z);
    lemma_mul_unit(one);
    lemma_div_one(one);
    lemma_div_one(d.x);
    lemma_div_one(d.y);
    lemma_div_one(d.z);
    assert(d.length() == one);
    assert(d.normalize() == d);
    assert(d.dot(n).raw == -ONE_RAW);
    assert(!spec_leaving(ray, intersection));
    assert(spec_index_ratio(one, ray, intersection) == one);
    let dt = d.dot(n);
    lemma_mul_signed_unit(dt, dt);
    assert(dt.mul(dt) == one);
    assert(spec_refract_discriminant(d, n, one) == one);
    lemma_mul_signed_unit(n.x, dt);
    lemma_mul_signed_unit(n.y, dt);
    lemma_mul_signed_unit(n.z, dt);
    assert(n.scale(dt) == d);
    assert(d.sub(n.scale(dt)) == Vec3::zero());
    lemma_mul_unit(Fixed::zero());
    assert(Vec3::zero().scale(one) == Vec3::zero());
    lemma_mul_unit(n.x);
    lemma_mul_unit(n.y);
    lemma_mul_unit(n.z);
    assert(n.scale(one) == n);
    assert(Vec3::zero().sub(n) == d);
    assert(spec_refract(d, n, one) == Some(d));
    assert(dt.neg() == one);
    assert(spec_incidence_cosine(one, ray, intersection) == one);
    let zero = Fixed::zero();
    assert(one.sub(one) == zero);
    assert(zero.div(one.add(one)) == zero);
    assert(zero.powi5() == zero);
    lemma_mul_unit(one.sub(zero));
    assert(spec_shlick_approximation(one, one) == zero);
}

/// For a unit vector `n` along an axis and its opposite `d`, the inner
/// products are whole: `d . d = 1` and `d . n = -1`.
proof fn lemma_unit_axis_arithmetic(d: Vec3, n: Vec3)
    requires
        is_axis(n),
        d == n.invert(),
    ensures
        d.dot(d) == Fixed::one(),
        d.dot(n).raw == -ONE_RAW,
        is_axis(d),
{
    lemma_mul_signed_unit(d.x, d.x);
    lemma_mul_signed_unit(d.y, d.y);
    lemma_mul_signed_unit(d.z, d.z);
    lemma_mul_signed_unit(d.x, n.x);
    lemma_mul_signed_unit(d.y, n.y);
    lemma_mul_signed_unit(d.z, n.z);
}

} // verus!
