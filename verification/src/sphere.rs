//! Spheres.

use crate::accuracy::{
    lemma_hit_lies_on_sphere, lemma_sphere_normal_is_unit, moderate_pair, normal_tolerance,
    raw_square_distance, sphere_tolerance,
};
use crate::fixed::{lemma_div_monotone, lemma_square_and_root_signs, magnitude, Fixed, ONE_RAW};
use crate::intersection::{clip, in_window, Intersectable, Intersection};
use crate::material::Material;
use crate::ray::Ray;
use crate::vector::{raw_square_sum, Vec3};
use vstd::prelude::*;

verus! {

/// A sphere around `origin`.
pub struct Sphere {
    pub origin: Vec3,
    pub radius: Fixed,
    pub material: Material,
}

/// The hit record of `ray` on `sphere` at parameter `delta`: the point along
/// the ray and the normal `(point - centre) / radius` there.
pub open spec fn spec_create_intersection<'a>(
    sphere: &'a Sphere,
    delta: Fixed,
    ray: &Ray,
) -> Option<Intersection<'a>> {
    let point = ray.point_along(delta);
    Some(
        Intersection {
            distance: delta,
            point,
            normal: point.sub(sphere.origin).div(sphere.radius),
            material: &sphere.material,
        },
    )
}

/// Computes `spec_create_intersection`.
#[verifier::when_used_as_spec(spec_create_intersection)]
pub fn create_intersection<'a>(sphere: &'a Sphere, delta: Fixed, ray: &Ray) -> (r: Option<
    Intersection<'a>,
>)
    ensures
        r == spec_create_intersection(sphere, delta, ray),
{
    let point = ray.point_along(delta);
    let normal = point.sub(sphere.origin).div(sphere.radius);
    Some(Intersection::new(delta, point, normal, &sphere.material))
}

impl Sphere {
    /// The radius is positive.
    pub open spec fn wf(&self) -> bool {
        self.radius.raw > 0
    }

    /// The sphere around `origin` with the given radius and material.
    pub fn new(origin: Vec3, radius: Fixed, material: Material) -> (s: Sphere)
        requires
            radius.raw > 0,
        ensures
            s.origin == origin,
            s.radius == radius,
            s.material == material,
            s.wf(),
    {
        Sphere { origin, radius, material }
    }

    /// The coefficient `a = D . D` of the quadratic `a t^2 + 2 b t + c = 0`
    /// whose roots are the parameters at which the ray `O + t D` meets the
    /// sphere.
    pub open spec fn quadratic_a(&self, ray: &Ray) -> Fixed {
        ray.direction.dot(ray.direction)
    }

    /// The coefficient `b = (O - C) . D`.
    pub open spec fn quadratic_b(&self, ray: &Ray) -> Fixed {
        ray.origin.sub(self.origin).dot(ray.direction)
    }

    /// The coefficient `c = (O - C) . (O - C) - r^2`.
    pub open spec fn quadratic_c(&self, ray: &Ray) -> Fixed {
        let oc = ray.origin.sub(self.origin);
        oc.dot(oc).sub(self.radius.mul(self.radius))
    }

    /// The discriminant `b^2 - a c`.
    pub open spec fn discriminant(&self, ray: &Ray) -> Fixed {
        let b = self.quadratic_b(ray);
        b.mul(b).sub(self.quadratic_a(ray).mul(self.quadratic_c(ray)))
    }

    /// The smaller root `(-b - sqrt(discriminant)) / a`.
    pub open spec fn near_root(&self, ray: &Ray) -> Fixed {
        self.quadratic_b(ray).neg().sub(self.discriminant(ray).sqrt()).div(self.quadratic_a(ray))
    }

    /// The larger root `(-b + sqrt(discriminant)) / a`.
    pub open spec fn far_root(&self, ray: &Ray) -> Fixed {
        self.quadratic_b(ray).neg().add(self.discriminant(ray).sqrt()).div(self.quadratic_a(ray))
    }
}

impl Intersectable for Sphere {
    /// No hit unless the discriminant is positive; then the smaller root if
    /// it lies in the window, else the larger root if that one does.
    open spec fn hit(&self, ray: &Ray, t_min: Fixed, t_max: Fixed) -> Option<Intersection<'_>> {
        if self.discriminant(ray).raw > 0 {
            if in_window(self.near_root(ray), t_min, t_max) {
                create_intersection(self, self.near_root(ray), ray)
            } else if in_window(self.far_root(ray), t_min, t_max) {
                create_intersection(self, self.far_root(ray), ray)
            } else {
                None
            }
        } else {
            None
        }
    }

    /// A reported hit lies on the sphere up to rounding: for a sphere and a
    /// ray of moderate size, the squared distance of the hit point from the
    /// centre differs from the squared radius by no more than the
    /// tolerance, and so does the squared length of the normal from one.
    fn intersects(&self, ray: &Ray, t_min: Fixed, t_max: Fixed) -> (r: Option<Intersection<'_>>)
        ensures
            moderate_pair(self, ray) && r is Some ==> ONE_RAW * magnitude(
                raw_square_distance(r->0.point, self.origin) - self.radius.raw * self.radius.raw,
            ) <= sphere_tolerance(self, ray, r->0.distance, r->0.point),
            moderate_pair(self, ray) && self.radius.raw >= 0x40_0000 && r is Some ==> (
            self.radius.raw * self.radius.raw) * magnitude(
                raw_square_sum(r->0.normal) - ONE_RAW * ONE_RAW,
            ) <= normal_tolerance(self, ray, r->0.distance, r->0.point),
    {
        proof {
            if moderate_pair(self, ray) && self.hit(ray, t_min, t_max) is Some {
                lemma_hit_lies_on_sphere(self, ray, t_min, t_max);
                if self.radius.raw >= 0x40_0000 {
                    lemma_sphere_normal_is_unit(self, ray, t_min, t_max);
                }
            }
        }
        let translated_origin = ray.origin.sub(self.origin);
        let a = ray.direction.dot(ray.direction);
        let b = translated_origin.dot(ray.direction);
        let c = translated_origin.dot(translated_origin).sub(self.radius.mul(self.radius));
        let discriminant = b.mul(b).sub(a.mul(c));
        if discriminant.raw > 0 {
            let delta = b.neg().sub(discriminant.sqrt()).div(a);
            if in_window(delta, t_min, t_max) {
                return create_intersection(self, delta, ray);
            }
            let delta = b.neg().add(discriminant.sqrt()).div(a);
            if in_window(delta, t_min, t_max) {
                return create_intersection(self, delta, ray);
            }
            None
        } else {
            None
        }
    }
}

/// The smaller root is not above the larger one.
pub proof fn lemma_roots_are_ordered(sphere: &Sphere, ray: &Ray)
    ensures
        sphere.near_root(ray).raw <= sphere.far_root(ray).raw,
{
    let d = ray.direction;
    lemma_square_and_root_signs(d.x);
    lemma_square_and_root_signs(d.y);
    lemma_square_and_root_signs(d.z);
    lemma_square_and_root_signs(sphere.discriminant(ray));
    let minus_b = sphere.quadratic_b(ray).neg();
    let root = sphere.discriminant(ray).sqrt();
    lemma_div_monotone(minus_b.sub(root), minus_b.add(root), sphere.quadratic_a(ray));
}

/// How the hit on a sphere depends on the window.  A hit lies strictly
/// inside the window, and a window that ends earlier shows the same hit if
/// it still holds it and none otherwise.
pub proof fn lemma_sphere_window(
    sphere: &Sphere,
    ray: &Ray,
    t_min: Fixed,
    t_max: Fixed,
    earlier: Fixed,
)
    requires
        earlier.raw <= t_max.raw,
    ensures
        sphere.hit(ray, t_min, t_max) matches Some(h) ==> h.within(t_min, t_max),
        sphere.hit(ray, t_min, earlier) == clip(sphere.hit(ray, t_min, t_max), earlier),
{
    lemma_roots_are_ordered(sphere, ray);
}

} // verus!
