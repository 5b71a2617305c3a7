//! Hit records and the interface of everything a ray can hit.

use crate::fixed::Fixed;
use crate::material::Material;
use crate::ray::Ray;
use crate::vector::Vec3;
use vstd::prelude::*;

verus! {

/// Where a ray meets a surface.  The normal has unit length up to rounding
/// and need not face the ray.  The material is borrowed from the shape that
/// was hit.
pub struct Intersection<'a> {
    /// The ray parameter of the hit.
    pub distance: Fixed,
    pub point: Vec3,
    pub normal: Vec3,
    pub material: &'a Material,
}

impl<'a> Intersection<'a> {
    /// The record with the given parts.
    pub open spec fn spec_new(
        distance: Fixed,
        point: Vec3,
        normal: Vec3,
        material: &'a Material,
    ) -> Intersection<'a> {
        Intersection { distance, point, normal, material }
    }

    /// The hit lies strictly inside the window `(t_min, t_max)`.
    pub open spec fn within(&self, t_min: Fixed, t_max: Fixed) -> bool {
        t_min.raw < self.distance.raw && self.distance.raw < t_max.raw
    }

    /// Computes `spec_new`.
    #[verifier::when_used_as_spec(spec_new)]
    pub fn new(distance: Fixed, point: Vec3, normal: Vec3, material: &'a Material) -> (r:
        Intersection<'a>)
        ensures
            r == Intersection::spec_new(distance, point, normal, material),
    {
        Intersection { distance, point, normal, material }
    }
}

/// The distance strictly inside the window `(t_min, t_max)`?
pub open spec fn spec_in_window(t: Fixed, t_min: Fixed, t_max: Fixed) -> bool {
    t_min.raw < t.raw && t.raw < t_max.raw
}

/// Computes `spec_in_window`.
#[verifier::when_used_as_spec(spec_in_window)]
pub fn in_window(t: Fixed, t_min: Fixed, t_max: Fixed) -> (r: bool)
    ensures
        r == spec_in_window(t, t_min, t_max),
{
    t.raw < t_max.raw && t.raw > t_min.raw
}

/// The hit, if it lies below `t_max`.
pub open spec fn clip<'a>(hit: Option<Intersection<'a>>, t_max: Fixed) -> Option<Intersection<'a>> {
    match hit {
        Some(h) => if h.distance.raw < t_max.raw {
            Some(h)
        } else {
            None
        },
        None => None,
    }
}

/// The end of the window for the shapes that follow a hit: the distance of
/// the hit, or `t_max` when nothing was hit.
pub open spec fn limit(hit: Option<Intersection>, t_max: Fixed) -> Fixed {
    match hit {
        Some(h) => h.distance,
        None => t_max,
    }
}

/// Something a ray can hit.
pub trait Intersectable {
    /// The hit of `ray` on this shape that `intersects` reports for the
    /// window `(t_min, t_max)`, if there is one.
    spec fn hit(&self, ray: &Ray, t_min: Fixed, t_max: Fixed) -> Option<Intersection<'_>>;

    /// Does `ray` hit this shape at a parameter strictly between `t_min` and
    /// `t_max`, and if so where?
    fn intersects(&self, ray: &Ray, t_min: Fixed, t_max: Fixed) -> (r: Option<Intersection<'_>>)
        ensures
            r == self.hit(ray, t_min, t_max),
            r matches Some(h) ==> h.within(t_min, t_max),
    ;
}

} // verus!
