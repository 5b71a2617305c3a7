//! Rays: half-lines given by an origin and a direction.

use crate::fixed::Fixed;
use crate::vector::Vec3;
use vstd::prelude::*;

verus! {

/// A ray.  The direction need not have unit length.
#[derive(Clone, Copy, PartialEq, Eq, Debug, Structural)]
pub struct Ray {
    pub origin: Vec3,
    pub direction: Vec3,
}

impl Ray {
    /// The ray from `origin` along `direction`.
    pub open spec fn spec_new(origin: Vec3, direction: Vec3) -> Ray {
        Ray { origin, direction }
    }

    /// The point `origin + t * direction`.
    pub open spec fn spec_point_along(&self, t: Fixed) -> Vec3 {
        self.origin.add(self.direction.scale(t))
    }

    /// Computes `spec_new`.
    #[verifier::when_used_as_spec(spec_new)]
    pub fn new(origin: Vec3, direction: Vec3) -> (r: Ray)
        ensures
            r == Ray::spec_new(origin, direction),
    {
        Ray { origin, direction }
    }

    /// Computes `spec_point_along`.
    #[verifier::when_used_as_spec(spec_point_along)]
    pub fn point_along(&self, t: Fixed) -> (p: Vec3)
        ensures
            p == self.spec_point_along(t),
    {
        self.origin.add(self.direction.scale(t))
    }
}

} // verus!
