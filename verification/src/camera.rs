//! The camera: from image-plane coordinates to rays.

use crate::fixed::{lemma_mul_unit, Fixed, ONE_RAW};
use crate::ray::Ray;
use crate::trig::{radians, tan};
use crate::vector::{lemma_normalize_has_unit_length, moderate, Vec3};
use vstd::prelude::*;

verus! {

/// A camera with a thin lens.  `lower_left_corner`, `horizontal` and
/// `vertical` span the part of the focus plane that the image shows;
/// `right` and `up` span the lens, whose radius is `lens_radius`.
#[derive(Clone, Copy, PartialEq, Eq, Debug, Structural)]
pub struct Camera {
    pub origin: Vec3,
    pub lower_left_corner: Vec3,
    pub horizontal: Vec3,
    pub vertical: Vec3,
    pub right: Vec3,
    pub up: Vec3,
    pub lens_radius: Fixed,
}

/// Half the height of the image plane at distance one, for a vertical field
/// of view given in degrees: `tan(fov / 2)`.
pub open spec fn spec_half_height(vertical_field_of_view: Fixed) -> Fixed {
    tan(radians(vertical_field_of_view).div(Fixed::from_int(2)))
}

/// Computes `spec_half_height`.
#[verifier::when_used_as_spec(spec_half_height)]
pub fn half_height(vertical_field_of_view: Fixed) -> (r: Fixed)
    ensures
        r == spec_half_height(vertical_field_of_view),
{
    tan(radians(vertical_field_of_view).div(Fixed::from_int(2)))
}

impl Camera {
    /// The camera at `origin` that looks at `view_point`, with `up_hint`
    /// fixing its roll.  The basis is `w = normalize(origin - view_point)`,
    /// `right = normalize(up_hint x w)`, `up = w x right`; the image shows
    /// the rectangle of the focus plane around the axis that is
    /// `2 tan(fov / 2)` times the focus distance high and `aspect_ratio`
    /// times as wide.
    pub open spec fn spec_new(
        origin: Vec3,
        view_point: Vec3,
        up_hint: Vec3,
        vertical_field_of_view: Fixed,
        aspect_ratio: Fixed,
        aperture: Fixed,
        distance_to_focus: Fixed,
    ) -> Camera {
        let half_h = spec_half_height(vertical_field_of_view);
        let half_w = aspect_ratio.mul(half_h);
        let w = origin.sub(view_point).normalize();
        let right = up_hint.cross(w).normalize();
        let up = w.cross(right);
        Camera {
            origin,
            lower_left_corner: origin.sub(right.scale(half_w.mul(distance_to_focus))).sub(
                up.scale(half_h.mul(distance_to_focus)),
            ).sub(w.scale(distance_to_focus)),
            horizontal: right.scale(Fixed::from_int(2).mul(half_w).mul(distance_to_focus)),
            vertical: up.scale(Fixed::from_int(2).mul(half_h).mul(distance_to_focus)),
            right,
            up,
            lens_radius: aperture.div(Fixed::from_int(2)),
        }
    }

    /// The pinhole camera with the given frame.
    pub open spec fn spec_from_frame(
        origin: Vec3,
        lower_left_corner: Vec3,
        horizontal: Vec3,
        vertical: Vec3,
    ) -> Camera {
        Camera {
            origin,
            lower_left_corner,
            horizontal,
            vertical,
            right: Vec3::zero(),
            up: Vec3::zero(),
            lens_radius: Fixed::zero(),
        }
    }

    /// The point of the focus plane at image coordinates `(s, t)`, seen
    /// from the camera's origin: `lower_left_corner + s horizontal +
    /// t vertical - origin`.
    pub open spec fn spec_focus_offset(&self, s: Fixed, t: Fixed) -> Vec3 {
        self.lower_left_corner.add(self.horizontal.scale(s)).add(self.vertical.scale(t)).sub(
            self.origin,
        )
    }

    /// The ray from the centre of the lens through the point of the focus
    /// plane at `(s, t)`; `s = 0` is the left edge and `t = 0` the bottom.
    pub open spec fn spec_create_ray(&self, s: Fixed, t: Fixed) -> Ray {
        Ray { origin: self.origin, direction: self.spec_focus_offset(s, t) }
    }

    /// Where on the lens a ray starts, seen from the centre of the lens, for
    /// a point of the unit disk: `lens_radius (x right + y up)`.
    pub open spec fn spec_lens_offset(&self, lens_point: Vec3) -> Vec3 {
        let on_lens = lens_point.scale(self.lens_radius);
        self.right.scale(on_lens.x).add(self.up.scale(on_lens.y))
    }

    /// The ray from a point of the lens through the point of the focus plane
    /// at `(s, t)`.
    pub open spec fn spec_create_lens_ray(&self, s: Fixed, t: Fixed, lens_point: Vec3) -> Ray {
        let offset = self.spec_lens_offset(lens_point);
        Ray {
            origin: self.origin.add(offset),
            direction: self.spec_focus_offset(s, t).sub(offset),
        }
    }

    /// Computes `spec_new`.
    #[verifier::when_used_as_spec(spec_new)]
    pub fn new(
        origin: Vec3,
        view_point: Vec3,
        up_hint: Vec3,
        vertical_field_of_view: Fixed,
        aspect_ratio: Fixed,
        aperture: Fixed,
        distance_to_focus: Fixed,
    ) -> (c: Camera)
        ensures
            c == Camera::spec_new(
                origin,
                view_point,
                up_hint,
                vertical_field_of_view,
                aspect_ratio,
                aperture,
                distance_to_focus,
            ),
            moderate(up_hint.cross(origin.sub(view_point).normalize())) && up_hint.cross(
                origin.sub(view_point).normalize(),
            ).length().raw > 0 ==> ONE_RAW - 4 <= c.right.length().raw <= ONE_RAW + ONE_RAW
                / up_hint.cross(origin.sub(view_point).normalize()).length().raw + 1,
    {
        proof {
            let sideways = up_hint.cross(origin.sub(view_point).normalize());
            if moderate(sideways) && sideways.length().raw > 0 {
                lemma_normalize_has_unit_length(sideways);
            }
        }
        let half_h = half_height(vertical_field_of_view);
        let half_w = aspect_ratio.mul(half_h);
        let w = origin.sub(view_point).normalize();
        let right = up_hint.cross(w).normalize();
        let up = w.cross(right);
        Camera {
            origin,
            lower_left_corner: origin.sub(right.scale(half_w.mul(distance_to_focus))).sub(
                up.scale(half_h.mul(distance_to_focus)),
            ).sub(w.scale(distance_to_focus)),
            horizontal: right.scale(Fixed::from_int(2).mul(half_w).mul(distance_to_focus)),
            vertical: up.scale(Fixed::from_int(2).mul(half_h).mul(distance_to_focus)),
            right,
            up,
            lens_radius: aperture.div(Fixed::from_int(2)),
        }
    }

    /// Computes `spec_from_frame`.
    #[verifier::when_used_as_spec(spec_from_frame)]
    pub fn from_frame(
        origin: Vec3,
        lower_left_corner: Vec3,
        horizontal: Vec3,
        vertical: Vec3,
    ) -> (c: Camera)
        ensures
            c == Camera::spec_from_frame(origin, lower_left_corner, horizontal, vertical),
    {
        Camera {
            origin,
            lower_left_corner,
            horizontal,
            vertical,
            right: Vec3::zero(),
            up: Vec3::zero(),
            lens_radius: Fixed::zero(),
        }
    }

    /// Computes `spec_create_ray`.
    #[verifier::when_used_as_spec(spec_create_ray)]
    pub fn create_ray(&self, s: Fixed, t: Fixed) -> (r: Ray)
        ensures
            r == self.spec_create_ray(s, t),
    {
        Ray::new(
            self.origin,
            self.lower_left_corner.add(self.horizontal.scale(s)).add(self.vertical.scale(t)).sub(
                self.origin,
            ),
        )
    }

    /// Computes `spec_create_lens_ray`.
    #[verifier::when_used_as_spec(spec_create_lens_ray)]
    pub fn create_lens_ray(&self, s: Fixed, t: Fixed, lens_point: Vec3) -> (r: Ray)
        ensures
            r == self.spec_create_lens_ray(s, t, lens_point),
    {
        let on_lens = lens_point.scale(self.lens_radius);
        let offset = self.right.scale(on_lens.x).add(self.up.scale(on_lens.y));
        let toward = self.lower_left_corner.add(self.horizontal.scale(s)).add(
            self.vertical.scale(t),
        ).sub(self.origin);
        Ray::new(self.origin.add(offset), toward.sub(offset))
    }
}

/// A camera without aperture is a pinhole camera: wherever on the lens a
/// ray is asked to start, it is the ray from the centre.
pub proof fn lemma_no_aperture_is_pinhole(camera: &Camera, s: Fixed, t: Fixed, lens_point: Vec3)
    requires
        camera.lens_radius == Fixed::zero(),
    ensures
        camera.spec_create_lens_ray(s, t, lens_point) == camera.spec_create_ray(s, t),
{
    lemma_mul_unit(lens_point.x);
    lemma_mul_unit(lens_point.y);
    lemma_mul_unit(lens_point.z);
    lemma_mul_unit(camera.right.x);
    lemma_mul_unit(camera.right.y);
    lemma_mul_unit(camera.right.z);
    lemma_mul_unit(camera.up.x);
    lemma_mul_unit(camera.up.y);
    lemma_mul_unit(camera.up.z);
    assert(camera.spec_lens_offset(lens_point) == Vec3::zero());
}

/// The camera of the demonstration scene, for an image of the given size:
/// at `(-5.5, 5.5, -9)`, looking at the origin, 35 degrees high, focused on
/// the origin, with a pinhole for a lens.
pub open spec fn spec_create_camera(width: u32, height: u32) -> Camera {
    let origin = Vec3 {
        x: Fixed::from_ratio(11, 2).neg(),
        y: Fixed::from_ratio(11, 2),
        z: Fixed::from_int(9).neg(),
    };
    let view_point = Vec3::zero();
    Camera::spec_new(
        origin,
        view_point,
        Vec3::from_ints(0, 1, 0),
        Fixed::from_int(35),
        Fixed::from_count(width).div(Fixed::from_count(height)),
        Fixed::zero(),
        origin.sub(view_point).length(),
    )
}

/// Computes `spec_create_camera`.
#[verifier::when_used_as_spec(spec_create_camera)]
pub fn create_camera(width: u32, height: u32) -> (c: Camera)
    ensures
        c == spec_create_camera(width, height),
{
    let origin = Vec3::new(
        Fixed::from_ratio(11, 2).neg(),
        Fixed::from_ratio(11, 2),
        Fixed::from_int(9).neg(),
    );
    let view_point = Vec3::zero();
    Camera::new(
        origin,
        view_point,
        Vec3::from_ints(0, 1, 0),
        Fixed::from_int(35),
        Fixed::from_count(width).div(Fixed::from_count(height)),
        Fixed::zero(),
        origin.sub(view_point).length(),
    )
}

} // verus!
