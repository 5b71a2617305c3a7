//! Scenes: flat collections of shapes.

use crate::fixed::Fixed;
use crate::intersection::{clip, limit, Intersectable, Intersection};
use crate::mesh::{lemma_mesh_hit_is_physical, lemma_mesh_window, Mesh};
use crate::ray::Ray;
use crate::sphere::{lemma_sphere_window, Sphere};
use vstd::prelude::*;

verus! {

/// The shapes a scene can hold.
pub enum Shape {
    Sphere(Sphere),
    Mesh(Mesh),
}

impl Shape {
    /// The materials of the shape are physical.
    pub open spec fn physical(&self) -> bool {
        match self {
            Shape::Sphere(sphere) => sphere.material.physical(),
            Shape::Mesh(mesh) => mesh.physical(),
        }
    }
}

impl Intersectable for Shape {
    open spec fn hit(&self, ray: &Ray, t_min: Fixed, t_max: Fixed) -> Option<Intersection<'_>> {
        match self {
            Shape::Sphere(sphere) => sphere.hit(ray, t_min, t_max),
            Shape::Mesh(mesh) => mesh.hit(ray, t_min, t_max),
        }
    }

    fn intersects(&self, ray: &Ray, t_min: Fixed, t_max: Fixed) -> (r: Option<Intersection<'_>>) {
        match self {
            Shape::Sphere(sphere) => sphere.intersects(ray, t_min, t_max),
            Shape::Mesh(mesh) => mesh.intersects(ray, t_min, t_max),
        }
    }
}

/// A scene owns its shapes.
pub struct Scene {
    pub shapes: Vec<Shape>,
}

impl Scene {
    /// The scene that holds `shapes`.
    pub fn new(shapes: Vec<Shape>) -> (s: Scene)
        ensures
            s.shapes == shapes,
    {
        Scene { shapes }
    }

    /// The materials of all shapes are physical.
    pub open spec fn physical(&self) -> bool {
        forall|i: int| 0 <= i < self.shapes.len() ==> (#[trigger] self.shapes[i]).physical()
    }

    /// The nearest hit among the first `n` shapes: each shape is tried in a
    /// window that ends at the nearest hit before it.
    pub open spec fn nearest_among(&self, ray: &Ray, t_min: Fixed, t_max: Fixed, n: int) -> Option<
        Intersection<'_>,
    >
        decreases n,
    {
        if n <= 0 {
            None
        } else {
            let before = self.nearest_among(ray, t_min, t_max, n - 1);
            let limit = match before {
                Some(h) => h.distance,
                None => t_max,
            };
            match self.shapes[n - 1].hit(ray, t_min, limit) {
                Some(h) => Some(h),
                None => before,
            }
        }
    }
}

impl Intersectable for Scene {
    /// The nearest hit among all shapes.
    open spec fn hit(&self, ray: &Ray, t_min: Fixed, t_max: Fixed) -> Option<Intersection<'_>> {
        self.nearest_among(ray, t_min, t_max, self.shapes.len() as int)
    }

    /// The nearest hit among all shapes, whatever their order: the scene is
    /// missed exactly when every shape is missed, a reported hit is the hit
    /// on one of the shapes, and no shape is hit nearer.
    fn intersects(&self, ray: &Ray, t_min: Fixed, t_max: Fixed) -> (r: Option<Intersection<'_>>)
        ensures
            r is None <==> forall|i: int|
                0 <= i < self.shapes.len() ==> (#[trigger] self.shapes[i]).hit(ray, t_min, t_max)
                    is None,
            r is Some ==> exists|i: int|
                0 <= i < self.shapes.len() && (#[trigger] self.shapes[i]).hit(ray, t_min, t_max)
                    == r,
            forall|i: int|
                0 <= i < self.shapes.len() && (#[trigger] self.shapes[i]).hit(ray, t_min, t_max)
                    is Some ==> r is Some && r->0.distance.raw <= self.shapes[i].hit(
                    ray,
                    t_min,
                    t_max,
                )->0.distance.raw,
    {
        let mut intersection: Option<Intersection> = None;
        let mut closest_so_far = t_max;
        let mut i: usize = 0;
        while i < self.shapes.len()
            invariant
                i <= self.shapes.len(),
                intersection == self.nearest_among(ray, t_min, t_max, i as int),
                closest_so_far == match intersection {
                    Some(h) => h.distance,
                    None => t_max,
                },
                closest_so_far.raw <= t_max.raw,
                intersection matches Some(h) ==> h.within(t_min, t_max),
            decreases self.shapes.len() - i,
        {
            match self.shapes[i].intersects(ray, t_min, closest_so_far) {
                Some(other_intersection) => {
                    closest_so_far = other_intersection.distance;
                    intersection = Some(other_intersection);
                },
                None => (),
            }
            i = i + 1;
        }
        proof {
            let n = self.shapes.len() as int;
            self.lemma_miss_means_all_miss(ray, t_min, t_max);
            if intersection is Some {
                let found = self.lemma_hit_is_on_a_shape(ray, t_min, t_max, n);
                assert(self.shapes[found].hit(ray, t_min, t_max) == intersection);
            }
            assert forall|i: int|
                0 <= i < n && (#[trigger] self.shapes[i]).hit(ray, t_min, t_max)
                    is Some implies intersection is Some && intersection->0.distance.raw
                <= self.shapes[i].hit(ray, t_min, t_max)->0.distance.raw by {
                self.lemma_hit_is_nearest(ray, t_min, t_max, i, n);
            }
        }
        intersection
    }
}

/// How the hit on a shape depends on the window: it lies strictly inside,
/// and a window that ends earlier shows the same hit if it still holds it
/// and none otherwise.
pub proof fn lemma_shape_window(
    shape: &Shape,
    ray: &Ray,
    t_min: Fixed,
    t_max: Fixed,
    earlier: Fixed,
)
    requires
        earlier.raw <= t_max.raw,
    ensures
        shape.hit(ray, t_min, t_max) matches Some(h) ==> h.within(t_min, t_max),
        shape.hit(ray, t_min, earlier) == clip(shape.hit(ray, t_min, t_max), earlier),
{
    match shape {
        Shape::Sphere(sphere) => lemma_sphere_window(sphere, ray, t_min, t_max, earlier),
        Shape::Mesh(mesh) => lemma_mesh_window(mesh, ray, t_min, t_max, earlier),
    }
}

impl Scene {
    /// How the nearest hit among the first `n` shapes depends on the
    /// window.
    pub proof fn lemma_prefix_window(
        &self,
        ray: &Ray,
        t_min: Fixed,
        t_max: Fixed,
        earlier: Fixed,
        n: int,
    )
        requires
            earlier.raw <= t_max.raw,
            n <= self.shapes.len(),
        ensures
            self.nearest_among(ray, t_min, t_max, n) matches Some(h) ==> h.within(t_min, t_max),
            self.nearest_among(ray, t_min, earlier, n) == clip(
                self.nearest_among(ray, t_min, t_max, n),
                earlier,
            ),
        decreases n,
    {
        if n > 0 {
            self.lemma_prefix_window(ray, t_min, t_max, earlier, n - 1);
            let wide = self.nearest_among(ray, t_min, t_max, n - 1);
            let narrow = self.nearest_among(ray, t_min, earlier, n - 1);
            lemma_shape_window(
                &self.shapes[n - 1],
                ray,
                t_min,
                limit(wide, t_max),
                limit(narrow, earlier),
            );
        }
    }

    /// The scene reports the nearest of the hits on its shapes, whatever
    /// their order.  If shape `i` alone is hit in the window, the scene is
    /// hit, and not farther away.
    pub proof fn lemma_hit_is_nearest(&self, ray: &Ray, t_min: Fixed, t_max: Fixed, i: int, n: int)
        requires
            0 <= i < n <= self.shapes.len(),
            self.shapes[i].hit(ray, t_min, t_max) is Some,
        ensures
            self.nearest_among(ray, t_min, t_max, n) is Some,
            self.nearest_among(ray, t_min, t_max, n)->0.distance.raw <= self.shapes[i].hit(
                ray,
                t_min,
                t_max,
            )->0.distance.raw,
        decreases n,
    {
        let before = self.nearest_among(ray, t_min, t_max, n - 1);
        self.lemma_prefix_window(ray, t_min, t_max, t_max, n - 1);
        lemma_shape_window(&self.shapes[n - 1], ray, t_min, t_max, limit(before, t_max));
        if i < n - 1 {
            self.lemma_hit_is_nearest(ray, t_min, t_max, i, n - 1);
        }
    }

    /// What the scene reports is the hit on one of its shapes, tried alone
    /// in the whole window.
    pub proof fn lemma_hit_is_on_a_shape(
        &self,
        ray: &Ray,
        t_min: Fixed,
        t_max: Fixed,
        n: int,
    ) -> (i: int)
        requires
            n <= self.shapes.len(),
            self.nearest_among(ray, t_min, t_max, n) is Some,
        ensures
            0 <= i < n,
            self.shapes[i].hit(ray, t_min, t_max) == self.nearest_among(ray, t_min, t_max, n),
        decreases n,
    {
        if n <= 0 {
            0
        } else {
            let before = self.nearest_among(ray, t_min, t_max, n - 1);
            self.lemma_prefix_window(ray, t_min, t_max, t_max, n - 1);
            lemma_shape_window(&self.shapes[n - 1], ray, t_min, t_max, limit(before, t_max));
            if self.shapes[n - 1].hit(ray, t_min, limit(before, t_max)) is Some {
                n - 1
            } else {
                self.lemma_hit_is_on_a_shape(ray, t_min, t_max, n - 1)
            }
        }
    }

    /// A scene is missed exactly when every one of its shapes is missed.
    pub proof fn lemma_miss_means_all_miss(&self, ray: &Ray, t_min: Fixed, t_max: Fixed)
        ensures
            self.hit(ray, t_min, t_max) is None <==> forall|i: int|
                0 <= i < self.shapes.len() ==> (#[trigger] self.shapes[i]).hit(ray, t_min, t_max)
                    is None,
    {
        let n = self.shapes.len() as int;
        if self.hit(ray, t_min, t_max) is Some {
            let i = self.lemma_hit_is_on_a_shape(ray, t_min, t_max, n);
            assert(self.shapes[i].hit(ray, t_min, t_max) is Some);
        } else {
            assert forall|i: int| 0 <= i < n implies (#[trigger] self.shapes[i]).hit(
                ray,
                t_min,
                t_max,
            ) is None by {
                if self.shapes[i].hit(ray, t_min, t_max) is Some {
                    self.lemma_hit_is_nearest(ray, t_min, t_max, i, n);
                }
            }
        }
    }
}

/// Whatever a physical scene reports as hit is of a physical material.
pub proof fn lemma_scene_hit_is_physical(
    scene: &Scene,
    ray: &Ray,
    t_min: Fixed,
    t_max: Fixed,
    n: int,
)
    requires
        scene.physical(),
        n <= scene.shapes.len(),
    ensures
        scene.nearest_among(ray, t_min, t_max, n) matches Some(h) ==> h.material.physical(),
    decreases n,
{
    if n > 0 {
        lemma_scene_hit_is_physical(scene, ray, t_min, t_max, n - 1);
        let before = scene.nearest_among(ray, t_min, t_max, n - 1);
        let limit = limit(before, t_max);
        match scene.shapes[n - 1] {
            Shape::Sphere(sphere) => {},
            Shape::Mesh(mesh) => {
                lemma_mesh_hit_is_physical(&mesh, ray, t_min, limit, mesh.faces().len() as int);
            },
        }
    }
}

} // verus!
