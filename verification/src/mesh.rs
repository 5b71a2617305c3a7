//! Triangles and triangle meshes.

use crate::accuracy::{
    lemma_hit_lies_in_plane, moderate_triangle_pair, plane_tolerance, raw_dot, raw_of,
    raw_plane_normal,
};
use crate::color::Color;
use crate::fixed::{magnitude, Fixed, ONE_RAW};
use crate::intersection::{clip, in_window, limit, Intersectable, Intersection};
use crate::material::Material;
use crate::ray::Ray;
use crate::vector::{lemma_normalize_has_unit_length, moderate, Vec3};
use vstd::prelude::*;

verus! {

/// A triangle, given by its corners.
pub struct Triangle {
    pub vertices: [Vec3; 3],
}

/// Below this magnitude of the determinant a ray counts as parallel to the
/// plane of a triangle: `10^-8`.
pub open spec fn spec_parallel_bound() -> Fixed {
    Fixed::from_ratio(1, 100_000_000)
}

/// Computes `spec_parallel_bound`.
#[verifier::when_used_as_spec(spec_parallel_bound)]
pub fn parallel_bound() -> (r: Fixed)
    ensures
        r == spec_parallel_bound(),
{
    Fixed::from_ratio(1, 100_000_000)
}

/// The bound is 42 raw units.
pub proof fn lemma_parallel_bound_value()
    ensures
        spec_parallel_bound().raw == 42,
        spec_parallel_bound().neg().raw == -42,
{
    let one = Fixed::from_int(1);
    let large = Fixed::from_int(100_000_000);
    assert(one.raw == 0x1_0000_0000);
    assert(large.raw == 0x5f5_e100_0000_0000);
    assert(one.raw * ONE_RAW == 0x1_0000_0000_0000_0000);
    assert(0x1_0000_0000_0000_0000int / 0x5f5_e100_0000_0000int == 42);
}

impl Triangle {
    /// The triangle with the corners `a`, `b` and `c`.
    pub fn new(a: Vec3, b: Vec3, c: Vec3) -> (t: Triangle)
        ensures
            t.vertices[0] == a,
            t.vertices[1] == b,
            t.vertices[2] == c,
    {
        Triangle { vertices: [a, b, c] }
    }

    /// The edge from the first corner to the second.
    pub open spec fn edge1(&self) -> Vec3 {
        self.vertices[1].sub(self.vertices[0])
    }

    /// The edge from the first corner to the third.
    pub open spec fn edge2(&self) -> Vec3 {
        self.vertices[2].sub(self.vertices[0])
    }

    /// The determinant `e1 . (D x e2)` of the system that the ray and the
    /// plane of the triangle form.
    pub open spec fn determinant(&self, ray: &Ray) -> Fixed {
        self.edge1().dot(ray.direction.cross(self.edge2()))
    }

    /// The ray is parallel to the plane of the triangle, up to the bound.
    pub open spec fn parallel(&self, ray: &Ray) -> bool {
        self.determinant(ray).raw > spec_parallel_bound().neg().raw && self.determinant(ray).raw
            < spec_parallel_bound().raw
    }

    /// First barycentric coordinate of the point where the ray meets the
    /// plane: `((O - v0) . (D x e2)) / determinant`.
    pub open spec fn barycentric_u(&self, ray: &Ray) -> Fixed {
        ray.origin.sub(self.vertices[0]).dot(ray.direction.cross(self.edge2())).div(
            self.determinant(ray),
        )
    }

    /// Second barycentric coordinate:
    /// `(D . ((O - v0) x e1)) / determinant`.
    pub open spec fn barycentric_v(&self, ray: &Ray) -> Fixed {
        ray.direction.dot(ray.origin.sub(self.vertices[0]).cross(self.edge1())).div(
            self.determinant(ray),
        )
    }

    /// The ray parameter of that point:
    /// `(e2 . ((O - v0) x e1)) / determinant`.
    pub open spec fn plane_distance(&self, ray: &Ray) -> Fixed {
        self.edge2().dot(ray.origin.sub(self.vertices[0]).cross(self.edge1())).div(
            self.determinant(ray),
        )
    }

    /// The point where the ray meets the plane lies in the triangle:
    /// `0 <= u <= 1`, `0 <= v` and `u + v <= 1`.
    pub open spec fn covers(&self, ray: &Ray) -> bool {
        let u = self.barycentric_u(ray);
        let v = self.barycentric_v(ray);
        0 <= u.raw && u.raw <= ONE_RAW && 0 <= v.raw && u.add(v).raw <= ONE_RAW
    }

    /// The face normal `normalize(e1 x e2)`.
    pub open spec fn normal(&self) -> Vec3 {
        self.edge1().cross(self.edge2()).normalize()
    }
}

/// The hit of `ray` on `triangle`: none when the ray is parallel to its
/// plane, meets the plane outside the triangle, or meets it outside the
/// window.
#[verifier::opaque]
pub open spec fn spec_intersects<'a>(
    triangle: &Triangle,
    ray: &Ray,
    material: &'a Material,
    t_min: Fixed,
    t_max: Fixed,
) -> Option<Intersection<'a>> {
    if !triangle.parallel(ray) && triangle.covers(ray) && in_window(
        triangle.plane_distance(ray),
        t_min,
        t_max,
    ) {
        Some(
            Intersection {
                distance: triangle.plane_distance(ray),
                point: ray.point_along(triangle.plane_distance(ray)),
                normal: triangle.normal(),
                material,
            },
        )
    } else {
        None
    }
}

/// Ray against triangle, after Moeller and Trumbore.
#[verifier::when_used_as_spec(spec_intersects)]
pub fn intersects<'a>(
    triangle: &Triangle,
    ray: &Ray,
    material: &'a Material,
    t_min: Fixed,
    t_max: Fixed,
) -> (r: Option<Intersection<'a>>)
    ensures
        r == spec_intersects(triangle, ray, material, t_min, t_max),
        r matches Some(h) ==> h.within(t_min, t_max) && triangle.covers(ray),
        moderate_triangle_pair(triangle, ray) && r is Some && magnitude(r->0.distance.raw as int)
            <= 0x4_0000_0000_0000 ==> magnitude(
            raw_dot(raw_of(r->0.point.sub(triangle.vertices[0])), raw_plane_normal(triangle)),
        ) <= plane_tolerance(triangle, ray, r->0.distance),
        r is Some && moderate(triangle.edge1().cross(triangle.edge2())) && triangle.edge1().cross(
            triangle.edge2(),
        ).length().raw > 0 ==> ONE_RAW - 4 <= r->0.normal.length().raw <= ONE_RAW + ONE_RAW
            / triangle.edge1().cross(triangle.edge2()).length().raw + 1,
{
    reveal(spec_intersects);
    proof {
        let across = triangle.edge1().cross(triangle.edge2());
        if moderate(across) && across.length().raw > 0 {
            lemma_normalize_has_unit_length(across);
        }
        if moderate_triangle_pair(triangle, ray) && spec_intersects(
            triangle,
            ray,
            material,
            t_min,
            t_max,
        ) is Some && magnitude(triangle.plane_distance(ray).raw as int) <= 0x4_0000_0000_0000 {
            lemma_hit_lies_in_plane(triangle, ray, material, t_min, t_max);
        }
    }
    let p = ray.origin;
    let d = ray.direction;
    let v0 = triangle.vertices[0];
    let v1 = triangle.vertices[1];
    let v2 = triangle.vertices[2];
    let e1 = v1.sub(v0);
    let e2 = v2.sub(v0);
    let h = d.cross(e2);
    let a0 = e1.dot(h);
    if a0.raw > parallel_bound().neg().raw && a0.raw < parallel_bound().raw {
        return None;
    }
    let s = p.sub(v0);
    let u = s.dot(h).div(a0);
    if u.raw < 0 || u.raw > ONE_RAW {
        return None;
    }
    let q = s.cross(e1);
    let v = d.dot(q).div(a0);
    if v.raw < 0 || u.add(v).raw > ONE_RAW {
        return None;
    }
    let t = e2.dot(q).div(a0);
    if in_window(t, t_min, t_max) {
        let point = ray.point_along(t);
        let normal = e1.cross(e2).normalize();
        Some(Intersection::new(t, point, normal, material))
    } else {
        None
    }
}

/// Every hit that is reported lies inside the triangle and inside the
/// window: its barycentric coordinates satisfy `0 <= u`, `0 <= v` and
/// `u + v <= 1`, the ray is not parallel to the plane, and the hit is the
/// point of the ray at the reported distance.
pub proof fn lemma_hit_lies_in_triangle(
    triangle: &Triangle,
    ray: &Ray,
    material: &Material,
    t_min: Fixed,
    t_max: Fixed,
)
    requires
        spec_intersects(triangle, ray, material, t_min, t_max) is Some,
    ensures
        0 <= triangle.barycentric_u(ray).raw,
        0 <= triangle.barycentric_v(ray).raw,
        triangle.barycentric_u(ray).add(triangle.barycentric_v(ray)).raw <= ONE_RAW,
        !triangle.parallel(ray),
        spec_intersects(triangle, ray, material, t_min, t_max)->0.within(t_min, t_max),
        spec_intersects(triangle, ray, material, t_min, t_max)->0.point == ray.point_along(
            spec_intersects(triangle, ray, material, t_min, t_max)->0.distance,
        ),
        spec_intersects(triangle, ray, material, t_min, t_max)->0.distance
            == triangle.plane_distance(ray),
{
    reveal(spec_intersects);
}

/// A triangle of a mesh with the name of its material, if it names one.
pub struct Face {
    pub triangle: Triangle,
    pub material_name: Option<String>,
}

/// An entry of a material library.
pub struct NamedMaterial {
    pub name: String,
    pub material: Material,
}

/// The name under which the material of a face is looked up: its own, or
/// `default` when it has none.
pub open spec fn spec_wanted_name(face: &Face) -> Seq<char> {
    match face.material_name {
        Some(name) => name@,
        None => "default"@,
    }
}

/// `k` is the position of the first entry of `materials` named `name`, or
/// the length of `materials` when no entry has that name.
pub open spec fn is_first_match(materials: Seq<NamedMaterial>, name: Seq<char>, k: int) -> bool {
    &&& 0 <= k <= materials.len()
    &&& k < materials.len() ==> materials[k].name@ == name
    &&& forall|j: int| 0 <= j < k ==> (#[trigger] materials[j]).name@ != name
}

/// The position of the first entry named `name`, or the length when there
/// is none.
pub open spec fn spec_find_material(materials: Seq<NamedMaterial>, name: Seq<char>) -> int {
    choose|k: int| is_first_match(materials, name, k)
}

/// The position of the first entry named `name`.
pub fn find_material(materials: &Vec<NamedMaterial>, name: &String) -> (k: usize)
    ensures
        is_first_match(materials@, name@, k as int),
        k == spec_find_material(materials@, name@),
{
    let mut k: usize = 0;
    while k < materials.len()
        invariant_except_break
            k <= materials.len(),
            forall|j: int| 0 <= j < k ==> (#[trigger] materials@[j]).name@ != name@,
        ensures
            is_first_match(materials@, name@, k as int),
        decreases materials.len() - k,
    {
        if materials[k].name == *name {
            break ;
        }
        k = k + 1;
    }
    proof {
        let chosen = spec_find_material(materials@, name@);
        lemma_first_match_unique(materials@, name@, k as int, chosen);
    }
    k
}

/// The first match is unique.
pub proof fn lemma_first_match_unique(
    materials: Seq<NamedMaterial>,
    name: Seq<char>,
    k1: int,
    k2: int,
)
    requires
        is_first_match(materials, name, k1),
    ensures
        is_first_match(materials, name, spec_find_material(materials, name)),
        is_first_match(materials, name, k2) ==> k1 == k2,
{
}

/// The material of faces whose material the library does not hold: a
/// sharp light-grey mirror.
pub open spec fn spec_default_material() -> Material {
    Material {
        albedo: Color {
            r: Fixed::from_ratio(64, 100),
            g: Fixed::from_ratio(64, 100),
            b: Fixed::from_ratio(64, 100),
        },
        diffusiveness: Some(Fixed::zero()),
        refraction_index: None,
        texture: None,
    }
}

/// Computes `spec_default_material`.
#[verifier::when_used_as_spec(spec_default_material)]
pub fn default_material() -> (m: Material)
    ensures
        m == spec_default_material(),
        m.wf(),
{
    let grey = Fixed::from_ratio(64, 100);
    Material::reflective(Color::new(grey, grey, grey), Fixed::zero())
}

/// A triangle mesh.  Each face is bound to the first material of the
/// library that carries the name the face asks for, and to the default
/// material when there is none.
pub struct Mesh {
    faces: Vec<Face>,
    bindings: Vec<usize>,
    materials: Vec<NamedMaterial>,
    fallback: Material,
}

impl Mesh {
    #[verifier::type_invariant]
    spec fn inv(self) -> bool {
        &&& self.bindings.len() == self.faces.len()
        &&& forall|i: int|
            0 <= i < self.faces.len() ==> is_first_match(
                self.materials@,
                spec_wanted_name(&self.faces[i]),
                #[trigger] self.bindings[i] as int,
            )
    }

    /// The faces, in the order given at construction.
    pub closed spec fn faces(&self) -> Seq<Face> {
        self.faces@
    }

    /// The material library.
    pub closed spec fn materials(&self) -> Seq<NamedMaterial> {
        self.materials@
    }

    /// The material of faces that the library does not serve.
    pub closed spec fn fallback(&self) -> Material {
        self.fallback
    }

    /// Every material that a face can be bound to is physical.
    pub closed spec fn physical(&self) -> bool {
        &&& self.fallback.physical()
        &&& forall|k: int|
            0 <= k < self.materials.len() ==> (#[trigger] self.materials[k]).material.physical()
    }

    /// The material to which face `i` is bound.
    pub open spec fn material_of(&self, i: int) -> Material {
        let k = spec_find_material(self.materials(), spec_wanted_name(&self.faces()[i]));
        if k < self.materials().len() {
            self.materials()[k].material
        } else {
            self.fallback()
        }
    }

    /// The nearest hit among the first `n` faces: each face is tried in a
    /// window that ends at the nearest hit before it.
    pub open spec fn nearest_among(&self, ray: &Ray, t_min: Fixed, t_max: Fixed, n: int) -> Option<
        Intersection<'_>,
    >
        decreases n,
    {
        if n <= 0 {
            None
        } else {
            let before = self.nearest_among(ray, t_min, t_max, n - 1);
            let limit = match before {
                Some(h) => h.distance,
                None => t_max,
            };
            match spec_intersects(
                &self.faces()[n - 1].triangle,
                ray,
                &self.material_of(n - 1),
                t_min,
                limit,
            ) {
                Some(h) => Some(h),
                None => before,
            }
        }
    }

    /// Binds every face to its material.
    pub fn new(faces: Vec<Face>, materials: Vec<NamedMaterial>) -> (m: Mesh)
        ensures
            m.faces() == faces@,
            m.materials() == materials@,
            m.fallback() == spec_default_material(),
            m.physical() <==> forall|k: int|
                0 <= k < materials.len() ==> (#[trigger] materials[k]).material.physical(),
    {
        let mut bindings: Vec<usize> = Vec::new();
        let default_name = "default".to_owned();
        let mut i: usize = 0;
        while i < faces.len()
            invariant
                i <= faces.len(),
                bindings.len() == i,
                default_name@ == "default"@,
                forall|j: int|
                    0 <= j < i ==> is_first_match(
                        materials@,
                        spec_wanted_name(&faces[j]),
                        #[trigger] bindings[j] as int,
                    ),
            decreases faces.len() - i,
        {
            let k = match &faces[i].material_name {
                Some(name) => find_material(&materials, name),
                None => find_material(&materials, &default_name),
            };
            bindings.push(k);
            i = i + 1;
        }
        proof {
            lemma_default_material_is_physical();
        }
        Mesh { faces, bindings, materials, fallback: default_material() }
    }

    fn bound_material(&self, i: usize) -> (m: &Material)
        requires
            i < self.faces().len(),
        ensures
            *m == self.material_of(i as int),
    {
        proof {
            use_type_invariant(self);
            lemma_first_match_unique(
                self.materials@,
                spec_wanted_name(&self.faces[i as int]),
                self.bindings[i as int] as int,
                spec_find_material(self.materials@, spec_wanted_name(&self.faces[i as int])),
            );
        }
        let k = self.bindings[i];
        if k < self.materials.len() {
            &self.materials[k].material
        } else {
            &self.fallback
        }
    }
}

impl Intersectable for Mesh {
    /// The nearest hit among all faces.
    open spec fn hit(&self, ray: &Ray, t_min: Fixed, t_max: Fixed) -> Option<Intersection<'_>> {
        self.nearest_among(ray, t_min, t_max, self.faces().len() as int)
    }

    /// The nearest hit among all faces, whatever their order: a reported
    /// hit is the hit on one of the faces, and no face is hit nearer.
    fn intersects(&self, ray: &Ray, t_min: Fixed, t_max: Fixed) -> (r: Option<Intersection<'_>>)
        ensures
            r is Some ==> exists|i: int|
                0 <= i < self.faces().len() && #[trigger] self.face_hit(i, ray, t_min, t_max) == r,
            forall|i: int|
                0 <= i < self.faces().len() && (#[trigger] self.face_hit(i, ray, t_min, t_max))
                    is Some ==> r is Some && r->0.distance.raw <= self.face_hit(
                    i,
                    ray,
                    t_min,
                    t_max,
                )->0.distance.raw,
    {
        let mut intersection: Option<Intersection> = None;
        let mut closest_so_far = t_max;
        let mut i: usize = 0;
        while i < self.faces.len()
            invariant
                i <= self.faces().len(),
                self.faces().len() == self.faces.len(),
                intersection == self.nearest_among(ray, t_min, t_max, i as int),
                closest_so_far == match intersection {
                    Some(h) => h.distance,
                    None => t_max,
                },
                closest_so_far.raw <= t_max.raw,
                intersection matches Some(h) ==> h.within(t_min, t_max),
            decreases self.faces.len() - i,
        {
            let material = self.bound_material(i);
            match intersects(&self.faces[i].triangle, ray, material, t_min, closest_so_far) {
                Some(other_intersection) => {
                    closest_so_far = other_intersection.distance;
                    intersection = Some(other_intersection);
                },
                None => (),
            }
            i = i + 1;
        }
        proof {
            let n = self.faces().len() as int;
            if intersection is Some {
                let found = self.lemma_hit_is_on_a_face(ray, t_min, t_max, n);
                assert(self.face_hit(found, ray, t_min, t_max) == intersection);
            }
            assert forall|i: int|
                0 <= i < n && (#[trigger] self.face_hit(i, ray, t_min, t_max))
                    is Some implies intersection is Some && intersection->0.distance.raw
                <= self.face_hit(i, ray, t_min, t_max)->0.distance.raw by {
                self.lemma_hit_is_nearest(ray, t_min, t_max, i, n);
            }
        }
        intersection
    }
}

/// How the hit on a triangle depends on the window: it lies strictly
/// inside, and a window that ends earlier shows the same hit if it still
/// holds it and none otherwise.
pub proof fn lemma_triangle_window(
    triangle: &Triangle,
    ray: &Ray,
    material: &Material,
    t_min: Fixed,
    t_max: Fixed,
    earlier: Fixed,
)
    requires
        earlier.raw <= t_max.raw,
    ensures
        spec_intersects(triangle, ray, material, t_min, t_max) matches Some(h) ==> h.within(
            t_min,
            t_max,
        ),
        spec_intersects(triangle, ray, material, t_min, earlier) == clip(
            spec_intersects(triangle, ray, material, t_min, t_max),
            earlier,
        ),
{
    reveal(spec_intersects);
}

impl Mesh {
    /// The face `i` alone, tried in the window `(t_min, t_max)`.
    pub open spec fn face_hit(&self, i: int, ray: &Ray, t_min: Fixed, t_max: Fixed) -> Option<
        Intersection<'_>,
    > {
        spec_intersects(&self.faces()[i].triangle, ray, &self.material_of(i), t_min, t_max)
    }

    /// How the nearest hit among the first `n` faces depends on the window.
    pub proof fn lemma_prefix_window(
        &self,
        ray: &Ray,
        t_min: Fixed,
        t_max: Fixed,
        earlier: Fixed,
        n: int,
    )
        requires
            earlier.raw <= t_max.raw,
        ensures
            self.nearest_among(ray, t_min, t_max, n) matches Some(h) ==> h.within(t_min, t_max),
            self.nearest_among(ray, t_min, earlier, n) == clip(
                self.nearest_among(ray, t_min, t_max, n),
                earlier,
            ),
        decreases n,
    {
        if n > 0 {
            self.lemma_prefix_window(ray, t_min, t_max, earlier, n - 1);
            let wide = self.nearest_among(ray, t_min, t_max, n - 1);
            let narrow = self.nearest_among(ray, t_min, earlier, n - 1);
            let wide_limit = limit(wide, t_max);
            let narrow_limit = limit(narrow, earlier);
            lemma_triangle_window(
                &self.faces()[n - 1].triangle,
                ray,
                &self.material_of(n - 1),
                t_min,
                wide_limit,
                narrow_limit,
            );
        }
    }

    /// The mesh reports the nearest of the hits on its faces.  If face `i`
    /// alone is hit in the window, the mesh is hit, and not farther away.
    pub proof fn lemma_hit_is_nearest(&self, ray: &Ray, t_min: Fixed, t_max: Fixed, i: int, n: int)
        requires
            0 <= i < n,
            self.face_hit(i, ray, t_min, t_max) is Some,
        ensures
            self.nearest_among(ray, t_min, t_max, n) is Some,
            self.nearest_among(ray, t_min, t_max, n)->0.distance.raw <= self.face_hit(
                i,
                ray,
                t_min,
                t_max,
            )->0.distance.raw,
        decreases n,
    {
        let before = self.nearest_among(ray, t_min, t_max, n - 1);
        self.lemma_prefix_window(ray, t_min, t_max, t_max, n - 1);
        lemma_triangle_window(
            &self.faces()[n - 1].triangle,
            ray,
            &self.material_of(n - 1),
            t_min,
            t_max,
            limit(before, t_max),
        );
        if i < n - 1 {
            self.lemma_hit_is_nearest(ray, t_min, t_max, i, n - 1);
        }
    }

    /// What the mesh reports is the hit on one of its faces, tried alone in
    /// the whole window.
    pub proof fn lemma_hit_is_on_a_face(&self, ray: &Ray, t_min: Fixed, t_max: Fixed, n: int) -> (i:
        int)
        requires
            self.nearest_among(ray, t_min, t_max, n) is Some,
        ensures
            0 <= i < n,
            self.face_hit(i, ray, t_min, t_max) == self.nearest_among(ray, t_min, t_max, n),
        decreases n,
    {
        if n <= 0 {
            0
        } else {
            let before = self.nearest_among(ray, t_min, t_max, n - 1);
            self.lemma_prefix_window(ray, t_min, t_max, t_max, n - 1);
            lemma_triangle_window(
                &self.faces()[n - 1].triangle,
                ray,
                &self.material_of(n - 1),
                t_min,
                t_max,
                limit(before, t_max),
            );
            if self.face_hit(n - 1, ray, t_min, limit(before, t_max)) is Some {
                n - 1
            } else {
                self.lemma_hit_is_on_a_face(ray, t_min, t_max, n - 1)
            }
        }
    }
}

/// How the hit on a mesh depends on the window: it lies strictly inside,
/// and a window that ends earlier shows the same hit if it still holds it
/// and none otherwise.
pub proof fn lemma_mesh_window(mesh: &Mesh, ray: &Ray, t_min: Fixed, t_max: Fixed, earlier: Fixed)
    requires
        earlier.raw <= t_max.raw,
    ensures
        mesh.hit(ray, t_min, t_max) matches Some(h) ==> h.within(t_min, t_max),
        mesh.hit(ray, t_min, earlier) == clip(mesh.hit(ray, t_min, t_max), earlier),
{
    mesh.lemma_prefix_window(ray, t_min, t_max, earlier, mesh.faces().len() as int);
}

/// Every library has a first match for every name.
pub proof fn lemma_first_match_exists(materials: Seq<NamedMaterial>, name: Seq<char>)
    ensures
        is_first_match(materials, name, spec_find_material(materials, name)),
{
    let k = lemma_first_match_from(materials, name, 0);
}

/// The first match at or after `from`, when there is none before.
proof fn lemma_first_match_from(materials: Seq<NamedMaterial>, name: Seq<char>, from: int) -> (k:
    int)
    requires
        0 <= from <= materials.len(),
        forall|j: int| 0 <= j < from ==> (#[trigger] materials[j]).name@ != name,
    ensures
        is_first_match(materials, name, k),
    decreases materials.len() - from,
{
    if from == materials.len() {
        from
    } else if materials[from].name@ == name {
        from
    } else {
        lemma_first_match_from(materials, name, from + 1)
    }
}

/// The default material is physical.
pub proof fn lemma_default_material_is_physical()
    ensures
        spec_default_material().physical(),
{
    let grey = Fixed::from_ratio(64, 100);
    assert(Fixed::from_int(64).raw == 64 * ONE_RAW);
    assert(Fixed::from_int(100).raw == 100 * ONE_RAW);
    assert((64 * ONE_RAW) * ONE_RAW == 0x40_0000_0000_0000_0000);
    assert(0x40_0000_0000_0000_0000int / (100 * ONE_RAW) == 0xa3d7_0a3d);
    assert(grey.raw == 0xa3d7_0a3d);
}

/// Whatever a physical mesh reports as hit is of a physical material.
pub proof fn lemma_mesh_hit_is_physical(mesh: &Mesh, ray: &Ray, t_min: Fixed, t_max: Fixed, n: int)
    requires
        mesh.physical(),
        n <= mesh.faces().len(),
    ensures
        mesh.nearest_among(ray, t_min, t_max, n) matches Some(h) ==> h.material.physical(),
    decreases n,
{
    if n > 0 {
        lemma_mesh_hit_is_physical(mesh, ray, t_min, t_max, n - 1);
        reveal(spec_intersects);
        let name = spec_wanted_name(&mesh.faces()[n - 1]);
        let k = spec_find_material(mesh.materials(), name);
        lemma_first_match_exists(mesh.materials(), name);
        if k < mesh.materials().len() {
            assert(mesh.materials()[k].material.physical());
        }
    }
}

} // verus!
