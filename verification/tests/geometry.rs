use raytracer::camera::{create_camera, half_height, Camera};
use raytracer::color::Color;
use raytracer::fixed::Fixed;
use raytracer::intersection::{in_window, Intersectable, Intersection};
use raytracer::material::Material;
use raytracer::mesh::{
    default_material, find_material, intersects, Face, Mesh, NamedMaterial, Triangle,
};
use raytracer::ray::Ray;
use raytracer::scene::{Scene, Shape};
use raytracer::sphere::{create_intersection, Sphere};
use raytracer::vector::Vec3;

fn fx(x: f64) -> Fixed {
    Fixed::from_raw((x * 4294967296.0).round() as i64)
}

fn fl(x: Fixed) -> f64 {
    x.raw as f64 / 4294967296.0
}

fn v3(x: f64, y: f64, z: f64) -> Vec3 {
    Vec3::new(fx(x), fx(y), fx(z))
}

fn close(a: Fixed, b: f64) -> bool {
    (fl(a) - b).abs() < 1e-6
}

fn close_vec(a: Vec3, x: f64, y: f64, z: f64) -> bool {
    close(a.x, x) && close(a.y, y) && close(a.z, z)
}

fn grey(level: f64) -> Material {
    Material::diffusive(Color::new(fx(level), fx(level), fx(level)))
}

fn far() -> Fixed {
    Fixed::max()
}

#[test]
fn window_is_open_at_both_ends() {
    assert!(in_window(fx(1.0), fx(0.0), fx(2.0)));
    assert!(!in_window(fx(0.0), fx(0.0), fx(2.0)));
    assert!(!in_window(fx(2.0), fx(0.0), fx(2.0)));
    assert!(!in_window(fx(3.0), fx(0.0), fx(2.0)));
}

#[test]
fn should_intersect_sphere() {
    let s = Sphere::new(v3(0.0, 0.0, -1.0), fx(1.0), Material::diffusive(Color::white()));

    let i = s
        .intersects(&Ray::new(v3(0.0, 0.0, -1.0), v3(0.0, 0.0, 1.0)), fx(0.0), far())
        .unwrap();

    assert_eq!(i.distance, fx(1.0));
    assert_eq!(i.point, v3(0.0, 0.0, 0.0));
    assert_eq!(i.normal, v3(0.0, 0.0, 1.0));
}

#[test]
fn sphere_is_hit_at_the_near_side_first() {
    let s = Sphere::new(v3(0.0, 0.0, -1.0), fx(0.5), grey(0.5));
    let ray = Ray::new(v3(0.0, 0.0, 0.0), v3(0.0, 0.0, -1.0));
    let i = s.intersects(&ray, fx(0.0), far()).unwrap();
    assert_eq!(i.distance, fx(0.5));
    assert_eq!(i.point, v3(0.0, 0.0, -0.5));
    assert_eq!(i.normal, v3(0.0, 0.0, 1.0));
    assert_eq!(i.material.albedo, Color::new(fx(0.5), fx(0.5), fx(0.5)));
}

#[test]
fn sphere_far_side_is_hit_when_the_near_side_is_outside_the_window() {
    let s = Sphere::new(v3(0.0, 0.0, -1.0), fx(0.5), grey(0.5));
    let ray = Ray::new(v3(0.0, 0.0, 0.0), v3(0.0, 0.0, -1.0));
    let i = s.intersects(&ray, fx(0.5), far()).unwrap();
    assert_eq!(i.distance, fx(1.5));
    assert_eq!(i.normal, v3(0.0, 0.0, -1.0));
    assert!(s.intersects(&ray, fx(0.0), fx(0.5)).is_none());
    assert!(s.intersects(&ray, fx(0.5), fx(1.5)).is_none());
    assert!(s.intersects(&ray, fx(1.5), far()).is_none());
}

#[test]
fn sphere_is_missed() {
    let s = Sphere::new(v3(0.0, 0.0, -1.0), fx(0.5), grey(0.5));
    assert!(s
        .intersects(&Ray::new(v3(0.0, 0.0, 0.0), v3(0.0, 1.0, 0.0)), fx(0.0), far())
        .is_none());
    assert!(s
        .intersects(&Ray::new(v3(0.0, 0.0, 0.0), v3(0.0, 0.0, 1.0)), fx(0.0), far())
        .is_none());
    assert!(s
        .intersects(&Ray::new(v3(0.0, 2.0, 0.0), v3(0.0, 0.0, -1.0)), fx(0.0), far())
        .is_none());
}

#[test]
fn tangent_ray_does_not_hit() {
    let s = Sphere::new(v3(0.0, 0.0, -1.0), fx(0.5), grey(0.5));
    let ray = Ray::new(v3(0.0, 0.5, 0.0), v3(0.0, 0.0, -1.0));
    assert!(s.intersects(&ray, fx(0.0), far()).is_none());
}

#[test]
fn sphere_hit_with_a_direction_that_is_not_normalized() {
    let s = Sphere::new(v3(0.0, 0.0, -4.0), fx(1.0), grey(0.5));
    let ray = Ray::new(v3(0.0, 0.0, 0.0), v3(0.0, 0.0, -2.0));
    let i = s.intersects(&ray, fx(0.0), far()).unwrap();
    assert_eq!(i.distance, fx(1.5));
    assert_eq!(i.point, v3(0.0, 0.0, -3.0));
}

#[test]
fn sphere_hits_lie_on_the_sphere() {
    let centre = v3(0.3, -0.2, -3.0);
    let radius = 1.25;
    let s = Sphere::new(centre, fx(radius), grey(0.5));
    let mut hits = 0;
    for i in -10..=10 {
        for j in -10..=10 {
            let ray = Ray::new(
                v3(0.1, 0.2, 0.3),
                v3(i as f64 * 0.05, j as f64 * 0.05, -1.0).normalize(),
            );
            if let Some(hit) = s.intersects(&ray, fx(0.0), far()) {
                hits += 1;
                let d = hit.point.sub(centre);
                let dist = (fl(d.x).powi(2) + fl(d.y).powi(2) + fl(d.z).powi(2)).sqrt();
                assert!((dist - radius).abs() < 1e-6, "distance {}", dist);
                let n = hit.normal;
                let len = (fl(n.x).powi(2) + fl(n.y).powi(2) + fl(n.z).powi(2)).sqrt();
                assert!((len - 1.0).abs() < 1e-6, "normal length {}", len);
                assert_eq!(hit.point, ray.point_along(hit.distance));
                assert!(hit.distance.raw > 0);
            }
        }
    }
    assert!(hits > 100);
}

#[test]
fn sphere_hits_stay_within_the_proved_tolerance() {
    let centre = v3(12.5, -40.0, -300.0);
    let s = Sphere::new(centre, fx(125.0), grey(0.5));
    let scale = 1i128 << 32;
    let mut hits = 0;
    for i in -12..=12 {
        for j in -12..=12 {
            let ray = Ray::new(v3(1.0, 2.0, 3.0), v3(i as f64 * 0.03, j as f64 * 0.03, -0.8));
            for t_min in [fx(0.0), fx(250.0)] {
                if let Some(hit) = s.intersects(&ray, t_min, far()) {
                    hits += 1;
                    let offset = [
                        (hit.point.x.raw - centre.x.raw) as i128,
                        (hit.point.y.raw - centre.y.raw) as i128,
                        (hit.point.z.raw - centre.z.raw) as i128,
                    ];
                    let squared: i128 = offset.iter().map(|c| c * c).sum();
                    let radius = s.radius.raw as i128;
                    let residual = (squared - radius * radius).abs();
                    let oc = ray.origin.sub(centre);
                    let a = ray.direction.dot(ray.direction);
                    let b = oc.dot(ray.direction);
                    let c = oc.dot(oc).sub(s.radius.mul(s.radius));
                    let root = b.mul(b).sub(a.mul(c)).sqrt().raw as i128;
                    let t = hit.distance.raw as i128;
                    let taxi: i128 = offset.iter().map(|c| c.abs()).sum();
                    let tolerance = scale * (10 * root + 11 * scale + 6 * t.abs() + 2 * taxi + 3)
                        + 3 * t * t
                        + a.raw as i128;
                    assert!(scale * residual <= tolerance);
                    let normal = [hit.normal.x.raw, hit.normal.y.raw, hit.normal.z.raw];
                    let squared_normal: i128 = normal.iter().map(|c| (*c as i128).pow(2)).sum();
                    let off_unit = (squared_normal - scale * scale).abs();
                    assert!(
                        radius * radius * off_unit
                            <= scale * tolerance + 2 * scale * radius * taxi + 3 * radius * radius
                    );
                    let relative = residual as f64 / (radius * radius) as f64;
                    assert!(relative < 1e-8);
                }
            }
        }
    }
    assert!(hits > 300);
}

#[test]
fn intersection_record_of_a_sphere() {
    let s = Sphere::new(v3(1.0, 0.0, 0.0), fx(2.0), grey(0.25));
    let ray = Ray::new(v3(1.0, 0.0, -5.0), v3(0.0, 0.0, 1.0));
    let i = create_intersection(&s, fx(3.0), &ray).unwrap();
    assert_eq!(i.distance, fx(3.0));
    assert_eq!(i.point, v3(1.0, 0.0, -2.0));
    assert_eq!(i.normal, v3(0.0, 0.0, -1.0));
    assert_eq!(i.material.albedo, Color::new(fx(0.25), fx(0.25), fx(0.25)));
    let j = Intersection::new(fx(3.0), v3(1.0, 0.0, -2.0), v3(0.0, 0.0, -1.0), &s.material);
    assert_eq!(j.distance, i.distance);
    assert_eq!(j.point, i.point);
    assert_eq!(j.normal, i.normal);
}

fn floor_triangle() -> Triangle {
    Triangle::new(v3(-1.0, -1.0, -2.0), v3(1.0, -1.0, -2.0), v3(0.0, 1.0, -2.0))
}

#[test]
fn triangle_is_hit_inside() {
    let m = grey(0.5);
    let ray = Ray::new(v3(0.0, 0.0, 0.0), v3(0.0, 0.0, -1.0));
    let hit = intersects(&floor_triangle(), &ray, &m, fx(0.0), far()).unwrap();
    assert!(close(hit.distance, 2.0));
    assert!(close_vec(hit.point, 0.0, 0.0, -2.0));
    assert_eq!(hit.normal, v3(0.0, 0.0, 1.0));
}

#[test]
fn triangle_is_missed_outside_its_edges() {
    let m = grey(0.5);
    for origin in [
        v3(2.0, 0.0, 0.0),
        v3(-2.0, 0.0, 0.0),
        v3(0.0, 1.5, 0.0),
        v3(0.0, -1.5, 0.0),
        v3(0.9, 0.9, 0.0),
    ] {
        let ray = Ray::new(origin, v3(0.0, 0.0, -1.0));
        assert!(intersects(&floor_triangle(), &ray, &m, fx(0.0), far()).is_none());
    }
}

#[test]
fn triangle_parallel_to_the_ray_is_missed() {
    let m = grey(0.5);
    let ray = Ray::new(v3(0.0, 0.0, 0.0), v3(1.0, 0.0, 0.0));
    assert!(intersects(&floor_triangle(), &ray, &m, fx(0.0), far()).is_none());
    let nearly = Ray::new(v3(0.0, 0.0, 0.0), Vec3::new(fx(1.0), fx(0.0), Fixed::from_raw(-8)));
    assert!(intersects(&floor_triangle(), &nearly, &m, fx(0.0), far()).is_none());
}

#[test]
fn triangle_behind_the_ray_or_outside_the_window_is_missed() {
    let m = grey(0.5);
    let away = Ray::new(v3(0.0, 0.0, 0.0), v3(0.0, 0.0, 1.0));
    assert!(intersects(&floor_triangle(), &away, &m, fx(0.0), far()).is_none());
    let toward = Ray::new(v3(0.0, 0.0, 0.0), v3(0.0, 0.0, -1.0));
    assert!(intersects(&floor_triangle(), &toward, &m, fx(0.0), fx(1.5)).is_none());
    assert!(intersects(&floor_triangle(), &toward, &m, fx(2.5), far()).is_none());
    assert!(intersects(&floor_triangle(), &toward, &m, fx(1.5), fx(2.5)).is_some());
}

#[test]
fn triangle_hits_lie_in_the_plane_and_in_the_triangle() {
    let m = grey(0.5);
    let t = Triangle::new(v3(-1.0, 0.2, -3.0), v3(2.0, -0.5, -2.0), v3(0.3, 1.7, -4.0));
    let v0 = t.vertices[0];
    let e1 = t.vertices[1].sub(v0);
    let e2 = t.vertices[2].sub(v0);
    let n = e1.cross(e2).normalize();
    let mut hits = 0;
    for i in -10..=10 {
        for j in -10..=10 {
            let ray = Ray::new(v3(0.0, 0.0, 0.0), v3(i as f64 * 0.08, j as f64 * 0.08, -1.0));
            if let Some(hit) = intersects(&t, &ray, &m, fx(0.0), far()) {
                hits += 1;
                assert!(fl(hit.point.sub(v0).dot(n)).abs() < 1e-6);
                assert_eq!(hit.normal, n);
                assert_eq!(hit.point, ray.point_along(hit.distance));
                let h = ray.direction.cross(e2);
                let a0 = e1.dot(h);
                let s = ray.origin.sub(v0);
                let u = s.dot(h).div(a0);
                let v = ray.direction.dot(s.cross(e1)).div(a0);
                assert!(u.raw >= 0 && v.raw >= 0 && u.add(v).raw <= Fixed::one().raw);
            }
        }
    }
    assert!(hits > 20);
}

#[test]
fn triangle_hits_stay_within_the_proved_tolerance_of_the_plane() {
    let m = grey(0.5);
    let t = Triangle::new(
        v3(-100.0, 20.5, -30.0),
        v3(200.0, -50.0, -20.0),
        v3(30.0, 170.25, -40.0),
    );
    let raw = |v: Vec3| [v.x.raw as i128, v.y.raw as i128, v.z.raw as i128];
    let v0 = t.vertices[0];
    let e1 = raw(t.vertices[1].sub(v0));
    let e2 = raw(t.vertices[2].sub(v0));
    let normal = [
        e1[1] * e2[2] - e1[2] * e2[1],
        e1[2] * e2[0] - e1[0] * e2[2],
        e1[0] * e2[1] - e1[1] * e2[0],
    ];
    let taxi = |v: [i128; 3]| v.iter().map(|c| c.abs()).sum::<i128>();
    let scale = 1i128 << 32;
    let mut hits = 0;
    for i in -10..=10 {
        for j in -10..=10 {
            let ray = Ray::new(v3(3.0, -2.0, 1.0), v3(i as f64 * 0.15, j as f64 * 0.15, -1.0));
            if let Some(hit) = intersects(&t, &ray, &m, fx(0.0), far()) {
                hits += 1;
                let offset = raw(hit.point.sub(v0));
                let inner: i128 = (0..3).map(|k| offset[k] * normal[k]).sum();
                let a0 = t.vertices[1].sub(v0).dot(ray.direction.cross(t.vertices[2].sub(v0)));
                let distance = (hit.distance.raw as i128).abs();
                let tolerance = 2 * scale * taxi(e2)
                    + 3 * scale * scale
                    + (a0.raw as i128).abs() * scale
                    + 2 * distance * taxi(e1)
                    + 3 * distance * scale
                    + taxi(normal);
                assert!(inner.abs() <= tolerance);
            }
        }
    }
    assert!(hits > 30);
}

fn named(name: &str, level: f64) -> NamedMaterial {
    NamedMaterial { name: name.to_string(), material: grey(level) }
}

fn face(z: f64, name: Option<&str>) -> Face {
    Face {
        triangle: Triangle::new(v3(-1.0, -1.0, z), v3(1.0, -1.0, z), v3(0.0, 1.0, z)),
        material_name: name.map(|n| n.to_string()),
    }
}

fn level_of(material: &Material) -> f64 {
    fl(material.albedo.r)
}

#[test]
fn first_material_of_a_name_is_found() {
    let library = vec![named("a", 0.1), named("b", 0.2), named("a", 0.3)];
    assert_eq!(find_material(&library, &"a".to_string()), 0);
    assert_eq!(find_material(&library, &"b".to_string()), 1);
    assert_eq!(find_material(&library, &"c".to_string()), 3);
    assert_eq!(find_material(&Vec::new(), &"a".to_string()), 0);
}

#[test]
fn default_material_is_a_grey_mirror() {
    let m = default_material();
    assert_eq!(m.albedo.r, Fixed::from_ratio(64, 100));
    assert_eq!(m.albedo.g, Fixed::from_ratio(64, 100));
    assert_eq!(m.albedo.b, Fixed::from_ratio(64, 100));
    assert_eq!(m.diffusiveness, Some(Fixed::zero()));
    assert!(m.refraction_index.is_none());
    assert!(m.texture.is_none());
}

#[test]
fn mesh_binds_faces_to_materials_by_name() {
    let ray = Ray::new(v3(0.0, 0.0, 0.0), v3(0.0, 0.0, -1.0));
    let library = || vec![named("red", 0.25), named("default", 0.5), named("red", 0.75)];

    let mesh = Mesh::new(vec![face(-2.0, Some("red"))], library());
    let hit = mesh.intersects(&ray, fx(0.0), far()).unwrap();
    assert!((level_of(hit.material) - 0.25).abs() < 1e-9);

    let mesh = Mesh::new(vec![face(-2.0, None)], library());
    let hit = mesh.intersects(&ray, fx(0.0), far()).unwrap();
    assert!((level_of(hit.material) - 0.5).abs() < 1e-9);

    let mesh = Mesh::new(vec![face(-2.0, Some("blue"))], library());
    let hit = mesh.intersects(&ray, fx(0.0), far()).unwrap();
    assert_eq!(hit.material.albedo.r, Fixed::from_ratio(64, 100));
    assert_eq!(hit.material.diffusiveness, Some(Fixed::zero()));

    let mesh = Mesh::new(vec![face(-2.0, None)], Vec::new());
    let hit = mesh.intersects(&ray, fx(0.0), far()).unwrap();
    assert_eq!(hit.material.albedo.r, Fixed::from_ratio(64, 100));
}

#[test]
fn mesh_reports_the_nearest_face() {
    let ray = Ray::new(v3(0.0, 0.0, 0.0), v3(0.0, 0.0, -1.0));
    let library = || vec![named("near", 0.25), named("far", 0.75)];
    for faces in [
        vec![face(-2.0, Some("near")), face(-5.0, Some("far"))],
        vec![face(-5.0, Some("far")), face(-2.0, Some("near"))],
    ] {
        let mesh = Mesh::new(faces, library());
        let hit = mesh.intersects(&ray, fx(0.0), far()).unwrap();
        assert!(close(hit.distance, 2.0));
        assert!((level_of(hit.material) - 0.25).abs() < 1e-9);
        let hit = mesh.intersects(&ray, fx(3.0), far()).unwrap();
        assert!(close(hit.distance, 5.0));
        assert!(mesh.intersects(&ray, fx(0.0), fx(1.0)).is_none());
    }
    let empty = Mesh::new(Vec::new(), library());
    assert!(empty.intersects(&ray, fx(0.0), far()).is_none());
}

#[test]
fn scene_reports_the_nearest_shape_in_any_order() {
    let ray = Ray::new(v3(0.0, 0.0, 0.0), v3(0.0, 0.0, -1.0));
    let shapes = |order: usize| -> Vec<Shape> {
        let mut all = vec![
            Shape::Sphere(Sphere::new(v3(0.0, 0.0, -10.0), fx(1.0), grey(0.1))),
            Shape::Sphere(Sphere::new(v3(0.0, 0.0, -4.0), fx(1.0), grey(0.2))),
            Shape::Mesh(Mesh::new(vec![face(-6.0, None)], vec![named("default", 0.3)])),
            Shape::Sphere(Sphere::new(v3(0.0, 5.0, -4.0), fx(1.0), grey(0.4))),
        ];
        all.rotate_left(order);
        if order % 2 == 1 {
            all.reverse();
        }
        all
    };
    for order in 0..4 {
        let scene = Scene::new(shapes(order));
        let hit = scene.intersects(&ray, fx(0.0), far()).unwrap();
        assert_eq!(hit.distance, fx(3.0));
        assert!((level_of(hit.material) - 0.2).abs() < 1e-9);
        let hit = scene.intersects(&ray, fx(5.5), far()).unwrap();
        assert!(close(hit.distance, 6.0));
        assert!((level_of(hit.material) - 0.3).abs() < 1e-9);
        let hit = scene.intersects(&ray, fx(6.5), far()).unwrap();
        assert_eq!(hit.distance, fx(9.0));
        assert!(scene.intersects(&ray, fx(11.5), far()).is_none());
        assert!(scene.intersects(&ray, fx(0.0), fx(2.0)).is_none());
    }
}

#[test]
fn empty_scene_is_never_hit() {
    let scene = Scene::new(Vec::new());
    let ray = Ray::new(v3(0.0, 0.0, 0.0), v3(0.0, 0.0, -1.0));
    assert!(scene.intersects(&ray, fx(0.0), far()).is_none());
}

#[test]
fn camera_from_a_frame() {
    let camera = Camera::from_frame(
        v3(0.0, 0.0, 0.0),
        v3(-2.0, -1.0, -1.0),
        v3(4.0, 0.0, 0.0),
        v3(0.0, 2.0, 0.0),
    );
    let eye = v3(0.0, 0.0, 0.0);
    assert_eq!(camera.create_ray(fx(0.5), fx(0.5)), Ray::new(eye, v3(0.0, 0.0, -1.0)));
    assert_eq!(camera.create_ray(fx(0.0), fx(0.0)), Ray::new(eye, v3(-2.0, -1.0, -1.0)));
    assert_eq!(camera.create_ray(fx(1.0), fx(1.0)), Ray::new(eye, v3(2.0, 1.0, -1.0)));
    assert_eq!(camera.create_ray(fx(0.25), fx(1.0)), Ray::new(eye, v3(-1.0, 1.0, -1.0)));
    assert_eq!(
        camera.create_lens_ray(fx(0.25), fx(1.0), v3(0.5, -0.5, 0.0)),
        camera.create_ray(fx(0.25), fx(1.0))
    );
}

#[test]
fn camera_from_a_view() {
    assert!(close(half_height(Fixed::from_int(90)), 1.0));
    assert!(close(half_height(Fixed::from_int(35)), (17.5f64).to_radians().tan()));
    let camera = Camera::new(
        v3(0.0, 0.0, 0.0),
        v3(0.0, 0.0, -1.0),
        v3(0.0, 1.0, 0.0),
        Fixed::from_int(90),
        fx(2.0),
        fx(0.0),
        fx(1.0),
    );
    assert_eq!(camera.origin, v3(0.0, 0.0, 0.0));
    assert!(close_vec(camera.lower_left_corner, -2.0, -1.0, -1.0));
    assert!(close_vec(camera.horizontal, 4.0, 0.0, 0.0));
    assert!(close_vec(camera.vertical, 0.0, 2.0, 0.0));
    assert_eq!(camera.right, v3(1.0, 0.0, 0.0));
    assert_eq!(camera.up, v3(0.0, 1.0, 0.0));
    assert_eq!(camera.lens_radius, fx(0.0));
    let ray = camera.create_ray(fx(0.5), fx(0.5));
    assert!(close_vec(ray.direction, 0.0, 0.0, -1.0));
}

#[test]
fn camera_with_a_lens_focuses_on_the_focus_plane() {
    let camera = Camera::new(
        v3(0.0, 0.0, 0.0),
        v3(0.0, 0.0, -1.0),
        v3(0.0, 1.0, 0.0),
        Fixed::from_int(90),
        fx(1.0),
        fx(0.5),
        fx(4.0),
    );
    assert_eq!(camera.lens_radius, fx(0.25));
    let centre = camera.create_ray(fx(0.75), fx(0.25));
    let focus = centre.point_along(fx(1.0));
    assert!(close_vec(focus, 2.0, -2.0, -4.0));
    for lens in [v3(0.5, 0.5, 0.0), v3(-0.8, 0.1, 0.0), v3(0.0, -0.9, 0.0)] {
        let ray = camera.create_lens_ray(fx(0.75), fx(0.25), lens);
        assert!(close_vec(ray.origin, 0.25 * fl(lens.x), 0.25 * fl(lens.y), 0.0));
        let through = ray.point_along(fx(1.0));
        assert!(close_vec(through, 2.0, -2.0, -4.0));
    }
}

#[test]
fn demonstration_camera() {
    let camera = create_camera(600, 300);
    assert_eq!(camera.origin, v3(-5.5, 5.5, -9.0));
    assert_eq!(camera.lens_radius, Fixed::zero());
    let ray = camera.create_ray(fx(0.5), fx(0.5));
    let d = ray.direction.normalize();
    let len = (5.5f64 * 5.5 + 5.5 * 5.5 + 81.0).sqrt();
    assert!((fl(d.x) - 5.5 / len).abs() < 1e-6);
    assert!((fl(d.y) + 5.5 / len).abs() < 1e-6);
    assert!((fl(d.z) - 9.0 / len).abs() < 1e-6);
    let width = fl(camera.horizontal.length());
    let height = fl(camera.vertical.length());
    assert!((width / height - 2.0).abs() < 1e-6);
    assert!((height - 2.0 * len * (17.5f64).to_radians().tan()).abs() < 1e-5);
}
