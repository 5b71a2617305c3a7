use raytracer::color::Color;
use raytracer::fixed::Fixed;
use raytracer::intersection::Intersection;
use raytracer::material::Material;
use raytracer::ray::Ray;
use raytracer::sampler::{random_point_in_unit_sphere, Sampler};
use raytracer::scatter::{reflect, refract};
use raytracer::vector::Vec3;

fn fx(x: f64) -> Fixed {
    Fixed::from_raw((x * 4294967296.0).round() as i64)
}

fn fl(x: Fixed) -> f64 {
    x.raw as f64 / 4294967296.0
}

fn v3(x: f64, y: f64, z: f64) -> Vec3 {
    Vec3::new(fx(x), fx(y), fx(z))
}

fn assert_close(actual: Fixed, expected: f64) {
    assert!(
        (fl(actual) - expected).abs() < 1e-6,
        "{} is not close to {}",
        fl(actual),
        expected
    );
}

#[test]
fn should_reflect_ray() {
    let m = Material::reflective(Color::new(fx(1.0), fx(0.0), fx(0.0)), fx(0.0));
    let r = Ray::new(v3(0.0, 1.0, 0.0), v3(0.0, -1.0, -1.0));
    let i = Intersection::new(fx(1.0), v3(0.0, 0.0, -1.0), v3(0.0, 0.0, 1.0), &m);
    let mut sampler = Sampler::seeded(7);
    let (_, scattered) = m.scatter(&r, &i, &mut sampler).unwrap();

    assert_close(scattered.origin.x, 0.0);
    assert_close(scattered.origin.y, 0.0);
    assert_close(scattered.origin.z, -1.0);

    assert_close(scattered.direction.x, 0.0);
    assert_close(scattered.direction.y, -0.7071067811865475);
    assert_close(scattered.direction.z, 0.7071067811865475);
}

#[test]
fn should_reflect_point() {
    let v = v3(1.0, -2.0, 0.0);

    let r = reflect(v, v3(0.0, 1.0, 0.0));

    assert_close(r.x, 0.4472135954999579);
    assert_close(r.y, 0.8944271909999159);
    assert_close(r.z, 0.0);
}

#[test]
fn should_refract_point() {
    let v = v3(0.0, -1.0, -1.0);

    let r = refract(v, v3(0.0, 1.0, 0.0), fx(1.0 / 1.5)).unwrap();

    assert_close(r.x, 0.0);
    assert_close(r.y, -0.881917103688197);
    assert_close(r.z, -0.4714045207910316);
}

#[test]
fn should_calculate_random_point_in_unit_hemisphere() {
    let mut sampler = Sampler::seeded(11);
    let p = random_point_in_unit_sphere(&mut sampler);

    assert!(fl(p.x) < 1.0);
    assert!(fl(p.y) < 1.0);
    assert!(fl(p.z) < 1.0);
}
