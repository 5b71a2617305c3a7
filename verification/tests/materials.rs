use raytracer::color::Color;
use raytracer::fixed::Fixed;
use raytracer::intersection::Intersection;
use raytracer::material::Material;
use raytracer::ray::Ray;
use raytracer::sampler::{
    random_point_in_unit_disk, random_point_in_unit_sphere, unit_cube_point, unit_square_point,
    BounceSample, Sampler,
};
use raytracer::scatter::{
    diffusive, origin_offset, reflect, reflection, reflection_origin, refract, refraction,
    refraction_origin, scatter_ray, shlick_approximation, texture,
};
use raytracer::texture::{pixel_index, texture_u, texture_v, Texture};
use raytracer::vector::Vec3;

fn fx(x: f64) -> Fixed {
    Fixed::from_raw((x * 4294967296.0).round() as i64)
}

fn fl(x: Fixed) -> f64 {
    x.raw as f64 / 4294967296.0
}

fn v3(x: f64, y: f64, z: f64) -> Vec3 {
    Vec3::new(fx(x), fx(y), fx(z))
}

fn close(a: Fixed, b: f64) -> bool {
    (fl(a) - b).abs() < 1e-6
}

fn close_vec(a: Vec3, x: f64, y: f64, z: f64) -> bool {
    close(a.x, x) && close(a.y, y) && close(a.z, z)
}

fn sample(point: Vec3, chance: f64) -> BounceSample {
    BounceSample { point, chance: fx(chance) }
}

#[test]
fn same_seed_same_stream() {
    let mut a = Sampler::seeded(42);
    let mut b = Sampler::seeded(42);
    let mut c = Sampler::seeded(43);
    let mut differs = false;
    let mut varies = false;
    let first = a.next_fraction();
    assert_eq!(first, b.next_fraction());
    differs |= first != c.next_fraction();
    for _ in 0..100 {
        let x = a.next_fraction();
        assert_eq!(x, b.next_fraction());
        assert!(0 <= x.raw && x.raw < (1i64 << 32));
        differs |= x != c.next_fraction();
        varies |= x != first;
    }
    assert!(differs);
    assert!(varies);
}

#[test]
fn draws_select_points_of_the_cube() {
    assert_eq!(unit_cube_point(0, 0, 0), v3(-1.0, -1.0, -1.0));
    assert_eq!(unit_cube_point(1 << 31, 1 << 30, 3 << 30), v3(0.0, -0.5, 0.5));
    assert_eq!(unit_cube_point(u32::MAX, 0, 0).x.raw, (1i64 << 32) - 2);
    assert_eq!(unit_square_point(1 << 31, 3 << 30), v3(0.0, 0.5, 0.0));
    assert_eq!(unit_square_point(0, u32::MAX).z, Fixed::zero());
}

#[test]
fn random_points_lie_in_the_sphere_and_in_the_disk() {
    let mut sampler = Sampler::seeded(3);
    let mut spread = false;
    for _ in 0..200 {
        let p = random_point_in_unit_sphere(&mut sampler);
        assert!(p.squared_length().raw < (1i64 << 32));
        for c in [p.x, p.y, p.z] {
            let bits = (c.raw + (1i64 << 32)) / 2;
            assert!(c.raw % 2 == 0 && 0 <= bits && bits <= u32::MAX as i64);
        }
        assert_eq!(
            p,
            unit_cube_point(
                ((p.x.raw + (1i64 << 32)) / 2) as u32,
                ((p.y.raw + (1i64 << 32)) / 2) as u32,
                ((p.z.raw + (1i64 << 32)) / 2) as u32
            )
        );
        spread |= p.x.raw < 0 && p.y.raw > 0;
        let q = random_point_in_unit_disk(&mut sampler);
        assert!(q.squared_length().raw < (1i64 << 32));
        assert_eq!(q.z, Fixed::zero());
        let s = BounceSample::draw(&mut sampler);
        assert!(s.point.squared_length().raw < (1i64 << 32));
        assert!(0 <= s.chance.raw && s.chance.raw < (1i64 << 32));
    }
    assert!(spread);
}

#[test]
fn rejection_takes_the_first_candidate_inside() {
    for seed in 0..50u64 {
        let mut sampler = Sampler::seeded(seed);
        let mut shadow = Sampler::seeded(seed);
        let p = random_point_in_unit_sphere(&mut sampler);
        let mut expected = Vec3::zero();
        for _ in 0..64 {
            let candidate = shadow.next_cube_point();
            if candidate.squared_length().raw < (1i64 << 32) {
                expected = candidate;
                break;
            }
        }
        assert_eq!(p, expected);
        assert_eq!(sampler.next_fraction(), shadow.next_fraction());
        let q = random_point_in_unit_disk(&mut sampler);
        let mut expected = Vec3::zero();
        for _ in 0..64 {
            let candidate = shadow.next_square_point();
            if candidate.squared_length().raw < (1i64 << 32) {
                expected = candidate;
                break;
            }
        }
        assert_eq!(q, expected);
        let s = BounceSample::draw(&mut sampler);
        let point = random_point_in_unit_sphere(&mut shadow);
        assert_eq!(s.point, point);
        assert_eq!(s.chance, shadow.next_fraction());
    }
}

#[test]
fn scattered_rays_start_off_the_surface() {
    assert_eq!(origin_offset().raw, 42);
    let m = Material::diffusive(Color::red());
    let hit = Intersection::new(fx(1.0), v3(1.0, 2.0, 3.0), v3(0.0, 1.0, 0.0), &m);
    assert_eq!(
        reflection_origin(&hit),
        Vec3::new(fx(1.0), Fixed::from_raw(fx(2.0).raw + 42), fx(3.0))
    );
    assert_eq!(
        refraction_origin(v3(1.0, 2.0, 3.0), v3(0.0, 1.0, 0.0)),
        Vec3::new(fx(1.0), Fixed::from_raw(fx(2.0).raw - 42), fx(3.0))
    );
}

#[test]
fn diffuse_scattering_aims_at_the_random_point() {
    let m = Material::diffusive(Color::red());
    let hit = Intersection::new(fx(1.0), v3(0.0, 0.0, -1.0), v3(0.0, 0.0, 1.0), &m);
    let ray = scatter_ray(&hit, v3(0.5, 0.0, 0.0));
    assert_eq!(ray.origin, reflection_origin(&hit));
    let len = (0.25f64 + 1.0).sqrt();
    assert!(close_vec(ray.direction, 0.5 / len, 0.0, 1.0 / len));
    let (attenuation, scattered) = diffusive(Color::red(), &hit, v3(0.5, 0.0, 0.0)).unwrap();
    assert_eq!(attenuation, Color::red());
    assert_eq!(scattered, ray);
    let incoming = Ray::new(v3(0.0, 0.0, 0.0), v3(0.0, 0.0, -1.0));
    assert_eq!(
        m.scatter_with(&incoming, &hit, &sample(v3(0.5, 0.0, 0.0), 0.3)),
        Some((Color::red(), ray))
    );
}

#[test]
fn mirror_directions() {
    assert_eq!(reflect(v3(0.0, -1.0, 0.0), v3(0.0, 1.0, 0.0)), v3(0.0, 1.0, 0.0));
    assert_eq!(
        reflect(v3(3.0, -4.0, 0.0), v3(0.0, 1.0, 0.0)),
        reflect(v3(3.0, -4.0, 0.0), v3(0.0, -1.0, 0.0))
    );
    let r = reflect(v3(3.0, -4.0, 0.0), v3(0.0, 1.0, 0.0));
    assert!(close_vec(r, 0.6, 0.8, 0.0));
    let back = reflect(r, v3(0.0, 1.0, 0.0));
    assert!(close_vec(back, 0.6, -0.8, 0.0));
    let n = v3(1.0, 1.0, 1.0).normalize();
    for v in [v3(0.2, -0.9, 0.1), v3(-1.0, -1.0, -1.0), v3(0.0, 0.3, -0.8)] {
        let u = v.normalize();
        let once = reflect(u, n);
        let len = (fl(once.x).powi(2) + fl(once.y).powi(2) + fl(once.z).powi(2)).sqrt();
        assert!((len - 1.0).abs() < 1e-6);
        let twice = reflect(once, n);
        assert!(close_vec(twice, fl(u.x), fl(u.y), fl(u.z)));
    }
}

#[test]
fn reflected_directions_have_unit_length_within_the_rounding_bound() {
    let one = 1i64 << 32;
    let mut k = 0.0f64;
    while k < 40.0 {
        let v = v3(k.sin(), (1.7 * k).cos(), 0.3 - 0.01 * k).normalize();
        let n = v3((0.4 * k).cos(), 0.2, (2.1 * k).sin()).normalize();
        let length = reflect(v, n).length().raw;
        assert!(one - 4 <= length && length <= one + 2, "length {}", length);
        k += 0.37;
    }
}

#[test]
fn reflecting_twice_restores_the_direction_within_the_rounding_bound() {
    let mut k = 0.0f64;
    let mut worst = 0;
    while k < 40.0 {
        let v = v3(k.sin(), (1.7 * k).cos(), 0.3 - 0.01 * k).normalize();
        let n = v3((0.4 * k).cos(), 0.2, (2.1 * k).sin()).normalize();
        let twice = reflect(reflect(v, n), n);
        for (a, b) in [(twice.x, v.x), (twice.y, v.y), (twice.z, v.z)] {
            worst = worst.max((a.raw - b.raw).abs());
        }
        k += 0.37;
    }
    assert!(worst <= 0x2000, "off by {}", worst);
    for n in [v3(1.0, 0.0, 0.0), v3(0.0, -1.0, 0.0), v3(0.0, 0.0, 1.0)] {
        let v = v3(0.3, -0.5, 0.8);
        assert_eq!(reflect(reflect(v, n), n), v.normalize().normalize());
        let u = v.normalize();
        let twice = reflect(reflect(u, n), n);
        for (a, b) in [(twice.x, u.x), (twice.y, u.y), (twice.z, u.z)] {
            assert!((a.raw - b.raw).abs() <= 8);
        }
    }
}

#[test]
fn sharp_mirror_at_normal_incidence_sends_the_ray_back() {
    let m = Material::reflective(Color::new(fx(0.8), fx(0.6), fx(0.2)), fx(0.0));
    let hit = Intersection::new(fx(2.0), v3(0.0, 0.0, -2.0), v3(0.0, 0.0, 1.0), &m);
    let ray = Ray::new(v3(0.0, 0.0, 0.0), v3(0.0, 0.0, -1.0));
    let expected = Some((
        Color::new(fx(0.8), fx(0.6), fx(0.2)),
        Ray::new(reflection_origin(&hit), v3(0.0, 0.0, 1.0)),
    ));
    for point in [v3(0.0, 0.0, 0.0), v3(0.5, -0.5, 0.5), v3(-0.9, 0.0, 0.1)] {
        assert_eq!(reflection(m.albedo, fx(0.0), &ray, &hit, point), expected);
        assert_eq!(m.scatter_with(&ray, &hit, &sample(point, 0.7)), expected);
    }
    let mut sampler = Sampler::seeded(5);
    for _ in 0..20 {
        assert_eq!(m.scatter(&ray, &hit, &mut sampler), expected);
    }
}

#[test]
fn fuzzy_mirror_follows_the_random_point() {
    let m = Material::reflective(Color::white(), fx(0.5));
    let hit = Intersection::new(fx(2.0), v3(0.0, 0.0, -2.0), v3(0.0, 0.0, 1.0), &m);
    let ray = Ray::new(v3(0.0, 0.0, 0.0), v3(0.0, 0.0, -1.0));
    let (_, scattered) =
        reflection(Color::white(), fx(0.5), &ray, &hit, v3(0.5, -0.25, 0.0)).unwrap();
    assert_eq!(scattered.direction, v3(0.25, -0.125, 1.0));
    assert_eq!(scattered.origin, reflection_origin(&hit));
}

#[test]
fn mirror_absorbs_what_would_enter_the_surface() {
    let m = Material::reflective(Color::white(), fx(1.0));
    let hit = Intersection::new(fx(2.0), v3(0.0, 0.0, -2.0), v3(0.0, 0.0, 1.0), &m);
    let from_inside = Ray::new(v3(0.0, 0.0, -3.0), v3(0.0, 0.0, 1.0));
    assert!(reflection(Color::white(), fx(0.0), &from_inside, &hit, v3(0.0, 0.0, 0.0)).is_none());
    let grazing = Ray::new(v3(0.0, 0.0, 0.0), v3(1.0, 0.0, 0.0));
    assert!(reflection(Color::white(), fx(0.0), &grazing, &hit, v3(0.0, 0.0, 0.0)).is_none());
    let steep = Ray::new(v3(0.0, 0.0, 0.0), v3(3.0, 0.0, -1.0));
    assert!(reflection(Color::white(), fx(1.0), &steep, &hit, v3(0.0, 0.0, -0.9)).is_none());
    assert!(reflection(Color::white(), fx(1.0), &steep, &hit, v3(0.0, 0.0, 0.9)).is_some());
}

#[test]
fn refraction_directions() {
    assert_eq!(refract(v3(0.0, -1.0, 0.0), v3(0.0, 1.0, 0.0), fx(1.0)), Some(v3(0.0, -1.0, 0.0)));
    let r = refract(v3(1.0, -1.0, 0.0), v3(0.0, 1.0, 0.0), fx(1.0)).unwrap();
    let s = 0.5f64.sqrt();
    assert!(close_vec(r, s, -s, 0.0));
    let bent = refract(v3(1.0, -1.0, 0.0), v3(0.0, 1.0, 0.0), fx(1.0 / 1.5)).unwrap();
    let sin_out = s / 1.5;
    assert!(close_vec(bent, sin_out, -(1.0 - sin_out * sin_out).sqrt(), 0.0));
    assert!(refract(v3(1.0, -0.2, 0.0), v3(0.0, 1.0, 0.0), fx(1.5)).is_none());
}

#[test]
fn reflectance_after_schlick() {
    assert!(close(shlick_approximation(fx(1.0), fx(1.5)), 0.04));
    assert!(close(shlick_approximation(fx(0.0), fx(1.5)), 1.0));
    assert_eq!(shlick_approximation(fx(1.0), fx(1.0)), Fixed::zero());
    let mid = 0.04 + 0.96 * 0.5f64.powi(5);
    assert!(close(shlick_approximation(fx(0.5), fx(1.5)), mid));
}

#[test]
fn perpendicular_ray_passes_an_interface_without_contrast_unbent() {
    let m = Material::refractive(fx(1.0));
    for (normal, point) in [
        (v3(0.0, 0.0, 1.0), v3(0.3, 0.2, -2.0)),
        (v3(0.0, -1.0, 0.0), v3(0.0, 4.0, 1.0)),
        (v3(1.0, 0.0, 0.0), v3(-1.0, 0.0, 0.0)),
    ] {
        let hit = Intersection::new(fx(2.0), point, normal, &m);
        let ray = Ray::new(point.add(normal.scale(fx(2.0))), normal.invert());
        for chance in [0.000001, 0.5, 0.999] {
            let (attenuation, scattered) = refraction(fx(1.0), &ray, &hit, fx(chance)).unwrap();
            assert_eq!(attenuation, Color::white());
            assert_eq!(scattered.direction, ray.direction);
            assert_eq!(scattered.origin, refraction_origin(point, normal));
            assert_eq!(
                m.scatter_with(&ray, &hit, &sample(v3(0.1, 0.1, 0.1), chance)),
                Some((attenuation, scattered))
            );
        }
    }
}

#[test]
fn head_on_ray_passes_an_interface_without_contrast_nearly_unbent() {
    let m = Material::refractive(fx(1.0));
    let mut k = 0.0f64;
    while k < 30.0 {
        let normal = v3(k.cos(), (0.7 * k).sin(), 0.4 + 0.02 * k).normalize();
        let point = v3(0.5, -0.25, 3.0);
        let hit = Intersection::new(fx(1.0), point, normal, &m);
        let ray = Ray::new(point.add(normal), normal.invert());
        let (attenuation, scattered) = refraction(fx(1.0), &ray, &hit, Fixed::from_raw(1)).unwrap();
        assert_eq!(attenuation, Color::white());
        assert_eq!(scattered.origin, refraction_origin(point, normal));
        let straight = ray.direction.normalize();
        for (a, b) in [
            (scattered.direction.x, straight.x),
            (scattered.direction.y, straight.y),
            (scattered.direction.z, straight.z),
        ] {
            assert!((a.raw - b.raw).abs() <= 16);
        }
        k += 0.41;
    }
}

#[test]
fn glass_refracts_or_reflects_by_chance() {
    let m = Material::refractive(fx(1.5));
    let hit = Intersection::new(fx(2.0), v3(0.0, 0.0, -2.0), v3(0.0, 0.0, 1.0), &m);
    let ray = Ray::new(v3(0.0, 0.0, 0.0), v3(0.0, 0.0, -1.0));
    let (attenuation, through) = refraction(fx(1.5), &ray, &hit, fx(0.5)).unwrap();
    assert_eq!(attenuation, Color::white());
    assert_eq!(through.direction, v3(0.0, 0.0, -1.0));
    assert_eq!(through.origin, refraction_origin(hit.point, hit.normal));
    let (_, back) = refraction(fx(1.5), &ray, &hit, fx(0.01)).unwrap();
    assert_eq!(back.direction, v3(0.0, 0.0, 1.0));
    assert_eq!(back.origin, reflection_origin(&hit));
    let (_, at_zero) = refraction(fx(1.5), &ray, &hit, fx(0.0)).unwrap();
    assert_eq!(at_zero.direction, v3(0.0, 0.0, 1.0));
}

#[test]
fn glass_reflects_totally_beyond_the_critical_angle() {
    let m = Material::refractive(fx(1.5));
    let hit = Intersection::new(fx(2.0), v3(0.0, 0.0, -2.0), v3(0.0, 0.0, 1.0), &m);
    let leaving = Ray::new(v3(0.0, 0.0, -3.0), v3(1.0, 0.0, 0.2));
    let (attenuation, scattered) = refraction(fx(1.5), &leaving, &hit, fx(0.999)).unwrap();
    assert_eq!(attenuation, Color::white());
    assert_eq!(scattered.direction, reflect(leaving.direction, hit.normal));
    assert_eq!(scattered.origin, reflection_origin(&hit));
    let steep = Ray::new(v3(0.0, 0.0, -3.0), v3(0.1, 0.0, 1.0));
    let (_, out) = refraction(fx(1.5), &steep, &hit, fx(0.999)).unwrap();
    assert!(out.direction.z.raw > 0);
    assert_eq!(out.origin, refraction_origin(hit.point, hit.normal.invert()));
    let sin_in = 0.1 / (1.01f64).sqrt();
    assert!(close(out.direction.x, 1.5 * sin_in));
}

fn checker() -> bmp::Image {
    let mut image = bmp::Image::new(4, 2);
    for y in 0..2 {
        for x in 0..4 {
            image.set_pixel(x, y, bmp::Pixel::new(10 * x as u8 + 1, 100 * y as u8 + 2, 200));
        }
    }
    image
}

#[test]
fn texture_coordinates() {
    assert_eq!(texture_u(v3(1.0, 0.0, 0.0)), fx(0.5));
    assert_eq!(texture_v(v3(1.0, 0.0, 0.0)), fx(0.5));
    assert!(close(texture_u(v3(0.0, 0.0, 1.0)), 0.75));
    assert!(close(texture_u(v3(0.0, 0.0, -1.0)), 0.25));
    assert!(close(texture_u(v3(-1.0, 0.0, 0.0)), 1.0));
    assert!(close(texture_v(v3(0.0, 1.0, 0.0)), 0.0));
    assert!(close(texture_v(v3(0.0, -1.0, 0.0)), 1.0));
    assert_eq!(pixel_index(fx(0.0), 4), 0);
    assert_eq!(pixel_index(fx(0.25), 4), 1);
    assert_eq!(pixel_index(fx(0.49), 4), 1);
    assert_eq!(pixel_index(fx(0.999), 4), 3);
    assert_eq!(pixel_index(fx(1.0), 4), 3);
    assert_eq!(pixel_index(fx(7.0), 4), 3);
    assert_eq!(pixel_index(fx(-7.0), 4), 0);
    assert_eq!(pixel_index(fx(0.5), 1), 0);
    assert_eq!(pixel_index(fx(0.5), u32::MAX), (1 << 31) - 1);
}

#[test]
fn texture_is_looked_up_by_direction() {
    let tex = Texture::new(checker()).unwrap();
    assert_eq!(tex.width(), 4);
    assert_eq!(tex.height(), 2);
    assert_eq!(tex.lookup(v3(1.0, 0.0, 0.0)), Color::from_bytes(21, 102, 200));
    assert_eq!(tex.lookup(v3(-0.05, 0.9, 0.1).normalize()), Color::from_bytes(1, 2, 200));
    assert_eq!(tex.lookup(v3(-0.05, -0.9, -0.1).normalize()), Color::from_bytes(31, 102, 200));
    assert_eq!(tex.lookup(v3(0.1, 0.3, -1.0).normalize()), Color::from_bytes(21, 2, 200));
    assert_eq!(tex.lookup(v3(-1.0, -0.3, 0.1).normalize()), Color::from_bytes(1, 102, 200));
    assert_eq!(tex.lookup(v3(-1.0, -0.3, -0.1).normalize()), Color::from_bytes(31, 102, 200));
}

#[test]
fn empty_images_are_no_textures() {
    assert!(Texture::new(bmp::Image::new(0, 0)).is_none());
    assert!(Texture::new(bmp::Image::new(3, 0)).is_none());
    assert!(Texture::new(bmp::Image::new(0, 3)).is_none());
    assert!(Texture::new(bmp::Image::new(1, 1)).is_some());
}

#[test]
fn textured_surface_scatters_diffusely_in_the_colours_of_the_image() {
    let m = Material::texture(Texture::new(checker()).unwrap());
    assert_eq!(m.albedo, Color::black());
    let hit = Intersection::new(fx(1.0), v3(1.0, 0.0, 0.0), v3(1.0, 0.0, 0.0), &m);
    let ray = Ray::new(v3(3.0, 0.0, 0.0), v3(-1.0, 0.0, 0.0));
    let point = v3(0.0, 0.5, 0.0);
    let expected = Some((Color::from_bytes(21, 102, 200), scatter_ray(&hit, point)));
    assert_eq!(texture(m.texture.as_ref().unwrap(), &hit, point), expected);
    assert_eq!(m.scatter_with(&ray, &hit, &sample(point, 0.5)), expected);
}

#[test]
fn material_kinds_take_precedence_in_order() {
    let hit_material = Material::diffusive(Color::white());
    let hit = Intersection::new(fx(2.0), v3(0.0, 0.0, -2.0), v3(0.0, 0.0, 1.0), &hit_material);
    let ray = Ray::new(v3(0.0, 0.0, 0.0), v3(0.0, 0.0, -1.0));
    let s = sample(v3(0.5, 0.0, 0.0), 0.5);
    let both = Material {
        albedo: Color::green(),
        diffusiveness: Some(fx(0.0)),
        refraction_index: Some(fx(1.5)),
        texture: Texture::new(checker()),
    };
    assert_eq!(
        both.scatter_with(&ray, &hit, &s),
        reflection(Color::green(), fx(0.0), &ray, &hit, s.point)
    );
    let glass_first = Material {
        albedo: Color::green(),
        diffusiveness: None,
        refraction_index: Some(fx(1.5)),
        texture: Texture::new(checker()),
    };
    assert_eq!(glass_first.scatter_with(&ray, &hit, &s), refraction(fx(1.5), &ray, &hit, s.chance));
    let m = Material::reflective(Color::green(), fx(0.25));
    assert_eq!(m.diffusiveness, Some(fx(0.25)));
    assert_eq!(m.albedo, Color::green());
    let g = Material::refractive(fx(1.5));
    assert_eq!(g.refraction_index, Some(fx(1.5)));
    assert_eq!(g.albedo, Color::white());
    let d = Material::diffusive(Color::blue());
    assert!(d.diffusiveness.is_none() && d.refraction_index.is_none() && d.texture.is_none());
}
