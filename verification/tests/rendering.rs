use raytracer::camera::Camera;
use raytracer::color::Color;
use raytracer::fixed::Fixed;
use raytracer::material::Material;
use raytracer::mesh::{Face, Mesh, Triangle};
use raytracer::ray::Ray;
use raytracer::sampler::Sampler;
use raytracer::scene::{Scene, Shape};
use raytracer::sphere::Sphere;
use raytracer::texture::{pixels_to_image, Texture};
use raytracer::vector::Vec3;
use raytracer::{
    background, encode, gradient, pixel_fraction, sky_blue, trace_pixel, trace_ray_in_scene,
    trace_scene, MAX_DEPTH,
};

fn fx(x: f64) -> Fixed {
    Fixed::from_raw((x * 4294967296.0).round() as i64)
}

fn fl(x: Fixed) -> f64 {
    x.raw as f64 / 4294967296.0
}

fn v3(x: f64, y: f64, z: f64) -> Vec3 {
    Vec3::new(fx(x), fx(y), fx(z))
}

fn frame_camera() -> Camera {
    Camera::from_frame(
        v3(0.0, 0.0, 0.0),
        v3(-2.0, -1.0, -1.0),
        v3(4.0, 0.0, 0.0),
        v3(0.0, 2.0, 0.0),
    )
}

fn red_ball() -> Scene {
    Scene::new(vec![Shape::Sphere(Sphere::new(
        v3(0.0, 0.0, -1.0),
        fx(0.5),
        Material::diffusive(Color::red()),
    ))])
}

#[test]
fn sky_is_white_below_and_blue_above() {
    assert_eq!(sky_blue(), Color::new(fx(0.5), Fixed::from_ratio(7, 10), fx(1.0)));
    assert_eq!(gradient(&Ray::new(v3(0.0, 0.0, 0.0), v3(0.0, 3.0, 0.0))), sky_blue());
    assert_eq!(gradient(&Ray::new(v3(0.0, 0.0, 0.0), v3(0.0, -3.0, 0.0))), Color::white());
    let level = gradient(&Ray::new(v3(1.0, 2.0, 3.0), v3(0.0, 0.0, -5.0)));
    assert_eq!(level.r, fx(0.75));
    assert!((fl(level.g) - 0.85).abs() < 1e-9);
    assert_eq!(level.b, fx(1.0));
    let tilted = gradient(&Ray::new(v3(0.0, 0.0, 0.0), v3(3.0, 4.0, 0.0)));
    assert!((fl(tilted.r) - (1.0 - 0.9 * 0.5)).abs() < 1e-8);
    assert!((fl(tilted.g) - (1.0 - 0.9 * 0.3)).abs() < 1e-8);
}

fn panorama() -> Texture {
    let mut image = bmp::Image::new(4, 2);
    for y in 0..2 {
        for x in 0..4 {
            image.set_pixel(x, y, bmp::Pixel::new(60 * x as u8, 200 * y as u8, 7));
        }
    }
    Texture::new(image).unwrap()
}

#[test]
fn background_is_the_environment_when_there_is_one() {
    let env = panorama();
    let ray = Ray::new(v3(0.0, 0.0, 0.0), v3(5.0, 0.0, 0.0));
    assert_eq!(background(&ray, None), gradient(&ray));
    assert_eq!(background(&ray, Some(&env)), Color::from_bytes(120, 200, 7));
    assert_eq!(background(&ray, Some(&env)), env.lookup(v3(1.0, 0.0, 0.0)));
    let up = Ray::new(v3(0.0, 0.0, 0.0), v3(0.0, 2.0, 0.5));
    assert_eq!(background(&up, Some(&env)), Color::from_bytes(60, 0, 7));
}

#[test]
fn empty_scene_shows_the_background() {
    let scene = Scene::new(Vec::new());
    let env = panorama();
    let mut sampler = Sampler::seeded(1);
    for i in -3..=3 {
        for j in -3..=3 {
            for depth in [0, 1, 17, MAX_DEPTH - 1] {
                let ray = Ray::new(v3(0.5, -0.5, 2.0), v3(i as f64, j as f64, -1.5));
                assert_eq!(
                    trace_ray_in_scene(&ray, &scene, depth, None, &mut sampler),
                    gradient(&ray)
                );
                assert_eq!(
                    trace_ray_in_scene(&ray, &scene, depth, Some(&env), &mut sampler),
                    background(&ray, Some(&env))
                );
            }
        }
    }
    let mut untouched = Sampler::seeded(1);
    assert_eq!(sampler.next_fraction(), untouched.next_fraction());
}

#[test]
fn path_is_black_at_the_depth_limit() {
    let mut sampler = Sampler::seeded(1);
    let ray = Ray::new(v3(0.0, 0.0, 0.0), v3(0.0, 0.0, -1.0));
    for scene in [Scene::new(Vec::new()), red_ball()] {
        assert_eq!(trace_ray_in_scene(&ray, &scene, MAX_DEPTH, None, &mut sampler), Color::black());
        assert_eq!(
            trace_ray_in_scene(&ray, &scene, MAX_DEPTH + 9, None, &mut sampler),
            Color::black()
        );
        assert_eq!(trace_ray_in_scene(&ray, &scene, u32::MAX, None, &mut sampler), Color::black());
    }
}

#[test]
fn facing_mirrors_end_in_black() {
    let mirror = || Material::reflective(Color::white(), fx(0.0));
    let wall = |z: f64| {
        Shape::Mesh(Mesh::new(
            vec![Face {
                triangle: Triangle::new(v3(-50.0, -50.0, z), v3(50.0, -50.0, z), v3(0.0, 80.0, z)),
                material_name: Some("mirror".to_string()),
            }],
            vec![raytracer::mesh::NamedMaterial { name: "mirror".to_string(), material: mirror() }],
        ))
    };
    let scene = Scene::new(vec![
        wall(-3.0),
        Shape::Sphere(Sphere::new(v3(0.0, 0.0, 12.0), fx(10.0), mirror())),
    ]);
    let mut sampler = Sampler::seeded(9);
    let ray = Ray::new(v3(0.0, 0.0, 0.0), v3(0.0, 0.0, -1.0));
    assert_eq!(trace_ray_in_scene(&ray, &scene, 0, None, &mut sampler), Color::black());
    assert_eq!(trace_ray_in_scene(&ray, &scene, 49, None, &mut sampler), Color::black());
    for i in -2..=2 {
        let slanted = Ray::new(v3(0.0, 0.0, 0.0), v3(0.01 * i as f64, 0.02, -1.0));
        let c = trace_ray_in_scene(&slanted, &scene, 0, None, &mut sampler);
        for channel in [c.r, c.g, c.b] {
            assert!(0 <= channel.raw && channel.raw <= (1i64 << 32));
        }
    }
}

#[test]
fn one_bounce_off_a_sharp_mirror() {
    let tint = Color::new(fx(0.5), fx(0.25), fx(1.0));
    let scene = Scene::new(vec![Shape::Sphere(Sphere::new(
        v3(0.0, 0.0, -3.0),
        fx(1.0),
        Material::reflective(tint, fx(0.0)),
    ))]);
    let mut sampler = Sampler::seeded(2);
    let ray = Ray::new(v3(0.0, 0.0, 0.0), v3(0.0, 0.0, -1.0));
    let back = Ray::new(v3(0.0, 0.0, -2.0), v3(0.0, 0.0, 1.0));
    assert_eq!(
        trace_ray_in_scene(&ray, &scene, 0, None, &mut sampler),
        tint.mul(gradient(&back))
    );
    assert_eq!(trace_ray_in_scene(&ray, &scene, 49, None, &mut sampler), Color::black());
}

#[test]
fn pixel_coordinates() {
    assert_eq!(pixel_fraction(0, fx(0.0), 4), fx(0.0));
    assert_eq!(pixel_fraction(0, fx(0.5), 4), fx(0.125));
    assert_eq!(pixel_fraction(3, fx(0.5), 4), fx(0.875));
    assert_eq!(pixel_fraction(1, fx(0.0), 3).raw, (1i64 << 32) / 3);
    assert_eq!(pixel_fraction(0, fx(0.75), 1), fx(0.75));
    let last = pixel_fraction(u32::MAX - 1, Fixed::from_raw((1i64 << 32) - 1), u32::MAX);
    assert!(last.raw < (1i64 << 32));
}

#[test]
fn pixel_is_the_encoded_mean() {
    let sum = Color::new(fx(1.0), fx(4.0), fx(0.0));
    assert_eq!(encode(sum, 4), Color::new(fx(0.5), fx(1.0), fx(0.0)));
    assert_eq!(encode(sum, 1), Color::new(fx(1.0), fx(2.0), fx(0.0)));
    assert_eq!(encode(Color::black(), 0), Color::black());
}

#[test]
fn red_ball_in_front_of_the_sky() {
    let camera = frame_camera();
    let scene = red_ball();
    let (width, height) = (20, 10);
    let mut sampler = Sampler::seeded(2024);
    let pixels = trace_scene(width, height, 1, &camera, &scene, None, &mut sampler);
    assert_eq!(pixels.len(), 200);
    let at = |x: u32, y: u32| pixels[(y * width + x) as usize];
    for (x, y) in [(9, 4), (10, 4), (9, 5), (10, 5)] {
        let centre = at(x, y);
        assert!(centre != Color::black());
        assert!(centre.r.raw > 0);
        assert_eq!(centre.g, Fixed::zero());
        assert_eq!(centre.b, Fixed::zero());
    }
    for (x, y) in [(0, 0), (19, 0), (0, 9), (19, 9)] {
        let corner = at(x, y);
        assert_eq!(corner.b, fx(1.0));
        assert!(fl(corner.r) >= 0.5f64.sqrt() - 1e-6 && fl(corner.r) <= 1.0);
        assert!(fl(corner.g) >= 0.7f64.sqrt() - 1e-6 && fl(corner.g) <= 1.0);
    }
    assert!(at(0, 0).r.raw < at(0, 9).r.raw);
    assert!(at(19, 0).r.raw < at(19, 9).r.raw);
    let mut direct = Sampler::seeded(77);
    for (s, t) in [(0.0, 0.0), (1.0, 0.0), (0.0, 1.0), (1.0, 1.0)] {
        let ray = camera.create_ray(fx(s), fx(t));
        assert_eq!(trace_ray_in_scene(&ray, &scene, 0, None, &mut direct), gradient(&ray));
    }
    let through = camera.create_ray(fx(0.5), fx(0.5));
    assert!(trace_ray_in_scene(&through, &scene, 0, None, &mut direct) != Color::black());
}

#[test]
fn image_rows_run_from_the_top() {
    let camera = frame_camera();
    let scene = Scene::new(Vec::new());
    let mut sampler = Sampler::seeded(5);
    let pixels = trace_scene(3, 2, 4, &camera, &scene, None, &mut sampler);
    assert_eq!(pixels.len(), 6);
    for x in 0..3 {
        assert!(pixels[x].r.raw < pixels[3 + x].r.raw);
    }
    assert!(trace_scene(0, 5, 4, &camera, &scene, None, &mut sampler).is_empty());
    assert!(trace_scene(5, 0, 4, &camera, &scene, None, &mut sampler).is_empty());
    let unsampled = trace_scene(2, 2, 0, &camera, &scene, None, &mut sampler);
    assert_eq!(unsampled, vec![Color::black(); 4]);
}

#[test]
fn same_seed_same_image() {
    let camera = frame_camera();
    let scene = red_ball();
    let a = trace_scene(8, 4, 3, &camera, &scene, None, &mut Sampler::seeded(31));
    let b = trace_scene(8, 4, 3, &camera, &scene, None, &mut Sampler::seeded(31));
    let c = trace_scene(8, 4, 3, &camera, &scene, None, &mut Sampler::seeded(32));
    assert_eq!(a, b);
    assert!(a != c);
}

#[test]
fn pixel_through_the_ball_matches_the_frame() {
    let camera = frame_camera();
    let scene = red_ball();
    let mut sampler = Sampler::seeded(8);
    let c = trace_pixel(10, 5, 20, 10, 4, &camera, &scene, None, &mut sampler);
    assert!(c.r.raw > 0);
    assert_eq!(c.g, Fixed::zero());
    let sky = trace_pixel(0, 0, 20, 10, 4, &camera, &scene, None, &mut sampler);
    assert_eq!(sky.b, fx(1.0));
}

fn variance_of_edge_pixel(samples: u32) -> f64 {
    let camera = frame_camera();
    let scene = red_ball();
    let mut values = Vec::new();
    for seed in 0..60u64 {
        let mut sampler = Sampler::seeded(1000 + seed);
        let c = trace_pixel(7, 5, 20, 10, samples, &camera, &scene, None, &mut sampler);
        values.push(fl(c.g) * fl(c.g));
    }
    let mean = values.iter().sum::<f64>() / values.len() as f64;
    values.iter().map(|v| (v - mean) * (v - mean)).sum::<f64>() / values.len() as f64
}

#[test]
fn more_samples_less_variance() {
    let one = variance_of_edge_pixel(1);
    let many = variance_of_edge_pixel(32);
    assert!(one > 0.0);
    assert!(many < one, "{} is not below {}", many, one);
}

#[test]
fn physical_scenes_give_colours_that_need_no_clamping() {
    let camera = frame_camera();
    let scene = Scene::new(vec![
        Shape::Sphere(Sphere::new(
            v3(0.0, 0.0, -1.0),
            fx(0.5),
            Material::diffusive(Color::new(fx(1.0), fx(0.3), fx(0.0))),
        )),
        Shape::Sphere(Sphere::new(
            v3(1.0, 0.0, -1.0),
            fx(0.5),
            Material::reflective(Color::new(fx(0.8), fx(0.6), fx(0.2)), fx(0.3)),
        )),
        Shape::Sphere(Sphere::new(v3(-1.0, 0.0, -1.0), fx(0.5), Material::refractive(fx(1.5)))),
        Shape::Sphere(Sphere::new(
            v3(0.0, -100.5, -1.0),
            fx(100.0),
            Material::diffusive(Color::new(fx(0.8), fx(0.8), fx(0.0))),
        )),
        Shape::Mesh(Mesh::new(
            vec![Face {
                triangle: Triangle::new(
                    v3(-3.0, 1.0, -3.0),
                    v3(3.0, 1.0, -3.0),
                    v3(0.0, 3.0, -3.0),
                ),
                material_name: None,
            }],
            Vec::new(),
        )),
    ]);
    let env = panorama();
    for environment in [None, Some(&env)] {
        let mut sampler = Sampler::seeded(77);
        let pixels = trace_scene(24, 12, 3, &camera, &scene, environment, &mut sampler);
        let one = 1i64 << 32;
        let mut lit = 0;
        for pixel in &pixels {
            for channel in [pixel.r, pixel.g, pixel.b] {
                assert!(0 <= channel.raw && channel.raw <= one);
            }
            if pixel.r.raw > 0 {
                lit += 1;
            }
        }
        assert!(lit > 200);
    }
}

#[test]
fn pixels_become_an_image() {
    let pixels = vec![
        Color::red(),
        Color::green(),
        Color::blue(),
        Color::new(fx(0.5), fx(0.25), fx(2.0)),
        Color::black(),
        Color::white(),
    ];
    let image = pixels_to_image(3, 2, &pixels);
    assert_eq!(image.get_width(), 3);
    assert_eq!(image.get_height(), 2);
    assert_eq!(image.get_pixel(0, 0), bmp::Pixel::new(255, 0, 0));
    assert_eq!(image.get_pixel(1, 0), bmp::Pixel::new(0, 255, 0));
    assert_eq!(image.get_pixel(2, 0), bmp::Pixel::new(0, 0, 255));
    assert_eq!(image.get_pixel(0, 1), bmp::Pixel::new(128, 64, 255));
    assert_eq!(image.get_pixel(1, 1), bmp::Pixel::new(0, 0, 0));
    assert_eq!(image.get_pixel(2, 1), bmp::Pixel::new(255, 255, 255));
    let empty = pixels_to_image(0, 0, &Vec::new());
    assert_eq!(empty.get_width(), 0);
}
