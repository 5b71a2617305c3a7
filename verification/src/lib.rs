//! A recursive ray tracer over exact fixed-point arithmetic.
//!
//! A scene of spheres and triangle meshes is seen through a thin-lens
//! camera.  For every pixel a number of rays is traced: a ray that hits
//! nothing takes the colour of the background, a ray that hits a surface is
//! scattered by the material there and goes on, attenuated, until it
//! misses, is absorbed or has bounced `MAX_DEPTH` times.  All numbers are
//! fixed-point (see `fixed`), so every result is a function of the scene,
//! the camera and the random draws, which the contracts state.

pub mod accuracy;
pub mod camera;
pub mod color;
pub mod fixed;
pub mod intersection;
pub mod material;
pub mod mesh;
pub mod ray;
pub mod sampler;
pub mod scatter;
pub mod scene;
pub mod sphere;
pub mod texture;
pub mod trig;
pub mod vector;

use crate::camera::Camera;
use crate::color::{lemma_unit_range_is_closed, Color};
use crate::fixed::{
    lemma_mean_is_in_unit_interval, lemma_mul_unit, lemma_unit_interval_is_closed, Fixed, ONE_RAW,
};
use crate::intersection::{Intersectable, Intersection};
use crate::ray::Ray;
use crate::sampler::{in_unit_disk, random_point_in_unit_disk, BounceSample, Sampler};
use crate::material::lemma_attenuation_is_in_unit_range;
use crate::scene::{lemma_scene_hit_is_physical, Scene};
use crate::texture::{lemma_lookup_is_in_unit_range, Texture};
use crate::vector::{lemma_normalized_components_are_bounded, Vec3};
use vstd::arithmetic::div_mod::lemma_fundamental_div_mod_converse;
use vstd::prelude::*;

verus! {

/// A light path ends, black, when it has bounced this often.
pub const MAX_DEPTH: u32 = 50;

/// The colour of the sky at the zenith.
pub open spec fn spec_sky_blue() -> Color {
    Color { r: Fixed::from_ratio(1, 2), g: Fixed::from_ratio(7, 10), b: Fixed::one() }
}

/// The sky: white at the nadir, blue at the zenith, and between them
/// `(1 - t) white + t blue` with `t = (y + 1) / 2` for the height `y` of the
/// normalized direction of the ray.
pub open spec fn spec_gradient(ray: &Ray) -> Color {
    let t = Fixed::from_ratio(1, 2).mul(ray.direction.normalize().y.add(Fixed::one()));
    Color::white().scale(Fixed::one().sub(t)).add(spec_sky_blue().scale(t))
}

/// What a ray sees that hits nothing: the environment image in the
/// direction of the ray, or the sky when there is no image.
pub open spec fn spec_background(ray: &Ray, environment: Option<&Texture>) -> Color {
    match environment {
        Some(image) => image.lookup(ray.direction.normalize()),
        None => spec_gradient(ray),
    }
}

/// What a ray of a light path hits first: the nearest hit of the scene at
/// a positive distance.
#[verifier::opaque]
pub open spec fn spec_first_hit<'a>(scene: &'a Scene, ray: &Ray) -> Option<Intersection<'a>> {
    scene.hit(ray, Fixed::zero(), Fixed::max())
}

/// Every sample is one that can be drawn.
pub open spec fn all_wf(draws: Seq<BounceSample>) -> bool {
    forall|i: int| 0 <= i < draws.len() ==> (#[trigger] draws[i]).wf()
}

/// The colour that `ray` brings back when the bounces of its path take
/// their random inputs from `draws`, one after the other.  The path is
/// black at depth `MAX_DEPTH`; a miss gives the background; a hit scatters
/// the ray, and the colour of the scattered ray is multiplied by the
/// attenuation; absorption gives black, and so does a path that runs out of
/// draws.
pub open spec fn path_color(
    scene: &Scene,
    environment: Option<&Texture>,
    ray: &Ray,
    depth: u32,
    draws: Seq<BounceSample>,
) -> Color
    decreases MAX_DEPTH - depth,
{
    if depth >= MAX_DEPTH {
        Color::black()
    } else {
        match spec_first_hit(scene, ray) {
            None => spec_background(ray, environment),
            Some(intersection) => {
                if draws.len() == 0 {
                    Color::black()
                } else {
                    match intersection.material.scatter_with(ray, &intersection, &draws[0]) {
                        None => Color::black(),
                        Some((attenuation, scattered)) => attenuation.mul(
                            path_color(
                                scene,
                                environment,
                                &scattered,
                                (depth + 1) as u32,
                                draws.drop_first(),
                            ),
                        ),
                    }
                }
            },
        }
    }
}

/// `c` is the colour of the path of `ray` for some random inputs that can
/// be drawn.
pub open spec fn is_path_color(
    c: Color,
    scene: &Scene,
    environment: Option<&Texture>,
    ray: &Ray,
    depth: u32,
) -> bool {
    exists|draws: Seq<BounceSample>|
        all_wf(draws) && c == #[trigger] path_color(scene, environment, ray, depth, draws)
}

/// The coordinate in `[0, 1)` of a position inside cell `index` of `size`
/// equal cells: `(index + jitter) / size`, rounded down.
pub open spec fn spec_pixel_fraction(index: u32, jitter: Fixed, size: u32) -> Fixed {
    Fixed { raw: ((index * ONE_RAW + jitter.raw) / (size as int)) as i64 }
}

/// The random inputs of one sample of a pixel.
pub struct PixelSample {
    /// Where in the pixel the ray passes, from the left, in `[0, 1)`.
    pub jitter_x: Fixed,
    /// Where in the pixel the ray passes, from the bottom, in `[0, 1)`.
    pub jitter_y: Fixed,
    /// Where on the lens the ray starts.
    pub lens_point: Vec3,
    /// The random inputs of the bounces.
    pub draws: Seq<BounceSample>,
}

impl PixelSample {
    /// The sample is one that can be drawn.
    pub open spec fn wf(self) -> bool {
        &&& 0 <= self.jitter_x.raw < ONE_RAW
        &&& 0 <= self.jitter_y.raw < ONE_RAW
        &&& in_unit_disk(self.lens_point)
        &&& all_wf(self.draws)
    }
}

/// The ray of a sample of the pixel in column `x` of row `y`, rows counted
/// from the top.  The image coordinates are `u = (x + jitter_x) / width`
/// and `v = (height - y - 1 + jitter_y) / height`: the top row of the image
/// is the upper edge of the camera's view.
pub open spec fn sample_ray(
    camera: &Camera,
    x: u32,
    y: u32,
    width: u32,
    height: u32,
    sample: PixelSample,
) -> Ray {
    camera.create_lens_ray(
        spec_pixel_fraction(x, sample.jitter_x, width),
        spec_pixel_fraction((height - y - 1) as u32, sample.jitter_y, height),
        sample.lens_point,
    )
}

/// The sum of the path colours of the samples of a pixel.
pub open spec fn sum_of_samples(
    camera: &Camera,
    scene: &Scene,
    environment: Option<&Texture>,
    x: u32,
    y: u32,
    width: u32,
    height: u32,
    samples: Seq<PixelSample>,
) -> Color
    decreases samples.len(),
{
    if samples.len() == 0 {
        Color::black()
    } else {
        sum_of_samples(camera, scene, environment, x, y, width, height, samples.drop_last()).add(
            path_color(
                scene,
                environment,
                &sample_ray(camera, x, y, width, height, samples.last()),
                0,
                samples.last().draws,
            ),
        )
    }
}

/// The pixel for a sum of `n` samples: their mean, gamma-2 encoded.
pub open spec fn spec_encode(sum: Color, n: u32) -> Color {
    sum.div(Fixed::from_count(n)).gamma2()
}

/// `c` is the encoded mean of `n` samples of the pixel in column `x` of row
/// `y`, for some random inputs that can be drawn.
pub open spec fn is_pixel_estimate(
    c: Color,
    camera: &Camera,
    scene: &Scene,
    environment: Option<&Texture>,
    x: u32,
    y: u32,
    width: u32,
    height: u32,
    n: u32,
) -> bool {
    exists|samples: Seq<PixelSample>|
        samples.len() == n && (forall|i: int| 0 <= i < n ==> (#[trigger] samples[i]).wf()) && c
            == spec_encode(
            #[trigger] sum_of_samples(camera, scene, environment, x, y, width, height, samples),
            n,
        )
}

/// Computes `spec_sky_blue`.
#[verifier::when_used_as_spec(spec_sky_blue)]
pub fn sky_blue() -> (c: Color)
    ensures
        c == spec_sky_blue(),
{
    Color::new(Fixed::from_ratio(1, 2), Fixed::from_ratio(7, 10), Fixed::one())
}

/// Computes `spec_gradient`.
#[verifier::when_used_as_spec(spec_gradient)]
pub fn gradient(ray: &Ray) -> (c: Color)
    ensures
        c == spec_gradient(ray),
{
    let t = Fixed::from_ratio(1, 2).mul(ray.direction.normalize().y.add(Fixed::one()));
    Color::white().scale(Fixed::one().sub(t)).add(sky_blue().scale(t))
}

/// Computes `spec_background`.
#[verifier::when_used_as_spec(spec_background)]
pub fn background(ray: &Ray, environment: Option<&Texture>) -> (c: Color)
    ensures
        c == spec_background(ray, environment),
{
    match environment {
        Some(image) => image.lookup(ray.direction.normalize()),
        None => gradient(ray),
    }
}

/// Traces the path of `ray` through `scene`, drawing the random inputs of
/// its bounces from `sampler`.
pub fn trace_ray_in_scene(
    ray: &Ray,
    scene: &Scene,
    depth: u32,
    environment: Option<&Texture>,
    sampler: &mut Sampler,
) -> (c: Color)
    ensures
        is_path_color(c, scene, environment, ray, depth),
        depth >= MAX_DEPTH ==> c == Color::black(),
        depth < MAX_DEPTH && scene.hit(ray, Fixed::zero(), Fixed::max()) is None ==> c
            == spec_background(ray, environment),
        scene.physical() ==> c.in_unit_range(),
    decreases MAX_DEPTH - depth,
{
    reveal(spec_first_hit);
    if depth >= MAX_DEPTH {
        proof {
            let none = Seq::<BounceSample>::empty();
            assert(all_wf(none) && Color::black() == path_color(
                scene,
                environment,
                ray,
                depth,
                none,
            ));
            if scene.physical() {
                lemma_path_color_is_in_unit_range(scene, environment, ray, depth, none);
            }
        }
        return Color::black();
    }
    match scene.intersects(ray, Fixed::zero(), Fixed::max()) {
        None => {
            let c = background(ray, environment);
            proof {
                let none = Seq::<BounceSample>::empty();
                assert(all_wf(none) && c == path_color(scene, environment, ray, depth, none));
                if scene.physical() {
                    lemma_path_color_is_in_unit_range(scene, environment, ray, depth, none);
                }
            }
            c
        },
        Some(intersection) => {
            let sample = BounceSample::draw(sampler);
            match intersection.material.scatter_with(ray, &intersection, &sample) {
                None => {
                    proof {
                        let one = seq![sample];
                        assert(all_wf(one) && Color::black() == path_color(
                            scene,
                            environment,
                            ray,
                            depth,
                            one,
                        ));
                        if scene.physical() {
                            lemma_path_color_is_in_unit_range(scene, environment, ray, depth, one);
                        }
                    }
                    Color::black()
                },
                Some((attenuation, scattered)) => {
                    let rest = trace_ray_in_scene(
                        &scattered,
                        scene,
                        depth + 1,
                        environment,
                        sampler,
                    );
                    let c = attenuation.mul(rest);
                    proof {
                        let tail = choose|draws: Seq<BounceSample>|
                            all_wf(draws) && rest == #[trigger] path_color(
                                scene,
                                environment,
                                &scattered,
                                (depth + 1) as u32,
                                draws,
                            );
                        let all = seq![sample] + tail;
                        assert(all.drop_first() =~= tail);
                        assert(all_wf(all) && c == path_color(scene, environment, ray, depth, all));
                        if scene.physical() {
                            lemma_path_color_is_in_unit_range(scene, environment, ray, depth, all);
                        }
                    }
                    c
                },
            }
        },
    }
}

/// Computes `spec_pixel_fraction`.
#[verifier::when_used_as_spec(spec_pixel_fraction)]
pub fn pixel_fraction(index: u32, jitter: Fixed, size: u32) -> (f: Fixed)
    requires
        index < size,
        0 <= jitter.raw < ONE_RAW,
    ensures
        f == spec_pixel_fraction(index, jitter, size),
        0 <= f.raw < ONE_RAW,
{
    let numerator: u64 = (index as u64) * (ONE_RAW as u64) + (jitter.raw as u64);
    let quotient: u64 = numerator / (size as u64);
    assert(quotient < ONE_RAW) by (nonlinear_arith)
        requires
            quotient == numerator / (size as u64),
            numerator < (index + 1) * ONE_RAW,
            index + 1 <= size,
            size > 0,
    ;
    Fixed::from_raw(quotient as i64)
}

/// Computes `spec_encode`.
#[verifier::when_used_as_spec(spec_encode)]
pub fn encode(sum: Color, n: u32) -> (c: Color)
    ensures
        c == spec_encode(sum, n),
{
    sum.div(Fixed::from_count(n)).gamma2()
}

/// The colour of the pixel in column `x` of row `y`: the encoded mean of
/// `num_samples` paths through the pixel.
pub fn trace_pixel(
    x: u32,
    y: u32,
    width: u32,
    height: u32,
    num_samples: u32,
    camera: &Camera,
    scene: &Scene,
    environment: Option<&Texture>,
    sampler: &mut Sampler,
) -> (c: Color)
    requires
        x < width,
        y < height,
    ensures
        is_pixel_estimate(c, camera, scene, environment, x, y, width, height, num_samples),
        scene.physical() ==> c.in_unit_range(),
{
    let mut color = Color::black();
    let ghost mut samples: Seq<PixelSample> = Seq::empty();
    let mut k: u32 = 0;
    while k < num_samples
        invariant
            k <= num_samples,
            x < width,
            y < height,
            samples.len() == k,
            forall|i: int| 0 <= i < k ==> (#[trigger] samples[i]).wf(),
            color == sum_of_samples(camera, scene, environment, x, y, width, height, samples),
        decreases num_samples - k,
    {
        let jitter_x = sampler.next_fraction();
        let jitter_y = sampler.next_fraction();
        let lens_point = random_point_in_unit_disk(sampler);
        let u = pixel_fraction(x, jitter_x, width);
        let v = pixel_fraction(height - y - 1, jitter_y, height);
        let ray = camera.create_lens_ray(u, v, lens_point);
        let sample_color = trace_ray_in_scene(&ray, scene, 0, environment, sampler);
        proof {
            let draws = choose|draws: Seq<BounceSample>|
                all_wf(draws) && sample_color == #[trigger] path_color(
                    scene,
                    environment,
                    &ray,
                    0,
                    draws,
                );
            let sample = PixelSample { jitter_x, jitter_y, lens_point, draws };
            let before = samples;
            samples = samples.push(sample);
            assert(samples.drop_last() =~= before);
            assert(samples.last() == sample);
        }
        color = color.add(sample_color);
        k = k + 1;
    }
    let c = encode(color, num_samples);
    proof {
        if scene.physical() {
            lemma_pixel_is_in_unit_range(
                c,
                camera,
                scene,
                environment,
                x,
                y,
                width,
                height,
                num_samples,
            );
        }
    }
    c
}

/// One row of the image: the pixels of row `y`, rows counted from the top,
/// from the left.
pub fn trace_row(
    y: u32,
    width: u32,
    height: u32,
    num_samples: u32,
    camera: &Camera,
    scene: &Scene,
    environment: Option<&Texture>,
    sampler: &mut Sampler,
) -> (row: Vec<Color>)
    requires
        y < height,
    ensures
        row.len() == width,
        forall|x: int|
            0 <= x < width ==> is_pixel_estimate(
                #[trigger] row[x],
                camera,
                scene,
                environment,
                x as u32,
                y,
                width,
                height,
                num_samples,
            ),
        scene.physical() ==> forall|x: int| 0 <= x < width ==> (#[trigger] row[x]).in_unit_range(),
{
    let mut row: Vec<Color> = Vec::new();
    let mut x: u32 = 0;
    while x < width
        invariant
            x <= width,
            y < height,
            row.len() == x,
            forall|i: int|
                0 <= i < x ==> is_pixel_estimate(
                    #[trigger] row[i],
                    camera,
                    scene,
                    environment,
                    i as u32,
                    y,
                    width,
                    height,
                    num_samples,
                ),
            scene.physical() ==> forall|i: int| 0 <= i < x ==> (#[trigger] row[i]).in_unit_range(),
        decreases width - x,
    {
        let color = trace_pixel(
            x,
            y,
            width,
            height,
            num_samples,
            camera,
            scene,
            environment,
            sampler,
        );
        row.push(color);
        x = x + 1;
    }
    row
}

/// Renders the image: `width * height` pixels, row by row from the top,
/// each row from the left.
pub fn trace_scene(
    width: u32,
    height: u32,
    num_samples: u32,
    camera: &Camera,
    scene: &Scene,
    environment: Option<&Texture>,
    sampler: &mut Sampler,
) -> (pixels: Vec<Color>)
    requires
        width * height <= u32::MAX,
    ensures
        pixels.len() == width * height,
        forall|i: int|
            0 <= i < pixels.len() ==> is_pixel_estimate(
                #[trigger] pixels[i],
                camera,
                scene,
                environment,
                (i % (width as int)) as u32,
                (i / (width as int)) as u32,
                width,
                height,
                num_samples,
            ),
        scene.physical() ==> forall|i: int|
            0 <= i < pixels.len() ==> (#[trigger] pixels[i]).in_unit_range(),
{
    let mut pixels: Vec<Color> = Vec::new();
    let mut y: u32 = 0;
    while y < height
        invariant
            y <= height,
            width * height <= u32::MAX,
            pixels.len() == y * width,
            forall|i: int|
                0 <= i < pixels.len() ==> is_pixel_estimate(
                    #[trigger] pixels[i],
                    camera,
                    scene,
                    environment,
                    (i % (width as int)) as u32,
                    (i / (width as int)) as u32,
                    width,
                    height,
                    num_samples,
                ),
            scene.physical() ==> forall|i: int|
                0 <= i < pixels.len() ==> (#[trigger] pixels[i]).in_unit_range(),
        decreases height - y,
    {
        let mut row = trace_row(y, width, height, num_samples, camera, scene, environment, sampler);
        let ghost before = pixels@;
        let ghost added = row@;
        pixels.append(&mut row);
        proof {
            assert(y * width + width == (y + 1) * width) by (nonlinear_arith);
            assert forall|i: int| 0 <= i < pixels.len() implies is_pixel_estimate(
                #[trigger] pixels[i],
                camera,
                scene,
                environment,
                (i % (width as int)) as u32,
                (i / (width as int)) as u32,
                width,
                height,
                num_samples,
            ) by {
                if i < before.len() {
                    assert(pixels[i] == before[i]);
                } else {
                    let x = i - y * width;
                    assert(pixels[i] == added[x]);
                    lemma_fundamental_div_mod_converse(i, width as int, y as int, x);
                }
            }
            if scene.physical() {
                assert forall|i: int| 0 <= i < pixels.len() implies (#[trigger] pixels[i])
                    .in_unit_range() by {
                    if i < before.len() {
                        assert(pixels[i] == before[i]);
                    } else {
                        assert(pixels[i] == added[i - y * width]);
                    }
                }
            }
        }
        y = y + 1;
    }
    assert(pixels.len() == width * height) by (nonlinear_arith)
        requires
            pixels.len() == y * width,
            y == height,
    ;
    pixels
}

/// A ray that hits nothing sees the background, and no bounce is taken:
/// the colour of its path does not depend on the random inputs.
pub proof fn lemma_miss_sees_background(
    scene: &Scene,
    environment: Option<&Texture>,
    ray: &Ray,
    depth: u32,
    draws: Seq<BounceSample>,
)
    requires
        depth < MAX_DEPTH,
        scene.hit(ray, Fixed::zero(), Fixed::max()) is None,
    ensures
        path_color(scene, environment, ray, depth, draws) == spec_background(ray, environment),
{
    reveal(spec_first_hit);
}

/// In a scene without shapes every ray hits nothing, so every path below
/// the depth limit has the colour of the background.
pub proof fn lemma_empty_scene_sees_background(
    scene: &Scene,
    environment: Option<&Texture>,
    ray: &Ray,
    depth: u32,
    draws: Seq<BounceSample>,
)
    requires
        scene.shapes.len() == 0,
        depth < MAX_DEPTH,
    ensures
        scene.hit(ray, Fixed::zero(), Fixed::max()) is None,
        path_color(scene, environment, ray, depth, draws) == spec_background(ray, environment),
{
    reveal(spec_first_hit);
}

/// At the depth limit a path is black, whatever the scene holds: no light
/// path has more than `MAX_DEPTH` bounces.
pub proof fn lemma_path_ends_at_depth_limit(
    scene: &Scene,
    environment: Option<&Texture>,
    ray: &Ray,
    depth: u32,
    draws: Seq<BounceSample>,
)
    requires
        depth >= MAX_DEPTH,
    ensures
        path_color(scene, environment, ray, depth, draws) == Color::black(),
{
}

/// A path takes at most `MAX_DEPTH - depth` bounces: the random inputs
/// beyond that many do not change its colour.
pub proof fn lemma_path_uses_bounded_draws(
    scene: &Scene,
    environment: Option<&Texture>,
    ray: &Ray,
    depth: u32,
    draws: Seq<BounceSample>,
    more: Seq<BounceSample>,
)
    requires
        depth <= MAX_DEPTH,
        draws.len() >= MAX_DEPTH - depth,
    ensures
        path_color(scene, environment, ray, depth, draws + more) == path_color(
            scene,
            environment,
            ray,
            depth,
            draws,
        ),
    decreases MAX_DEPTH - depth,
{
    if depth < MAX_DEPTH {
        match spec_first_hit(scene, ray) {
            None => {},
            Some(intersection) => {
                assert((draws + more)[0] == draws[0]);
                match intersection.material.scatter_with(ray, &intersection, &draws[0]) {
                    None => {},
                    Some((attenuation, scattered)) => {
                        assert((draws + more).drop_first() =~= draws.drop_first() + more);
                        lemma_path_uses_bounded_draws(
                            scene,
                            environment,
                            &scattered,
                            (depth + 1) as u32,
                            draws.drop_first(),
                            more,
                        );
                    },
                }
            },
        }
    }
}

/// The background is a colour of the unit range, whatever the ray.
pub proof fn lemma_background_is_in_unit_range(ray: &Ray, environment: Option<&Texture>)
    ensures
        spec_background(ray, environment).in_unit_range(),
{
    match environment {
        Some(image) => {
            lemma_lookup_is_in_unit_range(image, ray.direction.normalize());
        },
        None => {
            let one = Fixed::one();
            let half = Fixed::from_ratio(1, 2);
            lemma_normalized_components_are_bounded(ray.direction);
            let y = ray.direction.normalize().y;
            let lifted = y.add(one);
            lemma_sky_constants();
            lemma_half_of(lifted);
            let t = half.mul(lifted);
            let rest = one.sub(t);
            lemma_mul_unit(rest);
            lemma_unit_interval_is_closed(spec_sky_blue().r, t);
            lemma_unit_interval_is_closed(spec_sky_blue().g, t);
            lemma_unit_interval_is_closed(spec_sky_blue().b, t);
        },
    }
}

/// Half of a number between zero and two lies in the unit interval.
proof fn lemma_half_of(x: Fixed)
    requires
        0 <= x.raw <= 2 * ONE_RAW,
    ensures
        Fixed::from_ratio(1, 2).mul(x).in_unit_interval(),
{
    let half = Fixed::from_ratio(1, 2);
    lemma_sky_constants();
    assert((0x8000_0000 * x.raw) / (ONE_RAW as int) == x.raw / 2);
}

/// The raw values of one half and of seven tenths.
proof fn lemma_sky_constants()
    ensures
        Fixed::from_ratio(1, 2).raw == 0x8000_0000,
        Fixed::from_ratio(7, 10).raw == 0xb333_3333,
{
    assert(Fixed::from_int(1).raw == ONE_RAW);
    assert(Fixed::from_int(2).raw == 2 * ONE_RAW);
    assert(Fixed::from_int(7).raw == 7 * ONE_RAW);
    assert(Fixed::from_int(10).raw == 10 * ONE_RAW);
    assert(ONE_RAW * ONE_RAW == 0x1_0000_0000_0000_0000);
    assert((7 * ONE_RAW) * ONE_RAW == 0x7_0000_0000_0000_0000);
    assert(0x1_0000_0000_0000_0000int / (2 * ONE_RAW) == 0x8000_0000);
    assert(0x7_0000_0000_0000_0000int / (10 * ONE_RAW) == 0xb333_3333);
}

/// No path brings back more light than the background gives: in a scene
/// of physical materials the colour of every path lies in the unit range.
pub proof fn lemma_path_color_is_in_unit_range(
    scene: &Scene,
    environment: Option<&Texture>,
    ray: &Ray,
    depth: u32,
    draws: Seq<BounceSample>,
)
    requires
        scene.physical(),
    ensures
        path_color(scene, environment, ray, depth, draws).in_unit_range(),
    decreases MAX_DEPTH - depth,
{
    lemma_unit_range_is_closed(Color::white(), Color::white());
    if depth < MAX_DEPTH {
        lemma_background_is_in_unit_range(ray, environment);
        assert(spec_first_hit(scene, ray) matches Some(h) ==> h.material.physical()) by {
            reveal(spec_first_hit);
            lemma_scene_hit_is_physical(
                scene,
                ray,
                Fixed::zero(),
                Fixed::max(),
                scene.shapes.len() as int,
            );
        }
        match spec_first_hit(scene, ray) {
            None => {},
            Some(intersection) => {
                if draws.len() > 0 {
                    lemma_attenuation_is_in_unit_range(
                        intersection.material,
                        ray,
                        &intersection,
                        &draws[0],
                    );
                    match intersection.material.scatter_with(ray, &intersection, &draws[0]) {
                        None => {},
                        Some((attenuation, scattered)) => {
                            lemma_path_color_is_in_unit_range(
                                scene,
                                environment,
                                &scattered,
                                (depth + 1) as u32,
                                draws.drop_first(),
                            );
                            lemma_unit_range_is_closed(
                                attenuation,
                                path_color(
                                    scene,
                                    environment,
                                    &scattered,
                                    (depth + 1) as u32,
                                    draws.drop_first(),
                                ),
                            );
                        },
                    }
                }
            },
        }
    }
}

/// The channels of a sum of `n` samples are at most `n`.
proof fn lemma_sum_of_samples_is_bounded(
    camera: &Camera,
    scene: &Scene,
    environment: Option<&Texture>,
    x: u32,
    y: u32,
    width: u32,
    height: u32,
    samples: Seq<PixelSample>,
)
    requires
        scene.physical(),
    ensures
        ({
            let sum = sum_of_samples(camera, scene, environment, x, y, width, height, samples);
            &&& 0 <= sum.r.raw <= samples.len() * ONE_RAW
            &&& 0 <= sum.g.raw <= samples.len() * ONE_RAW
            &&& 0 <= sum.b.raw <= samples.len() * ONE_RAW
        }),
    decreases samples.len(),
{
    if samples.len() > 0 {
        lemma_sum_of_samples_is_bounded(
            camera,
            scene,
            environment,
            x,
            y,
            width,
            height,
            samples.drop_last(),
        );
        lemma_path_color_is_in_unit_range(
            scene,
            environment,
            &sample_ray(camera, x, y, width, height, samples.last()),
            0,
            samples.last().draws,
        );
        assert((samples.len() - 1) * ONE_RAW + ONE_RAW == samples.len() * ONE_RAW)
            by (nonlinear_arith);
    }
}

/// In a scene of physical materials every pixel is a colour of the unit
/// range: it can be encoded in bytes without clamping.
pub proof fn lemma_pixel_is_in_unit_range(
    c: Color,
    camera: &Camera,
    scene: &Scene,
    environment: Option<&Texture>,
    x: u32,
    y: u32,
    width: u32,
    height: u32,
    n: u32,
)
    requires
        scene.physical(),
        is_pixel_estimate(c, camera, scene, environment, x, y, width, height, n),
    ensures
        c.in_unit_range(),
{
    let samples = choose|samples: Seq<PixelSample>|
        samples.len() == n && (forall|i: int| 0 <= i < n ==> (#[trigger] samples[i]).wf()) && c
            == spec_encode(
            #[trigger] sum_of_samples(camera, scene, environment, x, y, width, height, samples),
            n,
        );
    let sum = sum_of_samples(camera, scene, environment, x, y, width, height, samples);
    lemma_sum_of_samples_is_bounded(camera, scene, environment, x, y, width, height, samples);
    lemma_mean_is_in_unit_interval(sum.r, n);
    lemma_mean_is_in_unit_interval(sum.g, n);
    lemma_mean_is_in_unit_interval(sum.b, n);
    let mean = sum.div(Fixed::from_count(n));
    lemma_unit_range_is_closed(mean, mean);
}

} // verus!
