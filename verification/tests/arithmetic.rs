use raytracer::color::{byte_to_channel, channel_to_byte, Color};
use raytracer::fixed::Fixed;
use raytracer::ray::Ray;
use raytracer::trig::{asin, atan2, atan_unit, radians, tan};
use raytracer::vector::Vec3;

const ONE: i64 = 1 << 32;

fn fx(x: f64) -> Fixed {
    Fixed::from_raw((x * 4294967296.0).round() as i64)
}

fn fl(x: Fixed) -> f64 {
    x.raw as f64 / 4294967296.0
}

fn v3(x: f64, y: f64, z: f64) -> Vec3 {
    Vec3::new(fx(x), fx(y), fx(z))
}

#[test]
fn whole_numbers_are_exact() {
    assert_eq!(Fixed::from_int(0).raw, 0);
    assert_eq!(Fixed::from_int(1).raw, ONE);
    assert_eq!(Fixed::from_int(-3).raw, -3 * ONE);
    assert_eq!(Fixed::from_int(i32::MIN).raw, i64::MIN);
    assert_eq!(Fixed::one(), Fixed::from_int(1));
    assert_eq!(Fixed::zero(), Fixed::from_int(0));
    assert_eq!(Fixed::from_count(7), Fixed::from_int(7));
    assert_eq!(Fixed::from_count(u32::MAX), Fixed::max());
    assert_eq!(Fixed::from_fraction(1 << 31), fx(0.5));
}

#[test]
fn sums_saturate() {
    assert_eq!(fx(1.5).add(fx(2.25)), fx(3.75));
    assert_eq!(fx(1.5).sub(fx(2.25)), fx(-0.75));
    assert_eq!(Fixed::max().add(Fixed::one()), Fixed::max());
    assert_eq!(Fixed::min().sub(Fixed::one()), Fixed::min());
    assert_eq!(Fixed::min().neg(), Fixed::max());
    assert_eq!(Fixed::min().abs(), Fixed::max());
    assert_eq!(fx(-2.5).abs(), fx(2.5));
    assert_eq!(fx(2.5).neg(), fx(-2.5));
}

#[test]
fn products_round_toward_zero() {
    assert_eq!(Fixed::from_raw(3).mul(Fixed::from_raw(1 << 31)).raw, 1);
    assert_eq!(Fixed::from_raw(-3).mul(Fixed::from_raw(1 << 31)).raw, -1);
    assert_eq!(Fixed::from_raw(3).mul(Fixed::from_raw(-(1 << 31))).raw, -1);
    assert_eq!(Fixed::from_raw(-3).mul(Fixed::from_raw(-(1 << 31))).raw, 1);
    assert_eq!(fx(1.5).mul(fx(-2.0)), fx(-3.0));
    assert_eq!(fx(0.0).mul(fx(-2.0)), fx(0.0));
}

#[test]
fn products_saturate() {
    let big = Fixed::from_int(100000);
    assert_eq!(big.mul(big), Fixed::max());
    assert_eq!(big.mul(big.neg()), Fixed::min());
    assert_eq!(Fixed::min().mul(Fixed::min()), Fixed::max());
}

#[test]
fn quotients_round_toward_zero() {
    assert_eq!(Fixed::from_int(1).div(Fixed::from_int(3)).raw, 1431655765);
    assert_eq!(Fixed::from_int(-1).div(Fixed::from_int(3)).raw, -1431655765);
    assert_eq!(Fixed::from_int(1).div(Fixed::from_int(-3)).raw, -1431655765);
    assert_eq!(Fixed::from_int(7).div(Fixed::from_int(2)), fx(3.5));
    assert_eq!(Fixed::from_ratio(7, 10).raw, 3006477107);
    assert_eq!(Fixed::from_ratio(1, 100_000_000).raw, 42);
}

#[test]
fn division_by_zero_saturates() {
    assert_eq!(fx(2.0).div(Fixed::zero()), Fixed::max());
    assert_eq!(fx(-2.0).div(Fixed::zero()), Fixed::min());
    assert_eq!(Fixed::zero().div(Fixed::zero()), Fixed::zero());
    assert_eq!(Fixed::from_int(1 << 20).div(Fixed::from_raw(1)), Fixed::max());
}

#[test]
fn square_roots_round_down() {
    assert_eq!(Fixed::from_int(4).sqrt(), Fixed::from_int(2));
    assert_eq!(Fixed::from_int(1).sqrt(), Fixed::from_int(1));
    assert_eq!(Fixed::zero().sqrt(), Fixed::zero());
    assert_eq!(fx(-4.0).sqrt(), Fixed::zero());
    assert_eq!(fx(0.25).sqrt(), fx(0.5));
    let r = Fixed::from_int(2).sqrt();
    assert_eq!(r.raw, 6074000999);
    let wide = (r.raw as i128) * (r.raw as i128);
    let next = (r.raw as i128 + 1) * (r.raw as i128 + 1);
    assert!(wide <= (2i128 << 64) && (2i128 << 64) < next);
    let top = Fixed::max().sqrt();
    assert!((fl(top) - 46340.95).abs() < 0.01);
}

#[test]
fn comparisons_follow_the_raw_values() {
    assert!(fx(1.0).lt(fx(1.5)));
    assert!(!fx(1.5).lt(fx(1.5)));
    assert!(fx(1.5).le(fx(1.5)));
    assert!(fx(2.0).gt(fx(1.5)));
    assert!(!fx(-2.0).gt(fx(1.5)));
}

#[test]
fn fifth_power() {
    assert_eq!(Fixed::from_int(2).powi5(), Fixed::from_int(32));
    assert_eq!(fx(0.5).powi5(), fx(0.03125));
    assert_eq!(fx(-0.5).powi5(), fx(-0.03125));
}

#[test]
fn vector_algebra() {
    let a = v3(1.0, 2.0, 3.0);
    let b = v3(-4.0, 0.5, 2.0);
    assert_eq!(a.add(b), v3(-3.0, 2.5, 5.0));
    assert_eq!(a.sub(b), v3(5.0, 1.5, 1.0));
    assert_eq!(a.mul(b), v3(-4.0, 1.0, 6.0));
    assert_eq!(a.scale(fx(2.0)), v3(2.0, 4.0, 6.0));
    assert_eq!(a.div(fx(2.0)), v3(0.5, 1.0, 1.5));
    assert_eq!(a.invert(), v3(-1.0, -2.0, -3.0));
    assert_eq!(a.dot(b), fx(-4.0 + 1.0 + 6.0));
    assert_eq!(
        a.cross(b),
        v3(2.0 * 2.0 - 3.0 * 0.5, 3.0 * -4.0 - 1.0 * 2.0, 1.0 * 0.5 - 2.0 * -4.0)
    );
    assert_eq!(a.squared_length(), fx(14.0));
    assert_eq!(v3(3.0, 4.0, 0.0).length(), fx(5.0));
    assert_eq!(
        v3(3.0, 4.0, 0.0).normalize(),
        Vec3::new(Fixed::from_ratio(3, 5), Fixed::from_ratio(4, 5), Fixed::zero())
    );
    assert_eq!(Vec3::from_ints(1, -2, 3), v3(1.0, -2.0, 3.0));
    assert_eq!(Vec3::zero(), v3(0.0, 0.0, 0.0));
}

#[test]
fn normalizing_gives_unit_length() {
    for v in [
        v3(1.0, 1.0, 1.0),
        v3(-0.3, 12.0, 5.5),
        v3(0.001, 0.002, -0.003),
        v3(1000.0, -2000.0, 500.0),
    ] {
        let n = v.normalize();
        let len = (fl(n.x).powi(2) + fl(n.y).powi(2) + fl(n.z).powi(2)).sqrt();
        assert!((len - 1.0).abs() < 1e-5, "length {}", len);
    }
}

#[test]
fn normalized_length_stays_within_the_rounding_bound() {
    let vectors = [
        v3(1.0, 1.0, 1.0),
        v3(-0.3, 12.0, 5.5),
        v3(0.001, 0.002, -0.003),
        v3(1000.0, -2000.0, 500.0),
        Vec3::new(Fixed::from_raw(3), Fixed::from_raw(-4), Fixed::from_raw(0)),
        Vec3::new(Fixed::from_raw(1), Fixed::from_raw(0), Fixed::from_raw(0)),
        Vec3::new(Fixed::from_raw(1 << 62), Fixed::from_raw(-(1 << 62)), Fixed::from_raw(1 << 62)),
    ];
    for v in vectors {
        let l = v.length().raw;
        assert!(l > 0);
        let n = v.normalize().length().raw;
        assert!(ONE - 4 <= n, "{} is too short", n);
        assert!(n <= ONE + ONE / l + 1, "{} is too long", n);
    }
}

#[test]
fn length_is_the_rounded_down_root_of_the_square_sum() {
    assert_eq!(Fixed::norm(fx(3.0), fx(-4.0), fx(12.0)), fx(13.0));
    assert_eq!(Fixed::norm(Fixed::from_raw(1), Fixed::from_raw(1), Fixed::from_raw(1)).raw, 1);
    assert_eq!(Fixed::norm(Fixed::from_raw(2), Fixed::from_raw(2), Fixed::from_raw(1)).raw, 3);
    assert_eq!(Fixed::norm(Fixed::min(), Fixed::zero(), Fixed::zero()), Fixed::max());
    assert_eq!(Fixed::norm(Fixed::max(), Fixed::max(), Fixed::max()), Fixed::max());
    for v in [v3(0.001, 0.002, -0.003), v3(7.5, -0.25, 3.0)] {
        let l = v.length().raw as i128;
        let sum = [v.x.raw, v.y.raw, v.z.raw]
            .iter()
            .map(|c| (*c as i128) * (*c as i128))
            .sum::<i128>();
        assert!(l * l <= sum && sum < (l + 1) * (l + 1));
    }
}

#[test]
fn normalizing_the_zero_vector_leaves_it() {
    assert_eq!(Vec3::zero().normalize(), Vec3::zero());
}

#[test]
fn points_along_a_ray() {
    let ray = Ray::new(v3(1.0, 2.0, 3.0), v3(0.5, -1.0, 2.0));
    assert_eq!(ray.point_along(fx(2.0)), v3(2.0, 0.0, 7.0));
    assert_eq!(ray.point_along(fx(0.0)), v3(1.0, 2.0, 3.0));
    assert_eq!(ray.point_along(fx(-1.0)), v3(0.5, 3.0, 1.0));
}

#[test]
fn named_colors() {
    assert_eq!(Color::black(), Color::new(fx(0.0), fx(0.0), fx(0.0)));
    assert_eq!(Color::white(), Color::new(fx(1.0), fx(1.0), fx(1.0)));
    assert_eq!(Color::red(), Color::new(fx(1.0), fx(0.0), fx(0.0)));
    assert_eq!(Color::green(), Color::new(fx(0.0), fx(1.0), fx(0.0)));
    assert_eq!(Color::blue(), Color::new(fx(0.0), fx(0.0), fx(1.0)));
}

#[test]
fn color_algebra() {
    let a = Color::new(fx(0.5), fx(0.25), fx(1.0));
    let b = Color::new(fx(0.5), fx(2.0), fx(0.0));
    assert_eq!(a.add(b), Color::new(fx(1.0), fx(2.25), fx(1.0)));
    assert_eq!(a.mul(b), Color::new(fx(0.25), fx(0.5), fx(0.0)));
    assert_eq!(a.scale(fx(4.0)), Color::new(fx(2.0), fx(1.0), fx(4.0)));
    assert_eq!(a.div(fx(2.0)), Color::new(fx(0.25), fx(0.125), fx(0.5)));
    assert_eq!(
        Color::new(fx(0.25), fx(4.0), fx(0.0)).gamma2(),
        Color::new(fx(0.5), fx(2.0), fx(0.0))
    );
}

#[test]
fn channels_become_bytes() {
    assert_eq!(channel_to_byte(fx(0.0)), 0);
    assert_eq!(channel_to_byte(fx(1.0)), 255);
    assert_eq!(channel_to_byte(fx(0.5)), 128);
    assert_eq!(channel_to_byte(fx(0.25)), 64);
    assert_eq!(channel_to_byte(fx(-3.0)), 0);
    assert_eq!(channel_to_byte(fx(17.0)), 255);
    assert_eq!(channel_to_byte(fx(0.001)), 0);
    assert_eq!(channel_to_byte(fx(0.002)), 1);
    assert_eq!(Color::new(fx(1.0), fx(0.5), fx(0.0)).to_bytes(), (255, 128, 0));
}

#[test]
fn bytes_become_channels() {
    assert_eq!(byte_to_channel(0), Fixed::zero());
    assert!((fl(byte_to_channel(255)) - 255.0 / 255.99).abs() < 1e-8);
    assert!((fl(byte_to_channel(128)) - 128.0 / 255.99).abs() < 1e-8);
    let c = Color::from_bytes(255, 0, 64);
    assert!((fl(c.r) - 255.0 / 255.99).abs() < 1e-8);
    assert_eq!(c.g, Fixed::zero());
    assert!((fl(c.b) - 64.0 / 255.99).abs() < 1e-8);
    for v in 0..=255u8 {
        assert_eq!(channel_to_byte(byte_to_channel(v)), v);
    }
}

#[test]
fn arctangent_polynomial_is_accurate() {
    let mut z = -1.0f64;
    while z <= 1.0 {
        assert!((fl(atan_unit(fx(z))) - z.atan()).abs() < 1e-7, "at {}", z);
        z += 1.0 / 64.0;
    }
}

#[test]
fn angles_of_points() {
    assert_eq!(atan2(fx(0.0), fx(0.0)), Fixed::zero());
    assert_eq!(atan2(fx(0.0), fx(3.0)), Fixed::zero());
    let cases = [
        (1.0, 1.0),
        (1.0, -1.0),
        (-1.0, -1.0),
        (-1.0, 1.0),
        (0.0, -2.0),
        (5.0, 0.0),
        (-5.0, 0.0),
        (0.3, 0.9),
        (0.9, 0.3),
        (-0.2, -7.0),
        (12.0, -0.01),
    ];
    for (y, x) in cases {
        let expected = (y as f64).atan2(x);
        assert!((fl(atan2(fx(y), fx(x))) - expected).abs() < 1e-6, "at ({}, {})", y, x);
    }
}

#[test]
fn arcsine() {
    for y in [-1.0, -0.75, -0.5, -0.1, 0.0, 0.1, 0.5, 0.75, 0.999, 1.0] {
        let expected = (y as f64).asin();
        assert!((fl(asin(fx(y))) - expected).abs() < 1e-4, "at {}", y);
    }
    assert_eq!(asin(fx(3.0)), asin(fx(1.0)));
    assert_eq!(asin(fx(-3.0)), asin(fx(-1.0)));
}

#[test]
fn tangent() {
    for x in [0.0, 0.1, 0.3, 0.5, 0.78, 0.8, 1.0, 1.2, 1.5] {
        let expected = (x as f64).tan();
        assert!(
            (fl(tan(fx(x))) - expected).abs() < 1e-6 * (1.0 + expected * expected),
            "at {}",
            x
        );
    }
    assert!((fl(radians(Fixed::from_int(180))) - std::f64::consts::PI).abs() < 1e-8);
    assert!((fl(radians(Fixed::from_int(35))) - 35.0f64.to_radians()).abs() < 1e-8);
}
