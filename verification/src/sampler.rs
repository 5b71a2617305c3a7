//! The source of randomness for scattering and anti-aliasing.
//!
//! A `Sampler` owns a seeded pseudo-random generator.  Nothing is known of
//! the numbers it hands out beyond their range, so every function that
//! draws from it states what holds for all outcomes, and the functions that
//! consume the drawn values are specified exactly.

use crate::fixed::{lemma_mul_whole, Fixed, ONE_RAW};
use crate::vector::Vec3;
use vstd::prelude::*;

verus! {

#[verifier::external_type_specification]
#[verifier::external_body]
pub struct ExStdRng(rand::rngs::StdRng);

/// `rand::SeedableRng::seed_from_u64` for `StdRng`: expands the seed into a
/// generator state.  Nothing is claimed of the state.
#[verifier::external_body]
fn generator_from_seed(seed: u64) -> (rng: rand::rngs::StdRng) {
    rand::SeedableRng::seed_from_u64(seed)
}

/// `rand::RngCore::next_u32` for `StdRng`: advances the generator and hands
/// out 32 bits.  Nothing is claimed of the bits.
#[verifier::external_body]
fn next_bits(rng: &mut rand::rngs::StdRng) -> (bits: u32) {
    rand::RngCore::next_u32(rng)
}

/// How many candidates `random_point_in_unit_sphere` draws before it settles
/// for the centre of the sphere.
pub const MAX_ATTEMPTS: u32 = 64;

/// A stream of random numbers.
pub struct Sampler {
    rng: rand::rngs::StdRng,
}

/// The random inputs of one bounce of a light path.
#[derive(Clone, Copy, PartialEq, Eq, Debug, Structural)]
pub struct BounceSample {
    /// A point strictly inside the unit sphere.
    pub point: Vec3,
    /// A number in `[0, 1)`.
    pub chance: Fixed,
}

/// `p` lies strictly inside the unit sphere around the origin.
pub open spec fn in_unit_sphere(p: Vec3) -> bool {
    p.squared_length().raw < ONE_RAW
}

/// The point of the cube `[-1, 1)^3` that three draws select:
/// `2 * (a, b, c) / 2^32 - (1, 1, 1)`.
pub open spec fn spec_unit_cube_point(a: u32, b: u32, c: u32) -> Vec3 {
    Vec3::new(Fixed::from_fraction(a), Fixed::from_fraction(b), Fixed::from_fraction(c)).scale(
        Fixed::from_int(2),
    ).sub(Vec3::from_ints(1, 1, 1))
}

/// Computes `spec_unit_cube_point`.
#[verifier::when_used_as_spec(spec_unit_cube_point)]
pub fn unit_cube_point(a: u32, b: u32, c: u32) -> (p: Vec3)
    ensures
        p == spec_unit_cube_point(a, b, c),
        p.x.raw == 2 * a - ONE_RAW,
        p.y.raw == 2 * b - ONE_RAW,
        p.z.raw == 2 * c - ONE_RAW,
{
    proof {
        lemma_mul_whole(Fixed::from_fraction(a), 2);
        lemma_mul_whole(Fixed::from_fraction(b), 2);
        lemma_mul_whole(Fixed::from_fraction(c), 2);
    }
    Vec3::new(Fixed::from_fraction(a), Fixed::from_fraction(b), Fixed::from_fraction(c)).scale(
        Fixed::from_int(2),
    ).sub(Vec3::from_ints(1, 1, 1))
}

/// `p` lies strictly inside the unit disk of the plane `z = 0`.
pub open spec fn in_unit_disk(p: Vec3) -> bool {
    p.z.raw == 0 && p.squared_length().raw < ONE_RAW
}

/// The point of the square `[-1, 1)^2` in the plane `z = 0` that two draws
/// select: `2 * (a, b) / 2^32 - (1, 1)`.
pub open spec fn spec_unit_square_point(a: u32, b: u32) -> Vec3 {
    Vec3::new(Fixed::from_fraction(a), Fixed::from_fraction(b), Fixed::zero()).scale(
        Fixed::from_int(2),
    ).sub(Vec3::from_ints(1, 1, 0))
}

/// Computes `spec_unit_square_point`.
#[verifier::when_used_as_spec(spec_unit_square_point)]
pub fn unit_square_point(a: u32, b: u32) -> (p: Vec3)
    ensures
        p == spec_unit_square_point(a, b),
        p.x.raw == 2 * a - ONE_RAW,
        p.y.raw == 2 * b - ONE_RAW,
        p.z.raw == 0,
{
    proof {
        lemma_mul_whole(Fixed::from_fraction(a), 2);
        lemma_mul_whole(Fixed::from_fraction(b), 2);
        lemma_mul_whole(Fixed::zero(), 2);
    }
    Vec3::new(Fixed::from_fraction(a), Fixed::from_fraction(b), Fixed::zero()).scale(
        Fixed::from_int(2),
    ).sub(Vec3::from_ints(1, 1, 0))
}

/// `p` is a point that three draws can select.
pub open spec fn is_cube_point(p: Vec3) -> bool {
    exists|a: u32, b: u32, c: u32| p == spec_unit_cube_point(a, b, c)
}

/// `p` is a point that two draws can select.
pub open spec fn is_square_point(p: Vec3) -> bool {
    exists|a: u32, b: u32| p == spec_unit_square_point(a, b)
}

/// `p` is what rejection makes of the candidates, taken in turn: every
/// candidate but the last lies outside the unit sphere, and `p` is the last
/// one if that lies inside.  If it lies outside too, all `MAX_ATTEMPTS`
/// candidates have been used up and `p` is the centre.
pub open spec fn is_rejection_sample(p: Vec3, candidates: Seq<Vec3>) -> bool {
    &&& 0 < candidates.len() <= MAX_ATTEMPTS
    &&& forall|i: int|
        0 <= i < candidates.len() - 1 ==> !in_unit_sphere(#[trigger] candidates[i])
    &&& if in_unit_sphere(candidates.last()) {
        p == candidates.last()
    } else {
        candidates.len() == MAX_ATTEMPTS && p == Vec3::zero()
    }
}

/// `p` is what rejection makes of some points of the cube `[-1, 1)^3`.
pub open spec fn is_sphere_sample(p: Vec3) -> bool {
    exists|candidates: Seq<Vec3>|
        #[trigger] is_rejection_sample(p, candidates) && forall|i: int|
            0 <= i < candidates.len() ==> is_cube_point(#[trigger] candidates[i])
}

/// `p` is what rejection makes of some points of the square `[-1, 1)^2` in
/// the plane `z = 0`.
pub open spec fn is_disk_sample(p: Vec3) -> bool {
    exists|candidates: Seq<Vec3>|
        #[trigger] is_rejection_sample(p, candidates) && forall|i: int|
            0 <= i < candidates.len() ==> is_square_point(#[trigger] candidates[i])
}

impl BounceSample {
    /// The sample is one that `draw` can return.
    pub open spec fn wf(self) -> bool {
        in_unit_sphere(self.point) && 0 <= self.chance.raw < ONE_RAW
    }

    /// Draws the random inputs of one bounce: a point inside the unit
    /// sphere, by rejection, and then a number in `[0, 1)`.
    pub fn draw(sampler: &mut Sampler) -> (s: BounceSample)
        ensures
            s.wf(),
            is_sphere_sample(s.point),
    {
        let point = random_point_in_unit_sphere(sampler);
        let chance = sampler.next_fraction();
        BounceSample { point, chance }
    }
}

impl Sampler {
    /// A stream determined by `seed`.
    pub fn seeded(seed: u64) -> Sampler {
        Sampler { rng: generator_from_seed(seed) }
    }

    /// Draws a number in `[0, 1)`.
    pub fn next_fraction(&mut self) -> (r: Fixed)
        ensures
            0 <= r.raw < ONE_RAW,
    {
        Fixed::from_fraction(next_bits(&mut self.rng))
    }

    /// Draws a point of the cube `[-1, 1)^3`: the point that three numbers
    /// drawn in turn select.
    pub fn next_cube_point(&mut self) -> (p: Vec3)
        ensures
            is_cube_point(p),
            -ONE_RAW <= p.x.raw < ONE_RAW,
            -ONE_RAW <= p.y.raw < ONE_RAW,
            -ONE_RAW <= p.z.raw < ONE_RAW,
    {
        let a = next_bits(&mut self.rng);
        let b = next_bits(&mut self.rng);
        let c = next_bits(&mut self.rng);
        let p = unit_cube_point(a, b, c);
        assert(p == spec_unit_cube_point(a, b, c));
        p
    }

    /// Draws a point of the square `[-1, 1)^2` in the plane `z = 0`: the
    /// point that two numbers drawn in turn select.
    pub fn next_square_point(&mut self) -> (p: Vec3)
        ensures
            is_square_point(p),
            -ONE_RAW <= p.x.raw < ONE_RAW,
            -ONE_RAW <= p.y.raw < ONE_RAW,
            p.z.raw == 0,
    {
        let a = next_bits(&mut self.rng);
        let b = next_bits(&mut self.rng);
        let p = unit_square_point(a, b);
        assert(p == spec_unit_square_point(a, b));
        p
    }
}

/// Draws a point strictly inside the unit disk of the plane `z = 0` by
/// rejection, like `random_point_in_unit_sphere`: the first of up to
/// `MAX_ATTEMPTS` points drawn from the surrounding square that falls
/// inside, or the centre when none does.
pub fn random_point_in_unit_disk(sampler: &mut Sampler) -> (p: Vec3)
    ensures
        in_unit_disk(p),
        is_disk_sample(p),
{
    let mut attempts: u32 = 0;
    let ghost mut tried: Seq<Vec3> = Seq::empty();
    while attempts < MAX_ATTEMPTS
        invariant
            attempts <= MAX_ATTEMPTS,
            tried.len() == attempts,
            forall|i: int| 0 <= i < tried.len() ==> is_square_point(#[trigger] tried[i]),
            forall|i: int| 0 <= i < tried.len() ==> !in_unit_sphere(#[trigger] tried[i]),
        decreases MAX_ATTEMPTS - attempts,
    {
        let p = sampler.next_square_point();
        proof {
            tried = tried.push(p);
        }
        if p.squared_length().lt(Fixed::one()) {
            assert(tried.last() == p);
            assert(is_rejection_sample(p, tried));
            return p;
        }
        attempts = attempts + 1;
    }
    let centre = Vec3::zero();
    assert(is_rejection_sample(centre, tried));
    centre
}

/// Draws a point strictly inside the unit sphere by rejection: points of the
/// surrounding cube are drawn until one falls inside.  After `MAX_ATTEMPTS`
/// rejections the centre is returned.
pub fn random_point_in_unit_sphere(sampler: &mut Sampler) -> (p: Vec3)
    ensures
        in_unit_sphere(p),
        is_sphere_sample(p),
        -ONE_RAW <= p.x.raw < ONE_RAW,
        -ONE_RAW <= p.y.raw < ONE_RAW,
        -ONE_RAW <= p.z.raw < ONE_RAW,
{
    let mut attempts: u32 = 0;
    let ghost mut tried: Seq<Vec3> = Seq::empty();
    while attempts < MAX_ATTEMPTS
        invariant
            attempts <= MAX_ATTEMPTS,
            tried.len() == attempts,
            forall|i: int| 0 <= i < tried.len() ==> is_cube_point(#[trigger] tried[i]),
            forall|i: int| 0 <= i < tried.len() ==> !in_unit_sphere(#[trigger] tried[i]),
        decreases MAX_ATTEMPTS - attempts,
    {
        let p = sampler.next_cube_point();
        proof {
            tried = tried.push(p);
        }
        if p.squared_length().lt(Fixed::one()) {
            assert(tried.last() == p);
            assert(is_rejection_sample(p, tried));
            return p;
        }
        attempts = attempts + 1;
    }
    let centre = Vec3::zero();
    assert(is_rejection_sample(centre, tried));
    centre
}

} // verus!
