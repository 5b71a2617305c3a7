//! Surface materials.

use crate::color::{lemma_unit_range_is_closed, Color};
use crate::fixed::{Fixed, ONE_RAW};
use crate::intersection::Intersection;
use crate::ray::Ray;
use crate::sampler::{BounceSample, Sampler};
use crate::scatter::{diffusive, reflection, refraction, texture};
use crate::texture::{lemma_lookup_is_in_unit_range, Texture};
use vstd::prelude::*;

verus! {

/// A material is diffuse unless one of the optional parts is present.  With
/// a diffusiveness it is a mirror, the sharper the smaller the value; else
/// with a refraction index it is transparent; else with a texture it is
/// diffuse in the colours of the texture.
pub struct Material {
    pub albedo: Color,
    pub diffusiveness: Option<Fixed>,
    pub refraction_index: Option<Fixed>,
    pub texture: Option<Texture>,
}

impl Material {
    /// The diffusiveness of a mirror lies in `[0, 1]` and a refraction
    /// index is positive.
    pub open spec fn wf(&self) -> bool {
        &&& self.diffusiveness matches Some(d) ==> 0 <= d.raw <= ONE_RAW
        &&& self.refraction_index matches Some(n) ==> n.raw > 0
    }

    /// The material gives back no more light than it receives: the channels
    /// of its albedo lie in the unit interval.
    pub open spec fn physical(&self) -> bool {
        self.albedo.in_unit_range()
    }

    /// A diffuse material of the given colour.
    pub fn diffusive(albedo: Color) -> (m: Material)
        ensures
            m.albedo == albedo,
            m.diffusiveness is None,
            m.refraction_index is None,
            m.texture is None,
            m.wf(),
    {
        Material { albedo, diffusiveness: None, refraction_index: None, texture: None }
    }

    /// A mirror of the given colour.
    pub fn reflective(albedo: Color, diffusiveness: Fixed) -> (m: Material)
        requires
            0 <= diffusiveness.raw <= ONE_RAW,
        ensures
            m.albedo == albedo,
            m.diffusiveness == Some(diffusiveness),
            m.refraction_index is None,
            m.texture is None,
            m.wf(),
    {
        Material {
            albedo,
            diffusiveness: Some(diffusiveness),
            refraction_index: None,
            texture: None,
        }
    }

    /// A clear transparent material.
    pub fn refractive(refraction_index: Fixed) -> (m: Material)
        requires
            refraction_index.raw > 0,
        ensures
            m.albedo == Color::white(),
            m.diffusiveness is None,
            m.refraction_index == Some(refraction_index),
            m.texture is None,
            m.wf(),
    {
        Material {
            albedo: Color::white(),
            diffusiveness: None,
            refraction_index: Some(refraction_index),
            texture: None,
        }
    }

    /// A diffuse material that shows an image.
    pub fn texture(texture: Texture) -> (m: Material)
        ensures
            m.albedo == Color::black(),
            m.diffusiveness is None,
            m.refraction_index is None,
            m.texture == Some(texture),
            m.wf(),
    {
        Material {
            albedo: Color::black(),
            diffusiveness: None,
            refraction_index: None,
            texture: Some(texture),
        }
    }

    /// What becomes of `ray` at `intersection` for the random inputs
    /// `sample`: the attenuation and the scattered ray, or `None` when the
    /// ray is absorbed.
    #[verifier::opaque]
    pub open spec fn spec_scatter_with(
        &self,
        ray: &Ray,
        intersection: &Intersection,
        sample: &BounceSample,
    ) -> Option<(Color, Ray)> {
        if let Some(diffusiveness) = self.diffusiveness {
            reflection(self.albedo, diffusiveness, ray, intersection, sample.point)
        } else if let Some(refraction_index) = self.refraction_index {
            refraction(refraction_index, ray, intersection, sample.chance)
        } else if let Some(image) = self.texture {
            texture(&image, intersection, sample.point)
        } else {
            diffusive(self.albedo, intersection, sample.point)
        }
    }

    /// Computes `spec_scatter_with`.
    #[verifier::when_used_as_spec(spec_scatter_with)]
    pub fn scatter_with(&self, ray: &Ray, intersection: &Intersection, sample: &BounceSample) -> (r:
        Option<(Color, Ray)>)
        ensures
            r == self.spec_scatter_with(ray, intersection, sample),
    {
        reveal(Material::spec_scatter_with);
        if let Some(diffusiveness) = self.diffusiveness {
            reflection(self.albedo, diffusiveness, ray, intersection, sample.point)
        } else if let Some(refraction_index) = self.refraction_index {
            refraction(refraction_index, ray, intersection, sample.chance)
        } else if let Some(ref image) = self.texture {
            texture(image, intersection, sample.point)
        } else {
            diffusive(self.albedo, intersection, sample.point)
        }
    }

    /// Scatters `ray` at `intersection` with random inputs drawn from
    /// `sampler`.
    pub fn scatter(&self, ray: &Ray, intersection: &Intersection, sampler: &mut Sampler) -> (r:
        Option<(Color, Ray)>)
        ensures
            exists|sample: BounceSample|
                sample.wf() && r == #[trigger] self.spec_scatter_with(ray, intersection, &sample),
    {
        let sample = BounceSample::draw(sampler);
        self.scatter_with(ray, intersection, &sample)
    }
}

/// A physical material attenuates by a colour of the unit range, whatever
/// the ray and the random inputs.
pub proof fn lemma_attenuation_is_in_unit_range(
    material: &Material,
    ray: &Ray,
    intersection: &Intersection,
    sample: &BounceSample,
)
    requires
        material.physical(),
    ensures
        material.spec_scatter_with(ray, intersection, sample) matches Some((attenuation, scattered))
            ==> attenuation.in_unit_range(),
{
    reveal(Material::spec_scatter_with);
    lemma_unit_range_is_closed(Color::white(), Color::white());
    if material.diffusiveness is None && material.refraction_index is None {
        if let Some(image) = material.texture {
            lemma_lookup_is_in_unit_range(&image, intersection.normal);
        }
    }
}

} // verus!
