//! The ways in which a material can scatter a ray, and what materials
//! decide by comparing.

use crate::rand_gen::{sample_scalar, SAMPLE_SCALE};
use crate::scalar::{Scalar, ONE_BITS, ZERO_BITS};
use vstd::arithmetic::power2::pow2;
use vstd::prelude::*;

verus! {

/// How a material scattered an incoming ray.
#[allow(non_camel_case_types)]
#[derive(Clone, Copy, Debug, PartialEq, Eq, Structural)]
pub enum ScatterType {
    /// Into one ray that the material fixed: a mirror or a refracting surface.
    Specular,
    /// Into a distribution of directions, from which the integrator samples.
    Diffuse,
    /// Into one ray drawn uniformly from the sphere: a volume.
    ISO,
}

/// What a lamp emits where a ray hits it: its colour on its front face, and
/// nothing on its back.
pub fn emitted<T>(front_face: bool, colour: T) -> (light: Option<T>)
    ensures
        light == if front_face {
            Some(colour)
        } else {
            None::<T>
        },
{
    if front_face {
        Some(colour)
    } else {
        None
    }
}

/// The roughness of a metal: at most one.
pub fn clamp_fuzz(fuzz: Scalar) -> (clamped: Scalar)
    ensures
        clamped == fuzz.lesser(Scalar { bits: ONE_BITS }),
{
    fuzz.min(Scalar { bits: ONE_BITS })
}

/// Whether a metal scatters a reflected ray: it does where the ray leaves
/// the surface, that is where the dot product `leaving` of the surface
/// normal and the ray is above zero.
pub fn reflects_outward(leaving: Scalar) -> (scatters: bool)
    ensures
        scatters == (Scalar { bits: ZERO_BITS }).is_below(leaving),
{
    (Scalar { bits: ZERO_BITS }).less_than(&leaving)
}

/// Whether a ray is reflected by a transparent surface rather than
/// refracted: it is where refraction is impossible, the ratio of the
/// refractive indices times the sine of the angle of incidence being above
/// one, or where the reflectance is above the uniform sample `bits / 2^24`.
pub open spec fn is_reflected(bent_sine: Scalar, reflectance: Scalar, bits: int) -> bool {
    ||| (Scalar { bits: ONE_BITS }).is_below(bent_sine)
    ||| (!reflectance.is_nan() && reflectance.value() > bits * pow2(125))
}

/// Decides between reflection and refraction.
pub fn must_reflect(bent_sine: Scalar, reflectance: Scalar, bits: u32) -> (reflected: bool)
    requires
        bits < SAMPLE_SCALE,
    ensures
        reflected == is_reflected(bent_sine, reflectance, bits as int),
{
    let sample = sample_scalar(bits);
    (Scalar { bits: ONE_BITS }).less_than(&bent_sine) || sample.less_than(&reflectance)
}

} // verus!
