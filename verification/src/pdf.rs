//! The density of the cosine distribution, and the choice between the two
//! halves of a mixture of distributions.

use crate::rand_gen::{get_rand_bits, SAMPLE_SCALE};
use crate::scalar::{Scalar, ZERO_BITS};
use vstd::prelude::*;

verus! {

/// The density of the cosine distribution in a direction, relative to the
/// uniform density of the hemisphere: twice the cosine of the angle between
/// the direction and the axis, and zero for a direction below the horizon.
pub open spec fn cosine_density_of(cosine: Scalar) -> Scalar {
    if cosine.is_at_most(Scalar { bits: ZERO_BITS }) {
        Scalar { bits: ZERO_BITS }
    } else {
        cosine.double()
    }
}

/// Evaluates the density of the cosine distribution.
pub fn cosine_density(cosine: Scalar) -> (density: Scalar)
    ensures
        density == cosine_density_of(cosine),
{
    if cosine.at_most(&Scalar { bits: ZERO_BITS }) {
        Scalar { bits: ZERO_BITS }
    } else {
        cosine.twice()
    }
}

/// The half of an even mixture that the uniform sample `bits / 2^24`
/// selects: the first for a sample below one half, else the second.
pub open spec fn half_of(bits: int) -> int {
    if 2 * bits < SAMPLE_SCALE {
        0
    } else {
        1
    }
}

/// Selects the half of an even mixture for a uniform sample.
pub fn mixture_half(bits: u32) -> (half: usize)
    ensures
        half == half_of(bits as int),
        half < 2,
{
    if bits < SAMPLE_SCALE / 2 {
        0
    } else {
        1
    }
}

/// Draws the half of an even mixture from which a direction is generated.
pub fn choose_half() -> (half: usize)
    ensures
        half < 2,
        exists|bits: int| 0 <= bits < SAMPLE_SCALE && half == #[trigger] half_of(bits),
{
    let bits: u32 = get_rand_bits();
    mixture_half(bits)
}

} // verus!
