//! The choice of the auxiliary axis of an orthonormal basis.

use crate::scalar::Scalar;
use vstd::prelude::*;

verus! {

/// The pattern of the threshold beyond which a direction counts as running
/// along the first axis: the number nearest to nine tenths.
pub const ALONG_BITS: u32 = 0x3f66_6666;

/// Whether the basis about a unit direction is completed from the second
/// axis rather than the first: it is where the direction runs along the
/// first axis, its coordinate `x` along that axis being beyond the threshold
/// on either side.
pub open spec fn runs_along_x(x: Scalar) -> bool {
    !x.is_nan() && x.magnitude() > ALONG_BITS
}

/// Decides from which axis the basis about a direction is completed.
pub fn auxiliary_is_y(x: Scalar) -> (second: bool)
    ensures
        second == runs_along_x(x),
        second == (Scalar { bits: ALONG_BITS }).is_below(
            Scalar { bits: (x.bits % 0x8000_0000) as u32 },
        ),
{
    let size = Scalar { bits: x.bits % 0x8000_0000 };
    let threshold = Scalar { bits: ALONG_BITS };
    proof {
        if !size.is_nan() {
            crate::scalar::lemma_keys_order(threshold, size);
        }
    }
    threshold.less_than(&size)
}

} // verus!
