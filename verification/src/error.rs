//! The ways a call can fail.

use vstd::prelude::*;

verus! {

/// Why a call was refused. A call that fails returns no detections at all.
#[derive(Clone, Copy, Debug, PartialEq, Eq, Structural)]
pub enum PostProcessError {
    /// The call does not have three tensors, or its image size is not a pair.
    InvalidInputShape,
    /// A buffer does not hold `batch_size * anchor_count * channel_width` values.
    BufferSizeMismatch,
    /// A box that was to become a detection has no positive width or height.
    DegenerateGeometry,
    /// A list of kept detections points outside the list it was made from.
    IndexOutOfRange,
}

} // verus!
