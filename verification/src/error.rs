//! The error taxonomy of the softmax kernel.
//!
//! Every variant marks a caller-contract violation: it is surfaced
//! immediately, never retried and never recovered internally.

use vstd::prelude::*;

verus! {

/// Why a softmax request was rejected.
#[derive(Clone, Copy, Debug, PartialEq, Eq, Structural)]
pub enum SoftmaxError {
    /// The caller requested a reduction along a non-trailing axis, or the
    /// axis selector does not resolve against the tensor's rank.
    UnsupportedAxis,
    /// The addressed (batch, feature) region is not one contiguous run of
    /// storage.
    NonContiguous,
    /// The element type is not the supported 32-bit floating-point width.
    UnsupportedDType,
    /// The row width is zero, or the buffer length is not an exact multiple
    /// of the row width, or the addressed region does not fit the storage.
    InvalidShape,
}

impl SoftmaxError {
    /// A short description of the violation, for reports outside the crate.
    pub fn message(&self) -> (r: &'static str)
        ensures
            r@.len() > 0,
    {
        match self {
            SoftmaxError::UnsupportedAxis => {
                proof { reveal_strlit("softmax targets the trailing axis only"); }
                "softmax targets the trailing axis only"
            },
            SoftmaxError::NonContiguous => {
                proof { reveal_strlit("softmax input must be contiguous"); }
                "softmax input must be contiguous"
            },
            SoftmaxError::UnsupportedDType => {
                proof { reveal_strlit("softmax supports single-precision elements only"); }
                "softmax supports single-precision elements only"
            },
            SoftmaxError::InvalidShape => {
                proof { reveal_strlit("softmax rows must tile the batch buffer exactly"); }
                "softmax rows must tile the batch buffer exactly"
            },
        }
    }
}

} // verus!
