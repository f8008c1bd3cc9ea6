//! Why a call was refused.

use vstd::prelude::*;

verus! {

/// The reasons for which the detector refuses its input. Nothing is written
/// to any output when one of them is returned.
#[derive(Clone, Copy, Debug, PartialEq, Eq, Structural)]
pub enum EdgeError {
    /// The image has no columns or no rows.
    InvalidDimensions,
    /// The strong threshold is below the weak threshold.
    InvalidParameters,
    /// A buffer does not hold the pixels that the dimensions ask for.
    BufferSizeMismatch,
}

} // verus!
