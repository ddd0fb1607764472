//! Error types of the alignment engine.
//!
//! Every failure here is a deterministic input-validation failure; no call
//! ever returns a partial result.  Zero-norm (silent) frames are not an
//! error: the cost builder substitutes the maximal cosine distance for
//! them, so no division by zero can arise.

use vstd::prelude::*;

verus! {

/// An invalid configuration, rejected before any numeric work begins.
#[derive(Debug, Clone, Copy, PartialEq, Eq, Structural)]
pub struct ConfigError;

/// Failures of `align` and of the matrix-shaped kernels.
#[derive(Debug, Clone, Copy, PartialEq, Eq, Structural)]
pub enum AlignError {
    /// Two feature matrices disagree in their coefficient dimension, or a
    /// filter's length disagrees with the spectrum it is applied to.
    ShapeMismatch,
    /// The diagonal band cannot reach the terminal cell of the alignment,
    /// or consecutive band rows do not overlap, so no path exists.
    BandTooNarrow,
}

} // verus!
