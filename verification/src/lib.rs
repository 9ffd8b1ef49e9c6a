//! Statistical calibration core for paired fluorescence-intensity measurements.
//!
//! The library verifies the decision and index structure of the pipeline:
//! which points the outlier filter keeps, how removed points return to their
//! original positions, how an individual's probes are grouped by beadset and
//! reconstructed in probe order, and how the raw intensity and manifest files
//! decode. Channel values enter the filter as order keys (see
//! [`points::IntensityPoint`]); the floating-point affine correction itself is
//! the caller's, applied between the filter and the reinsertion step.

use vstd::prelude::*;

pub mod batch;
pub mod calibrator;
pub mod index;
pub mod outliers;
pub mod pipeline;
pub mod points;
mod seqs;
pub mod sort;
pub mod transpose;

verus! {

/// A failure scoped to one group or one individual; no error here is fatal
/// to a whole batch.
#[derive(Clone, Copy, PartialEq, Eq, Structural, Debug)]
pub enum NormalisationError {
    /// The outlier filter rejected every point of a group.
    EmptyGroup,
}

} // verus!
