//! The point model the filter works on.

use vstd::prelude::*;

verus! {

/// One probe's pair of channel intensities, with the derived ratio series
/// value, each given as an order key: an unsigned integer whose ordering
/// agrees with the ordering of the underlying real-valued measurement.
///
/// The filter compares, ranks and selects; it never does arithmetic on the
/// measurements. So any strictly monotone encoding of the raw values serves:
/// for non-negative IEEE floating-point intensities the raw bit pattern is
/// one such encoding, and is the one the accompanying runner uses. `ratio`
/// carries the caller's encoding of `x / (x + y)` for the point.
#[derive(Clone, Copy, PartialEq, Eq, Structural, Debug)]
pub struct IntensityPoint {
    pub x: u64,
    pub y: u64,
    pub ratio: u64,
}

} // verus!
