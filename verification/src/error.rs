//! What can go wrong when corners are rounded.

use vstd::prelude::*;

verus! {

/// Why a rounding was refused.
#[derive(Clone, Copy, Debug, PartialEq, Eq, Structural)]
pub enum RoundError {
    /// Two radii that share an edge of the buffer are together longer than
    /// that edge.
    InvalidRadius,
    /// The walk along an arc came to a coverage value outside `1..=256`.
    CoverageOutOfRange,
}

/// Why an image could not be opened.
#[derive(Debug)]
pub enum OpenError {
    /// The decoder refused the bytes.
    Decode(image::ImageError),
    /// The image decoded, but it cannot be scaled to the size asked for: the
    /// result could not be allocated, or the image is too large to be
    /// averaged block by block.
    TooLarge,
}

} // verus!
