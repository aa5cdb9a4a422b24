//! Rounds the corners of an RGBA pixel buffer, each to its own radius, with an
//! antialiased edge computed in integer arithmetic.
//!
//! `coverage` walks the arc of one corner and says which pixels it crosses
//! and how much of each lies inside; `corner` lays that over one corner of a
//! buffer; `rounding` checks the four radii and rounds the four corners.
//! `buffer` is the pixel buffer itself, and `img` decodes and scales the
//! images that are to be rounded. `octant` is the plain midpoint walk, for
//! callers that draw a corner point by point.

pub mod buffer;
pub mod corner;
pub mod coverage;
pub mod error;
pub mod img;
pub mod octant;
pub mod rounding;
