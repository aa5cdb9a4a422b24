//! The rounding orchestrator: checks the four radii against the buffer, then
//! rounds the four corners, each with its own radius.

use crate::buffer::{Grid, PixelBuffer};
use crate::corner::{
    composite, in_corner_box, lemma_paint_confined, lemma_paint_only_fades, lemma_paint_pixel, round_corner,
    Corner,
};
use crate::coverage::{arc_marks, arc_sound, trace_arc};
use crate::error::RoundError;
use vstd::prelude::*;

verus! {

/// The radii of the four corners, clockwise from the top left: top left, top
/// right, bottom right, bottom left.
#[derive(Clone, Copy, Debug, PartialEq, Eq, Structural)]
pub struct BorderRadius(pub u32, pub u32, pub u32, pub u32);

impl BorderRadius {
    /// Whether no edge of a `width` by `height` buffer is claimed by its two
    /// corners for more than its length.
    pub open spec fn fits(self, width: int, height: int) -> bool {
        &&& self.0 + self.1 <= width
        &&& self.3 + self.2 <= width
        &&& self.0 + self.3 <= height
        &&& self.1 + self.2 <= height
    }

    /// Whether the walk along each of the four arcs yields only coverage
    /// values in `1..=256`.
    pub open spec fn sound(self) -> bool {
        &&& arc_sound(self.0 as int)
        &&& arc_sound(self.1 as int)
        &&& arc_sound(self.2 as int)
        &&& arc_sound(self.3 as int)
    }

    /// Tells whether the radii fit a `width` by `height` buffer.
    pub fn check(&self, width: u32, height: u32) -> (fits: bool)
        ensures
            fits == self.fits(width as int, height as int),
    {
        let top: u64 = self.0 as u64 + self.1 as u64;
        let bottom: u64 = self.3 as u64 + self.2 as u64;
        let left: u64 = self.0 as u64 + self.3 as u64;
        let right: u64 = self.1 as u64 + self.2 as u64;
        top <= width as u64 && bottom <= width as u64 && left <= height as u64 && right <= height as u64
    }
}

/// The grid after its four corners were rounded.
pub open spec fn rounded(g: Grid, radius: BorderRadius) -> Grid {
    let top_left = round_corner(g, Corner::TopLeft, radius.0 as int);
    let top_right = round_corner(top_left, Corner::TopRight, radius.1 as int);
    let bottom_right = round_corner(top_right, Corner::BottomRight, radius.2 as int);
    round_corner(bottom_right, Corner::BottomLeft, radius.3 as int)
}

/// Rounds the four corners of the buffer. Radii that do not fit the buffer
/// are refused, and so is a radius whose arc cannot be walked; either way the
/// buffer is then as it was.
pub fn round(img: &mut PixelBuffer, radius: &BorderRadius) -> (done: Result<(), RoundError>)
    ensures
        done is Ok <==> radius.fits(old(img)@.width, old(img)@.height) && radius.sound(),
        done is Ok ==> final(img)@ == rounded(old(img)@, *radius),
        done is Err ==> *final(img) == *old(img),
        done matches Err(e) ==> (e == RoundError::InvalidRadius <==> !radius.fits(
            old(img)@.width,
            old(img)@.height,
        )),
        done matches Err(e) ==> (e == RoundError::CoverageOutOfRange <==> radius.fits(
            old(img)@.width,
            old(img)@.height,
        )),
{
    let (width, height) = img.dimensions();
    if !radius.check(width, height) {
        return Err(RoundError::InvalidRadius);
    }
    let top_left = match trace_arc(radius.0) {
        Ok(strokes) => strokes,
        Err(e) => { return Err(e); },
    };
    let top_right = match trace_arc(radius.1) {
        Ok(strokes) => strokes,
        Err(e) => { return Err(e); },
    };
    let bottom_right = match trace_arc(radius.2) {
        Ok(strokes) => strokes,
        Err(e) => { return Err(e); },
    };
    let bottom_left = match trace_arc(radius.3) {
        Ok(strokes) => strokes,
        Err(e) => { return Err(e); },
    };
    composite(img, Corner::TopLeft, radius.0, &top_left);
    composite(img, Corner::TopRight, radius.1, &top_right);
    composite(img, Corner::BottomRight, radius.2, &bottom_right);
    composite(img, Corner::BottomLeft, radius.3, &bottom_left);
    Ok(())
}

/// Where all four radii are zero, rounding changes nothing.
pub proof fn lemma_zero_radii_keep_grid(g: Grid)
    ensures
        rounded(g, BorderRadius(0, 0, 0, 0)) == g,
{
}

/// A corner whose radius is zero takes no part in the rounding: the result is
/// that of rounding the other three.
pub proof fn lemma_zero_radius_is_skipped(g: Grid, radius: BorderRadius)
    ensures
        radius.0 == 0 ==> rounded(g, radius) == round_corner(
            round_corner(round_corner(g, Corner::TopRight, radius.1 as int), Corner::BottomRight, radius.2 as int),
            Corner::BottomLeft,
            radius.3 as int,
        ),
        radius.1 == 0 ==> rounded(g, radius) == round_corner(
            round_corner(round_corner(g, Corner::TopLeft, radius.0 as int), Corner::BottomRight, radius.2 as int),
            Corner::BottomLeft,
            radius.3 as int,
        ),
        radius.2 == 0 ==> rounded(g, radius) == round_corner(
            round_corner(round_corner(g, Corner::TopLeft, radius.0 as int), Corner::TopRight, radius.1 as int),
            Corner::BottomLeft,
            radius.3 as int,
        ),
        radius.3 == 0 ==> rounded(g, radius) == round_corner(
            round_corner(round_corner(g, Corner::TopLeft, radius.0 as int), Corner::TopRight, radius.1 as int),
            Corner::BottomRight,
            radius.2 as int,
        ),
{
}

/// Rounding keeps the size of the grid and changes only pixels that lie in
/// the box of one of the four corners, the box of a corner being as wide and
/// as high as its radius.
pub proof fn lemma_round_confined(g: Grid, radius: BorderRadius, x: int, y: int)
    requires
        g.pixels.dom().contains((x, y)),
        !in_corner_box(g, Corner::TopLeft, radius.0 as int, x, y),
        !in_corner_box(g, Corner::TopRight, radius.1 as int, x, y),
        !in_corner_box(g, Corner::BottomRight, radius.2 as int, x, y),
        !in_corner_box(g, Corner::BottomLeft, radius.3 as int, x, y),
    ensures
        rounded(g, radius).width == g.width,
        rounded(g, radius).height == g.height,
        rounded(g, radius).pixels.dom() == g.pixels.dom(),
        rounded(g, radius).pixels[(x, y)] == g.pixels[(x, y)],
{
    let top_left = round_corner(g, Corner::TopLeft, radius.0 as int);
    let top_right = round_corner(top_left, Corner::TopRight, radius.1 as int);
    let bottom_right = round_corner(top_right, Corner::BottomRight, radius.2 as int);
    lemma_paint_confined(g, Corner::TopLeft, radius.0 as int, arc_marks(radius.0 as int));
    lemma_paint_confined(top_left, Corner::TopRight, radius.1 as int, arc_marks(radius.1 as int));
    lemma_paint_confined(top_right, Corner::BottomRight, radius.2 as int, arc_marks(radius.2 as int));
    lemma_paint_confined(bottom_right, Corner::BottomLeft, radius.3 as int, arc_marks(radius.3 as int));
    assert(top_left.pixels[(x, y)] == g.pixels[(x, y)]);
    assert(top_right.pixels[(x, y)] == top_left.pixels[(x, y)]);
    assert(bottom_right.pixels[(x, y)] == top_right.pixels[(x, y)]);
}

/// The radius that a descriptor gives a corner.
pub open spec fn radius_of(radius: BorderRadius, corner: Corner) -> int {
    match corner {
        Corner::TopLeft => radius.0 as int,
        Corner::TopRight => radius.1 as int,
        Corner::BottomRight => radius.2 as int,
        Corner::BottomLeft => radius.3 as int,
    }
}

/// Where the radii fit the grid, the boxes of two corners that share an edge
/// have no pixel in common.
pub proof fn lemma_neighbours_apart(g: Grid, radius: BorderRadius, x: int, y: int)
    requires
        radius.fits(g.width, g.height),
    ensures
        !(in_corner_box(g, Corner::TopLeft, radius.0 as int, x, y) && in_corner_box(
            g,
            Corner::TopRight,
            radius.1 as int,
            x,
            y,
        )),
        !(in_corner_box(g, Corner::TopRight, radius.1 as int, x, y) && in_corner_box(
            g,
            Corner::BottomRight,
            radius.2 as int,
            x,
            y,
        )),
        !(in_corner_box(g, Corner::BottomRight, radius.2 as int, x, y) && in_corner_box(
            g,
            Corner::BottomLeft,
            radius.3 as int,
            x,
            y,
        )),
        !(in_corner_box(g, Corner::BottomLeft, radius.3 as int, x, y) && in_corner_box(
            g,
            Corner::TopLeft,
            radius.0 as int,
            x,
            y,
        )),
{
}

/// The four passes do not depend on each other: a pixel that lies in the box
/// of no corner but one ends as that corner's pass alone would leave it.
pub proof fn lemma_round_by_corner(g: Grid, radius: BorderRadius, corner: Corner, x: int, y: int)
    requires
        g.contains(x, y),
        g.pixels.dom().contains((x, y)),
        forall|other: Corner|
            other != corner ==> !in_corner_box(g, other, #[trigger] radius_of(radius, other), x, y),
    ensures
        rounded(g, radius).pixels[(x, y)] == round_corner(g, corner, radius_of(radius, corner)).pixels[(
            x,
            y,
        )],
{
    let first = round_corner(g, Corner::TopLeft, radius.0 as int);
    let second = round_corner(first, Corner::TopRight, radius.1 as int);
    let third = round_corner(second, Corner::BottomRight, radius.2 as int);
    lemma_paint_confined(g, Corner::TopLeft, radius.0 as int, arc_marks(radius.0 as int));
    lemma_paint_confined(first, Corner::TopRight, radius.1 as int, arc_marks(radius.1 as int));
    lemma_paint_confined(second, Corner::BottomRight, radius.2 as int, arc_marks(radius.2 as int));
    lemma_paint_confined(third, Corner::BottomLeft, radius.3 as int, arc_marks(radius.3 as int));
    lemma_paint_pixel(g, Corner::TopLeft, radius.0 as int, arc_marks(radius.0 as int), x, y);
    lemma_paint_pixel(g, Corner::TopRight, radius.1 as int, arc_marks(radius.1 as int), x, y);
    lemma_paint_pixel(g, Corner::BottomRight, radius.2 as int, arc_marks(radius.2 as int), x, y);
    lemma_paint_pixel(g, Corner::BottomLeft, radius.3 as int, arc_marks(radius.3 as int), x, y);
    lemma_paint_pixel(first, Corner::TopRight, radius.1 as int, arc_marks(radius.1 as int), x, y);
    lemma_paint_pixel(second, Corner::BottomRight, radius.2 as int, arc_marks(radius.2 as int), x, y);
    lemma_paint_pixel(third, Corner::BottomLeft, radius.3 as int, arc_marks(radius.3 as int), x, y);
    if corner != Corner::TopLeft {
        assert(!in_corner_box(g, Corner::TopLeft, radius_of(radius, Corner::TopLeft), x, y));
    }
    if corner != Corner::TopRight {
        assert(!in_corner_box(g, Corner::TopRight, radius_of(radius, Corner::TopRight), x, y));
    }
    if corner != Corner::BottomRight {
        assert(!in_corner_box(g, Corner::BottomRight, radius_of(radius, Corner::BottomRight), x, y));
    }
    if corner != Corner::BottomLeft {
        assert(!in_corner_box(g, Corner::BottomLeft, radius_of(radius, Corner::BottomLeft), x, y));
    }
}

/// Rounding changes no colour and raises no opacity, whatever the image.
pub proof fn lemma_round_only_fades(g: Grid, radius: BorderRadius, x: int, y: int)
    requires
        radius.sound(),
        g.pixels.dom().contains((x, y)),
    ensures
        rounded(g, radius).pixels[(x, y)].red == g.pixels[(x, y)].red,
        rounded(g, radius).pixels[(x, y)].green == g.pixels[(x, y)].green,
        rounded(g, radius).pixels[(x, y)].blue == g.pixels[(x, y)].blue,
        rounded(g, radius).pixels[(x, y)].alpha <= g.pixels[(x, y)].alpha,
{
    let first = round_corner(g, Corner::TopLeft, radius.0 as int);
    let second = round_corner(first, Corner::TopRight, radius.1 as int);
    let third = round_corner(second, Corner::BottomRight, radius.2 as int);
    let last = round_corner(third, Corner::BottomLeft, radius.3 as int);
    lemma_paint_confined(g, Corner::TopLeft, radius.0 as int, arc_marks(radius.0 as int));
    lemma_paint_confined(first, Corner::TopRight, radius.1 as int, arc_marks(radius.1 as int));
    lemma_paint_confined(second, Corner::BottomRight, radius.2 as int, arc_marks(radius.2 as int));
    lemma_paint_only_fades(g, Corner::TopLeft, radius.0 as int, arc_marks(radius.0 as int));
    lemma_paint_only_fades(first, Corner::TopRight, radius.1 as int, arc_marks(radius.1 as int));
    lemma_paint_only_fades(second, Corner::BottomRight, radius.2 as int, arc_marks(radius.2 as int));
    lemma_paint_only_fades(third, Corner::BottomLeft, radius.3 as int, arc_marks(radius.3 as int));
    assert(first.pixels[(x, y)].alpha <= g.pixels[(x, y)].alpha);
    assert(second.pixels[(x, y)].alpha <= first.pixels[(x, y)].alpha);
    assert(third.pixels[(x, y)].alpha <= second.pixels[(x, y)].alpha);
    assert(last.pixels[(x, y)].alpha <= third.pixels[(x, y)].alpha);
}

} // verus!
