//! The corner compositor: lays the marks of one arc over one corner of a
//! pixel buffer. Pixels on the arc have their opacity scaled by their
//! coverage, pixels beyond it become transparent, and all others stay as
//! they are.

use crate::buffer::{Grid, PixelBuffer, Rgba8};
use crate::coverage::{
    arc_marks, arc_sound, blends_alone, coverage_ok, lemma_blends_alone, lemma_cleared_lies_outside, lemma_marks_fit, lemma_marks_near_circle, mark_fits,
    mark_within, near_circle,
    marks_of, touches,
    trace_arc, Mark, Stroke,
};
use crate::error::RoundError;
use vstd::prelude::*;

verus! {

/// The four corners of a buffer.
#[derive(Clone, Copy, Debug, PartialEq, Eq, Structural)]
pub enum Corner {
    TopLeft,
    TopRight,
    BottomRight,
    BottomLeft,
}

/// The pixel of a `width` by `height` grid that lies at offset `(i, j)` from
/// the centre of the circle of radius `r` in the given corner: `i` counts
/// towards the corner's vertical edge and `j` towards its horizontal edge.
pub open spec fn locate(corner: Corner, width: int, height: int, r: int, i: int, j: int) -> (int, int) {
    match corner {
        Corner::TopLeft => (r - 1 - i, r - 1 - j),
        Corner::TopRight => (width - r + i, r - 1 - j),
        Corner::BottomRight => (width - r + i, height - r + j),
        Corner::BottomLeft => (r - 1 - i, height - r + j),
    }
}

/// The offset at which the pixel `(x, y)` lies from the centre of the circle
/// in the given corner: the inverse of `locate`.
pub open spec fn local_of(corner: Corner, width: int, height: int, r: int, x: int, y: int) -> (int, int) {
    match corner {
        Corner::TopLeft => (r - 1 - x, r - 1 - y),
        Corner::TopRight => (x - (width - r), r - 1 - y),
        Corner::BottomRight => (x - (width - r), y - (height - r)),
        Corner::BottomLeft => (r - 1 - x, y - (height - r)),
    }
}

/// Whether an offset lies in the corner box of side `r`.
pub open spec fn in_box(r: int, i: int, j: int) -> bool {
    0 <= i < r && 0 <= j < r
}

/// The opacity that is left of `alpha` under a coverage of `coverage` 256ths,
/// rounded to the nearest.
pub open spec fn blend_alpha(coverage: int, alpha: int) -> int {
    ((coverage - 1) * alpha + 127) / 255
}

/// Whether a mark touches the pixel at offset `(i, j)` of a corner box of
/// side `r`.
pub open spec fn covers(m: Mark, r: int, i: int, j: int) -> bool {
    in_box(r, i, j) && touches(m, i, j)
}

/// A pixel made transparent. Its colour stays.
pub open spec fn cleared(pixel: Rgba8) -> Rgba8 {
    Rgba8 { alpha: 0, ..pixel }
}

/// What a mark makes of a pixel that it touches.
pub open spec fn effect(m: Mark, pixel: Rgba8) -> Rgba8 {
    match m {
        Mark::Blend { x, y, coverage } => Rgba8 {
            alpha: blend_alpha(coverage, pixel.alpha as int) as u8,
            ..pixel
        },
        _ => cleared(pixel),
    }
}

/// The grid after one mark was laid over the given corner.
pub open spec fn paint_mark(g: Grid, corner: Corner, r: int, m: Mark) -> Grid {
    Grid {
        pixels: Map::new(
            |pos: (int, int)| g.pixels.dom().contains(pos),
            |pos: (int, int)|
                {
                    let at = local_of(corner, g.width, g.height, r, pos.0, pos.1);
                    if g.contains(pos.0, pos.1) && covers(m, r, at.0, at.1) {
                        effect(m, g.pixels[pos])
                    } else {
                        g.pixels[pos]
                    }
                },
        ),
        ..g
    }
}

/// The grid after the marks were laid over the given corner, one after the
/// other.
pub open spec fn paint(g: Grid, corner: Corner, r: int, marks: Seq<Mark>) -> Grid
    decreases marks.len(),
{
    if marks.len() == 0 {
        g
    } else {
        paint_mark(paint(g, corner, r, marks.drop_last()), corner, r, marks.last())
    }
}

/// The grid after a corner of radius `r` was rounded.
pub open spec fn round_corner(g: Grid, corner: Corner, r: int) -> Grid {
    paint(g, corner, r, arc_marks(r))
}

/// The grid with the pixels of column `lane` and of row `lane` made
/// transparent from offset `from` up to, but not including, offset `upto`.
pub open spec fn cleared_beyond(g: Grid, corner: Corner, r: int, lane: int, from: int, upto: int) -> Grid {
    Grid {
        pixels: Map::new(
            |pos: (int, int)| g.pixels.dom().contains(pos),
            |pos: (int, int)|
                {
                    let at = local_of(corner, g.width, g.height, r, pos.0, pos.1);
                    if g.contains(pos.0, pos.1) && in_box(r, at.0, at.1) && ((at.0 == lane && from
                        <= at.1 < upto) || (at.1 == lane && from <= at.0 < upto)) {
                        cleared(g.pixels[pos])
                    } else {
                        g.pixels[pos]
                    }
                },
        ),
        ..g
    }
}

/// The grid with the pixels of the square from `(from, from)` to the corner
/// made transparent as far as a row-by-row sweep has come: the columns before
/// `column` whole, and column `column` before offset `upto`.
pub open spec fn cleared_square(g: Grid, corner: Corner, r: int, from: int, column: int, upto: int) -> Grid {
    Grid {
        pixels: Map::new(
            |pos: (int, int)| g.pixels.dom().contains(pos),
            |pos: (int, int)|
                {
                    let at = local_of(corner, g.width, g.height, r, pos.0, pos.1);
                    if g.contains(pos.0, pos.1) && in_box(r, at.0, at.1) && from <= at.0 && from
                        <= at.1 && (at.0 < column || (at.0 == column && at.1 < upto)) {
                        cleared(g.pixels[pos])
                    } else {
                        g.pixels[pos]
                    }
                },
        ),
        ..g
    }
}

impl Corner {
    /// The pixel at offset `(i, j)` of this corner's box.
    pub fn position(self, width: u32, height: u32, r: u32, i: u32, j: u32) -> (at: (u32, u32))
        requires
            r <= width,
            r <= height,
            i < r,
            j < r,
        ensures
            (at.0 as int, at.1 as int) == locate(self, width as int, height as int, r as int, i as int, j as int),
            at.0 < width,
            at.1 < height,
            local_of(self, width as int, height as int, r as int, at.0 as int, at.1 as int) == (i as int, j as int),
    {
        match self {
            Corner::TopLeft => (r - 1 - i, r - 1 - j),
            Corner::TopRight => (width - r + i, r - 1 - j),
            Corner::BottomRight => (width - r + i, height - r + j),
            Corner::BottomLeft => (r - 1 - i, height - r + j),
        }
    }
}

/// Scales an opacity by a coverage of `coverage` 256ths. Full coverage keeps
/// it, and no coverage raises it.
pub fn blend(coverage: u16, alpha: u8) -> (out: u8)
    requires
        1 <= coverage <= 256,
    ensures
        out == blend_alpha(coverage as int, alpha as int),
        out <= alpha,
        coverage == 256 ==> out == alpha,
{
    let weight: u32 = (coverage - 1) as u32;
    let opacity: u32 = alpha as u32;
    assert(0 <= weight * opacity <= 255 * opacity) by (nonlinear_arith)
        requires
            0 <= weight <= 255,
            0 <= opacity,
    ;
    ((weight * opacity + 127) / 255) as u8
}

/// Lays one blend over the pixel at offset `(i, j)`.
fn blend_at(
    img: &mut PixelBuffer,
    corner: Corner,
    width: u32,
    height: u32,
    r: u32,
    i: u32,
    j: u32,
    coverage: u16,
)
    requires
        width == old(img)@.width,
        height == old(img)@.height,
        r <= width,
        r <= height,
        i < r,
        j < r,
        1 <= coverage <= 256,
    ensures
        final(img)@ == paint_mark(
            old(img)@,
            corner,
            r as int,
            Mark::Blend { x: i as int, y: j as int, coverage: coverage as int },
        ),
{
    let (x, y) = corner.position(width, height, r, i, j);
    let mut pixel = img.get_pixel_at(x, y);
    pixel.alpha = blend(coverage, pixel.alpha);
    img.put_pixel_at(x, y, pixel);
    assert(img@.pixels =~= paint_mark(
        old(img)@,
        corner,
        r as int,
        Mark::Blend { x: i as int, y: j as int, coverage: coverage as int },
    ).pixels);
}

/// Makes the pixel at offset `(i, j)` transparent.
fn clear_at(img: &mut PixelBuffer, corner: Corner, width: u32, height: u32, r: u32, i: u32, j: u32)
    requires
        width == old(img)@.width,
        height == old(img)@.height,
        r <= width,
        r <= height,
        i < r,
        j < r,
    ensures
        final(img)@.width == old(img)@.width,
        final(img)@.height == old(img)@.height,
        old(img)@.pixels.dom().contains(
            locate(corner, width as int, height as int, r as int, i as int, j as int),
        ),
        final(img)@.pixels == old(img)@.pixels.insert(
            locate(corner, width as int, height as int, r as int, i as int, j as int),
            cleared(
                old(img)@.pixels[locate(corner, width as int, height as int, r as int, i as int, j as int)],
            ),
        ),
{
    let (x, y) = corner.position(width, height, r, i, j);
    let mut pixel = img.get_pixel_at(x, y);
    pixel.alpha = 0;
    img.put_pixel_at(x, y, pixel);
}

/// Makes transparent what lies beyond the arc in column `lane` and, mirrored,
/// in row `lane`.
fn clear_beyond(img: &mut PixelBuffer, corner: Corner, width: u32, height: u32, r: u32, lane: u32, from: u32)
    requires
        width == old(img)@.width,
        height == old(img)@.height,
        r <= width,
        r <= height,
        lane < r,
        from <= r,
    ensures
        final(img)@ == paint_mark(
            old(img)@,
            corner,
            r as int,
            Mark::ClearBeyond { lane: lane as int, from: from as int },
        ),
{
    let ghost g = img@;
    let mut j: u32 = from;
    assert(img@.pixels =~= cleared_beyond(g, corner, r as int, lane as int, from as int, j as int).pixels);
    while j < r
        invariant
            width == g.width,
            height == g.height,
            r <= width,
            r <= height,
            lane < r,
            from <= j <= r,
            img@ == cleared_beyond(g, corner, r as int, lane as int, from as int, j as int),
        decreases r - j,
    {
        clear_at(img, corner, width, height, r, lane, j);
        clear_at(img, corner, width, height, r, j, lane);
        j = j + 1;
        assert(img@.pixels =~= cleared_beyond(g, corner, r as int, lane as int, from as int, j as int).pixels);
    }
    assert(img@.pixels =~= paint_mark(
        g,
        corner,
        r as int,
        Mark::ClearBeyond { lane: lane as int, from: from as int },
    ).pixels);
}

/// Makes transparent the square between the end of the arc and the corner.
fn clear_corner(img: &mut PixelBuffer, corner: Corner, width: u32, height: u32, r: u32, from: u32)
    requires
        width == old(img)@.width,
        height == old(img)@.height,
        r <= width,
        r <= height,
        from <= r,
    ensures
        final(img)@ == paint_mark(old(img)@, corner, r as int, Mark::ClearCorner { from: from as int }),
{
    let ghost g = img@;
    let mut i: u32 = from;
    assert(img@.pixels =~= cleared_square(g, corner, r as int, from as int, i as int, from as int).pixels);
    while i < r
        invariant
            width == g.width,
            height == g.height,
            r <= width,
            r <= height,
            from <= i <= r,
            img@ == cleared_square(g, corner, r as int, from as int, i as int, from as int),
        decreases r - i,
    {
        let mut j: u32 = from;
        while j < r
            invariant
                width == g.width,
                height == g.height,
                r <= width,
                r <= height,
                from <= i < r,
                from <= j <= r,
                img@ == cleared_square(g, corner, r as int, from as int, i as int, j as int),
            decreases r - j,
        {
            clear_at(img, corner, width, height, r, i, j);
            j = j + 1;
            assert(img@.pixels =~= cleared_square(g, corner, r as int, from as int, i as int, j as int).pixels);
        }
        i = i + 1;
        assert(img@.pixels =~= cleared_square(g, corner, r as int, from as int, i as int, from as int).pixels);
    }
    assert(img@.pixels =~= paint_mark(g, corner, r as int, Mark::ClearCorner { from: from as int }).pixels);
}

/// Lays the strokes of an arc over one corner of the buffer, in their order.
pub fn composite(img: &mut PixelBuffer, corner: Corner, r: u32, strokes: &Vec<Stroke>)
    requires
        r <= old(img)@.width,
        r <= old(img)@.height,
        forall|k: int|
            0 <= k < strokes.len() ==> mark_within(#[trigger] strokes[k]@, r as int) && coverage_ok(
                strokes[k]@,
            ),
    ensures
        final(img)@ == paint(old(img)@, corner, r as int, marks_of(strokes@)),
        final(img)@.width == old(img)@.width,
        final(img)@.height == old(img)@.height,
{
    let ghost g = img@;
    let ghost marks = marks_of(strokes@);
    let (width, height) = img.dimensions();
    let mut k: usize = 0;
    assert(marks.take(0) =~= Seq::<Mark>::empty());
    while k < strokes.len()
        invariant
            width == g.width,
            height == g.height,
            r <= width,
            r <= height,
            marks == marks_of(strokes@),
            k <= strokes.len(),
            forall|n: int|
                0 <= n < strokes.len() ==> mark_within(#[trigger] strokes[n]@, r as int)
                    && coverage_ok(strokes[n]@),
            img@.width == g.width,
            img@.height == g.height,
            img@ == paint(g, corner, r as int, marks.take(k as int)),
        decreases strokes.len() - k,
    {
        let stroke = strokes[k];
        assert(mark_within(strokes[k as int]@, r as int) && coverage_ok(strokes[k as int]@));
        proof {
            assert(marks.take(k + 1).drop_last() =~= marks.take(k as int));
            assert(marks.take(k + 1).last() == stroke@);
        }
        match stroke {
            Stroke::Blend { x, y, coverage } => {
                blend_at(img, corner, width, height, r, x, y, coverage);
            },
            Stroke::ClearBeyond { lane, from } => {
                clear_beyond(img, corner, width, height, r, lane, from);
            },
            Stroke::ClearCorner { from } => {
                clear_corner(img, corner, width, height, r, from);
            },
        }
        k = k + 1;
    }
    assert(marks.take(k as int) =~= marks);
}

/// Rounds one corner of the buffer to radius `r`: walks the arc, then lays
/// its strokes over the corner. On an error the buffer is as it was.
pub fn border_top_right_radius(img: &mut PixelBuffer, r: u32, corner: Corner) -> (done: Result<(), RoundError>)
    ensures
        done is Ok <==> r <= old(img)@.width && r <= old(img)@.height && arc_sound(r as int),
        done is Ok ==> final(img)@ == round_corner(old(img)@, corner, r as int),
        done is Err ==> *final(img) == *old(img),
        done matches Err(e) ==> (e == RoundError::InvalidRadius <==> r > old(img)@.width || r > old(
            img,
        )@.height),
{
    let (width, height) = img.dimensions();
    if r > width || r > height {
        return Err(RoundError::InvalidRadius);
    }
    match trace_arc(r) {
        Ok(strokes) => {
            composite(img, corner, r, &strokes);
            Ok(())
        },
        Err(e) => Err(e),
    }
}

/// Whether the pixel `(x, y)` lies in the box of side `r` in a corner of the
/// grid.
pub open spec fn in_corner_box(g: Grid, corner: Corner, r: int, x: int, y: int) -> bool {
    let at = local_of(corner, g.width, g.height, r, x, y);
    g.contains(x, y) && in_box(r, at.0, at.1)
}

/// Laying marks over a corner keeps the size of the grid and the positions
/// that hold a pixel, and changes no pixel outside the corner's box.
pub proof fn lemma_paint_confined(g: Grid, corner: Corner, r: int, marks: Seq<Mark>)
    ensures
        paint(g, corner, r, marks).width == g.width,
        paint(g, corner, r, marks).height == g.height,
        paint(g, corner, r, marks).pixels.dom() == g.pixels.dom(),
        forall|x: int, y: int|
            g.pixels.dom().contains((x, y)) && !in_corner_box(g, corner, r, x, y) ==> #[trigger] paint(
                g,
                corner,
                r,
                marks,
            ).pixels[(x, y)] == g.pixels[(x, y)],
    decreases marks.len(),
{
    if marks.len() > 0 {
        lemma_paint_confined(g, corner, r, marks.drop_last());
        let before = paint(g, corner, r, marks.drop_last());
        assert(paint(g, corner, r, marks).pixels.dom() =~= before.pixels.dom());
        assert forall|x: int, y: int|
            g.pixels.dom().contains((x, y)) && !in_corner_box(g, corner, r, x, y) implies #[trigger] paint(
            g,
            corner,
            r,
            marks,
        ).pixels[(x, y)] == g.pixels[(x, y)] by {
            assert(before.pixels[(x, y)] == g.pixels[(x, y)]);
        }
    }
}

/// Laying marks with coverage values in `1..=256` over a corner changes no
/// colour and raises no opacity.
pub proof fn lemma_paint_only_fades(g: Grid, corner: Corner, r: int, marks: Seq<Mark>)
    requires
        forall|k: int| 0 <= k < marks.len() ==> coverage_ok(#[trigger] marks[k]),
    ensures
        forall|x: int, y: int|
            g.pixels.dom().contains((x, y)) ==> {
                let after = #[trigger] paint(g, corner, r, marks).pixels[(x, y)];
                let before = g.pixels[(x, y)];
                &&& after.red == before.red
                &&& after.green == before.green
                &&& after.blue == before.blue
                &&& after.alpha <= before.alpha
            },
    decreases marks.len(),
{
    if marks.len() > 0 {
        lemma_paint_only_fades(g, corner, r, marks.drop_last());
        lemma_paint_confined(g, corner, r, marks.drop_last());
        let mid = paint(g, corner, r, marks.drop_last());
        let m = marks.last();
        assert(coverage_ok(marks[marks.len() - 1]));
        assert forall|x: int, y: int| g.pixels.dom().contains((x, y)) implies ({
            let after = #[trigger] paint(g, corner, r, marks).pixels[(x, y)];
            let before = g.pixels[(x, y)];
            &&& after.red == before.red
            &&& after.green == before.green
            &&& after.blue == before.blue
            &&& after.alpha <= before.alpha
        }) by {
            let p = mid.pixels[(x, y)];
            assert(p.alpha <= g.pixels[(x, y)].alpha);
            if let Mark::Blend { x: bx, y: by, coverage } = m {
                lemma_blend_fades(coverage, p.alpha as int);
            }
        }
    }
}

/// A coverage of at most 256 scales an opacity down, never up, and full
/// coverage keeps it.
pub proof fn lemma_blend_fades(coverage: int, alpha: int)
    requires
        1 <= coverage <= 256,
        0 <= alpha <= 255,
    ensures
        0 <= blend_alpha(coverage, alpha) <= alpha,
        coverage == 256 ==> blend_alpha(coverage, alpha) == alpha,
{
    assert(0 <= (coverage - 1) * alpha <= 255 * alpha) by (nonlinear_arith)
        requires
            0 <= coverage - 1 <= 255,
            0 <= alpha,
    ;
}

/// A corner of radius zero is left as it is.
pub proof fn lemma_zero_radius_keeps_grid(g: Grid, corner: Corner)
    ensures
        round_corner(g, corner, 0) == g,
{
}

/// What the marks that touch the pixel at offset `(i, j)` make of it, one
/// after the other.
pub open spec fn fate(marks: Seq<Mark>, r: int, i: int, j: int, pixel: Rgba8) -> Rgba8
    decreases marks.len(),
{
    if marks.len() == 0 {
        pixel
    } else {
        let so_far = fate(marks.drop_last(), r, i, j, pixel);
        if covers(marks.last(), r, i, j) {
            effect(marks.last(), so_far)
        } else {
            so_far
        }
    }
}

/// What becomes of a pixel depends on that pixel, on where it lies in the
/// corner, and on the marks that touch it, and on nothing else.
pub proof fn lemma_paint_pixel(g: Grid, corner: Corner, r: int, marks: Seq<Mark>, x: int, y: int)
    requires
        g.contains(x, y),
        g.pixels.dom().contains((x, y)),
    ensures
        paint(g, corner, r, marks).pixels[(x, y)] == fate(
            marks,
            r,
            local_of(corner, g.width, g.height, r, x, y).0,
            local_of(corner, g.width, g.height, r, x, y).1,
            g.pixels[(x, y)],
        ),
    decreases marks.len(),
{
    if marks.len() > 0 {
        lemma_paint_pixel(g, corner, r, marks.drop_last(), x, y);
        lemma_paint_confined(g, corner, r, marks.drop_last());
    }
}

/// Marks that do not touch a pixel leave it as it is.
proof fn lemma_fate_untouched(marks: Seq<Mark>, r: int, i: int, j: int, pixel: Rgba8, n: int)
    requires
        0 <= n <= marks.len(),
        forall|k: int| 0 <= k < marks.len() ==> !covers(#[trigger] marks[k], r, i, j),
    ensures
        fate(marks.take(n), r, i, j, pixel) == pixel,
    decreases n,
{
    if n > 0 {
        lemma_fate_untouched(marks, r, i, j, pixel, n - 1);
        assert(marks.take(n).drop_last() =~= marks.take(n - 1));
        assert(marks.take(n).last() == marks[n - 1]);
    }
}

/// Among marks whose blends are touched by nothing else, a pixel with a blend
/// is as it was up to that blend, and blended once from then on.
proof fn lemma_fate_blended(marks: Seq<Mark>, r: int, i: int, j: int, pixel: Rgba8, k: int, n: int)
    requires
        0 <= k < marks.len(),
        0 <= n <= marks.len(),
        marks[k] is Blend,
        marks[k]->x == i,
        marks[k]->y == j,
        in_box(r, i, j),
        blends_alone(marks),
    ensures
        fate(marks.take(n), r, i, j, pixel) == if n > k {
            effect(marks[k], pixel)
        } else {
            pixel
        },
    decreases n,
{
    if n > 0 {
        lemma_fate_blended(marks, r, i, j, pixel, k, n - 1);
        assert(marks.take(n).drop_last() =~= marks.take(n - 1));
        assert(marks.take(n).last() == marks[n - 1]);
        if n - 1 != k {
            assert(!touches(marks[n - 1], marks[k]->x, marks[k]->y));
        }
    }
}

/// Among marks whose blends are touched by nothing else, a pixel that a
/// clearing mark touches is never blended, and is transparent from that mark
/// on.
proof fn lemma_fate_cleared(marks: Seq<Mark>, r: int, i: int, j: int, pixel: Rgba8, k: int, n: int)
    requires
        0 <= k < marks.len(),
        0 <= n <= marks.len(),
        !(marks[k] is Blend),
        covers(marks[k], r, i, j),
        blends_alone(marks),
    ensures
        n > k ==> fate(marks.take(n), r, i, j, pixel) == cleared(pixel),
        fate(marks.take(n), r, i, j, pixel) == pixel || fate(marks.take(n), r, i, j, pixel) == cleared(pixel),
    decreases n,
{
    if n > 0 {
        lemma_fate_cleared(marks, r, i, j, pixel, k, n - 1);
        assert(marks.take(n).drop_last() =~= marks.take(n - 1));
        assert(marks.take(n).last() == marks[n - 1]);
        let m = marks[n - 1];
        if covers(m, r, i, j) && m is Blend {
            assert(!touches(marks[k], marks[n - 1]->x, marks[n - 1]->y));
        }
    }
}

/// A pixel of the corner box that no mark of the arc touches lies inside
/// the arc and stays as it is.
pub proof fn lemma_pixel_inside_arc(g: Grid, corner: Corner, r: int, x: int, y: int)
    requires
        g.contains(x, y),
        g.pixels.dom().contains((x, y)),
        forall|k: int|
            0 <= k < arc_marks(r).len() ==> !covers(
                #[trigger] arc_marks(r)[k],
                r,
                local_of(corner, g.width, g.height, r, x, y).0,
                local_of(corner, g.width, g.height, r, x, y).1,
            ),
    ensures
        round_corner(g, corner, r).pixels[(x, y)] == g.pixels[(x, y)],
{
    let at = local_of(corner, g.width, g.height, r, x, y);
    let marks = arc_marks(r);
    lemma_paint_pixel(g, corner, r, marks, x, y);
    lemma_fate_untouched(marks, r, at.0, at.1, g.pixels[(x, y)], marks.len() as int);
    assert(marks.take(marks.len() as int) =~= marks);
}

/// A pixel of the corner box that the arc has a blend for lies on the arc:
/// its opacity is scaled by that blend's coverage, once, and nothing else
/// happens to it.
pub proof fn lemma_pixel_on_arc(g: Grid, corner: Corner, r: int, x: int, y: int, k: int)
    requires
        g.contains(x, y),
        g.pixels.dom().contains((x, y)),
        0 <= k < arc_marks(r).len(),
        arc_marks(r)[k] is Blend,
        local_of(corner, g.width, g.height, r, x, y) == (arc_marks(r)[k]->x, arc_marks(r)[k]->y),
    ensures
        round_corner(g, corner, r).pixels[(x, y)] == (Rgba8 {
            alpha: blend_alpha(arc_marks(r)[k]->coverage, g.pixels[(x, y)].alpha as int) as u8,
            ..g.pixels[(x, y)]
        }),
{
    let at = local_of(corner, g.width, g.height, r, x, y);
    let marks = arc_marks(r);
    lemma_blends_alone(r);
    lemma_marks_fit(r);
    assert(mark_fits(marks[k], r));
    lemma_paint_pixel(g, corner, r, marks, x, y);
    lemma_fate_blended(marks, r, at.0, at.1, g.pixels[(x, y)], k, marks.len() as int);
    assert(marks.take(marks.len() as int) =~= marks);
}

/// A pixel of the corner box that a clearing mark of the arc touches lies
/// beyond the arc: it becomes transparent and keeps its colour.
pub proof fn lemma_pixel_beyond_arc(g: Grid, corner: Corner, r: int, x: int, y: int, k: int)
    requires
        g.contains(x, y),
        g.pixels.dom().contains((x, y)),
        0 <= k < arc_marks(r).len(),
        !(arc_marks(r)[k] is Blend),
        covers(
            arc_marks(r)[k],
            r,
            local_of(corner, g.width, g.height, r, x, y).0,
            local_of(corner, g.width, g.height, r, x, y).1,
        ),
    ensures
        round_corner(g, corner, r).pixels[(x, y)] == cleared(g.pixels[(x, y)]),
{
    let at = local_of(corner, g.width, g.height, r, x, y);
    let marks = arc_marks(r);
    lemma_blends_alone(r);
    lemma_paint_pixel(g, corner, r, marks, x, y);
    lemma_fate_cleared(marks, r, at.0, at.1, g.pixels[(x, y)], k, marks.len() as int);
    assert(marks.take(marks.len() as int) =~= marks);
}

/// Rounding a corner changes pixels near and beyond the circle only. A
/// pixel that is changed lies in the corner's box with its far corner
/// outside the circle of radius `r - 1`; and unless it has become
/// transparent, it lies in the ring up to the circle of radius `r + 1`.
/// Offsets count pixels from the centre of the circle.
pub proof fn lemma_changed_pixel_near_circle(g: Grid, corner: Corner, r: int, x: int, y: int)
    requires
        g.contains(x, y),
        g.pixels.dom().contains((x, y)),
        round_corner(g, corner, r).pixels[(x, y)] != g.pixels[(x, y)],
    ensures
        ({
            let at = local_of(corner, g.width, g.height, r, x, y);
            &&& in_box(r, at.0, at.1)
            &&& (r - 1) * (r - 1) < (at.0 + 1) * (at.0 + 1) + (at.1 + 1) * (at.1 + 1)
            &&& round_corner(g, corner, r).pixels[(x, y)].alpha != 0 ==> at.0 * at.0 + at.1 * at.1 < (r + 1)
                * (r + 1)
        }),
{
    let at = local_of(corner, g.width, g.height, r, x, y);
    let marks = arc_marks(r);
    if forall|k: int| 0 <= k < marks.len() ==> !covers(#[trigger] marks[k], r, at.0, at.1) {
        lemma_pixel_inside_arc(g, corner, r, x, y);
    } else {
        let k = choose|k: int| 0 <= k < marks.len() && covers(#[trigger] marks[k], r, at.0, at.1);
        lemma_marks_near_circle(r);
        assert(near_circle(marks[k], r));
        assert((at.0 + 1) * (at.0 + 1) >= at.0 * at.0) by (nonlinear_arith)
            requires
                at.0 >= 0,
        ;
        assert((at.1 + 1) * (at.1 + 1) >= at.1 * at.1) by (nonlinear_arith)
            requires
                at.1 >= 0,
        ;
        if marks[k] is Blend {
            lemma_pixel_on_arc(g, corner, r, x, y, k);
        } else {
            lemma_pixel_beyond_arc(g, corner, r, x, y, k);
            lemma_cleared_lies_outside(r, k, at.0, at.1);
        }
    }
}

} // verus!
