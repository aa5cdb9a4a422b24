//! The pixel buffer: a row-major grid of RGBA pixels kept in an
//! `image::ImageBuffer`, and its mathematical model.

use vstd::prelude::*;

verus! {

/// One pixel: three colour channels and the opacity.
#[derive(Clone, Copy, Debug, PartialEq, Eq, Structural)]
pub struct Rgba8 {
    pub red: u8,
    pub green: u8,
    pub blue: u8,
    pub alpha: u8,
}

/// The model of a pixel buffer: its fixed size and the pixel at each position
/// `(x, y)`, `x` counting columns from the left and `y` rows from the top.
pub ghost struct Grid {
    pub width: int,
    pub height: int,
    pub pixels: Map<(int, int), Rgba8>,
}

impl Grid {
    /// Whether `(x, y)` names a pixel of the grid.
    pub open spec fn contains(self, x: int, y: int) -> bool {
        0 <= x < self.width && 0 <= y < self.height
    }

    /// The width and the height are counts of 32 bits, and every position
    /// inside the bounds holds a pixel.
    pub open spec fn wf(self) -> bool {
        &&& 0 <= self.width <= u32::MAX
        &&& 0 <= self.height <= u32::MAX
        &&& forall|x: int, y: int| self.contains(x, y) ==> #[trigger] self.pixels.dom().contains((x, y))
    }
}

/// The pixel that row-major samples `data` hold at `(x, y)` for rows of
/// `width` pixels, four samples to a pixel.
pub open spec fn pixel_in(data: Seq<u8>, width: int, x: int, y: int) -> Rgba8 {
    let at = 4 * (y * width + x);
    Rgba8 { red: data[at], green: data[at + 1], blue: data[at + 2], alpha: data[at + 3] }
}

/// An RGBA image held in an `image::ImageBuffer` over a `Vec<u8>`.
#[verifier::external_body]
pub struct PixelBuffer {
    inner: image::ImageBuffer<image::Rgba<u8>, Vec<u8>>,
}

/// The width and the height that the buffer was made with.
pub uninterp spec fn buffer_size(buf: PixelBuffer) -> (int, int);

/// The pixel that the buffer holds at each position.
pub uninterp spec fn buffer_pixels(buf: PixelBuffer) -> Map<(int, int), Rgba8>;

impl View for PixelBuffer {
    type V = Grid;

    open spec fn view(&self) -> Grid {
        Grid {
            width: buffer_size(*self).0,
            height: buffer_size(*self).1,
            pixels: buffer_pixels(*self),
        }
    }
}

/// `ImageBuffer::from_raw`: accepts the samples exactly when they are enough
/// for `width * height` pixels of four channels, and then lays the pixels
/// over them row by row.
#[verifier::external_body]
fn buffer_from_raw(width: u32, height: u32, data: Vec<u8>) -> (made: Option<PixelBuffer>)
    ensures
        made.is_some() <==> 4 * width * height <= data.len(),
        made matches Some(buf) ==> {
            &&& buffer_size(buf) == (width as int, height as int)
            &&& forall|x: int, y: int|
                0 <= x < width && 0 <= y < height ==> {
                    &&& #[trigger] buffer_pixels(buf).dom().contains((x, y))
                    &&& buffer_pixels(buf)[(x, y)] == pixel_in(data@, width as int, x, y)
                }
        },
{
    match image::ImageBuffer::from_raw(width, height, data) {
        Some(inner) => Some(PixelBuffer { inner }),
        None => None,
    }
}

/// `ImageBuffer::into_raw`: hands back the samples, which hold every pixel
/// row by row.
#[verifier::external_body]
fn buffer_into_raw(buf: PixelBuffer) -> (data: Vec<u8>)
    ensures
        4 * buffer_size(buf).0 * buffer_size(buf).1 <= data.len(),
        forall|x: int, y: int|
            0 <= x < buffer_size(buf).0 && 0 <= y < buffer_size(buf).1 ==> #[trigger] buffer_pixels(
                buf,
            )[(x, y)] == pixel_in(data@, buffer_size(buf).0, x, y),
{
    buf.inner.into_raw()
}

/// `ImageBuffer::dimensions`: the width and the height.
#[verifier::external_body]
fn buffer_dimensions(buf: &PixelBuffer) -> (size: (u32, u32))
    ensures
        (size.0 as int, size.1 as int) == buffer_size(*buf),
{
    buf.inner.dimensions()
}

/// `ImageBuffer::get_pixel`: the pixel at a position inside the bounds, which
/// the buffer always holds. Outside them the call panics.
#[verifier::external_body]
fn buffer_get(buf: &PixelBuffer, x: u32, y: u32) -> (pixel: Rgba8)
    requires
        x < buffer_size(*buf).0,
        y < buffer_size(*buf).1,
    ensures
        buffer_pixels(*buf).contains_pair((x as int, y as int), pixel),
{
    let channels = buf.inner.get_pixel(x, y).0;
    Rgba8 { red: channels[0], green: channels[1], blue: channels[2], alpha: channels[3] }
}

/// `ImageBuffer::put_pixel`: replaces the pixel at a position inside the
/// bounds and nothing else. Outside them the call panics.
#[verifier::external_body]
fn buffer_put(buf: &mut PixelBuffer, x: u32, y: u32, pixel: Rgba8)
    requires
        x < buffer_size(*old(buf)).0,
        y < buffer_size(*old(buf)).1,
    ensures
        buffer_size(*final(buf)) == buffer_size(*old(buf)),
        buffer_pixels(*final(buf)) == buffer_pixels(*old(buf)).insert((x as int, y as int), pixel),
{
    buf.inner.put_pixel(x, y, image::Rgba([pixel.red, pixel.green, pixel.blue, pixel.alpha]));
}

/// The error of the `image` crate.
#[verifier::external_type_specification]
#[verifier::external_body]
pub struct ExImageError(image::ImageError);

/// The `image` crate's list of encodings.
#[verifier::external_type_specification]
#[verifier::external_body]
pub struct ExImageFormat(image::ImageFormat);

/// The size and the pixels of the thumbnail that `DynamicImage::thumbnail`
/// makes of an image of the given size and pixels for the given bounds.
pub uninterp spec fn thumbnail_of(
    size: (int, int),
    pixels: Map<(int, int), Rgba8>,
    nwidth: int,
    nheight: int,
) -> ((int, int), Map<(int, int), Rgba8>);

/// Whether a buffer of `width` by `height` pixels, each at least one, can be
/// allocated at all.
pub open spec fn allocatable(width: int, height: int) -> bool {
    4 * (if width < 1 { 1 } else { width }) * (if height < 1 { 1 } else { height }) <= isize::MAX
}

/// The least that one side of a thumbnail can come to. The thumbnail of an
/// image of `side` by `other` pixels for the bounds `bound` by `other_bound`
/// keeps the proportions, so the side is the bound itself or what the other
/// bound leaves of it, rounded, and never less than one pixel.
pub open spec fn least_side(side: int, other: int, bound: int, other_bound: int) -> int {
    let kept = side * other_bound / other;
    let least = if bound < kept { bound } else { kept };
    if least < 1 { 1 } else { least }
}

/// The most pixels of one row or column of the image that go into one pixel
/// of a thumbnail whose side is at least `least`: the ratio of the sides,
/// rounded up and down again, and what rounding the positions in single
/// precision can add, which is less than a millionth part of the side and
/// three pixels; and never more than the side.
pub open spec fn widest_block(side: int, least: int) -> int {
    let block = side / least + side / 0x10_0000 + 3;
    if side < block { side } else { block }
}

/// Whether the thumbnail of an image of `width` by `height` pixels for the
/// bounds `nwidth` by `nheight` can be averaged: the sums over one block of
/// the image are kept in 32 bits, and with the rounding term they take up to
/// 256 times the number of pixels in the block. An empty image has no blocks.
pub open spec fn samplable(width: int, height: int, nwidth: int, nheight: int) -> bool {
    width <= 0 || height <= 0 || 256 * widest_block(width, least_side(width, height, nwidth, nheight))
        * widest_block(height, least_side(height, width, nheight, nwidth)) <= u32::MAX
}

/// `image::load_from_memory_with_format`, and `DynamicImage::into_rgba8` on
/// what it loads. Which bytes decode, and to which pixels, is not claimed: the
/// decoders choose their code by the processor. What they yield is an image
/// buffer like any other: its width and height are counts of 32 bits, and it
/// holds a pixel at every position inside them.
#[verifier::external_body]
fn buffer_decode(data: &[u8], format: image::ImageFormat) -> (loaded: Result<PixelBuffer, image::ImageError>)
    ensures
        loaded matches Ok(buf) ==> {
            &&& 0 <= buffer_size(buf).0 <= u32::MAX
            &&& 0 <= buffer_size(buf).1 <= u32::MAX
            &&& forall|x: int, y: int|
                0 <= x < buffer_size(buf).0 && 0 <= y < buffer_size(buf).1 ==> #[trigger] buffer_pixels(
                    buf,
                ).dom().contains((x, y))
        },
{
    match image::load_from_memory_with_format(data, format) {
        Ok(picture) => Ok(PixelBuffer { inner: picture.into_rgba8() }),
        Err(e) => Err(e),
    }
}

/// The most pixels of one row or column of an image that go into one pixel
/// of its thumbnail, for an image that is not empty.
fn block_of(side: u32, other: u32, bound: u32, other_bound: u32) -> (block: u128)
    requires
        other > 0,
    ensures
        block == widest_block(side as int, least_side(side as int, other as int, bound as int, other_bound as int)),
        block <= side,
{
    assert(side * other_bound <= 0x1_0000_0000 * 0x1_0000_0000) by (nonlinear_arith)
        requires
            0 <= side <= 0x1_0000_0000,
            0 <= other_bound <= 0x1_0000_0000,
    ;
    let product: u128 = side as u128 * other_bound as u128;
    let kept: u128 = product / (other as u128);
    let least: u128 = if (bound as u128) < kept { bound as u128 } else { kept };
    let least: u128 = if least < 1 { 1 } else { least };
    let block: u128 = side as u128 / least + side as u128 / 0x10_0000 + 3;
    if (side as u128) < block { side as u128 } else { block }
}

impl PixelBuffer {
    /// Decodes an image from memory into a buffer. Whether the bytes decode
    /// is for the decoder to say, and so is what pixels they decode to. What
    /// it yields is a whole grid of pixels: its width and height are counts
    /// of 32 bits, and every position inside them holds a pixel. The
    /// decoder's error comes back as it is.
    pub fn decode(data: &[u8], format: image::ImageFormat) -> (loaded: Result<PixelBuffer, image::ImageError>)
        ensures
            loaded matches Ok(buf) ==> buf@.wf(),
    {
        buffer_decode(data, format)
    }

    /// Tells whether the image can be scaled to fit into `nwidth` by
    /// `nheight` pixels: whether the result can be allocated and the image
    /// can be averaged block by block.
    pub fn can_thumbnail(&self, nwidth: u32, nheight: u32) -> (can: bool)
        ensures
            can == (allocatable(nwidth as int, nheight as int) && samplable(
                self@.width,
                self@.height,
                nwidth as int,
                nheight as int,
            )),
    {
        let (width, height) = buffer_dimensions(self);
        let wide: u128 = if nwidth < 1 { 1 } else { nwidth as u128 };
        let high: u128 = if nheight < 1 { 1 } else { nheight as u128 };
        assert(wide * high <= 0x1_0000_0000 * 0x1_0000_0000) by (nonlinear_arith)
            requires
                0 <= wide <= 0x1_0000_0000,
                0 <= high <= 0x1_0000_0000,
        ;
        if 4 * (wide * high) > isize::MAX as u128 {
            assert(4 * (wide * high) == 4 * wide * high) by (nonlinear_arith);
            return false;
        }
        assert(4 * (wide * high) == 4 * wide * high) by (nonlinear_arith);
        if width == 0 || height == 0 {
            return true;
        }
        let columns = block_of(width, height, nwidth, nheight);
        let rows = block_of(height, width, nheight, nwidth);
        assert(columns * rows <= 0x1_0000_0000 * 0x1_0000_0000) by (nonlinear_arith)
            requires
                0 <= columns <= 0x1_0000_0000,
                0 <= rows <= 0x1_0000_0000,
        ;
        assert(256 * (columns * rows) == 256 * columns * rows) by (nonlinear_arith);
        256 * (columns * rows) <= u32::MAX as u128
    }

    /// Scales the image to fit into `nwidth` by `nheight` pixels, keeping its
    /// proportions. The result has at least one pixel and stays within the
    /// bounds.
    pub fn thumbnail(self, nwidth: u32, nheight: u32) -> (small: PixelBuffer)
        requires
            allocatable(nwidth as int, nheight as int),
            samplable(self@.width, self@.height, nwidth as int, nheight as int),
        ensures
            ((small@.width, small@.height), small@.pixels) == thumbnail_of(
                (self@.width, self@.height),
                self@.pixels,
                nwidth as int,
                nheight as int,
            ),
            small@.wf(),
            1 <= small@.width <= (if nwidth < 1 { 1int } else { nwidth as int }),
            1 <= small@.height <= (if nheight < 1 { 1int } else { nheight as int }),
    {
        buffer_thumbnail(self, nwidth, nheight)
    }

    /// Makes a buffer of `width` by `height` pixels over row-major samples,
    /// four to a pixel. Fails when the samples are too few.
    pub fn from_raw(width: u32, height: u32, data: Vec<u8>) -> (made: Option<PixelBuffer>)
        ensures
            made.is_some() <==> 4 * width * height <= data.len(),
            made matches Some(buf) ==> {
                &&& buf@.width == width
                &&& buf@.height == height
                &&& buf@.wf()
                &&& forall|x: int, y: int|
                    0 <= x < width && 0 <= y < height ==> #[trigger] buf@.pixels[(x, y)]
                        == pixel_in(data@, width as int, x, y)
            },
    {
        let made = buffer_from_raw(width, height, data);
        proof {
            if made.is_some() {
                let buf = made->Some_0;
                assert forall|x: int, y: int| 0 <= x < width && 0 <= y < height implies #[trigger] buf@.pixels[(
                    x,
                    y,
                )] == pixel_in(data@, width as int, x, y) by {
                    assert(buffer_pixels(buf).dom().contains((x, y)));
                }
            }
        }
        made
    }

    /// Gives up the buffer for its samples.
    pub fn into_raw(self) -> (data: Vec<u8>)
        ensures
            4 * self@.width * self@.height <= data.len(),
            forall|x: int, y: int|
                self@.contains(x, y) ==> #[trigger] self@.pixels[(x, y)] == pixel_in(
                    data@,
                    self@.width,
                    x,
                    y,
                ),
    {
        buffer_into_raw(self)
    }

    /// The width and the height in pixels.
    pub fn dimensions(&self) -> (size: (u32, u32))
        ensures
            size.0 == self@.width,
            size.1 == self@.height,
    {
        buffer_dimensions(self)
    }

    /// The width in pixels.
    pub fn width(&self) -> (width: u32)
        ensures
            width == self@.width,
    {
        buffer_dimensions(self).0
    }

    /// The height in pixels.
    pub fn height(&self) -> (height: u32)
        ensures
            height == self@.height,
    {
        buffer_dimensions(self).1
    }

    /// The pixel at a position inside the bounds.
    pub(crate) fn get_pixel_at(&self, x: u32, y: u32) -> (pixel: Rgba8)
        requires
            self@.contains(x as int, y as int),
        ensures
            self@.pixels.contains_pair((x as int, y as int), pixel),
    {
        buffer_get(self, x, y)
    }

    /// Replaces the pixel at a position inside the bounds.
    pub(crate) fn put_pixel_at(&mut self, x: u32, y: u32, pixel: Rgba8)
        requires
            old(self)@.contains(x as int, y as int),
        ensures
            final(self)@ == (Grid {
                pixels: old(self)@.pixels.insert((x as int, y as int), pixel),
                ..old(self)@
            }),
    {
        buffer_put(self, x, y, pixel)
    }

    /// The pixel at `(x, y)`, or nothing outside the bounds.
    pub fn get_pixel(&self, x: u32, y: u32) -> (pixel: Option<Rgba8>)
        ensures
            pixel.is_some() <==> self@.contains(x as int, y as int),
            pixel matches Some(p) ==> p == self@.pixels[(x as int, y as int)],
    {
        let (width, height) = buffer_dimensions(self);
        if x < width && y < height {
            Some(buffer_get(self, x, y))
        } else {
            None
        }
    }

    /// Replaces the pixel at `(x, y)` and says whether there was one: outside
    /// the bounds nothing changes.
    pub fn put_pixel(&mut self, x: u32, y: u32, pixel: Rgba8) -> (done: bool)
        ensures
            done <==> old(self)@.contains(x as int, y as int),
            done ==> final(self)@ == (Grid {
                pixels: old(self)@.pixels.insert((x as int, y as int), pixel),
                ..old(self)@
            }),
            !done ==> *final(self) == *old(self),
    {
        let (width, height) = buffer_dimensions(self);
        if x < width && y < height {
            buffer_put(self, x, y, pixel);
            true
        } else {
            false
        }
    }
}

/// `DynamicImage::thumbnail`: scales the image to fit the bounds and keeps
/// its proportions. The result depends on the image and the bounds alone. It
/// is a whole grid of at least one pixel, on each side no larger than the
/// bound, or than one pixel where the bound is zero. The call allocates the
/// result, so the bounds must be allocatable, and it adds up each block of
/// the image in 32 bits, so the image must be samplable for the bounds.
#[verifier::external_body]
fn buffer_thumbnail(buf: PixelBuffer, nwidth: u32, nheight: u32) -> (small: PixelBuffer)
    requires
        allocatable(nwidth as int, nheight as int),
        samplable(buffer_size(buf).0, buffer_size(buf).1, nwidth as int, nheight as int),
    ensures
        (buffer_size(small), buffer_pixels(small)) == thumbnail_of(
            buffer_size(buf),
            buffer_pixels(buf),
            nwidth as int,
            nheight as int,
        ),
        1 <= buffer_size(small).0 <= (if nwidth < 1 { 1int } else { nwidth as int }),
        1 <= buffer_size(small).1 <= (if nheight < 1 { 1int } else { nheight as int }),
        forall|x: int, y: int|
            0 <= x < buffer_size(small).0 && 0 <= y < buffer_size(small).1 ==> #[trigger] buffer_pixels(
                small,
            ).dom().contains((x, y)),
{
    PixelBuffer { inner: image::DynamicImage::ImageRgba8(buf.inner).thumbnail(nwidth, nheight).into_rgba8() }
}

} // verus!
