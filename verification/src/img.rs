//! Images as they come in: the encodings that are read, and a decoded image
//! scaled to fit a box, together with its size.

use crate::buffer::{allocatable, samplable, thumbnail_of, Grid, PixelBuffer};
use crate::error::OpenError;
use vstd::prelude::*;

verus! {

/// The encodings that an image can be read from.
#[derive(Clone, Copy, Debug, PartialEq, Eq, Structural)]
pub enum ImageInputFormat {
    Png,
    Jpeg,
}

impl ImageInputFormat {
    /// The `image` crate's name for the encoding: `ImageFormat::Png` for
    /// `Png`, `ImageFormat::Jpeg` for `Jpeg`.
    #[verifier::external_body]
    pub(crate) fn as_image_format(&self) -> (format: image::ImageFormat) {
        match self {
            ImageInputFormat::Png => image::ImageFormat::Png,
            ImageInputFormat::Jpeg => image::ImageFormat::Jpeg,
        }
    }
}

/// A height and a width in pixels.
#[derive(Clone, Copy, Debug, PartialEq, Eq, Structural)]
pub struct Size {
    pub height: u32,
    pub width: u32,
}

/// An image and its size.
pub struct ImageInfo(pub PixelBuffer, pub Size);

impl ImageInfo {
    /// The size is that of the image.
    pub open spec fn wf(self) -> bool {
        self.1.width == self.0@.width && self.1.height == self.0@.height
    }
}

/// Whether an image can be scaled to fit into `w` by `h` pixels: whether the
/// result can be allocated and the image can be averaged block by block.
pub open spec fn scalable(image: Grid, w: int, h: int) -> bool {
    allocatable(w, h) && samplable(image.width, image.height, w, h)
}

/// Whether `info` is the image `image` scaled to fit into `w` by `h` pixels,
/// together with the size that it then has: at least one pixel, and within
/// the bounds.
pub open spec fn scaled_from(image: Grid, w: int, h: int, info: ImageInfo) -> bool {
    &&& info.wf()
    &&& info.0@.wf()
    &&& 1 <= info.1.width <= (if w < 1 { 1 } else { w })
    &&& 1 <= info.1.height <= (if h < 1 { 1 } else { h })
    &&& ((info.0@.width, info.0@.height), info.0@.pixels) == thumbnail_of(
        (image.width, image.height),
        image.pixels,
        w,
        h,
    )
}

/// Scales a decoded image to fit into `w` by `h` pixels and notes the size
/// that it then has.
pub fn resize(buffer: PixelBuffer, w: u32, h: u32) -> (info: ImageInfo)
    requires
        scalable(buffer@, w as int, h as int),
    ensures
        scaled_from(buffer@, w as int, h as int, info),
{
    let small = buffer.thumbnail(w, h);
    let (width, height) = small.dimensions();
    ImageInfo(small, Size { height, width })
}

/// Decodes an image from memory and scales it to fit into `w` by `h` pixels.
/// Whether the bytes decode is for the decoder to say; what it yields is
/// scaled as `scale_decoded` does.
pub fn open_and_resize_with_data(data: &[u8], w: u32, h: u32, format: ImageInputFormat) -> (opened: Result<
    ImageInfo,
    OpenError,
>)
    ensures
        opened matches Ok(info) ==> exists|image: Grid|
            image.wf() && scalable(image, w as int, h as int) && #[trigger] scaled_from(
                image,
                w as int,
                h as int,
                info,
            ),
{
    let loaded = PixelBuffer::decode(data, format.as_image_format());
    let ghost image = if loaded is Ok {
        loaded->Ok_0@
    } else {
        arbitrary()
    };
    let opened = scale_decoded(loaded, w, h);
    proof {
        if opened is Ok {
            assert(image.wf() && scalable(image, w as int, h as int) && scaled_from(
                image,
                w as int,
                h as int,
                opened->Ok_0,
            ));
        }
    }
    opened
}

/// Does what is left once the decoder has spoken. An image that can be
/// scaled to fit into `w` by `h` pixels is scaled, one that cannot is
/// refused as too large, and the decoder's error is handed on as it is.
pub fn scale_decoded(loaded: Result<PixelBuffer, image::ImageError>, w: u32, h: u32) -> (opened: Result<
    ImageInfo,
    OpenError,
>)
    ensures
        match loaded {
            Ok(image) => if scalable(image@, w as int, h as int) {
                opened matches Ok(info) && scaled_from(image@, w as int, h as int, info)
            } else {
                opened matches Err(OpenError::TooLarge)
            },
            Err(error) => opened matches Err(OpenError::Decode(same)) && same == error,
        },
{
    match loaded {
        Ok(rgba) => {
            if rgba.can_thumbnail(w, h) {
                Ok(resize(rgba, w, h))
            } else {
                Err(OpenError::TooLarge)
            }
        },
        Err(e) => Err(OpenError::Decode(e)),
    }
}

} // verus!
