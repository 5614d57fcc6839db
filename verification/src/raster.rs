//! The pixel store: RGBA images as the `image` crate holds them.
//!
//! Verus does not look inside an image buffer. What this library assumes
//! of one is written down here, on a handful of functions that each make
//! one call into `image`; everything else in the crate is proved from
//! these contracts.

use vstd::prelude::*;

verus! {

/// A decoded image of any pixel format. It is only ever converted.
#[verifier::external_type_specification]
#[verifier::external_body]
pub struct ExDynamicImage(image::DynamicImage);

/// An image of 8-bit RGBA pixels: an `image::RgbaImage`, which is read
/// and written only through the functions of this module.
#[verifier::external_body]
pub struct Raster {
    buffer: image::ImageBuffer<image::Rgba<u8>, Vec<u8>>,
}

/// One RGBA pixel.
#[derive(Clone, Copy, Debug, PartialEq, Eq, Structural)]
pub struct Color {
    pub r: u8,
    pub g: u8,
    pub b: u8,
    pub a: u8,
}

/// Width and height of an image, in pixels.
pub uninterp spec fn raster_size(img: Raster) -> (u32, u32);

/// The pixels of an image, keyed by column and row.
pub uninterp spec fn raster_pixels(img: Raster) -> Map<(int, int), Color>;

/// The RGBA rendition of a decoded image whose samples are integers of 8
/// or 16 bits; `None` for an image of floating-point samples.
pub uninterp spec fn rgba8_of(img: image::DynamicImage) -> Option<Raster>;

/// Number of pixel columns of an image.
pub open spec fn raster_width(img: Raster) -> u32 {
    raster_size(img).0
}

/// Number of pixel rows of an image.
pub open spec fn raster_height(img: Raster) -> u32 {
    raster_size(img).1
}

/// The pixel at column `x` and row `y`.
pub open spec fn pixel(img: Raster, x: int, y: int) -> Color {
    raster_pixels(img)[(x, y)]
}

/// Whether `(x, y)` lies inside the image.
pub open spec fn in_raster(img: Raster, x: int, y: int) -> bool {
    0 <= x < raster_width(img) && 0 <= y < raster_height(img)
}

/// Whether two images have the same size and the same pixels.
pub open spec fn same_raster(a: Raster, b: Raster) -> bool {
    &&& raster_size(a) == raster_size(b)
    &&& forall|x: int, y: int| #[trigger] in_raster(a, x, y) ==> pixel(a, x, y) == pixel(b, x, y)
}

/// `DynamicImage::into_rgba8`, for the eight kinds of image whose samples
/// are integers: the image converted to RGBA, which depends on the image
/// alone. The outside function is not called on an image of floating-point
/// samples, where a sample that is no number makes it panic; the result is
/// then `None`.
#[verifier::external_body]
pub(crate) fn into_rgba8(img: image::DynamicImage) -> (out: Option<Raster>)
    ensures
        out == rgba8_of(img),
{
    match img {
        v @ (image::DynamicImage::ImageLuma8(_)
        | image::DynamicImage::ImageLumaA8(_)
        | image::DynamicImage::ImageRgb8(_)
        | image::DynamicImage::ImageRgba8(_)
        | image::DynamicImage::ImageLuma16(_)
        | image::DynamicImage::ImageLumaA16(_)
        | image::DynamicImage::ImageRgb16(_)
        | image::DynamicImage::ImageRgba16(_)) => Some(Raster { buffer: v.into_rgba8() }),
        _ => None,
    }
}

/// `ImageBuffer::dimensions`: the width and height the buffer was made
/// with. A buffer is only ever made where its samples, four bytes to the
/// pixel, fit in its `Vec`, and a `Vec` holds at most `isize::MAX` bytes.
#[verifier::external_body]
pub(crate) fn dimensions(img: &Raster) -> (d: (u32, u32))
    ensures
        d == raster_size(*img),
        4 * d.0 * d.1 <= isize::MAX,
{
    img.buffer.dimensions()
}

/// `ImageBuffer::get_pixel`: the four samples stored for `(x, y)`. The
/// outside function panics outside the image, which `requires` rules out.
#[verifier::external_body]
pub(crate) fn pixel_at(img: &Raster, x: u32, y: u32) -> (c: Color)
    requires
        x < raster_size(*img).0,
        y < raster_size(*img).1,
    ensures
        c == raster_pixels(*img)[(x as int, y as int)],
{
    let p = img.buffer.get_pixel(x, y).0;
    Color { r: p[0], g: p[1], b: p[2], a: p[3] }
}

/// `ImageBuffer::new`: a fresh buffer of the given size. The outside
/// function panics where the samples would not fit in a `Vec`, which
/// `requires` rules out. Nothing is claimed of the pixels.
#[verifier::external_body]
pub(crate) fn blank(width: u32, height: u32) -> (img: Raster)
    requires
        4 * width * height <= isize::MAX,
    ensures
        raster_size(img) == (width, height),
{
    Raster { buffer: image::ImageBuffer::new(width, height) }
}

/// `ImageBuffer::put_pixel`: stores four samples at `(x, y)` and leaves
/// every other pixel and the size as they were. The outside function
/// panics outside the image, which `requires` rules out.
#[verifier::external_body]
pub(crate) fn put_pixel(img: &mut Raster, x: u32, y: u32, c: Color)
    requires
        x < raster_size(*old(img)).0,
        y < raster_size(*old(img)).1,
    ensures
        raster_size(*final(img)) == raster_size(*old(img)),
        raster_pixels(*final(img)) == raster_pixels(*old(img)).insert((x as int, y as int), c),
{
    img.buffer.put_pixel(x, y, image::Rgba([c.r, c.g, c.b, c.a]))
}

impl Raster {
    /// Converts a decoded image of integer samples to RGBA. There is no
    /// rendition of an image of floating-point samples.
    pub fn from_image(img: image::DynamicImage) -> (r: Option<Raster>)
        ensures
            r == rgba8_of(img),
    {
        into_rgba8(img)
    }

    /// Number of pixel columns.
    pub fn width(&self) -> (w: u32)
        ensures
            w == raster_width(*self),
    {
        dimensions(self).0
    }

    /// Number of pixel rows.
    pub fn height(&self) -> (h: u32)
        ensures
            h == raster_height(*self),
    {
        dimensions(self).1
    }

    /// The pixel at column `x` and row `y`, or `None` outside the image.
    pub fn get(&self, x: u32, y: u32) -> (r: Option<Color>)
        ensures
            r == if in_raster(*self, x as int, y as int) {
                Some(pixel(*self, x as int, y as int))
            } else {
                None
            },
    {
        let (width, height) = dimensions(self);
        if x < width && y < height {
            Some(pixel_at(self, x, y))
        } else {
            None
        }
    }
}

} // verus!
