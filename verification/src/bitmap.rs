//! Handing a finished picture to the bitmap encoder.
//!
//! The encoder is the `bmp` crate. Its image type is opaque here; what an
//! image holds is named by [`image_size`] and [`image_pixels`], and the two
//! calls made into the crate are the only statements taken on trust.

use crate::render_buffer::{Raster, RenderBuffer};
use vstd::prelude::*;

verus! {

/// The image type of the `bmp` crate, carried through as an opaque value.
#[verifier::external_type_specification]
#[verifier::external_body]
pub struct ExImage(bmp::Image);

/// A pixel ready for the encoder: one byte each of red, green and blue.
#[derive(Clone, Copy, Debug, PartialEq, Eq, Structural)]
pub struct Rgb {
    pub r: u8,
    pub g: u8,
    pub b: u8,
}

impl Rgb {
    /// The three channels as a plain triple.
    pub open spec fn triple(self) -> (u8, u8, u8) {
        (self.r, self.g, self.b)
    }
}

/// The longest side a picture may have to be handed to the encoder, which
/// counts the bytes of the pixel data in 32 bits.
pub const MAX_SIDE: u32 = 32767;

/// The width and the height of an image, as `bmp::Image::get_width` and
/// `bmp::Image::get_height` report them.
pub uninterp spec fn image_size(image: bmp::Image) -> (u32, u32);

/// The pixels of an image: for column `x` below the width and row `y` below
/// the height, counted from the upper left corner, the red, green and blue
/// values that `bmp::Image::get_pixel(x, y)` reports.
pub uninterp spec fn image_pixels(image: bmp::Image) -> Map<(u32, u32), (u8, u8, u8)>;

/// The pixels of a picture of `width` by `height` pixels that shows `color`
/// at each place.
pub open spec fn picture(width: nat, height: nat, color: spec_fn(int, int) -> Rgb) -> Map<
    (u32, u32),
    (u8, u8, u8),
> {
    Map::new(
        |p: (u32, u32)| p.0 < width && p.1 < height,
        |p: (u32, u32)| color(p.0 as int, p.1 as int).triple(),
    )
}

/// Calls `bmp::Image::new`. Taken on trust: the image has the size asked
/// for and holds one black pixel for each place. The sides are kept to
/// [`MAX_SIDE`] because the crate computes the byte count of the padded
/// pixel rows, and the file size with it, in 32 bits, going through single
/// precision for the length of a row; up to this bound each of these
/// computations is exact and none overflows.
#[verifier::external_body]
fn blank_image(width: u32, height: u32) -> (image: bmp::Image)
    requires
        width <= MAX_SIDE,
        height <= MAX_SIDE,
    ensures
        image_size(image) == (width, height),
        image_pixels(image) == picture(
            width as nat,
            height as nat,
            |x: int, y: int| (Rgb { r: 0, g: 0, b: 0 }),
        ),
{
    bmp::Image::new(width, height)
}

/// Calls `bmp::Image::set_pixel`. Taken on trust: the pixel in column `x` of
/// row `y` becomes `color`, every other pixel and the size stay as they
/// were. The crate computes the pixel's place in 32 bits and indexes its
/// pixel vector with it, without a check of its own on `x` and `y`, so both
/// must lie inside the image and the image within [`MAX_SIDE`].
#[verifier::external_body]
fn put_pixel(image: &mut bmp::Image, x: u32, y: u32, color: Rgb)
    requires
        image_size(*old(image)).0 <= MAX_SIDE,
        image_size(*old(image)).1 <= MAX_SIDE,
        x < image_size(*old(image)).0,
        y < image_size(*old(image)).1,
    ensures
        image_size(*final(image)) == image_size(*old(image)),
        image_pixels(*final(image)) == image_pixels(*old(image)).insert((x, y), color.triple()),
{
    image.set_pixel(x, y, bmp::Pixel::new(color.r, color.g, color.b));
}

/// Whether a picture of this size can be handed to the encoder.
pub open spec fn fits_encoder(width: nat, height: nat) -> bool {
    width <= MAX_SIDE && height <= MAX_SIDE
}

/// The picture in which the pixels before column `x` of row `y`, in reading
/// order, show the raster and the others are still black.
spec fn partly_copied(raster: Raster<Rgb>, x: int, y: int) -> Map<(u32, u32), (u8, u8, u8)> {
    picture(
        raster.width,
        raster.height,
        |px: int, py: int|
            if py < y || (py == y && px < x) {
                raster.pixel(px, py)
            } else {
                Rgb { r: 0, g: 0, b: 0 }
            },
    )
}

/// Copies the buffer into an image for the encoder, pixel for pixel: column
/// `x` of row `y` of the buffer becomes column `x` of row `y` of the image,
/// rows counted from the top. `None` when the picture is too large for the
/// encoder.
pub fn to_image(buffer: &RenderBuffer<Rgb>) -> (out: Option<bmp::Image>)
    requires
        buffer@.wf(),
    ensures
        out is Some <==> fits_encoder(buffer@.width, buffer@.height),
        out matches Some(image) ==> {
            &&& image_size(image).0 == buffer@.width
            &&& image_size(image).1 == buffer@.height
            &&& image_pixels(image) == picture(
                buffer@.width,
                buffer@.height,
                |x: int, y: int| buffer@.pixel(x, y),
            )
        },
{
    let width: u32 = buffer.width();
    let height: u32 = buffer.height();
    if width > MAX_SIDE || height > MAX_SIDE {
        return None;
    }
    let mut image = blank_image(width, height);
    assert(image_pixels(image) =~= partly_copied(buffer@, 0, 0));
    let mut y: u32 = 0;
    while y < height
        invariant
            y <= height,
            buffer@.wf(),
            buffer@.width == width,
            buffer@.height == height,
            width <= MAX_SIDE,
            height <= MAX_SIDE,
            image_size(image) == (width, height),
            image_pixels(image) == partly_copied(buffer@, 0, y as int),
        decreases height - y,
    {
        let mut x: u32 = 0;
        while x < width
            invariant
                y < height,
                x <= width,
                buffer@.wf(),
                buffer@.width == width,
                buffer@.height == height,
                width <= MAX_SIDE,
                height <= MAX_SIDE,
                image_size(image) == (width, height),
                image_pixels(image) == partly_copied(buffer@, x as int, y as int),
            decreases width - x,
        {
            let color = buffer.get_pixel_color(x, y);
            put_pixel(&mut image, x, y, color);
            assert(image_pixels(image) =~= partly_copied(buffer@, x + 1, y as int));
            x += 1;
        }
        assert(image_pixels(image) =~= partly_copied(buffer@, 0, y + 1));
        y += 1;
    }
    assert(image_pixels(image) =~= picture(
        buffer@.width,
        buffer@.height,
        |x: int, y: int| buffer@.pixel(x, y),
    ));
    Some(image)
}

} // verus!
