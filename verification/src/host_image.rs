//! The pixel buffer of the `image` crate, as the container image sees it.
//!
//! Nothing in this file is proved: each contract states what the crate's
//! `DynamicImage` and `ImageBuffer` do, and the verified code of this library
//! rests on it.
use image::{DynamicImage, GenericImageView, Rgb, Rgba};
use vstd::prelude::*;

verus! {

#[verifier::external_type_specification]
#[verifier::external_body]
pub struct ExDynamicImage(DynamicImage);

/// Number of pixels in a row of an image.
pub uninterp spec fn image_width(image: DynamicImage) -> nat;

/// Number of rows of an image.
pub uninterp spec fn image_height(image: DynamicImage) -> nat;

/// Number of bytes per pixel of an image of 8-bit samples with colour: 3 for
/// the kind `ImageRgb8`, 4 for the kind `ImageRgba8`. For an image of any
/// other kind it is another number.
pub uninterp spec fn image_channels(image: DynamicImage) -> nat;

/// The bytes of each pixel of an image of the kind `ImageRgb8` or
/// `ImageRgba8`, by column and row: red, green, blue and, in the second kind,
/// alpha.
pub uninterp spec fn image_samples(image: DynamicImage) -> Map<(int, int), Seq<u8>>;

/// `GenericImageView::dimensions` of a `DynamicImage`: its width and height.
#[verifier::external_body]
pub(crate) fn image_dimensions(image: &DynamicImage) -> (dimensions: (u32, u32))
    ensures
        dimensions.0 == image_width(*image),
        dimensions.1 == image_height(*image),
{
    image.dimensions()
}

/// `DynamicImage::as_rgb8`: whether the image is of the kind `ImageRgb8`.
#[verifier::external_body]
pub(crate) fn has_rgb8(image: &DynamicImage) -> (answer: bool)
    ensures
        answer == (image_channels(*image) == 3),
{
    image.as_rgb8().is_some()
}

/// `DynamicImage::as_rgba8`: whether the image is of the kind `ImageRgba8`.
#[verifier::external_body]
pub(crate) fn has_rgba8(image: &DynamicImage) -> (answer: bool)
    ensures
        answer == (image_channels(*image) == 4),
{
    image.as_rgba8().is_some()
}

/// `DynamicImage::as_rgb8`, then `ImageBuffer::get_pixel` on the buffer that it
/// gives for an `ImageRgb8`: the three bytes of the pixel in column `x` of row
/// `y`. The first gives no buffer for another kind, and the second panics
/// outside the image.
#[verifier::external_body]
pub(crate) fn rgb8_pixel(image: &DynamicImage, x: u32, y: u32) -> (pixel: [u8; 3])
    requires
        image_channels(*image) == 3,
        x < image_width(*image),
        y < image_height(*image),
    ensures
        pixel@ == image_samples(*image)[(x as int, y as int)],
{
    image.as_rgb8().unwrap().get_pixel(x, y).0
}

/// `DynamicImage::as_rgba8`, then `ImageBuffer::get_pixel` on the buffer that
/// it gives for an `ImageRgba8`: the four bytes of the pixel in column `x` of
/// row `y`. The first gives no buffer for another kind, and the second panics
/// outside the image.
#[verifier::external_body]
pub(crate) fn rgba8_pixel(image: &DynamicImage, x: u32, y: u32) -> (pixel: [u8; 4])
    requires
        image_channels(*image) == 4,
        x < image_width(*image),
        y < image_height(*image),
    ensures
        pixel@ == image_samples(*image)[(x as int, y as int)],
{
    image.as_rgba8().unwrap().get_pixel(x, y).0
}

/// `DynamicImage::as_mut_rgb8`, then `ImageBuffer::put_pixel` on the buffer
/// that it gives for an `ImageRgb8`: the pixel in column `x` of row `y` gets
/// the three bytes given, and nothing else changes. The first gives no buffer
/// for another kind, and the second panics outside the image.
#[verifier::external_body]
pub(crate) fn put_rgb8_pixel(image: &mut DynamicImage, x: u32, y: u32, pixel: [u8; 3])
    requires
        image_channels(*old(image)) == 3,
        x < image_width(*old(image)),
        y < image_height(*old(image)),
    ensures
        image_samples(*final(image)) == image_samples(*old(image)).insert(
            (x as int, y as int),
            pixel@,
        ),
        image_width(*final(image)) == image_width(*old(image)),
        image_height(*final(image)) == image_height(*old(image)),
        image_channels(*final(image)) == image_channels(*old(image)),
{
    image.as_mut_rgb8().unwrap().put_pixel(x, y, Rgb(pixel))
}

/// `DynamicImage::as_mut_rgba8`, then `ImageBuffer::put_pixel` on the buffer
/// that it gives for an `ImageRgba8`: the pixel in column `x` of row `y` gets
/// the four bytes given, and nothing else changes. The first gives no buffer
/// for another kind, and the second panics outside the image.
#[verifier::external_body]
pub(crate) fn put_rgba8_pixel(image: &mut DynamicImage, x: u32, y: u32, pixel: [u8; 4])
    requires
        image_channels(*old(image)) == 4,
        x < image_width(*old(image)),
        y < image_height(*old(image)),
    ensures
        image_samples(*final(image)) == image_samples(*old(image)).insert(
            (x as int, y as int),
            pixel@,
        ),
        image_width(*final(image)) == image_width(*old(image)),
        image_height(*final(image)) == image_height(*old(image)),
        image_channels(*final(image)) == image_channels(*old(image)),
{
    image.as_mut_rgba8().unwrap().put_pixel(x, y, Rgba(pixel))
}

} // verus!
