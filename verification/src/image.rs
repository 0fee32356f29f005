//! Images of the `kornia_image` crate.
//!
//! The matcher reads the size of an image and its pixels, row by row. This
//! module declares the image type, names what the matcher reads, and holds the
//! calls that read it.

use vstd::prelude::*;
use kornia_image::Image;

verus! {

/// `kornia_image::Image`, an image with `C` channels of type `T`. Its values
/// are opaque.
#[verifier::external_type_specification]
#[verifier::external_body]
#[verifier::reject_recursive_types(T)]
pub struct ExImage<T, const C: usize>(kornia_image::Image<T, C>);

/// `kornia_image::ImageError`, the error of image operations. Its values are
/// opaque.
#[verifier::external_type_specification]
#[verifier::external_body]
pub struct ExImageError(kornia_image::ImageError);

/// Width of an image in pixels.
pub uninterp spec fn image_width(image: Image<u8, 1>) -> nat;

/// Height of an image in pixels.
pub uninterp spec fn image_height(image: Image<u8, 1>) -> nat;

/// Pixels of an image, row by row.
pub uninterp spec fn image_pixels(image: Image<u8, 1>) -> Seq<u8>;

/// Whether the host can read the memory of an image.
pub uninterp spec fn image_on_host(image: Image<u8, 1>) -> bool;

/// `Image::width` returns the extent of the second dimension of the tensor that
/// the image holds, which is the width of the image.
#[verifier::external_body]
pub(crate) fn read_width(image: &Image<u8, 1>) -> (w: usize)
    ensures
        w == image_width(*image),
{
    image.width()
}

/// `Image::height` returns the extent of the first dimension of the tensor that
/// the image holds, which is the height of the image.
#[verifier::external_body]
pub(crate) fn read_height(image: &Image<u8, 1>) -> (h: usize)
    ensures
        h == image_height(*image),
{
    image.height()
}

/// `Image::as_slice` returns the buffer of the image. It panics on memory that
/// the host cannot read. The size of an image does not bound the length of its
/// buffer: both are public fields of the tensor that the image holds.
#[verifier::external_body]
pub(crate) fn read_pixels(image: &Image<u8, 1>) -> (pixels: &[u8])
    requires
        image_on_host(*image),
    ensures
        pixels@ == image_pixels(*image),
{
    image.as_slice()
}

/// `MemoryDomain::is_host_accessible` tells whether memory of the domain in
/// which the buffer of the image lies can be read by the host.
#[verifier::external_body]
pub(crate) fn read_on_host(image: &Image<u8, 1>) -> (b: bool)
    ensures
        b == image_on_host(*image),
{
    image.storage.domain().is_host_accessible()
}

} // verus!
