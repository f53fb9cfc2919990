//! Resampling an image to another size with a mip filter.

use vstd::prelude::*;

use image::imageops::FilterType;

use crate::buffer::RgbImage;
use crate::options::AtlasMipFilter;

verus! {

/// The pixels, row by row, that `image::imageops::resize` gives for a
/// `width`×`height` RGB image resampled to `new_width`×`new_height` with `filter`.
pub uninterp spec fn resized(
    pixels: Seq<[u8; 3]>,
    width: u32,
    height: u32,
    new_width: u32,
    new_height: u32,
    filter: AtlasMipFilter,
) -> Seq<[u8; 3]>;

/// The pixels of a `width`×`height` image resampled to `new_width`×`new_height`:
/// the pixels themselves where the size does not change.
pub open spec fn resampled(
    pixels: Seq<[u8; 3]>,
    width: u32,
    height: u32,
    new_width: u32,
    new_height: u32,
    filter: AtlasMipFilter,
) -> Seq<[u8; 3]> {
    if new_width == width && new_height == height {
        pixels
    } else {
        resized(pixels, width, height, new_width, new_height, filter)
    }
}

/// Relies on `image::imageops::resize`: its result has the size asked for, depends
/// on the source's pixels, the two sizes and the filter alone, and is a copy of the
/// source when the size does not change. It panics on no input that `requires`
/// admits (an empty size, or buffers whose length overflows `usize`, are left out).
#[verifier::external_body]
pub(crate) fn resize(src: &RgbImage, new_width: u32, new_height: u32, filter: AtlasMipFilter) -> (r:
    RgbImage)
    requires
        src.wf(),
        src.width > 0,
        src.height > 0,
        new_width > 0,
        new_height > 0,
        3 * src.width * src.height <= usize::MAX,
        4 * src.width * new_height <= usize::MAX,
        3 * new_width * new_height <= usize::MAX,
    ensures
        r.wf(),
        r.width == new_width,
        r.height == new_height,
        new_width == src.width && new_height == src.height ==> r.pixels@ == src.pixels@,
        !(new_width == src.width && new_height == src.height) ==> r.pixels@ == resized(
            src.pixels@,
            src.width,
            src.height,
            new_width,
            new_height,
            filter,
        ),
{
    let buffer = image::RgbImage::from_raw(src.width, src.height, src.pixels.concat()).unwrap();
    let filter = match filter {
        AtlasMipFilter::Nearest => FilterType::Nearest,
        AtlasMipFilter::Linear => FilterType::Triangle,
        AtlasMipFilter::Cubic => FilterType::CatmullRom,
        AtlasMipFilter::Gaussian => FilterType::Gaussian,
        AtlasMipFilter::Lanczos3 => FilterType::Lanczos3,
    };
    let out = image::imageops::resize(&buffer, new_width, new_height, filter);
    RgbImage { width: new_width, height: new_height, pixels: out.pixels().map(|p| p.0).collect() }
}

} // verus!
