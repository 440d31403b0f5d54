//! The last step: resampling a picture to the size in which it is put out.

use crate::fit::AspectRatio;
use crate::raster::{Image, ImageView};
use image::imageops::{resize, FilterType};
use image::{ImageBuffer, Rgba};
use vstd::prelude::*;

verus! {

/// The width, in pixels, of every picture that is put out: an inch and a
/// half at 72 dots to the inch.
pub const OUTPUT_WIDTH: u32 = 108;

/// The samples that `image::imageops::resize` with the triangle filter gives
/// for an RGBA picture of 16 bits per channel, `width` by `height`, that is
/// resized to `new_width` by `new_height`.
pub uninterp spec fn resampled(
    samples: Seq<u16>,
    width: int,
    height: int,
    new_width: int,
    new_height: int,
) -> Seq<u16>;

/// The longest side, in pixels, that a picture may have before or after
/// resampling. The resampling works out in single-precision floats where in
/// the source each new pixel lies; up to this length such a float places
/// every half pixel within half a pixel, so that each new pixel finds a
/// source pixel of some weight.
pub const MAX_SIDE: u32 = 0x10_0000;

/// Whether a picture `width` by `height` can be resampled to `new_width` by
/// `new_height`: no side is longer than [`MAX_SIDE`], and the resampled
/// picture, and the picture of 32-bit samples that stands between the two
/// while the rows are resampled, both fit in memory.
pub open spec fn can_resample(width: int, height: int, new_width: int, new_height: int) -> bool {
    &&& width <= MAX_SIDE
    &&& height <= MAX_SIDE
    &&& new_width <= MAX_SIDE
    &&& new_height <= MAX_SIDE
    &&& 16 * (width * new_height) <= isize::MAX
    &&& 8 * (new_width * new_height) <= isize::MAX
}

/// Whether a picture `width` by `height` can be resampled to `new_width` by
/// `new_height` on this machine.
pub fn fits_for_resampling(width: u32, height: u32, new_width: u32, new_height: u32) -> (fits:
    bool)
    ensures
        fits == can_resample(width as int, height as int, new_width as int, new_height as int),
{
    if width > MAX_SIDE || height > MAX_SIDE || new_width > MAX_SIDE || new_height > MAX_SIDE {
        return false;
    }
    assert(0 <= width * new_height <= 0x100_0000_0000) by (nonlinear_arith)
        requires
            0 <= width <= 0x10_0000,
            0 <= new_height <= 0x10_0000,
    ;
    assert(0 <= new_width * new_height <= 0x100_0000_0000) by (nonlinear_arith)
        requires
            0 <= new_width <= 0x10_0000,
            0 <= new_height <= 0x10_0000,
    ;
    let limit: u64 = isize::MAX as u64;
    let between: u64 = 16 * (width as u64 * new_height as u64);
    let after: u64 = 8 * (new_width as u64 * new_height as u64);
    between <= limit && after <= limit
}

/// The samples of a picture `width` by `height` after it has been resized to
/// `new_width` by `new_height`. A picture without pixels gives a picture
/// whose samples are all zero; a picture that has the new size already is
/// kept as it is; any other is resampled.
pub open spec fn resized(
    samples: Seq<u16>,
    width: int,
    height: int,
    new_width: int,
    new_height: int,
) -> Seq<u16> {
    if width == 0 || height == 0 {
        Seq::new((4 * (new_width * new_height)) as nat, |k: int| 0u16)
    } else if new_width == width && new_height == height {
        samples
    } else {
        resampled(samples, width, height, new_width, new_height)
    }
}

/// A picture resized to `new_width` by `new_height`.
pub open spec fn rescaled(v: ImageView, new_width: int, new_height: int) -> ImageView {
    ImageView {
        width: new_width as nat,
        height: new_height as nat,
        samples: resized(v.samples, v.width as int, v.height as int, new_width, new_height),
    }
}

/// Resizes a run of samples. Calls `image::imageops::resize` with
/// `FilterType::Triangle` on the RGBA picture of 16 bits per channel that
/// the samples are. `resize` hands back a zeroed picture of the new size
/// where the source has no pixel, a copy of the source where it has the new
/// size already, and the resampled picture otherwise; the result has
/// exactly the size asked for, four samples for each pixel. The sizes for
/// which `resize` cannot allocate, or cannot place its coordinates, are left
/// out.
#[verifier::external_body]
fn resize_samples(
    samples: &Vec<u16>,
    width: u32,
    height: u32,
    new_width: u32,
    new_height: u32,
) -> (out: Vec<u16>)
    requires
        samples@.len() == 4 * (width * height),
        can_resample(width as int, height as int, new_width as int, new_height as int),
    ensures
        out@.len() == 4 * (new_width * new_height),
        out@ == (if width == 0 || height == 0 {
            Seq::new((4 * (new_width * new_height)) as nat, |k: int| 0u16)
        } else if new_width == width && new_height == height {
            samples@
        } else {
            resampled(
                samples@,
                width as int,
                height as int,
                new_width as int,
                new_height as int,
            )
        }),
{
    let source =
        ImageBuffer::<Rgba<u16>, &[u16]>::from_raw(width, height, samples.as_slice()).unwrap();
    resize(&source, new_width, new_height, FilterType::Triangle).into_raw()
}

/// Resamples `img` to `new_width` by `new_height` with a triangle filter.
pub fn rescale(img: &Image, new_width: u32, new_height: u32) -> (out: Image)
    requires
        can_resample(
            img@.width as int,
            img@.height as int,
            new_width as int,
            new_height as int,
        ),
    ensures
        out@ == rescaled(img@, new_width as int, new_height as int),
        out@.wf(),
        out@.width == new_width,
        out@.height == new_height,
{
    proof {
        use_type_invariant(img);
    }
    let samples = resize_samples(img.as_raw(), img.width(), img.height(), new_width, new_height);
    assert(0 <= new_width * new_height) by (nonlinear_arith)
        requires
            0 <= new_width,
            0 <= new_height,
    ;
    Image::from_samples(new_width, new_height, samples)
}

/// Resamples `rounded_image` to the size in which pictures are put out:
/// [`OUTPUT_WIDTH`] wide, and as high as the aspect ratio makes that width,
/// with the fraction cut off.
pub fn rescale_to_72dpi_1in(aspect_ratio: AspectRatio, rounded_image: &Image) -> (out: Image)
    requires
        aspect_ratio.wf(),
        can_resample(
            rounded_image@.width as int,
            rounded_image@.height as int,
            OUTPUT_WIDTH as int,
            aspect_ratio.truncated_height_of(OUTPUT_WIDTH as int),
        ),
    ensures
        out@ == rescaled(
            rounded_image@,
            OUTPUT_WIDTH as int,
            aspect_ratio.truncated_height_of(OUTPUT_WIDTH as int),
        ),
        out@.wf(),
        out@.width == OUTPUT_WIDTH,
        out@.height == aspect_ratio.truncated_height_of(OUTPUT_WIDTH as int),
{
    let new_width: u32 = OUTPUT_WIDTH;
    rescale(rounded_image, new_width, aspect_ratio.truncated_height(new_width))
}

} // verus!
