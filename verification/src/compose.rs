//! Cutting a cell out of a picture and laying it over a background colour.

use crate::geometry::Rect;
use crate::raster::{
    lemma_is_picture, lemma_pixel_index, picture, pixel_in, Image, ImageView, Pixel,
};
use image::imageops::overlay;
use image::{ImageBuffer, Rgba};
use vstd::prelude::*;

verus! {

/// What `image::Pixel::blend` leaves in an `Rgba<u16>` pixel `bottom` when
/// `top` is laid over it: the source-over blend of the two.
pub uninterp spec fn blended(bottom: Pixel, top: Pixel) -> Pixel;

/// A pixel laid over a background: a fully transparent pixel shows the
/// background, a fully opaque one hides it, anything between is blended.
pub open spec fn composite(background: Pixel, top: Pixel) -> Pixel {
    if top.alpha == 0 {
        background
    } else if top.alpha == u16::MAX {
        top
    } else {
        blended(background, top)
    }
}

/// The part of a picture that `rect` covers, laid over a canvas of the same
/// size that is filled with `background`.
pub open spec fn sub_image(v: ImageView, rect: Rect, background: Pixel) -> ImageView {
    picture(
        rect.width as nat,
        rect.height as nat,
        |x: int, y: int| composite(background, v.pixel(rect.x + x, rect.y + y)),
    )
}

/// Lays `top` over `bottom`, two runs of samples for pictures of one size,
/// and returns what becomes of `bottom`. Calls `image::imageops::overlay` at
/// offset (0, 0), which replaces each pixel of the bottom picture by its
/// `blend` with the pixel of the top picture at the same place; `blend`
/// leaves the bottom pixel alone where the top pixel's alpha is zero and
/// copies the top pixel where its alpha is the greatest possible.
#[verifier::external_body]
fn overlay_samples(bottom: Vec<u16>, top: Vec<u16>, width: u32, height: u32) -> (out: Vec<u16>)
    requires
        bottom@.len() == 4 * (width * height),
        top@.len() == 4 * (width * height),
    ensures
        out@.len() == bottom@.len(),
        forall|i: int|
            0 <= i < width * height ==> #[trigger] pixel_in(out@, i) == (if pixel_in(
                top@,
                i,
            ).alpha == 0 {
                pixel_in(bottom@, i)
            } else if pixel_in(top@, i).alpha == u16::MAX {
                pixel_in(top@, i)
            } else {
                blended(pixel_in(bottom@, i), pixel_in(top@, i))
            }),
{
    let mut canvas = ImageBuffer::<Rgba<u16>, Vec<u16>>::from_raw(width, height, bottom).unwrap();
    let layer = ImageBuffer::<Rgba<u16>, Vec<u16>>::from_raw(width, height, top).unwrap();
    overlay(&mut canvas, &layer, 0, 0);
    canvas.into_raw()
}

/// Cuts the cell `rect` out of `img` and lays it over a canvas of the cell's
/// size that is filled with `background_color`.
pub fn make_sub_image(img: &Image, rect: &Rect, background_color: Pixel) -> (out: Image)
    requires
        img@.holds(*rect),
    ensures
        out@ == sub_image(img@, *rect, background_color),
        out@.wf(),
        out@.width == rect.width,
        out@.height == rect.height,
        forall|x: int, y: int|
            out@.contains(x, y) ==> #[trigger] out@.pixel(x, y) == composite(
                background_color,
                img@.pixel(rect.x + x, rect.y + y),
            ),
{
    let layer = img.crop(*rect);
    let canvas = Image::filled(rect.width, rect.height, background_color);
    let ghost below = canvas@;
    let ghost above = layer@;
    let samples = overlay_samples(canvas.into_raw(), layer.into_raw(), rect.width, rect.height);
    let out = Image::from_samples(rect.width, rect.height, samples);
    proof {
        assert forall|x: int, y: int| out@.contains(x, y) implies #[trigger] out@.pixel(x, y)
            == composite(background_color, img@.pixel(rect.x + x, rect.y + y)) by {
            lemma_pixel_index(x, y, rect.width as int, rect.height as int);
            let i = y * (rect.width as int) + x;
            assert(pixel_in(out@.samples, i) == composite(
                pixel_in(below.samples, i),
                pixel_in(above.samples, i),
            ));
            assert(below.pixel(x, y) == background_color);
            assert(above.pixel(x, y) == img@.pixel(rect.x + x, rect.y + y));
        }
        lemma_is_picture(
            out@,
            |x: int, y: int| composite(background_color, img@.pixel(rect.x + x, rect.y + y)),
        );
    }
    out
}

} // verus!
