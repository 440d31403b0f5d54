//! Rounding the four corners of a picture.

use crate::raster::{lemma_is_picture, lemma_same_pixels, picture, Image, ImageView, Pixel};
use vstd::prelude::*;

verus! {

/// Whether a point `dx` across and `dy` down from a centre lies farther from
/// it than `radius`.
pub open spec fn beyond_radius(dx: int, dy: int, radius: int) -> bool {
    dx * dx + dy * dy > radius * radius
}

/// Whether the pixel at (`x`, `y`) of a picture `width` wide and `height`
/// high is cut away when the corners are rounded with `radius`.
///
/// Each corner has a quadrant, the pixels less than `radius` away from both
/// of its edges, and a centre, the point `radius` in from both edges. A pixel
/// is cut away when it lies in some corner's quadrant and farther than
/// `radius` from that corner's centre.
pub open spec fn rounded_off(width: int, height: int, radius: int, x: int, y: int) -> bool {
    let left = x < radius;
    let right = x >= width - radius;
    let top = y < radius;
    let bottom = y >= height - radius;
    let from_left = x - radius;
    let from_right = x - (width - radius);
    let from_top = y - radius;
    let from_bottom = y - (height - radius);
    ||| left && top && beyond_radius(from_left, from_top, radius)
    ||| right && top && beyond_radius(from_right, from_top, radius)
    ||| left && bottom && beyond_radius(from_left, from_bottom, radius)
    ||| right && bottom && beyond_radius(from_right, from_bottom, radius)
}

/// A picture with its four corners rounded: every pixel that [`rounded_off`]
/// names is cleared, every other pixel is kept.
pub open spec fn rounded(v: ImageView, radius: int) -> ImageView {
    picture(
        v.width,
        v.height,
        |x: int, y: int|
            if rounded_off(v.width as int, v.height as int, radius, x, y) {
                Pixel::clear()
            } else {
                v.pixel(x, y)
            },
    )
}

/// The pixel at (`x`, `y`) after one corner has been rounded: cleared when it
/// lies in the corner's quadrant and beyond the radius, as it was otherwise.
pub open spec fn corner_pixel(
    before: ImageView,
    quadrant: Quadrant,
    radius: int,
    x: int,
    y: int,
) -> Pixel {
    if quadrant.covers(x, y) && beyond_radius(
        x - quadrant.center_x,
        y - quadrant.center_y,
        radius,
    ) {
        Pixel::clear()
    } else {
        before.pixel(x, y)
    }
}

/// The pixels of one corner that may be cut away, and the centre of the
/// circle that decides it.
#[derive(Debug, Clone, Copy, PartialEq, Eq, Structural)]
pub struct Quadrant {
    pub x_start: u32,
    pub x_end: u32,
    pub y_start: u32,
    pub y_end: u32,
    pub center_x: i64,
    pub center_y: i64,
}

impl Quadrant {
    /// Whether (`x`, `y`) is one of the quadrant's pixels.
    pub open spec fn covers(self, x: int, y: int) -> bool {
        self.x_start <= x < self.x_end && self.y_start <= y < self.y_end
    }

    /// The quadrant lies inside the picture and its centre is no farther
    /// from the picture than a side can be long.
    pub open spec fn fits(self, img: ImageView) -> bool {
        &&& self.x_start <= self.x_end <= img.width
        &&& self.y_start <= self.y_end <= img.height
        &&& -0x1_0000_0000 <= self.center_x <= 0x1_0000_0000
        &&& -0x1_0000_0000 <= self.center_y <= 0x1_0000_0000
    }
}

/// Clears every pixel of `quadrant` that lies farther than `radius` from the
/// quadrant's centre.
pub fn round_a_corner(img: &mut Image, quadrant: &Quadrant, radius: u32)
    requires
        quadrant.fits(old(img)@),
    ensures
        final(img)@.wf(),
        final(img)@.width == old(img)@.width,
        final(img)@.height == old(img)@.height,
        forall|x: int, y: int|
            old(img)@.contains(x, y) ==> #[trigger] final(img)@.pixel(x, y) == corner_pixel(
                old(img)@,
                *quadrant,
                radius as int,
                x,
                y,
            ),
{
    proof {
        use_type_invariant(&*img);
    }
    let ghost before = img@;
    assert(radius * radius <= 0xffff_fffe_0000_0001) by (nonlinear_arith)
        requires
            radius <= 0xffff_ffff,
    ;
    let squared: u64 = radius as u64 * radius as u64;
    let mut y: u32 = quadrant.y_start;
    while y < quadrant.y_end
        invariant
            img@.wf(),
            img@.width == before.width,
            img@.height == before.height,
            quadrant.fits(before),
            squared == radius * radius,
            quadrant.y_start <= y <= quadrant.y_end,
            forall|x2: int, y2: int|
                before.contains(x2, y2) ==> #[trigger] img@.pixel(x2, y2) == (if y2 < y {
                    corner_pixel(before, *quadrant, radius as int, x2, y2)
                } else {
                    before.pixel(x2, y2)
                }),
        decreases quadrant.y_end - y,
    {
        let dy: i64 = y as i64 - quadrant.center_y;
        assert(0 <= dy * dy <= 0x4_0000_0000_0000_0000) by (nonlinear_arith)
            requires
                -0x2_0000_0000 <= dy <= 0x2_0000_0000,
        ;
        let dy_squared: u128 = (dy as i128 * dy as i128) as u128;
        let mut x: u32 = quadrant.x_start;
        while x < quadrant.x_end
            invariant
                img@.wf(),
                img@.width == before.width,
                img@.height == before.height,
                quadrant.fits(before),
                squared == radius * radius,
                dy == y - quadrant.center_y,
                dy_squared == dy * dy,
                dy_squared <= 0x4_0000_0000_0000_0000,
                quadrant.y_start <= y < quadrant.y_end,
                quadrant.x_start <= x <= quadrant.x_end,
                forall|x2: int, y2: int|
                    before.contains(x2, y2) ==> #[trigger] img@.pixel(x2, y2) == (if y2 < y || (y2
                        == y && x2 < x) {
                        corner_pixel(before, *quadrant, radius as int, x2, y2)
                    } else {
                        before.pixel(x2, y2)
                    }),
            decreases quadrant.x_end - x,
        {
            let dx: i64 = x as i64 - quadrant.center_x;
            assert(0 <= dx * dx <= 0x4_0000_0000_0000_0000) by (nonlinear_arith)
                requires
                    -0x2_0000_0000 <= dx <= 0x2_0000_0000,
            ;
            let dx_squared: u128 = (dx as i128 * dx as i128) as u128;
            if dx_squared + dy_squared > squared as u128 {
                img.put_pixel(x, y, Pixel::transparent());
            }
            x += 1;
        }
        y += 1;
    }
}

/// A copy of `img` with its four corners rounded: every pixel that
/// [`rounded_off`] names is cleared, every other pixel is kept. With a
/// radius of zero nothing changes.
pub fn round_the_corners(img: &Image, corner_radius_px: u32) -> (out: Image)
    ensures
        out@ == rounded(img@, corner_radius_px as int),
        out@.wf(),
        out@.width == img@.width,
        out@.height == img@.height,
        forall|x: int, y: int|
            img@.contains(x, y) ==> #[trigger] out@.pixel(x, y) == (if rounded_off(
                img@.width as int,
                img@.height as int,
                corner_radius_px as int,
                x,
                y,
            ) {
                Pixel::clear()
            } else {
                img@.pixel(x, y)
            }),
        forall|x: int, y: int|
            img@.contains(x, y) && rounded_off(
                img@.width as int,
                img@.height as int,
                corner_radius_px as int,
                x,
                y,
            ) ==> #[trigger] out@.is_blank(x, y),
        corner_radius_px == 0 ==> out@ == img@,
{
    let width: u32 = img.width();
    let height: u32 = img.height();
    let radius: u32 = corner_radius_px;
    let across: u32 = if radius < width {
        radius
    } else {
        width
    };
    let down: u32 = if radius < height {
        radius
    } else {
        height
    };
    let near: i64 = radius as i64;
    let far_x: i64 = width as i64 - radius as i64;
    let far_y: i64 = height as i64 - radius as i64;
    let mut out = img.duplicate();

    let top_left = Quadrant {
        x_start: 0,
        x_end: across,
        y_start: 0,
        y_end: down,
        center_x: near,
        center_y: near,
    };
    round_a_corner(&mut out, &top_left, radius);
    let ghost after_first = out@;
    let top_right = Quadrant {
        x_start: width - across,
        x_end: width,
        y_start: 0,
        y_end: down,
        center_x: far_x,
        center_y: near,
    };
    round_a_corner(&mut out, &top_right, radius);
    let ghost after_second = out@;
    let bottom_left = Quadrant {
        x_start: 0,
        x_end: across,
        y_start: height - down,
        y_end: height,
        center_x: near,
        center_y: far_y,
    };
    round_a_corner(&mut out, &bottom_left, radius);
    let ghost after_third = out@;
    let bottom_right = Quadrant {
        x_start: width - across,
        x_end: width,
        y_start: height - down,
        y_end: height,
        center_x: far_x,
        center_y: far_y,
    };
    round_a_corner(&mut out, &bottom_right, radius);
    proof {
        assert forall|x: int, y: int| img@.contains(x, y) implies #[trigger] out@.pixel(x, y) == (
        if rounded_off(img@.width as int, img@.height as int, radius as int, x, y) {
            Pixel::clear()
        } else {
            img@.pixel(x, y)
        }) by {
            assert(after_first.pixel(x, y) == corner_pixel(img@, top_left, radius as int, x, y));
            assert(after_second.pixel(x, y) == corner_pixel(
                after_first,
                top_right,
                radius as int,
                x,
                y,
            ));
            assert(after_third.pixel(x, y) == corner_pixel(
                after_second,
                bottom_left,
                radius as int,
                x,
                y,
            ));
            assert(out@.pixel(x, y) == corner_pixel(
                after_third,
                bottom_right,
                radius as int,
                x,
                y,
            ));
        }
        if radius == 0 {
            lemma_same_pixels(out@, img@);
        }
        lemma_is_picture(
            out@,
            |x: int, y: int|
                if rounded_off(img@.width as int, img@.height as int, radius as int, x, y) {
                    Pixel::clear()
                } else {
                    img@.pixel(x, y)
                },
        );
    }
    out
}

} // verus!
