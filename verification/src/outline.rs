//! Drawing the outlines of the cells into a copy of the picture, to show
//! what was found.

use crate::geometry::Rect;
use crate::raster::{lemma_is_picture, picture, Image, ImageView, Pixel};
use crate::scan::Axis;
use vstd::prelude::*;

verus! {

/// The colour of the outlines: opaque red.
pub open spec fn outline_color() -> Pixel {
    Pixel { red: u16::MAX, green: 0, blue: 0, alpha: u16::MAX }
}

/// Whether (`x`, `y`) lies on the stretch from `start` up to `end` of line
/// `at` along `axis`.
pub open spec fn on_stretch(axis: Axis, at: int, start: int, end: int, x: int, y: int) -> bool {
    match axis {
        Axis::X => y == at && start <= x < end,
        Axis::Y => x == at && start <= y < end,
    }
}

/// Whether (`x`, `y`) lies on the outline of `rect`: inside it, in its first
/// or last column or row.
pub open spec fn on_outline(rect: Rect, x: int, y: int) -> bool {
    rect.contains(x, y) && (x == rect.x || x == rect.right() - 1 || y == rect.y || y
        == rect.bottom() - 1)
}

/// Whether (`x`, `y`) lies on the outline of one of the first `n` cells.
pub open spec fn on_some_outline(cells: Seq<Rect>, n: int, x: int, y: int) -> bool {
    exists|i: int| 0 <= i < n && on_outline(#[trigger] cells[i], x, y)
}

/// Whether every cell lies inside the picture and is at least one pixel
/// wide and high.
pub open spec fn cells_fit(v: ImageView, cells: Seq<Rect>) -> bool {
    forall|i: int|
        0 <= i < cells.len() ==> v.holds(#[trigger] cells[i]) && cells[i].width >= 1
            && cells[i].height >= 1
}

/// A picture with the outline of every cell drawn into it.
pub open spec fn outlined(v: ImageView, cells: Seq<Rect>) -> ImageView {
    picture(
        v.width,
        v.height,
        |x: int, y: int|
            if on_some_outline(cells, cells.len() as int, x, y) {
                outline_color()
            } else {
                v.pixel(x, y)
            },
    )
}

/// Sets the pixels from `start` up to `end` of line `at` to `color`.
pub fn draw_line(img: &mut Image, axis: Axis, at: u32, start: u32, end: u32, color: Pixel)
    requires
        crate::scan::line_holds(old(img)@, axis, at as int, start as int, end as int),
    ensures
        final(img)@.wf(),
        final(img)@.width == old(img)@.width,
        final(img)@.height == old(img)@.height,
        forall|x: int, y: int|
            old(img)@.contains(x, y) ==> #[trigger] final(img)@.pixel(x, y) == (if on_stretch(
                axis,
                at as int,
                start as int,
                end as int,
                x,
                y,
            ) {
                color
            } else {
                old(img)@.pixel(x, y)
            }),
{
    proof {
        use_type_invariant(&*img);
    }
    let ghost before = img@;
    let mut i: u32 = start;
    while i < end
        invariant
            img@.wf(),
            img@.width == before.width,
            img@.height == before.height,
            crate::scan::line_holds(before, axis, at as int, start as int, end as int),
            start <= i <= end,
            forall|x: int, y: int|
                before.contains(x, y) ==> #[trigger] img@.pixel(x, y) == (if on_stretch(
                    axis,
                    at as int,
                    start as int,
                    i as int,
                    x,
                    y,
                ) {
                    color
                } else {
                    before.pixel(x, y)
                }),
        decreases end - i,
    {
        match axis {
            Axis::X => img.put_pixel(i, at, color),
            Axis::Y => img.put_pixel(at, i, color),
        }
        i += 1;
    }
}

/// Draws the outline of `rect` into the picture, in red.
pub fn draw_rect(img: &mut Image, rect: &Rect)
    requires
        old(img)@.holds(*rect),
        rect.width >= 1,
        rect.height >= 1,
    ensures
        final(img)@.wf(),
        final(img)@.width == old(img)@.width,
        final(img)@.height == old(img)@.height,
        forall|x: int, y: int|
            old(img)@.contains(x, y) ==> #[trigger] final(img)@.pixel(x, y) == (if on_outline(
                *rect,
                x,
                y,
            ) {
                outline_color()
            } else {
                old(img)@.pixel(x, y)
            }),
{
    proof {
        use_type_invariant(&*img);
    }
    let ghost before = img@;
    let color = Pixel { red: u16::MAX, green: 0, blue: 0, alpha: u16::MAX };
    let right_end: u32 = rect.x + rect.width;
    let bottom_end: u32 = rect.y + rect.height;
    draw_line(img, Axis::X, rect.y, rect.x, right_end, color);
    let ghost first = img@;
    draw_line(img, Axis::X, bottom_end - 1, rect.x, right_end, color);
    let ghost second = img@;
    draw_line(img, Axis::Y, rect.x, rect.y, bottom_end, color);
    let ghost third = img@;
    draw_line(img, Axis::Y, right_end - 1, rect.y, bottom_end, color);
    proof {
        assert forall|x: int, y: int| before.contains(x, y) implies #[trigger] img@.pixel(x, y)
            == (if on_outline(*rect, x, y) {
            outline_color()
        } else {
            before.pixel(x, y)
        }) by {
            assert(first.pixel(x, y) == (if on_stretch(
                Axis::X,
                rect.y as int,
                rect.x as int,
                right_end as int,
                x,
                y,
            ) {
                color
            } else {
                before.pixel(x, y)
            }));
            assert(second.pixel(x, y) == (if on_stretch(
                Axis::X,
                bottom_end - 1,
                rect.x as int,
                right_end as int,
                x,
                y,
            ) {
                color
            } else {
                first.pixel(x, y)
            }));
            assert(third.pixel(x, y) == (if on_stretch(
                Axis::Y,
                rect.x as int,
                rect.y as int,
                bottom_end as int,
                x,
                y,
            ) {
                color
            } else {
                second.pixel(x, y)
            }));
        }
    }
}

/// A copy of the picture with the outline of every cell drawn into it, in
/// red: the picture that shows what was found.
pub fn output_debug_image(img: &Image, cells: &Vec<Rect>) -> (out: Image)
    requires
        cells_fit(img@, cells@),
    ensures
        out@ == outlined(img@, cells@),
        out@.wf(),
        out@.width == img@.width,
        out@.height == img@.height,
        forall|x: int, y: int|
            img@.contains(x, y) ==> #[trigger] out@.pixel(x, y) == (if on_some_outline(
                cells@,
                cells@.len() as int,
                x,
                y,
            ) {
                outline_color()
            } else {
                img@.pixel(x, y)
            }),
{
    let mut img_copy = img.duplicate();
    let mut i: usize = 0;
    while i < cells.len()
        invariant
            cells_fit(img@, cells@),
            img_copy@.wf(),
            img_copy@.width == img@.width,
            img_copy@.height == img@.height,
            i <= cells.len(),
            forall|x: int, y: int|
                img@.contains(x, y) ==> #[trigger] img_copy@.pixel(x, y) == (if on_some_outline(
                    cells@,
                    i as int,
                    x,
                    y,
                ) {
                    outline_color()
                } else {
                    img@.pixel(x, y)
                }),
        decreases cells.len() - i,
    {
        let ghost before = img_copy@;
        let rect = cells[i];
        draw_rect(&mut img_copy, &rect);
        proof {
            assert forall|x: int, y: int| img@.contains(x, y) implies #[trigger] img_copy@.pixel(
                x,
                y,
            ) == (if on_some_outline(cells@, i + 1, x, y) {
                outline_color()
            } else {
                img@.pixel(x, y)
            }) by {
                assert(before.pixel(x, y) == (if on_some_outline(cells@, i as int, x, y) {
                    outline_color()
                } else {
                    img@.pixel(x, y)
                }));
                if on_outline(rect, x, y) {
                    assert(on_outline(cells@[i as int], x, y));
                } else if on_some_outline(cells@, i + 1, x, y) {
                    let k = choose|k: int| 0 <= k < i + 1 && on_outline(#[trigger] cells@[k], x, y);
                    assert(k < i);
                } else if on_some_outline(cells@, i as int, x, y) {
                    let k = choose|k: int| 0 <= k < i && on_outline(#[trigger] cells@[k], x, y);
                    assert(on_outline(cells@[k], x, y));
                }
            }
        }
        i += 1;
    }
    proof {
        lemma_is_picture(
            img_copy@,
            |x: int, y: int|
                if on_some_outline(cells@, cells@.len() as int, x, y) {
                    outline_color()
                } else {
                    img@.pixel(x, y)
                },
        );
    }
    img_copy
}

} // verus!
