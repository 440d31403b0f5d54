//! The box round whatever lies in the middle of a picture: the nearest
//! blank column on either side of the middle and the nearest blank row
//! above and below it.

use crate::error::FpcError;
use crate::geometry::Rect;
use crate::raster::{Image, ImageView};
use crate::scan::{find_first, has_match, line_count, line_length, Axis};
use vstd::prelude::*;

verus! {

/// Whether every pixel of line `at` is blank.
pub open spec fn line_is_blank(v: ImageView, axis: Axis, at: int) -> bool {
    !has_match(v, axis, at, 0, line_length(v, axis) as int, false)
}

/// Whether a walk over the lines along `axis` that starts at line `from`
/// and goes on by `delta`, one line at a time, comes to line `at`.
pub open spec fn visits(v: ImageView, axis: Axis, from: int, delta: int, at: int) -> bool {
    &&& 0 <= from < line_count(v, axis)
    &&& 0 <= at < line_count(v, axis)
    &&& if delta < 0 {
        at <= from
    } else {
        from <= at
    }
}

/// Whether the walk comes to a blank line.
pub open spec fn has_blank_line(v: ImageView, axis: Axis, from: int, delta: int) -> bool {
    exists|at: int| visits(v, axis, from, delta, at) && #[trigger] line_is_blank(v, axis, at)
}

/// Whether `at` is the first blank line that the walk comes to.
pub open spec fn is_blank_line_hit(
    v: ImageView,
    axis: Axis,
    from: int,
    delta: int,
    at: int,
) -> bool {
    &&& visits(v, axis, from, delta, at)
    &&& line_is_blank(v, axis, at)
    &&& forall|k: int|
        visits(v, axis, from, delta, k) && (if delta < 0 {
            at < k
        } else {
            k < at
        }) ==> !#[trigger] line_is_blank(v, axis, k)
}

/// The first blank line that the walk comes to, where it comes to one.
pub open spec fn blank_line_hit(v: ImageView, axis: Axis, from: int, delta: int) -> int {
    choose|at: int| is_blank_line_hit(v, axis, from, delta, at)
}

/// The walk has one first blank line only.
pub proof fn lemma_blank_line_hit_unique(v: ImageView, axis: Axis, from: int, delta: int, at: int)
    requires
        is_blank_line_hit(v, axis, from, delta, at),
    ensures
        blank_line_hit(v, axis, from, delta) == at,
        has_blank_line(v, axis, from, delta),
{
    let other = blank_line_hit(v, axis, from, delta);
    assert(is_blank_line_hit(v, axis, from, delta, other));
    if other != at {
        assert(line_is_blank(v, axis, at));
        assert(line_is_blank(v, axis, other));
    }
}

/// The box round the middle of the picture, as a list of one: from the
/// nearest blank column left of the middle to the nearest one right of it,
/// and from the nearest blank row above the middle to the nearest one
/// below, those columns and rows included. Without such a column or row on
/// one of the four sides there is no box.
pub open spec fn bounding_boxes(v: ImageView) -> Result<Seq<Rect>, FpcError> {
    let cx = v.width as int / 2;
    let cy = v.height as int / 2;
    if has_blank_line(v, Axis::Y, cx, -1) && has_blank_line(v, Axis::Y, cx, 1) && has_blank_line(
        v,
        Axis::X,
        cy,
        -1,
    ) && has_blank_line(v, Axis::X, cy, 1) {
        let left = blank_line_hit(v, Axis::Y, cx, -1);
        let right = blank_line_hit(v, Axis::Y, cx, 1);
        let top = blank_line_hit(v, Axis::X, cy, -1);
        let bottom = blank_line_hit(v, Axis::X, cy, 1);
        Ok(
            seq![
                Rect {
                    x: left as u32,
                    y: top as u32,
                    width: (right - left + 1) as u32,
                    height: (bottom - top + 1) as u32,
                },
            ],
        )
    } else {
        Err(FpcError::Unknown)
    }
}

/// Walks over the lines along `axis`, from line `from` on by `delta`, to
/// the first line that is blank throughout.
fn scan_lines(img: &Image, axis: Axis, from: u32, delta: i32) -> (r: Result<u32, FpcError>)
    requires
        delta == 1 || delta == -1,
    ensures
        match r {
            Ok(at) => is_blank_line_hit(img@, axis, from as int, delta as int, at as int),
            Err(e) => e == FpcError::Unknown && !has_blank_line(
                img@,
                axis,
                from as int,
                delta as int,
            ),
        },
{
    let count: u32 = match axis {
        Axis::X => img.height(),
        Axis::Y => img.width(),
    };
    let length: u32 = match axis {
        Axis::X => img.width(),
        Axis::Y => img.height(),
    };
    let mut edge: i64 = from as i64;
    while edge >= 0 && edge < count as i64
        invariant
            delta == 1 || delta == -1,
            count == line_count(img@, axis),
            length == line_length(img@, axis),
            edge == from || (0 <= from < count && -1 <= edge <= count),
            if delta < 0 {
                edge <= from
            } else {
                from <= edge
            },
            forall|k: int|
                visits(img@, axis, from as int, delta as int, k) && (if delta < 0 {
                    edge < k
                } else {
                    k < edge
                }) ==> !#[trigger] line_is_blank(img@, axis, k),
        decreases
                (if delta < 0 {
                    edge + 1
                } else {
                    count - edge
                }),
    {
        if find_first(img, axis, edge as u32, 0, length, false, false).is_none() {
            return Ok(edge as u32);
        }
        edge += delta as i64;
    }
    Err(FpcError::Unknown)
}

/// Walks over the columns, from the column of `center` on by `delta`, to the
/// first column that is blank from top to bottom.
fn scan_horiz(img: &Image, center: (u32, u32), delta: i32) -> (r: Result<u32, FpcError>)
    requires
        delta == 1 || delta == -1,
    ensures
        match r {
            Ok(at) => is_blank_line_hit(img@, Axis::Y, center.0 as int, delta as int, at as int),
            Err(e) => e == FpcError::Unknown && !has_blank_line(
                img@,
                Axis::Y,
                center.0 as int,
                delta as int,
            ),
        },
{
    scan_lines(img, Axis::Y, center.0, delta)
}

/// Walks over the rows, from the row of `center` on by `delta`, to the
/// first row that is blank from left to right.
fn scan_vert(img: &Image, center: (u32, u32), delta: i32) -> (r: Result<u32, FpcError>)
    requires
        delta == 1 || delta == -1,
    ensures
        match r {
            Ok(at) => is_blank_line_hit(img@, Axis::X, center.1 as int, delta as int, at as int),
            Err(e) => e == FpcError::Unknown && !has_blank_line(
                img@,
                Axis::X,
                center.1 as int,
                delta as int,
            ),
        },
{
    scan_lines(img, Axis::X, center.1, delta)
}

/// Finds the box round whatever lies in the middle of the picture.
pub fn find_bounding_boxes(img: &Image) -> (r: Result<Vec<Rect>, FpcError>)
    ensures
        match r {
            Ok(boxes) => bounding_boxes(img@) == Ok::<Seq<Rect>, FpcError>(boxes@),
            Err(e) => bounding_boxes(img@) == Err::<Seq<Rect>, FpcError>(e),
        },
        r matches Ok(boxes) ==> boxes@.len() == 1 && img@.holds(boxes@[0]),
{
    let center: (u32, u32) = (img.width() / 2, img.height() / 2);
    let left_edge: u32 = scan_horiz(img, center, -1)?;
    let right_edge: u32 = scan_horiz(img, center, 1)?;
    let top_edge: u32 = scan_vert(img, center, -1)?;
    let bottom_edge: u32 = scan_vert(img, center, 1)?;
    proof {
        lemma_blank_line_hit_unique(img@, Axis::Y, center.0 as int, -1, left_edge as int);
        lemma_blank_line_hit_unique(img@, Axis::Y, center.0 as int, 1, right_edge as int);
        lemma_blank_line_hit_unique(img@, Axis::X, center.1 as int, -1, top_edge as int);
        lemma_blank_line_hit_unique(img@, Axis::X, center.1 as int, 1, bottom_edge as int);
    }
    let mut boxes: Vec<Rect> = Vec::new();
    boxes.push(
        Rect {
            x: left_edge,
            y: top_edge,
            width: right_edge - left_edge + 1,
            height: bottom_edge - top_edge + 1,
        },
    );
    proof {
        assert(boxes@ =~= seq![boxes@[0]]);
    }
    Ok(boxes)
}

} // verus!
