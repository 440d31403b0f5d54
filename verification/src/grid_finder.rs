//! Finding the grid: the border round the sheet, the blank gap inside it,
//! and the strokes of the grid lines that cross it.

use crate::cells::{cell_rectangles, cell_rects, lemma_cells_between_strokes};
use crate::error::FpcError;
use crate::geometry::Rect;
use crate::raster::{Image, ImageView};
use crate::scan::{
    blank_along, find_first, find_grid_line_ranges, grid_line_ranges, has_match,
    lemma_scan_exists, lemma_scan_hit_unique, scan_hit, scan_range, Axis,
};
use vstd::prelude::*;

verus! {

/// Whether the middle row of the picture exists and holds an opaque pixel.
pub open spec fn has_opaque_row(v: ImageView) -> bool {
    v.height as int / 2 < v.height && has_match(
        v,
        Axis::X,
        v.height as int / 2,
        0,
        v.width as int,
        false,
    )
}

/// Whether the middle column of the picture exists and holds an opaque
/// pixel.
pub open spec fn has_opaque_column(v: ImageView) -> bool {
    v.width as int / 2 < v.width && has_match(
        v,
        Axis::Y,
        v.width as int / 2,
        0,
        v.height as int,
        false,
    )
}

/// The rectangle that the border frames: from the first to the last opaque
/// pixel of the middle row, and from the first to the last opaque pixel of
/// the middle column. Without an opaque pixel in the middle row the left
/// edge is missing; with one there but none in the middle column, the top
/// edge is.
pub open spec fn bordered_bounds(v: ImageView) -> Result<Rect, FpcError> {
    let cx = v.width as int / 2;
    let cy = v.height as int / 2;
    if !has_opaque_row(v) {
        Err(FpcError::MissingBorder("left"))
    } else if !has_opaque_column(v) {
        Err(FpcError::MissingBorder("top"))
    } else {
        let left = scan_hit(v, Axis::X, cy, 0, v.width as int, false, false);
        let right = scan_hit(v, Axis::X, cy, 0, v.width as int, true, false);
        let top = scan_hit(v, Axis::Y, cx, 0, v.height as int, false, false);
        let bottom = scan_hit(v, Axis::Y, cx, 0, v.height as int, true, false);
        Ok(
            Rect {
                x: left as u32,
                y: top as u32,
                width: (right - left + 1) as u32,
                height: (bottom - top + 1) as u32,
            },
        )
    }
}

/// The column down the middle of `bounds`.
pub open spec fn middle_column(bounds: Rect) -> int {
    bounds.x + bounds.width / 2
}

/// The row across the middle of `bounds`.
pub open spec fn middle_row(bounds: Rect) -> int {
    bounds.y + bounds.height / 2
}

/// Whether a blank pixel lies inside `bounds` both on its middle column and
/// on its middle row.
pub open spec fn has_blank_inside(v: ImageView, bounds: Rect) -> bool {
    &&& bounds.width > 0
    &&& bounds.height > 0
    &&& has_match(v, Axis::Y, middle_column(bounds), bounds.y as int, bounds.bottom(), true)
    &&& has_match(v, Axis::X, middle_row(bounds), bounds.x as int, bounds.right(), true)
}

/// How thick the border is on each side of `bounds`, as (left, top, right,
/// bottom): the distance from that side to the first blank pixel met when
/// scanning inward along the middle column (for top and bottom) or the
/// middle row (for left and right).
pub open spec fn border_widths(v: ImageView, bounds: Rect) -> Result<
    (u32, u32, u32, u32),
    FpcError,
> {
    if !has_blank_inside(v, bounds) {
        Err(FpcError::BlankNotFound)
    } else {
        let column = middle_column(bounds);
        let row = middle_row(bounds);
        let top = scan_hit(v, Axis::Y, column, bounds.y as int, bounds.bottom(), false, true);
        let bottom = scan_hit(v, Axis::Y, column, bounds.y as int, bounds.bottom(), true, true);
        let left = scan_hit(v, Axis::X, row, bounds.x as int, bounds.right(), false, true);
        let right = scan_hit(v, Axis::X, row, bounds.x as int, bounds.right(), true, true);
        Ok(
            (
                (left - bounds.x) as u32,
                (top - bounds.y) as u32,
                (bounds.right() - 1 - right) as u32,
                (bounds.bottom() - 1 - bottom) as u32,
            ),
        )
    }
}

/// The cells of the grid in a picture, or why none could be found.
pub open spec fn grid_cells(v: ImageView) -> Result<Seq<Rect>, FpcError> {
    match bordered_bounds(v) {
        Err(e) => Err(e),
        Ok(bounds) => match border_widths(v, bounds) {
            Err(e) => Err(e),
            Ok(widths) => Ok(
                cell_rects(
                    grid_line_ranges(
                        v,
                        Axis::Y,
                        bounds.x + widths.0,
                        bounds.y as int,
                        bounds.bottom(),
                    ),
                    grid_line_ranges(
                        v,
                        Axis::X,
                        bounds.y + widths.1,
                        bounds.x as int,
                        bounds.right(),
                    ),
                ),
            ),
        },
    }
}

/// Finds the rectangle that the border frames, by looking along the middle
/// row and the middle column of the picture for the first and the last
/// opaque pixel.
pub fn find_bordered_bounds(img: &Image) -> (r: Result<Rect, FpcError>)
    ensures
        r == bordered_bounds(img@),
        r matches Ok(bounds) ==> img@.holds(bounds) && bounds.width >= 1 && bounds.height >= 1,
{
    let width: u32 = img.width();
    let height: u32 = img.height();
    let center_x: u32 = width / 2;
    let center_y: u32 = height / 2;
    if center_y >= height {
        return Err(FpcError::MissingBorder("left"));
    }
    let left: u32 = match find_first(img, Axis::X, center_y, 0, width, false, false) {
        Some(c) => c,
        None => {
            return Err(FpcError::MissingBorder("left"));
        },
    };
    let right: u32 = match find_first(img, Axis::X, center_y, 0, width, true, false) {
        Some(c) => c,
        None => {
            return Err(FpcError::MissingBorder("right"));
        },
    };
    let top: u32 = match find_first(img, Axis::Y, center_x, 0, height, false, false) {
        Some(c) => c,
        None => {
            return Err(FpcError::MissingBorder("top"));
        },
    };
    let bottom: u32 = match find_first(img, Axis::Y, center_x, 0, height, true, false) {
        Some(c) => c,
        None => {
            return Err(FpcError::MissingBorder("bottom"));
        },
    };
    proof {
        let v = img@;
        let (w, h) = (width as int, height as int);
        lemma_scan_hit_unique(v, Axis::X, center_y as int, 0, w, false, false, left as int);
        lemma_scan_hit_unique(v, Axis::X, center_y as int, 0, w, true, false, right as int);
        lemma_scan_hit_unique(v, Axis::Y, center_x as int, 0, h, false, false, top as int);
        lemma_scan_hit_unique(v, Axis::Y, center_x as int, 0, h, true, false, bottom as int);
    }
    Ok(Rect { x: left, y: top, width: right - left + 1, height: bottom - top + 1 })
}

/// Measures how thick the border is on each side of `bounds`; the result is
/// (left, top, right, bottom).
pub fn find_border_widths(img: &Image, bounds: Rect) -> (r: Result<(u32, u32, u32, u32), FpcError>)
    requires
        img@.holds(bounds),
    ensures
        r == border_widths(img@, bounds),
        r matches Ok(widths) ==> widths.0 + widths.2 < bounds.width && widths.1 + widths.3
            < bounds.height,
{
    proof {
        use_type_invariant(img);
    }
    if bounds.width == 0 || bounds.height == 0 {
        return Err(FpcError::BlankNotFound);
    }
    let x: u32 = bounds.x;
    let y: u32 = bounds.y;
    let right_end: u32 = x + bounds.width;
    let bottom_end: u32 = y + bounds.height;
    let column: u32 = x + bounds.width / 2;
    let row: u32 = y + bounds.height / 2;
    let top: u32 = scan_range(img, Axis::Y, column, y, bottom_end, false)?;
    let bottom: u32 = scan_range(img, Axis::Y, column, y, bottom_end, true)?;
    let left: u32 = scan_range(img, Axis::X, row, x, right_end, false)?;
    let right: u32 = scan_range(img, Axis::X, row, x, right_end, true)?;
    proof {
        let v = img@;
        let (x0, x1) = (x as int, right_end as int);
        let (y0, y1) = (y as int, bottom_end as int);
        lemma_scan_hit_unique(v, Axis::Y, column as int, y0, y1, false, true, top as int);
        lemma_scan_hit_unique(v, Axis::Y, column as int, y0, y1, true, true, bottom as int);
        lemma_scan_hit_unique(v, Axis::X, row as int, x0, x1, false, true, left as int);
        lemma_scan_hit_unique(v, Axis::X, row as int, x0, x1, true, true, right as int);
    }
    Ok((left - x, top - y, right_end - 1 - right, bottom_end - 1 - bottom))
}

/// Finds the cells of the grid in a picture: the border, the gap inside it,
/// the strokes that cross the first blank row and the first blank column
/// inside the border, and the rectangles between them, row by row.
pub fn find_grid_cells(img: &Image) -> (r: Result<Vec<Rect>, FpcError>)
    ensures
        match r {
            Ok(cells) => grid_cells(img@) == Ok::<Seq<Rect>, FpcError>(cells@),
            Err(e) => grid_cells(img@) == Err::<Seq<Rect>, FpcError>(e),
        },
        r matches Ok(cells) ==> forall|i: int|
            0 <= i < cells@.len() ==> img@.holds(#[trigger] cells@[i]) && cells@[i].width >= 1
                && cells@[i].height >= 1,
        is_blank_picture(img@) ==> (r matches Err(e) && e == FpcError::MissingBorder("left")),
{
    proof {
        if is_blank_picture(img@) {
            lemma_blank_picture_has_no_border(img@);
        }
    }
    proof {
        use_type_invariant(img);
    }
    let bounds = find_bordered_bounds(img)?;
    let (left, top, _right, _bottom) = find_border_widths(img, bounds)?;
    let right_end: u32 = bounds.x + bounds.width;
    let bottom_end: u32 = bounds.y + bounds.height;
    let vert = find_grid_line_ranges(img, Axis::X, bounds.y + top, bounds.x, right_end);
    let horiz = find_grid_line_ranges(img, Axis::Y, bounds.x + left, bounds.y, bottom_end);
    let cells = cell_rectangles(&horiz, &vert);
    proof {
        assert forall|i: int| 0 <= i < cells@.len() implies img@.holds(#[trigger] cells@[i])
            && cells@[i].width >= 1 && cells@[i].height >= 1 by {
            lemma_cells_between_strokes(horiz@, vert@, i);
        }
    }
    Ok(cells)
}

/// Whether the opaque pixels of the picture are exactly those of `rect`.
pub open spec fn is_filled_rectangle(v: ImageView, rect: Rect) -> bool {
    &&& v.holds(rect)
    &&& forall|x: int, y: int|
        v.contains(x, y) ==> (#[trigger] v.is_blank(x, y) <==> !rect.contains(x, y))
}

/// A picture whose opaque pixels form one filled rectangle on a blank
/// background has no grid and so no cell. Where the rectangle misses the
/// middle row of the picture, the left edge of the border is not found;
/// where it meets that row but misses the middle column, the top edge is
/// not found; where it holds the middle of the picture, it is its own
/// border, and the scan for the blank gap inside runs through opaque pixels
/// only.
pub proof fn lemma_filled_rectangle_has_no_cells(v: ImageView, rect: Rect)
    requires
        v.wf(),
        is_filled_rectangle(v, rect),
    ensures
        grid_cells(v) == Err::<Seq<Rect>, FpcError>(
            if !(rect.width > 0 && rect.y <= v.height as int / 2 < rect.bottom()) {
                FpcError::MissingBorder("left")
            } else if !(rect.height > 0 && rect.x <= v.width as int / 2 < rect.right()) {
                FpcError::MissingBorder("top")
            } else {
                FpcError::BlankNotFound
            },
        ),
{
    let w = v.width as int;
    let h = v.height as int;
    let cx = w / 2;
    let cy = h / 2;
    let meets_row = rect.width > 0 && rect.y <= cy < rect.bottom();
    let meets_column = rect.height > 0 && rect.x <= cx < rect.right();
    if has_opaque_row(v) {
        let c = choose|c: int| 0 <= c < w && #[trigger] blank_along(v, Axis::X, cy, c) == false;
        assert(!v.is_blank(c, cy));
        assert(rect.contains(c, cy));
    }
    if meets_row {
        assert(!v.is_blank(rect.x as int, cy));
        assert(blank_along(v, Axis::X, cy, rect.x as int) == false);
    }
    assert(has_opaque_row(v) == meets_row);
    if has_opaque_column(v) {
        let c = choose|c: int| 0 <= c < h && #[trigger] blank_along(v, Axis::Y, cx, c) == false;
        assert(!v.is_blank(cx, c));
        assert(rect.contains(cx, c));
    }
    if meets_column {
        assert(!v.is_blank(cx, rect.y as int));
        assert(blank_along(v, Axis::Y, cx, rect.y as int) == false);
    }
    assert(has_opaque_column(v) == meets_column);
    if meets_row && meets_column {
        let left = scan_hit(v, Axis::X, cy, 0, w, false, false);
        let right = scan_hit(v, Axis::X, cy, 0, w, true, false);
        let top = scan_hit(v, Axis::Y, cx, 0, h, false, false);
        let bottom = scan_hit(v, Axis::Y, cx, 0, h, true, false);
        lemma_scan_exists(v, Axis::X, cy, 0, w, false, false);
        lemma_scan_exists(v, Axis::X, cy, 0, w, true, false);
        lemma_scan_exists(v, Axis::Y, cx, 0, h, false, false);
        lemma_scan_exists(v, Axis::Y, cx, 0, h, true, false);
        let bounds = bordered_bounds(v)->Ok_0;
        assert(!v.is_blank(left, cy));
        assert(!v.is_blank(right, cy));
        assert(!v.is_blank(cx, top));
        assert(!v.is_blank(cx, bottom));
        assert(rect.contains(left, cy) && rect.contains(right, cy));
        assert(rect.contains(cx, top) && rect.contains(cx, bottom));
        assert(left <= right && top <= bottom);
        let column = middle_column(bounds);
        assert(left <= column <= right);
        if has_match(v, Axis::Y, column, bounds.y as int, bounds.bottom(), true) {
            let k = choose|k: int|
                bounds.y <= k < bounds.bottom() && #[trigger] blank_along(v, Axis::Y, column, k)
                    == true;
            assert(v.is_blank(column, k));
            assert(rect.contains(column, k));
        }
    }
}

/// Whether the picture holds no opaque pixel.
pub open spec fn is_blank_picture(v: ImageView) -> bool {
    forall|x: int, y: int| v.contains(x, y) ==> #[trigger] v.is_blank(x, y)
}

/// A picture without an opaque pixel has no border: what is missing first
/// is the left edge.
pub proof fn lemma_blank_picture_has_no_border(v: ImageView)
    requires
        is_blank_picture(v),
    ensures
        grid_cells(v) == Err::<Seq<Rect>, FpcError>(FpcError::MissingBorder("left")),
        bordered_bounds(v) == Err::<Rect, FpcError>(FpcError::MissingBorder("left")),
{
    let cy = v.height as int / 2;
    if has_opaque_row(v) {
        let c = choose|c: int|
            0 <= c < v.width && #[trigger] blank_along(v, Axis::X, cy, c) == false;
        assert(v.is_blank(c, cy));
    }
}

} // verus!
