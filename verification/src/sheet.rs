//! What the finder makes of a clean sheet: a frame of one thickness round a
//! rectangle, grid lines that run its full length, and nothing else.

use crate::cells::{
    cell_rects, column_height, gaps, in_gap, lemma_cells_between_strokes,
    lemma_cells_fill_the_gaps, lemma_gap_is_blank, lemma_gaps_and_strokes, row_width,
    strokes_total,
};
use crate::error::FpcError;
use crate::geometry::Rect;
use crate::grid_finder::{
    border_widths, bordered_bounds, grid_cells, has_blank_inside, has_opaque_column,
    has_opaque_row, middle_column, middle_row,
};
use crate::raster::ImageView;
use crate::scan::{
    blank_along, covered, grid_line_ranges, is_grid_lines, is_scan_hit, is_segmentation,
    lemma_grid_line_ranges, lemma_scan_hit_unique, lemma_segmentation_unique, Axis,
};
use std::ops::Range;
use vstd::prelude::*;

verus! {

/// Whether `strokes` starts with a frame stroke `border` thick at `from` and
/// ends with one that ends at `to`.
pub open spec fn is_framed(strokes: Seq<Range<u32>>, from: int, to: int, border: int) -> bool {
    &&& is_grid_lines(strokes)
    &&& strokes.len() >= 2
    &&& strokes[0].start == from
    &&& strokes[0].end == from + border
    &&& strokes.last().start == to - border
    &&& strokes.last().end == to
}

/// Whether the picture shows a clean sheet: inside `bounds` a frame `border`
/// thick on every side and lines that run from frame to frame, on a
/// background that is blank. `vert` holds the strokes that a row crosses,
/// the two sides of the frame first and last; `horiz` those that a column
/// crosses. A pixel is opaque exactly if it lies inside `bounds` on one of
/// those strokes.
pub open spec fn is_sheet(
    v: ImageView,
    bounds: Rect,
    border: int,
    horiz: Seq<Range<u32>>,
    vert: Seq<Range<u32>>,
) -> bool {
    &&& v.wf()
    &&& v.holds(bounds)
    &&& border >= 1
    &&& is_framed(vert, bounds.x as int, bounds.right(), border)
    &&& is_framed(horiz, bounds.y as int, bounds.bottom(), border)
    &&& forall|x: int, y: int|
        v.contains(x, y) ==> (#[trigger] v.is_blank(x, y) <==> !(bounds.contains(x, y) && (covered(
            vert,
            x,
        ) || covered(horiz, y))))
}

/// Whether the finder's scans meet the sheet where they have to: the middle
/// of the picture lies inside `bounds`, and neither the middle column nor
/// the middle row of `bounds` runs along a line.
pub open spec fn is_in_view(
    v: ImageView,
    bounds: Rect,
    horiz: Seq<Range<u32>>,
    vert: Seq<Range<u32>>,
) -> bool {
    &&& bounds.contains(v.width as int / 2, v.height as int / 2)
    &&& !covered(vert, middle_column(bounds))
    &&& !covered(horiz, middle_row(bounds))
}

/// The strokes of framed grid lines lie between the frame's outer edges, and
/// the coordinates next to the frame on the inside lie on no stroke.
proof fn lemma_framed(strokes: Seq<Range<u32>>, from: int, to: int, border: int)
    requires
        is_framed(strokes, from, to, border),
        border >= 1,
    ensures
        forall|k: int|
            0 <= k < strokes.len() ==> from <= (#[trigger] strokes[k]).start && strokes[k].end
                <= to,
        from + border < to - border,
        !covered(strokes, from + border),
        !covered(strokes, to - border - 1),
        forall|c: int| from <= c < from + border ==> covered(strokes, c),
        forall|c: int| to - border <= c < to ==> covered(strokes, c),
{
    let n = strokes.len() as int;
    assert forall|k: int| 0 <= k < n implies from <= (#[trigger] strokes[k]).start
        && strokes[k].end <= to by {
        assert(strokes[0].start < strokes[0].end);
        assert(strokes[n - 1].start < strokes[n - 1].end);
        assert(strokes[k].start < strokes[k].end);
        if k > 0 {
            assert(strokes[0].end < strokes[k].start);
        }
        if k < n - 1 {
            assert(strokes[k].end < strokes[n - 1].start);
        }
    }
    assert(strokes[0].end < strokes[1].start);
    assert(strokes[n - 2].end < strokes[n - 1].start);
    if n > 2 {
        assert(strokes[1].start < strokes[1].end);
        assert(strokes[1].end < strokes[n - 1].start);
    }
    assert(in_gap(strokes, 0, from + border));
    lemma_gap_is_blank(strokes, from + border, 0);
    assert(strokes[n - 2].start < strokes[n - 2].end);
    assert(in_gap(strokes, n - 2, to - border - 1));
    lemma_gap_is_blank(strokes, to - border - 1, n - 2);
    assert forall|c: int| from <= c < from + border implies covered(strokes, c) by {
        assert(strokes[0].start <= c < strokes[0].end);
    }
    assert forall|c: int| to - border <= c < to implies covered(strokes, c) by {
        assert(strokes[n - 1].start <= c < strokes[n - 1].end);
    }
}

/// On a clean sheet in view the finder finds the frame as the border, its
/// thickness on every side, and the strokes as they are.
pub proof fn lemma_sheet_is_found(
    v: ImageView,
    bounds: Rect,
    border: int,
    horiz: Seq<Range<u32>>,
    vert: Seq<Range<u32>>,
)
    requires
        is_sheet(v, bounds, border, horiz, vert),
        is_in_view(v, bounds, horiz, vert),
    ensures
        bordered_bounds(v) == Ok::<Rect, FpcError>(bounds),
        border_widths(v, bounds) == Ok::<(u32, u32, u32, u32), FpcError>(
            (border as u32, border as u32, border as u32, border as u32),
        ),
        grid_line_ranges(v, Axis::X, bounds.y + border, bounds.x as int, bounds.right()) == vert,
        grid_line_ranges(v, Axis::Y, bounds.x + border, bounds.y as int, bounds.bottom())
            == horiz,
        grid_cells(v) == Ok::<Seq<Rect>, FpcError>(cell_rects(horiz, vert)),
{
    let w = v.width as int;
    let h = v.height as int;
    let cx = w / 2;
    let cy = h / 2;
    let x0 = bounds.x as int;
    let x1 = bounds.right();
    let y0 = bounds.y as int;
    let y1 = bounds.bottom();
    lemma_framed(vert, x0, x1, border);
    lemma_framed(horiz, y0, y1, border);
    // The border: the frame's outer edges on the middle row and column.
    assert(covered(vert, x0) && covered(vert, x1 - 1));
    assert(covered(horiz, y0) && covered(horiz, y1 - 1));
    assert(!v.is_blank(x0, cy) && !v.is_blank(x1 - 1, cy));
    assert(!v.is_blank(cx, y0) && !v.is_blank(cx, y1 - 1));
    assert(blank_along(v, Axis::X, cy, x0) == false);
    assert(blank_along(v, Axis::Y, cx, y0) == false);
    assert(has_opaque_row(v));
    assert(has_opaque_column(v));
    assert(is_scan_hit(v, Axis::X, cy, 0, w, false, false, x0)) by {
        assert forall|k: int| 0 <= k < w && k < x0 implies #[trigger] blank_along(
            v,
            Axis::X,
            cy,
            k,
        ) != false by {
            assert(v.is_blank(k, cy));
        }
    }
    assert(is_scan_hit(v, Axis::X, cy, 0, w, true, false, x1 - 1)) by {
        assert forall|k: int| 0 <= k < w && x1 - 1 < k implies #[trigger] blank_along(
            v,
            Axis::X,
            cy,
            k,
        ) != false by {
            assert(v.is_blank(k, cy));
        }
    }
    assert(is_scan_hit(v, Axis::Y, cx, 0, h, false, false, y0)) by {
        assert forall|k: int| 0 <= k < h && k < y0 implies #[trigger] blank_along(
            v,
            Axis::Y,
            cx,
            k,
        ) != false by {
            assert(v.is_blank(cx, k));
        }
    }
    assert(is_scan_hit(v, Axis::Y, cx, 0, h, true, false, y1 - 1)) by {
        assert forall|k: int| 0 <= k < h && y1 - 1 < k implies #[trigger] blank_along(
            v,
            Axis::Y,
            cx,
            k,
        ) != false by {
            assert(v.is_blank(cx, k));
        }
    }
    lemma_scan_hit_unique(v, Axis::X, cy, 0, w, false, false, x0);
    lemma_scan_hit_unique(v, Axis::X, cy, 0, w, true, false, x1 - 1);
    lemma_scan_hit_unique(v, Axis::Y, cx, 0, h, false, false, y0);
    lemma_scan_hit_unique(v, Axis::Y, cx, 0, h, true, false, y1 - 1);
    assert(bordered_bounds(v) == Ok::<Rect, FpcError>(bounds));
    // The thickness: down the middle column and along the middle row of the
    // bounds, which lie on no line.
    let mc = middle_column(bounds);
    let mr = middle_row(bounds);
    assert(x0 <= mc < x1 && y0 <= mr < y1);
    assert(is_scan_hit(v, Axis::Y, mc, y0, y1, false, true, y0 + border)) by {
        assert(v.is_blank(mc, y0 + border));
        assert forall|k: int| y0 <= k < y1 && k < y0 + border implies #[trigger] blank_along(
            v,
            Axis::Y,
            mc,
            k,
        ) != true by {
            assert(covered(horiz, k));
            assert(!v.is_blank(mc, k));
        }
    }
    assert(is_scan_hit(v, Axis::Y, mc, y0, y1, true, true, y1 - border - 1)) by {
        assert(v.is_blank(mc, y1 - border - 1));
        assert forall|k: int| y0 <= k < y1 && y1 - border - 1 < k implies #[trigger] blank_along(
            v,
            Axis::Y,
            mc,
            k,
        ) != true by {
            assert(covered(horiz, k));
            assert(!v.is_blank(mc, k));
        }
    }
    assert(is_scan_hit(v, Axis::X, mr, x0, x1, false, true, x0 + border)) by {
        assert(v.is_blank(x0 + border, mr));
        assert forall|k: int| x0 <= k < x1 && k < x0 + border implies #[trigger] blank_along(
            v,
            Axis::X,
            mr,
            k,
        ) != true by {
            assert(covered(vert, k));
            assert(!v.is_blank(k, mr));
        }
    }
    assert(is_scan_hit(v, Axis::X, mr, x0, x1, true, true, x1 - border - 1)) by {
        assert(v.is_blank(x1 - border - 1, mr));
        assert forall|k: int| x0 <= k < x1 && x1 - border - 1 < k implies #[trigger] blank_along(
            v,
            Axis::X,
            mr,
            k,
        ) != true by {
            assert(covered(vert, k));
            assert(!v.is_blank(k, mr));
        }
    }
    lemma_scan_hit_unique(v, Axis::Y, mc, y0, y1, false, true, y0 + border);
    lemma_scan_hit_unique(v, Axis::Y, mc, y0, y1, true, true, y1 - border - 1);
    lemma_scan_hit_unique(v, Axis::X, mr, x0, x1, false, true, x0 + border);
    lemma_scan_hit_unique(v, Axis::X, mr, x0, x1, true, true, x1 - border - 1);
    assert(has_blank_inside(v, bounds));
    assert(border_widths(v, bounds) == Ok::<(u32, u32, u32, u32), FpcError>(
        (border as u32, border as u32, border as u32, border as u32),
    ));
    // The strokes: along the first row and the first column inside the
    // frame, which lie on no line either.
    assert(is_segmentation(v, Axis::X, y0 + border, x0, x1, vert)) by {
        assert forall|c: int| x0 <= c < x1 implies (covered(vert, c) <==> !#[trigger] blank_along(
            v,
            Axis::X,
            y0 + border,
            c,
        )) by {
            assert(v.contains(c, y0 + border));
            assert(v.is_blank(c, y0 + border) <==> !covered(vert, c));
        }
    }
    assert(is_segmentation(v, Axis::Y, x0 + border, y0, y1, horiz)) by {
        assert forall|c: int| y0 <= c < y1 implies (covered(horiz, c) <==> !#[trigger] blank_along(
            v,
            Axis::Y,
            x0 + border,
            c,
        )) by {
            assert(v.contains(x0 + border, c));
            assert(v.is_blank(x0 + border, c) <==> !covered(horiz, c));
        }
    }
    lemma_grid_line_ranges(v, Axis::X, y0 + border, x0, x1);
    lemma_grid_line_ranges(v, Axis::Y, x0 + border, y0, y1);
    lemma_segmentation_unique(
        v,
        Axis::X,
        y0 + border,
        x0,
        x1,
        grid_line_ranges(v, Axis::X, y0 + border, x0, x1),
        vert,
    );
    lemma_segmentation_unique(
        v,
        Axis::Y,
        x0 + border,
        y0,
        y1,
        grid_line_ranges(v, Axis::Y, x0 + border, y0, y1),
        horiz,
    );
}

/// On a clean sheet in view the finder succeeds, and its cells are what the
/// sheet shows. There is one cell for each gap across and each gap down,
/// so at least one. Each lies inside the frame and holds blank pixels
/// only, so no pixel of the frame or of a line. In each row the widths of
/// the cells and the thicknesses of the lines between them add up to the
/// width inside the frame; in each column the heights and thicknesses add
/// up to the height inside the frame. That no two cells share a pixel
/// holds of every grid.
pub proof fn lemma_sheet_cells(
    v: ImageView,
    bounds: Rect,
    border: int,
    horiz: Seq<Range<u32>>,
    vert: Seq<Range<u32>>,
)
    requires
        is_sheet(v, bounds, border, horiz, vert),
        is_in_view(v, bounds, horiz, vert),
    ensures
        grid_cells(v) == Ok::<Seq<Rect>, FpcError>(cell_rects(horiz, vert)),
        cell_rects(horiz, vert).len() == (horiz.len() - 1) * (vert.len() - 1),
        cell_rects(horiz, vert).len() >= 1,
        forall|i: int|
            0 <= i < cell_rects(horiz, vert).len() ==> {
                let cell = #[trigger] cell_rects(horiz, vert)[i];
                &&& bounds.x + border <= cell.x
                &&& cell.right() <= bounds.right() - border
                &&& bounds.y + border <= cell.y
                &&& cell.bottom() <= bounds.bottom() - border
            },
        forall|i: int, x: int, y: int|
            0 <= i < cell_rects(horiz, vert).len() && (#[trigger] cell_rects(
                horiz,
                vert,
            )[i]).contains(x, y) ==> #[trigger] v.is_blank(x, y),
        forall|r: int|
            0 <= r < horiz.len() - 1 ==> #[trigger] row_width(
                cell_rects(horiz, vert),
                vert.len() - 1,
                r,
                vert.len() - 1,
            ) + strokes_total(vert, vert.len() - 2) == bounds.width - 2 * border,
        forall|c: int|
            0 <= c < vert.len() - 1 ==> #[trigger] column_height(
                cell_rects(horiz, vert),
                vert.len() - 1,
                c,
                horiz.len() - 1,
            ) + strokes_total(horiz, horiz.len() - 2) == bounds.height - 2 * border,
{
    let cells = cell_rects(horiz, vert);
    let rows = horiz.len() - 1;
    let cols = vert.len() - 1;
    lemma_sheet_is_found(v, bounds, border, horiz, vert);
    lemma_framed(vert, bounds.x as int, bounds.right(), border);
    lemma_framed(horiz, bounds.y as int, bounds.bottom(), border);
    assert(rows * cols >= 1) by (nonlinear_arith)
        requires
            rows >= 1,
            cols >= 1,
    ;
    assert forall|i: int| 0 <= i < cells.len() implies {
        let cell = #[trigger] cells[i];
        &&& bounds.x + border <= cell.x
        &&& cell.right() <= bounds.right() - border
        &&& bounds.y + border <= cell.y
        &&& cell.bottom() <= bounds.bottom() - border
    } by {
        lemma_cells_between_strokes(horiz, vert, i);
        let c = i % cols;
        let r = i / cols;
        if c > 0 {
            assert(vert[0].end < vert[c].start);
            assert(vert[c].start < vert[c].end);
        }
        if c + 1 < cols {
            assert(vert[c + 1].end < vert[cols].start);
            assert(vert[c + 1].start < vert[c + 1].end);
        }
        if r > 0 {
            assert(horiz[0].end < horiz[r].start);
            assert(horiz[r].start < horiz[r].end);
        }
        if r + 1 < rows {
            assert(horiz[r + 1].end < horiz[rows].start);
            assert(horiz[r + 1].start < horiz[r + 1].end);
        }
    }
    assert forall|i: int, x: int, y: int|
        0 <= i < cells.len() && (#[trigger] cells[i]).contains(x, y) implies #[trigger] v.is_blank(
        x,
        y,
    ) by {
        lemma_cells_between_strokes(horiz, vert, i);
        assert(in_gap(vert, i % cols, x) && in_gap(horiz, i / cols, y));
        lemma_gap_is_blank(vert, x, i % cols);
        lemma_gap_is_blank(horiz, y, i / cols);
        assert(bounds.x + border <= cells[i].x && cells[i].right() <= bounds.right() - border);
        assert(bounds.y + border <= cells[i].y && cells[i].bottom() <= bounds.bottom() - border);
        assert(v.contains(x, y));
    }
    assert forall|r: int| 0 <= r < rows implies #[trigger] row_width(cells, cols, r, cols)
        + strokes_total(vert, cols - 1) == bounds.width - 2 * border by {
        lemma_cells_fill_the_gaps(horiz, vert, r, 0, cols, 0);
        lemma_gaps_and_strokes(vert, cols);
    }
    assert forall|c: int| 0 <= c < cols implies #[trigger] column_height(cells, cols, c, rows)
        + strokes_total(horiz, rows - 1) == bounds.height - 2 * border by {
        lemma_cells_fill_the_gaps(horiz, vert, 0, c, 0, rows);
        lemma_gaps_and_strokes(horiz, rows);
    }
}

} // verus!
