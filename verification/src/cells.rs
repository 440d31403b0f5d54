//! From the strokes of the grid lines to the cells: one rectangle for each
//! gap between two neighbouring horizontal strokes and two neighbouring
//! vertical strokes.

use crate::geometry::Rect;
use crate::raster::lemma_pixel_index;
use crate::scan::{covered, is_grid_lines};
use itertools::Itertools;
use std::ops::Range;
use vstd::prelude::*;

verus! {

/// The cell between two neighbouring horizontal strokes and two neighbouring
/// vertical strokes: the blank gap that they enclose.
pub open spec fn cell_rect(
    top: Range<u32>,
    bottom: Range<u32>,
    left: Range<u32>,
    right: Range<u32>,
) -> Rect {
    Rect {
        x: left.end,
        y: top.end,
        width: (right.start - left.end) as u32,
        height: (bottom.start - top.end) as u32,
    }
}

/// How many gaps lie between `lines` strokes.
pub open spec fn gaps(lines: nat) -> nat {
    if lines == 0 {
        0
    } else {
        (lines - 1) as nat
    }
}

/// Whether `cells` holds one cell for each pair of neighbouring horizontal
/// strokes and each pair of neighbouring vertical strokes, row by row from
/// the top and in each row from the left.
pub open spec fn is_row_major(
    horiz: Seq<Range<u32>>,
    vert: Seq<Range<u32>>,
    cells: Seq<Rect>,
) -> bool {
    let rows = gaps(horiz.len()) as int;
    let cols = gaps(vert.len()) as int;
    &&& cells.len() == rows * cols
    &&& forall|r: int, c: int|
        0 <= r < rows && 0 <= c < cols ==> cells[r * cols + c] == #[trigger] cell_rect(
            horiz[r],
            horiz[r + 1],
            vert[c],
            vert[c + 1],
        )
}

/// The cells of a grid, row by row from the top and in each row from the
/// left. Fewer than two strokes either way leave no cell.
pub open spec fn cell_rects(horiz: Seq<Range<u32>>, vert: Seq<Range<u32>>) -> Seq<Rect> {
    let rows = gaps(horiz.len()) as int;
    let cols = gaps(vert.len()) as int;
    Seq::new(
        (rows * cols) as nat,
        |i: int|
            cell_rect(horiz[i / cols], horiz[i / cols + 1], vert[i % cols], vert[i % cols + 1]),
    )
}

/// Position `r * cols + c` of a table with `cols` columns is in row `r` and
/// column `c`.
proof fn lemma_row_major_index(r: int, c: int, rows: int, cols: int)
    requires
        0 <= r < rows,
        0 <= c < cols,
    ensures
        0 <= r * cols + c < rows * cols,
        (r * cols + c) / cols == r,
        (r * cols + c) % cols == c,
{
    lemma_pixel_index(c, r, cols, rows);
    assert(rows * cols == cols * rows) by (nonlinear_arith);
    vstd::arithmetic::div_mod::lemma_fundamental_div_mod_converse(r * cols + c, cols, r, c);
}

/// [`cell_rects`] lists the cells row by row.
pub proof fn lemma_cell_rects_row_major(horiz: Seq<Range<u32>>, vert: Seq<Range<u32>>)
    ensures
        is_row_major(horiz, vert, cell_rects(horiz, vert)),
{
    let rows = gaps(horiz.len()) as int;
    let cols = gaps(vert.len()) as int;
    let cells = cell_rects(horiz, vert);
    assert(0 <= rows * cols) by (nonlinear_arith)
        requires
            0 <= rows,
            0 <= cols,
    ;
    assert forall|r: int, c: int| 0 <= r < rows && 0 <= c < cols implies cells[r * cols + c]
        == #[trigger] cell_rect(horiz[r], horiz[r + 1], vert[c], vert[c + 1]) by {
        lemma_row_major_index(r, c, rows, cols);
    }
}

/// The same strokes always give the same cells in the same order: two lists
/// that both hold the cells of one grid row by row are equal.
pub proof fn lemma_cell_list_unique(
    horiz: Seq<Range<u32>>,
    vert: Seq<Range<u32>>,
    first: Seq<Rect>,
    second: Seq<Rect>,
)
    requires
        is_row_major(horiz, vert, first),
        is_row_major(horiz, vert, second),
    ensures
        first == second,
{
    let rows = gaps(horiz.len()) as int;
    let cols = gaps(vert.len()) as int;
    assert forall|i: int| 0 <= i < first.len() implies first[i] == second[i] by {
        assert(cols > 0) by (nonlinear_arith)
            requires
                0 <= i < rows * cols,
                0 <= cols,
        ;
        let r = i / cols;
        let c = i % cols;
        vstd::arithmetic::div_mod::lemma_fundamental_div_mod(i, cols);
        assert(cols * r == r * cols) by (nonlinear_arith);
        assert(0 <= r < rows) by (nonlinear_arith)
            requires
                0 <= i < rows * cols,
                i == r * cols + c,
                0 <= c < cols,
        ;
        let cell = cell_rect(horiz[r], horiz[r + 1], vert[c], vert[c + 1]);
        assert(first[r * cols + c] == cell);
        assert(second[r * cols + c] == cell);
    }
    assert(first =~= second);
}

/// Every cell of a grid is at least one pixel wide and high, starts where
/// a stroke ends and ends where the next stroke starts.
pub proof fn lemma_cells_between_strokes(horiz: Seq<Range<u32>>, vert: Seq<Range<u32>>, i: int)
    requires
        is_grid_lines(horiz),
        is_grid_lines(vert),
        0 <= i < cell_rects(horiz, vert).len(),
    ensures
        ({
            let cols = gaps(vert.len()) as int;
            let cell = cell_rects(horiz, vert)[i];
            &&& cols > 0
            &&& 0 <= i / cols < gaps(horiz.len())
            &&& 0 <= i % cols < cols
            &&& cell.x == vert[i % cols].end
            &&& cell.right() == vert[i % cols + 1].start
            &&& cell.y == horiz[i / cols].end
            &&& cell.bottom() == horiz[i / cols + 1].start
            &&& cell.width >= 1
            &&& cell.height >= 1
        }),
{
    let rows = gaps(horiz.len()) as int;
    let cols = gaps(vert.len()) as int;
    assert(cols > 0) by (nonlinear_arith)
        requires
            0 <= i < rows * cols,
            0 <= cols,
    ;
    let r = i / cols;
    let c = i % cols;
    vstd::arithmetic::div_mod::lemma_fundamental_div_mod(i, cols);
    assert(cols * r == r * cols) by (nonlinear_arith);
    assert(0 <= r < rows) by (nonlinear_arith)
        requires
            0 <= i < rows * cols,
            i == r * cols + c,
            0 <= c < cols,
    ;
    assert(vert[c].end < vert[c + 1].start);
    assert(horiz[r].end < horiz[r + 1].start);
}

/// Whether coordinate `c` lies in the gap after stroke `k`: from the end of
/// that stroke up to the start of the next.
pub open spec fn in_gap(runs: Seq<Range<u32>>, k: int, c: int) -> bool {
    0 <= k < runs.len() - 1 && runs[k].end <= c < runs[k + 1].start
}

/// Whether coordinate `c` lies between the first and the last stroke.
pub open spec fn between_borders(runs: Seq<Range<u32>>, c: int) -> bool {
    runs.len() >= 2 && runs[0].end <= c < runs.last().start
}

/// A coordinate at or after the end of stroke `k` and before the last
/// stroke, on no stroke, lies in the gap after `k` or after a later stroke.
proof fn lemma_gap_from(runs: Seq<Range<u32>>, c: int, k: int)
    requires
        is_grid_lines(runs),
        0 <= k < runs.len() - 1,
        runs[k].end <= c < runs.last().start,
        !covered(runs, c),
    ensures
        exists|j: int| #[trigger] in_gap(runs, j, c),
    decreases runs.len() - k,
{
    if c < runs[k + 1].start {
        assert(in_gap(runs, k, c));
    } else {
        assert(!(runs[k + 1].start <= c < runs[k + 1].end));
        if k + 1 == runs.len() - 1 {
            assert(runs[k + 1] == runs.last());
        } else {
            lemma_gap_from(runs, c, k + 1);
        }
    }
}

/// A coordinate in a gap lies on no stroke, and in no other gap.
pub proof fn lemma_gap_is_blank(runs: Seq<Range<u32>>, c: int, k: int)
    requires
        is_grid_lines(runs),
        in_gap(runs, k, c),
    ensures
        !covered(runs, c),
        forall|j: int| #[trigger] in_gap(runs, j, c) ==> j == k,
{
    assert forall|j: int| 0 <= j < runs.len() implies !((#[trigger] runs[j]).start <= c
        < runs[j].end) by {
        if j < k {
            assert(runs[j].end < runs[k].start);
            assert(runs[k].start < runs[k].end);
        } else if j > k + 1 {
            assert(runs[k + 1].end < runs[j].start);
            assert(runs[k + 1].start < runs[k + 1].end);
        }
    }
    assert forall|j: int| #[trigger] in_gap(runs, j, c) implies j == k by {
        if j < k {
            if j + 1 < k {
                assert(runs[j + 1].end < runs[k].start);
            }
            assert(runs[j + 1].start < runs[j + 1].end);
            assert(runs[k].start < runs[k].end);
        } else if j > k {
            if k + 1 < j {
                assert(runs[k + 1].end < runs[j].start);
            }
            assert(runs[k + 1].start < runs[k + 1].end);
            assert(runs[j].start < runs[j].end);
        }
    }
}

/// The cells and the strokes together make up the inside of the border:
/// a pixel between the first and the last vertical stroke and between the
/// first and the last horizontal stroke lies either on a stroke or in a
/// cell, never both, and never in two cells.
pub proof fn lemma_cells_tile_the_inside(
    horiz: Seq<Range<u32>>,
    vert: Seq<Range<u32>>,
    x: int,
    y: int,
)
    requires
        is_grid_lines(horiz),
        is_grid_lines(vert),
        between_borders(vert, x),
        between_borders(horiz, y),
    ensures
        (covered(vert, x) || covered(horiz, y)) != (exists|i: int|
            0 <= i < cell_rects(horiz, vert).len() && (#[trigger] cell_rects(
                horiz,
                vert,
            )[i]).contains(x, y)),
        forall|i: int, j: int|
            0 <= i < cell_rects(horiz, vert).len() && 0 <= j < cell_rects(horiz, vert).len() && (
            #[trigger] cell_rects(horiz, vert)[i]).contains(x, y) && (#[trigger] cell_rects(
                horiz,
                vert,
            )[j]).contains(x, y) ==> i == j,
{
    let cells = cell_rects(horiz, vert);
    let rows = gaps(horiz.len()) as int;
    let cols = gaps(vert.len()) as int;
    lemma_cell_rects_row_major(horiz, vert);
    // A cell that holds the pixel names the gaps in which its coordinates lie.
    assert forall|i: int|
        0 <= i < cells.len() && (#[trigger] cells[i]).contains(x, y) implies in_gap(
        vert,
        i % cols,
        x,
    ) && in_gap(horiz, i / cols, y) by {
        lemma_cells_between_strokes(horiz, vert, i);
    }
    assert forall|i: int, j: int|
        0 <= i < cells.len() && 0 <= j < cells.len() && (#[trigger] cells[i]).contains(x, y) && (
        #[trigger] cells[j]).contains(x, y) implies i == j by {
        lemma_gap_is_blank(vert, x, i % cols);
        lemma_gap_is_blank(horiz, y, i / cols);
        assert(in_gap(vert, j % cols, x) && in_gap(horiz, j / cols, y));
        vstd::arithmetic::div_mod::lemma_fundamental_div_mod(i, cols);
        vstd::arithmetic::div_mod::lemma_fundamental_div_mod(j, cols);
    }
    if covered(vert, x) || covered(horiz, y) {
        if exists|i: int| 0 <= i < cells.len() && (#[trigger] cells[i]).contains(x, y) {
            let i = choose|i: int| 0 <= i < cells.len() && (#[trigger] cells[i]).contains(x, y);
            lemma_gap_is_blank(vert, x, i % cols);
            lemma_gap_is_blank(horiz, y, i / cols);
        }
    } else {
        lemma_gap_from(vert, x, 0);
        lemma_gap_from(horiz, y, 0);
        let c = choose|c: int| #[trigger] in_gap(vert, c, x);
        let r = choose|r: int| #[trigger] in_gap(horiz, r, y);
        lemma_row_major_index(r, c, rows, cols);
        let i = r * cols + c;
        assert(cells[i] == cell_rect(horiz[r], horiz[r + 1], vert[c], vert[c + 1]));
        assert(vert[c].end < vert[c + 1].start);
        assert(horiz[r].end < horiz[r + 1].start);
        assert(cells[i].contains(x, y));
    }
}

/// No pixel lies in two cells of one grid.
pub proof fn lemma_cells_disjoint(
    horiz: Seq<Range<u32>>,
    vert: Seq<Range<u32>>,
    i: int,
    j: int,
    x: int,
    y: int,
)
    requires
        is_grid_lines(horiz),
        is_grid_lines(vert),
        0 <= i < cell_rects(horiz, vert).len(),
        0 <= j < cell_rects(horiz, vert).len(),
        cell_rects(horiz, vert)[i].contains(x, y),
        cell_rects(horiz, vert)[j].contains(x, y),
    ensures
        i == j,
{
    let cols = gaps(vert.len()) as int;
    lemma_cells_between_strokes(horiz, vert, i);
    lemma_cells_between_strokes(horiz, vert, j);
    assert(in_gap(vert, i % cols, x) && in_gap(horiz, i / cols, y));
    assert(in_gap(vert, j % cols, x) && in_gap(horiz, j / cols, y));
    lemma_gap_is_blank(vert, x, i % cols);
    lemma_gap_is_blank(horiz, y, i / cols);
    vstd::arithmetic::div_mod::lemma_fundamental_div_mod(i, cols);
    vstd::arithmetic::div_mod::lemma_fundamental_div_mod(j, cols);
}

/// The widths of the first `n` gaps between the strokes, added up.
pub open spec fn gaps_total(runs: Seq<Range<u32>>, n: int) -> int
    decreases n,
{
    if n <= 0 {
        0
    } else {
        gaps_total(runs, n - 1) + (runs[n].start - runs[n - 1].end)
    }
}

/// The thicknesses of the strokes from the second up to stroke `n`, added
/// up.
pub open spec fn strokes_total(runs: Seq<Range<u32>>, n: int) -> int
    decreases n,
{
    if n <= 0 {
        0
    } else {
        strokes_total(runs, n - 1) + (runs[n].end - runs[n].start)
    }
}

/// The widths of the first `n` cells of row `r`, added up.
pub open spec fn row_width(cells: Seq<Rect>, cols: int, r: int, n: int) -> int
    decreases n,
{
    if n <= 0 {
        0
    } else {
        row_width(cells, cols, r, n - 1) + cells[r * cols + (n - 1)].width
    }
}

/// The heights of the first `n` cells of column `c`, added up.
pub open spec fn column_height(cells: Seq<Rect>, cols: int, c: int, n: int) -> int
    decreases n,
{
    if n <= 0 {
        0
    } else {
        column_height(cells, cols, c, n - 1) + cells[(n - 1) * cols + c].height
    }
}

/// The gaps up to stroke `n` and the strokes between them fill the stretch
/// from the end of the first stroke to the start of stroke `n`.
pub proof fn lemma_gaps_and_strokes(runs: Seq<Range<u32>>, n: int)
    requires
        1 <= n < runs.len(),
    ensures
        gaps_total(runs, n) + strokes_total(runs, n - 1) == runs[n].start - runs[0].end,
    decreases n,
{
    if n > 1 {
        lemma_gaps_and_strokes(runs, n - 1);
    } else {
        assert(gaps_total(runs, 0) == 0);
        assert(strokes_total(runs, 0) == 0);
    }
}

/// The cells of a row are as wide, together, as the gaps between the
/// vertical strokes; the cells of a column are as high, together, as the
/// gaps between the horizontal strokes.
pub proof fn lemma_cells_fill_the_gaps(
    horiz: Seq<Range<u32>>,
    vert: Seq<Range<u32>>,
    r: int,
    c: int,
    n: int,
    m: int,
)
    requires
        is_grid_lines(horiz),
        is_grid_lines(vert),
        0 <= r < gaps(horiz.len()),
        0 <= c < gaps(vert.len()),
        0 <= n <= gaps(vert.len()),
        0 <= m <= gaps(horiz.len()),
    ensures
        row_width(cell_rects(horiz, vert), gaps(vert.len()) as int, r, n) == gaps_total(vert, n),
        column_height(cell_rects(horiz, vert), gaps(vert.len()) as int, c, m) == gaps_total(
            horiz,
            m,
        ),
    decreases n + m,
{
    let rows = gaps(horiz.len()) as int;
    let cols = gaps(vert.len()) as int;
    let cells = cell_rects(horiz, vert);
    lemma_cell_rects_row_major(horiz, vert);
    if n > 0 {
        lemma_cells_fill_the_gaps(horiz, vert, r, c, n - 1, 0);
        lemma_row_major_index(r, n - 1, rows, cols);
        assert(cells[r * cols + (n - 1)] == cell_rect(
            horiz[r],
            horiz[r + 1],
            vert[n - 1],
            vert[n - 1 + 1],
        ));
        assert(vert[n - 1].end < vert[n].start);
    }
    if m > 0 {
        lemma_cells_fill_the_gaps(horiz, vert, r, c, 0, m - 1);
        lemma_row_major_index(m - 1, c, rows, cols);
        assert(cells[(m - 1) * cols + c] == cell_rect(
            horiz[m - 1],
            horiz[m - 1 + 1],
            vert[c],
            vert[c + 1],
        ));
        assert(horiz[m - 1].end < horiz[m].start);
    }
}

/// Every pair of neighbours in `lines`, in order. Calls
/// `itertools::Itertools::tuple_windows` on the cloned items, which yields
/// each window of two successive items once, first to last, and nothing
/// where there are fewer than two items.
#[verifier::external_body]
fn adjacent_pairs(lines: &Vec<Range<u32>>) -> (pairs: Vec<(Range<u32>, Range<u32>)>)
    ensures
        pairs@.len() == gaps(lines@.len()),
        forall|i: int| 0 <= i < pairs@.len() ==> #[trigger] pairs@[i] == (lines@[i], lines@[i + 1]),
{
    lines.iter().cloned().tuple_windows().collect()
}

/// One rectangle for each cell of the grid that the strokes draw: the gap
/// between each two neighbouring horizontal strokes and each two
/// neighbouring vertical strokes, row by row from the top and in each row
/// from the left.
pub fn cell_rectangles(horiz: &Vec<Range<u32>>, vert: &Vec<Range<u32>>) -> (cells: Vec<Rect>)
    requires
        is_grid_lines(horiz@),
        is_grid_lines(vert@),
    ensures
        cells@ == cell_rects(horiz@, vert@),
        is_row_major(horiz@, vert@, cells@),
{
    let row_pairs = adjacent_pairs(horiz);
    let column_pairs = adjacent_pairs(vert);
    let ghost rows = gaps(horiz@.len()) as int;
    let ghost cols = gaps(vert@.len()) as int;
    let ghost all = cell_rects(horiz@, vert@);
    let mut cells: Vec<Rect> = Vec::new();
    let mut r: usize = 0;
    while r < row_pairs.len()
        invariant
            is_grid_lines(horiz@),
            is_grid_lines(vert@),
            rows == gaps(horiz@.len()),
            cols == gaps(vert@.len()),
            all == cell_rects(horiz@, vert@),
            row_pairs@.len() == rows,
            column_pairs@.len() == cols,
            forall|i: int|
                0 <= i < rows ==> #[trigger] row_pairs@[i] == (horiz@[i], horiz@[i + 1]),
            forall|i: int|
                0 <= i < cols ==> #[trigger] column_pairs@[i] == (vert@[i], vert@[i + 1]),
            r <= rows,
            cells@.len() == r * cols,
            forall|i: int| 0 <= i < cells@.len() ==> cells@[i] == all[i],
        decreases row_pairs.len() - r,
    {
        let mut c: usize = 0;
        while c < column_pairs.len()
            invariant
                is_grid_lines(horiz@),
                is_grid_lines(vert@),
                rows == gaps(horiz@.len()),
                cols == gaps(vert@.len()),
                all == cell_rects(horiz@, vert@),
                row_pairs@.len() == rows,
                column_pairs@.len() == cols,
                forall|i: int|
                    0 <= i < rows ==> #[trigger] row_pairs@[i] == (horiz@[i], horiz@[i + 1]),
                forall|i: int|
                    0 <= i < cols ==> #[trigger] column_pairs@[i] == (vert@[i], vert@[i + 1]),
                r < rows,
                c <= cols,
                cells@.len() == r * cols + c,
                forall|i: int| 0 <= i < cells@.len() ==> cells@[i] == all[i],
            decreases column_pairs.len() - c,
        {
            proof {
                lemma_row_major_index(r as int, c as int, rows, cols);
                assert(row_pairs@[r as int] == (horiz@[r as int], horiz@[r + 1]));
                assert(column_pairs@[c as int] == (vert@[c as int], vert@[c + 1]));
                assert(vert@[c as int].end < vert@[c + 1].start);
                assert(horiz@[r as int].end < horiz@[r + 1].start);
            }
            let x: u32 = column_pairs[c].0.end;
            let y: u32 = row_pairs[r].0.end;
            let cell = Rect {
                x,
                y,
                width: column_pairs[c].1.start - x,
                height: row_pairs[r].1.start - y,
            };
            assert(cell == all[r * cols + c]);
            cells.push(cell);
            c += 1;
        }
        proof {
            assert((r + 1) * cols == r * cols + cols) by (nonlinear_arith);
        }
        r += 1;
    }
    proof {
        assert(cells@ =~= all);
        lemma_cell_rects_row_major(horiz@, vert@);
    }
    cells
}

} // verus!
