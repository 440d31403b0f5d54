//! Scanning one line of a picture, a row or a column, for blank and opaque
//! pixels, and grouping the opaque ones into the strokes of grid lines.

use crate::error::FpcError;
use crate::raster::{Image, ImageView};
use std::ops::Range;
use vstd::prelude::*;

verus! {

/// The direction in which a scan moves through the picture.
#[derive(Debug, Clone, Copy, PartialEq, Eq, Structural)]
pub enum Axis {
    /// Along a row: the scan's coordinate is `x`, the row's `y` is fixed.
    X,
    /// Along a column: the scan's coordinate is `y`, the column's `x` is fixed.
    Y,
}

/// How many coordinates a line along `axis` has.
pub open spec fn line_length(v: ImageView, axis: Axis) -> nat {
    match axis {
        Axis::X => v.width,
        Axis::Y => v.height,
    }
}

/// How many lines along `axis` the picture has.
pub open spec fn line_count(v: ImageView, axis: Axis) -> nat {
    match axis {
        Axis::X => v.height,
        Axis::Y => v.width,
    }
}

/// Whether the pixel at coordinate `c` of line `at` is blank.
pub open spec fn blank_along(v: ImageView, axis: Axis, at: int, c: int) -> bool {
    match axis {
        Axis::X => v.is_blank(c, at),
        Axis::Y => v.is_blank(at, c),
    }
}

/// Line `at` exists and the coordinates from `start` up to `end` lie on it.
pub open spec fn line_holds(v: ImageView, axis: Axis, at: int, start: int, end: int) -> bool {
    &&& 0 <= at < line_count(v, axis)
    &&& 0 <= start <= end <= line_length(v, axis)
}

/// Whether some pixel from `start` up to `end` on line `at` is blank (if
/// `blank`) or opaque (if not).
pub open spec fn has_match(
    v: ImageView,
    axis: Axis,
    at: int,
    start: int,
    end: int,
    blank: bool,
) -> bool {
    exists|c: int| start <= c < end && #[trigger] blank_along(v, axis, at, c) == blank
}

/// Whether `c` is the coordinate that a scan stops at: the first one from
/// `start` up to `end` whose pixel is blank (if `blank`) or opaque (if not),
/// or the last such when the scan runs `backward`.
pub open spec fn is_scan_hit(
    v: ImageView,
    axis: Axis,
    at: int,
    start: int,
    end: int,
    backward: bool,
    blank: bool,
    c: int,
) -> bool {
    &&& start <= c < end
    &&& blank_along(v, axis, at, c) == blank
    &&& forall|k: int|
        start <= k < end && (if backward {
            c < k
        } else {
            k < c
        }) ==> #[trigger] blank_along(v, axis, at, k) != blank
}

/// The coordinate that a scan stops at, where it stops at all.
pub open spec fn scan_hit(
    v: ImageView,
    axis: Axis,
    at: int,
    start: int,
    end: int,
    backward: bool,
    blank: bool,
) -> int {
    choose|c: int| is_scan_hit(v, axis, at, start, end, backward, blank, c)
}

/// A scan stops at one coordinate only.
pub proof fn lemma_scan_hit_unique(
    v: ImageView,
    axis: Axis,
    at: int,
    start: int,
    end: int,
    backward: bool,
    blank: bool,
    c: int,
)
    requires
        is_scan_hit(v, axis, at, start, end, backward, blank, c),
    ensures
        scan_hit(v, axis, at, start, end, backward, blank) == c,
        has_match(v, axis, at, start, end, blank),
{
    let d = scan_hit(v, axis, at, start, end, backward, blank);
    assert(is_scan_hit(v, axis, at, start, end, backward, blank, d));
    if d != c {
        assert(blank_along(v, axis, at, c) == blank);
        assert(blank_along(v, axis, at, d) == blank);
    }
}

/// Where a line holds a pixel of the kind that a scan looks for, the scan
/// stops somewhere.
pub proof fn lemma_scan_exists(
    v: ImageView,
    axis: Axis,
    at: int,
    start: int,
    end: int,
    backward: bool,
    blank: bool,
)
    requires
        has_match(v, axis, at, start, end, blank),
    ensures
        is_scan_hit(
            v,
            axis,
            at,
            start,
            end,
            backward,
            blank,
            scan_hit(v, axis, at, start, end, backward, blank),
        ),
{
    let k = choose|k: int|
        start <= k < end && #[trigger] blank_along(v, axis, at, k) == blank;
    if backward {
        lemma_last_match(v, axis, at, start, end, blank, k);
    } else {
        lemma_first_match(v, axis, at, start, end, blank, k);
    }
}

proof fn lemma_first_match(
    v: ImageView,
    axis: Axis,
    at: int,
    start: int,
    end: int,
    blank: bool,
    k: int,
)
    requires
        start <= k < end,
        blank_along(v, axis, at, k) == blank,
    ensures
        exists|c: int| is_scan_hit(v, axis, at, start, end, false, blank, c),
    decreases k - start,
{
    if exists|j: int| start <= j < k && #[trigger] blank_along(v, axis, at, j) == blank {
        let j = choose|j: int|
            start <= j < k && #[trigger] blank_along(v, axis, at, j) == blank;
        lemma_first_match(v, axis, at, start, end, blank, j);
    } else {
        assert(is_scan_hit(v, axis, at, start, end, false, blank, k));
    }
}

proof fn lemma_last_match(
    v: ImageView,
    axis: Axis,
    at: int,
    start: int,
    end: int,
    blank: bool,
    k: int,
)
    requires
        start <= k < end,
        blank_along(v, axis, at, k) == blank,
    ensures
        exists|c: int| is_scan_hit(v, axis, at, start, end, true, blank, c),
    decreases end - k,
{
    if exists|j: int| k < j < end && #[trigger] blank_along(v, axis, at, j) == blank {
        let j = choose|j: int|
            k < j < end && #[trigger] blank_along(v, axis, at, j) == blank;
        lemma_last_match(v, axis, at, start, end, blank, j);
    } else {
        assert(is_scan_hit(v, axis, at, start, end, true, blank, k));
    }
}

/// The opaque coordinates from `start` up to `end` on line `at`, in
/// increasing order.
pub open spec fn opaque_coords(v: ImageView, axis: Axis, at: int, start: int, end: int) -> Seq<
    u32,
>
    decreases end - start,
{
    if end <= start {
        Seq::empty()
    } else {
        let before = opaque_coords(v, axis, at, start, end - 1);
        if blank_along(v, axis, at, end - 1) {
            before
        } else {
            before.push((end - 1) as u32)
        }
    }
}

/// Whether every coordinate is greater than the one before it.
pub open spec fn strictly_increasing(coords: Seq<u32>) -> bool {
    forall|i: int, j: int| 0 <= i < j < coords.len() ==> coords[i] < coords[j]
}

/// [`opaque_coords`] lists exactly the opaque coordinates of its stretch of
/// the line, each once, in increasing order.
pub proof fn lemma_opaque_coords(v: ImageView, axis: Axis, at: int, start: int, end: int)
    requires
        0 <= start <= end <= u32::MAX,
    ensures
        strictly_increasing(opaque_coords(v, axis, at, start, end)),
        forall|i: int|
            0 <= i < opaque_coords(v, axis, at, start, end).len() ==> start <= (
            #[trigger] opaque_coords(v, axis, at, start, end)[i]) < end,
        forall|c: u32|
            opaque_coords(v, axis, at, start, end).contains(c) <==> start <= c < end
                && !blank_along(v, axis, at, c as int),
    decreases end - start,
{
    let all = opaque_coords(v, axis, at, start, end);
    if end > start {
        let before = opaque_coords(v, axis, at, start, end - 1);
        lemma_opaque_coords(v, axis, at, start, end - 1);
        let last = (end - 1) as u32;
        assert forall|c: u32| all.contains(c) <==> start <= c < end && !blank_along(
            v,
            axis,
            at,
            c as int,
        ) by {
            if blank_along(v, axis, at, end - 1) {
                assert(all == before);
            } else {
                assert(all == before.push(last));
                if all.contains(c) {
                    let i = choose|i: int| 0 <= i < all.len() && all[i] == c;
                    if i < before.len() {
                        assert(before[i] == c);
                        assert(before.contains(c));
                    }
                }
                if start <= c < end && !blank_along(v, axis, at, c as int) {
                    if c == last {
                        assert(all[before.len() as int] == c);
                    } else {
                        assert(before.contains(c));
                        let i = choose|i: int| 0 <= i < before.len() && before[i] == c;
                        assert(all[i] == c);
                    }
                }
            }
        }
    } else {
        assert forall|c: u32| all.contains(c) <==> start <= c < end && !blank_along(
            v,
            axis,
            at,
            c as int,
        ) by {
            if all.contains(c) {
                let i = choose|i: int| 0 <= i < all.len() && all[i] == c;
            }
        }
    }
}

/// The strokes that the coordinates fall into when they are taken one by
/// one: a coordinate that equals the end of the last stroke lengthens that
/// stroke by one, any other coordinate starts a new stroke.
pub open spec fn group_runs(coords: Seq<u32>) -> Seq<Range<u32>>
    decreases coords.len(),
{
    if coords.len() == 0 {
        Seq::empty()
    } else {
        extend_runs(group_runs(coords.drop_last()), coords.last())
    }
}

/// The strokes after one more coordinate has been taken.
pub open spec fn extend_runs(runs: Seq<Range<u32>>, c: u32) -> Seq<Range<u32>> {
    if runs.len() > 0 && runs.last().end == c {
        runs.drop_last().push(Range { start: runs.last().start, end: (c + 1) as u32 })
    } else {
        runs.push(Range { start: c, end: (c + 1) as u32 })
    }
}

/// Whether the ranges are the strokes of grid lines: none is empty, they
/// come in increasing order, and at least one coordinate lies between one
/// and the next.
pub open spec fn is_grid_lines(runs: Seq<Range<u32>>) -> bool {
    &&& forall|k: int| 0 <= k < runs.len() ==> (#[trigger] runs[k]).start < runs[k].end
    &&& forall|j: int, k: int| 0 <= j < k < runs.len() ==> (#[trigger] runs[j]).end < (
    #[trigger] runs[k]).start
}

/// Whether coordinate `c` lies in one of the ranges.
pub open spec fn covered(runs: Seq<Range<u32>>, c: int) -> bool {
    exists|k: int| 0 <= k < runs.len() && (#[trigger] runs[k]).start <= c < runs[k].end
}

/// The strokes of increasing coordinates are maximal runs: they are grid
/// lines in the sense of [`is_grid_lines`], so no two touch or overlap, and
/// together they cover exactly the coordinates that were given.
pub proof fn lemma_group_runs_maximal(coords: Seq<u32>)
    requires
        strictly_increasing(coords),
        forall|i: int| 0 <= i < coords.len() ==> (#[trigger] coords[i]) < u32::MAX,
    ensures
        is_grid_lines(group_runs(coords)),
        forall|c: u32| coords.contains(c) <==> covered(group_runs(coords), c as int),
        coords.len() > 0 ==> group_runs(coords).len() > 0 && group_runs(coords).last().end
            == coords.last() + 1,
        coords.len() == 0 ==> group_runs(coords).len() == 0,
    decreases coords.len(),
{
    let runs = group_runs(coords);
    if coords.len() == 0 {
        assert forall|c: u32| coords.contains(c) <==> covered(runs, c as int) by {
            if coords.contains(c) {
                let i = choose|i: int| 0 <= i < coords.len() && coords[i] == c;
            }
        }
    } else {
        let head = coords.drop_last();
        let c0 = coords.last();
        let prev = group_runs(head);
        assert forall|i: int, j: int| 0 <= i < j < head.len() implies head[i] < head[j] by {
            assert(head[i] == coords[i] && head[j] == coords[j]);
        }
        assert forall|i: int| 0 <= i < head.len() implies (#[trigger] head[i]) < u32::MAX by {
            assert(head[i] == coords[i]);
        }
        lemma_group_runs_maximal(head);
        assert(runs == extend_runs(prev, c0));
        // Every coordinate that the earlier strokes cover comes before `c0`.
        assert forall|k: int| 0 <= k < prev.len() implies (#[trigger] prev[k]).end <= c0 by {
            let last_c = (prev[k].end - 1) as u32;
            assert(prev[k].start <= last_c < prev[k].end);
            assert(covered(prev, last_c as int));
            assert(head.contains(last_c));
            let i = choose|i: int| 0 <= i < head.len() && head[i] == last_c;
            assert(coords[i] == last_c);
            assert(coords[i] < coords[coords.len() - 1]);
        }
        let joins = prev.len() > 0 && prev.last().end == c0;
        if joins {
            let n = prev.len() - 1;
            assert(runs.len() == prev.len());
            assert forall|k: int| 0 <= k < runs.len() implies (#[trigger] runs[k]).start
                < runs[k].end by {
                if k < n {
                    assert(runs[k] == prev[k]);
                } else {
                    assert(prev[n].start < prev[n].end);
                }
            }
            assert forall|j: int, k: int| 0 <= j < k < runs.len() implies (#[trigger] runs[j]).end
                < (#[trigger] runs[k]).start by {
                assert(runs[j] == prev[j]);
                assert(runs[k].start == prev[k].start);
            }
            assert forall|c: u32| coords.contains(c) <==> covered(runs, c as int) by {
                if coords.contains(c) {
                    let i = choose|i: int| 0 <= i < coords.len() && coords[i] == c;
                    if i < head.len() {
                        assert(head[i] == c);
                        assert(head.contains(c));
                        assert(covered(prev, c as int));
                        let k = choose|k: int|
                            0 <= k < prev.len() && (#[trigger] prev[k]).start <= c < prev[k].end;
                        assert(runs[k].start <= c < runs[k].end);
                    } else {
                        assert(runs[n].start <= c < runs[n].end);
                    }
                }
                if covered(runs, c as int) {
                    let k = choose|k: int|
                        0 <= k < runs.len() && (#[trigger] runs[k]).start <= c < runs[k].end;
                    if k < n || c < c0 {
                        assert(prev[k].start <= c < prev[k].end);
                        assert(covered(prev, c as int));
                        assert(head.contains(c));
                        let i = choose|i: int| 0 <= i < head.len() && head[i] == c;
                        assert(coords[i] == c);
                    } else {
                        assert(coords[coords.len() - 1] == c);
                    }
                }
            }
        } else {
            let n = prev.len() as int;
            assert(runs.len() == n + 1);
            assert forall|k: int| 0 <= k < runs.len() implies (#[trigger] runs[k]).start
                < runs[k].end by {
                if k < n {
                    assert(runs[k] == prev[k]);
                }
            }
            assert forall|j: int, k: int| 0 <= j < k < runs.len() implies (#[trigger] runs[j]).end
                < (#[trigger] runs[k]).start by {
                assert(runs[j] == prev[j]);
                if k < n {
                    assert(runs[k] == prev[k]);
                } else {
                    assert(prev[j].end <= c0);
                    if j == n - 1 {
                        assert(prev[j].end != c0);
                    } else {
                        assert(prev[j].end < prev[n - 1].start);
                    }
                }
            }
            assert forall|c: u32| coords.contains(c) <==> covered(runs, c as int) by {
                if coords.contains(c) {
                    let i = choose|i: int| 0 <= i < coords.len() && coords[i] == c;
                    if i < head.len() {
                        assert(head[i] == c);
                        assert(head.contains(c));
                        assert(covered(prev, c as int));
                        let k = choose|k: int|
                            0 <= k < prev.len() && (#[trigger] prev[k]).start <= c < prev[k].end;
                        assert(runs[k] == prev[k]);
                    } else {
                        assert(runs[n].start <= c < runs[n].end);
                    }
                }
                if covered(runs, c as int) {
                    let k = choose|k: int|
                        0 <= k < runs.len() && (#[trigger] runs[k]).start <= c < runs[k].end;
                    if k < n {
                        assert(runs[k] == prev[k]);
                        assert(covered(prev, c as int));
                        assert(head.contains(c));
                        let i = choose|i: int| 0 <= i < head.len() && head[i] == c;
                        assert(coords[i] == c);
                    } else {
                        assert(coords[coords.len() - 1] == c);
                    }
                }
            }
        }
    }
}

/// The strokes of the grid lines that cross line `at` between `start` and
/// `end`: its opaque coordinates, grouped.
pub open spec fn grid_line_ranges(v: ImageView, axis: Axis, at: int, start: int, end: int) -> Seq<
    Range<u32>,
> {
    group_runs(opaque_coords(v, axis, at, start, end))
}

/// Whether `runs` are the maximal runs of opaque pixels from `start` up to
/// `end` on line `at`: grid lines in the sense of [`is_grid_lines`], inside
/// the stretch, that cover its opaque coordinates and no blank one.
pub open spec fn is_segmentation(
    v: ImageView,
    axis: Axis,
    at: int,
    start: int,
    end: int,
    runs: Seq<Range<u32>>,
) -> bool {
    &&& is_grid_lines(runs)
    &&& forall|k: int|
        0 <= k < runs.len() ==> start <= (#[trigger] runs[k]).start && runs[k].end <= end
    &&& forall|c: int|
        start <= c < end ==> (covered(runs, c) <==> !#[trigger] blank_along(v, axis, at, c))
}

/// [`grid_line_ranges`] gives the maximal runs of opaque pixels.
pub proof fn lemma_grid_line_ranges(v: ImageView, axis: Axis, at: int, start: int, end: int)
    requires
        0 <= start <= end <= u32::MAX,
    ensures
        is_segmentation(v, axis, at, start, end, grid_line_ranges(v, axis, at, start, end)),
{
    let coords = opaque_coords(v, axis, at, start, end);
    let runs = grid_line_ranges(v, axis, at, start, end);
    lemma_opaque_coords(v, axis, at, start, end);
    lemma_group_runs_maximal(coords);
    assert forall|k: int| 0 <= k < runs.len() implies start <= (#[trigger] runs[k]).start
        && runs[k].end <= end by {
        let first = runs[k].start;
        let last = (runs[k].end - 1) as u32;
        assert(covered(runs, first as int));
        assert(covered(runs, last as int));
        assert(coords.contains(first));
        assert(coords.contains(last));
    }
    assert forall|c: int| start <= c < end implies (covered(runs, c) <==> !#[trigger] blank_along(
        v,
        axis,
        at,
        c,
    )) by {
        let cc = c as u32;
        assert(coords.contains(cc) <==> covered(runs, cc as int));
    }
}

/// Each stroke of one segmentation of a stretch is a stroke of any other.
proof fn lemma_stroke_found(
    v: ImageView,
    axis: Axis,
    at: int,
    start: int,
    end: int,
    a: Seq<Range<u32>>,
    b: Seq<Range<u32>>,
    k: int,
)
    requires
        is_segmentation(v, axis, at, start, end, a),
        is_segmentation(v, axis, at, start, end, b),
        0 <= k < a.len(),
    ensures
        exists|j: int| 0 <= j < b.len() && #[trigger] b[j] == a[k],
{
    let s = a[k].start as int;
    let e = a[k].end as int;
    assert(covered(a, s));
    assert(!blank_along(v, axis, at, s));
    assert(covered(b, s));
    let j = choose|j: int| 0 <= j < b.len() && (#[trigger] b[j]).start <= s < b[j].end;
    if b[j].start < s {
        let t = s - 1;
        assert(covered(b, t));
        assert(!blank_along(v, axis, at, t));
        assert(covered(a, t));
        let k2 = choose|k2: int| 0 <= k2 < a.len() && (#[trigger] a[k2]).start <= t < a[k2].end;
        if k2 < k {
            assert(a[k2].end < a[k].start);
        } else if k2 > k {
            assert(a[k].end < a[k2].start);
        }
        assert(false);
    }
    if b[j].end < e {
        let u = b[j].end as int;
        assert(covered(a, u));
        assert(!blank_along(v, axis, at, u));
        assert(covered(b, u));
        let j2 = choose|j2: int| 0 <= j2 < b.len() && (#[trigger] b[j2]).start <= u < b[j2].end;
        if j2 < j {
            assert(b[j2].end < b[j].start);
        } else if j2 > j {
            assert(b[j].end < b[j2].start);
        }
        assert(false);
    }
    if b[j].end > e {
        assert(covered(b, e));
        assert(!blank_along(v, axis, at, e));
        assert(covered(a, e));
        let k2 = choose|k2: int| 0 <= k2 < a.len() && (#[trigger] a[k2]).start <= e < a[k2].end;
        if k2 < k {
            assert(a[k2].end < a[k].start);
        } else if k2 > k {
            assert(a[k].end < a[k2].start);
        }
        assert(false);
    }
    assert(b[j] == a[k]);
}

/// Stroke `k` of one segmentation is a stroke of any other, and not an
/// earlier one than its `k`-th.
proof fn lemma_stroke_index(
    v: ImageView,
    axis: Axis,
    at: int,
    start: int,
    end: int,
    a: Seq<Range<u32>>,
    b: Seq<Range<u32>>,
    k: int,
) -> (j: int)
    requires
        is_segmentation(v, axis, at, start, end, a),
        is_segmentation(v, axis, at, start, end, b),
        0 <= k < a.len(),
    ensures
        k <= j < b.len(),
        b[j] == a[k],
    decreases k,
{
    lemma_stroke_found(v, axis, at, start, end, a, b, k);
    let j = choose|j: int| 0 <= j < b.len() && #[trigger] b[j] == a[k];
    if k > 0 {
        let before = lemma_stroke_index(v, axis, at, start, end, a, b, k - 1);
        assert(a[k - 1].end < a[k].start);
        assert(a[k - 1].start < a[k - 1].end);
        if j < before {
            assert(b[j].end < b[before].start);
            assert(b[j].start < b[j].end);
        }
    }
    j
}

/// A stretch of a line has one segmentation only: its strokes are what they
/// must be.
pub proof fn lemma_segmentation_unique(
    v: ImageView,
    axis: Axis,
    at: int,
    start: int,
    end: int,
    a: Seq<Range<u32>>,
    b: Seq<Range<u32>>,
)
    requires
        is_segmentation(v, axis, at, start, end, a),
        is_segmentation(v, axis, at, start, end, b),
    ensures
        a == b,
{
    if a.len() > 0 {
        let j = lemma_stroke_index(v, axis, at, start, end, a, b, a.len() - 1);
    }
    if b.len() > 0 {
        let k = lemma_stroke_index(v, axis, at, start, end, b, a, b.len() - 1);
    }
    assert(a.len() == b.len());
    assert forall|k: int| 0 <= k < a.len() implies a[k] == b[k] by {
        let j = lemma_stroke_index(v, axis, at, start, end, a, b, k);
        let back = lemma_stroke_index(v, axis, at, start, end, b, a, j);
        if back != k {
            assert(a[back].start < a[back].end && a[k].start < a[k].end);
            if back < k {
                assert(a[back].end < a[k].start);
            } else {
                assert(a[k].end < a[back].start);
            }
        }
    }
    assert(a =~= b);
}

/// Whether the pixel at (`x`, `y`) is blank, that is fully transparent.
pub fn transparent_pixel(img: &Image, x: u32, y: u32) -> (blank: bool)
    requires
        img@.contains(x as int, y as int),
    ensures
        blank == img@.is_blank(x as int, y as int),
{
    img.get_pixel(x, y).alpha == 0
}

/// Whether the pixel at coordinate `c` of line `at` is blank.
pub fn blank_at(img: &Image, axis: Axis, at: u32, c: u32) -> (blank: bool)
    requires
        at < line_count(img@, axis),
        c < line_length(img@, axis),
    ensures
        blank == blank_along(img@, axis, at as int, c as int),
{
    match axis {
        Axis::X => transparent_pixel(img, c, at),
        Axis::Y => transparent_pixel(img, at, c),
    }
}

/// Scans line `at` from `start` up to `end`, or from `end` down to `start`
/// when `backward`, for the first pixel that is blank (if `blank`) or opaque
/// (if not).
pub fn find_first(
    img: &Image,
    axis: Axis,
    at: u32,
    start: u32,
    end: u32,
    backward: bool,
    blank: bool,
) -> (found: Option<u32>)
    requires
        line_holds(img@, axis, at as int, start as int, end as int),
    ensures
        match found {
            Some(c) => is_scan_hit(
                img@,
                axis,
                at as int,
                start as int,
                end as int,
                backward,
                blank,
                c as int,
            ),
            None => !has_match(img@, axis, at as int, start as int, end as int, blank),
        },
{
    if backward {
        let mut c: u32 = end;
        while c > start
            invariant
                backward,
                line_holds(img@, axis, at as int, start as int, end as int),
                start <= c <= end,
                forall|k: int|
                    c <= k < end ==> #[trigger] blank_along(img@, axis, at as int, k) != blank,
            decreases c - start,
        {
            c -= 1;
            if blank_at(img, axis, at, c) == blank {
                return Some(c);
            }
        }
    } else {
        let mut c: u32 = start;
        while c < end
            invariant
                !backward,
                line_holds(img@, axis, at as int, start as int, end as int),
                start <= c <= end,
                forall|k: int|
                    start <= k < c ==> #[trigger] blank_along(img@, axis, at as int, k) != blank,
            decreases end - c,
        {
            if blank_at(img, axis, at, c) == blank {
                return Some(c);
            }
            c += 1;
        }
    }
    None
}

/// Scans line `at` from `start` up to `end`, or the other way when
/// `backward`, for the first blank pixel.
pub fn scan_range(img: &Image, axis: Axis, at: u32, start: u32, end: u32, backward: bool) -> (r:
    Result<u32, FpcError>)
    requires
        line_holds(img@, axis, at as int, start as int, end as int),
    ensures
        match r {
            Ok(c) => is_scan_hit(
                img@,
                axis,
                at as int,
                start as int,
                end as int,
                backward,
                true,
                c as int,
            ),
            Err(e) => e == FpcError::BlankNotFound && !has_match(
                img@,
                axis,
                at as int,
                start as int,
                end as int,
                true,
            ),
        },
{
    match find_first(img, axis, at, start, end, backward, true) {
        Some(c) => Ok(c),
        None => Err(FpcError::BlankNotFound),
    }
}

/// The opaque coordinates from `start` up to `end` on line `at`, in
/// increasing order.
pub fn find_pixels(img: &Image, axis: Axis, at: u32, start: u32, end: u32) -> (coords: Vec<u32>)
    requires
        line_holds(img@, axis, at as int, start as int, end as int),
    ensures
        coords@ == opaque_coords(img@, axis, at as int, start as int, end as int),
{
    let mut coords: Vec<u32> = Vec::new();
    let mut c: u32 = start;
    while c < end
        invariant
            line_holds(img@, axis, at as int, start as int, end as int),
            start <= c <= end,
            coords@ == opaque_coords(img@, axis, at as int, start as int, c as int),
        decreases end - c,
    {
        if !blank_at(img, axis, at, c) {
            coords.push(c);
        }
        c += 1;
    }
    coords
}

/// Groups coordinates into strokes as [`group_runs`] says.
pub fn group_sequences(coords: &Vec<u32>) -> (runs: Vec<Range<u32>>)
    requires
        forall|i: int| 0 <= i < coords.len() ==> (#[trigger] coords[i]) < u32::MAX,
    ensures
        runs@ == group_runs(coords@),
{
    let mut runs: Vec<Range<u32>> = Vec::new();
    let mut i: usize = 0;
    while i < coords.len()
        invariant
            i <= coords.len(),
            forall|k: int| 0 <= k < coords.len() ==> (#[trigger] coords[k]) < u32::MAX,
            runs@ == group_runs(coords@.take(i as int)),
        decreases coords.len() - i,
    {
        let c: u32 = coords[i];
        let ghost before = runs@;
        proof {
            assert(coords@.take(i + 1).drop_last() == coords@.take(i as int));
            assert(coords@.take(i + 1).last() == c);
        }
        let n: usize = runs.len();
        if n > 0 && runs[n - 1].end == c {
            let first: u32 = runs[n - 1].start;
            runs.pop();
            runs.push(Range { start: first, end: c + 1 });
            assert(runs@ == extend_runs(before, c));
        } else {
            runs.push(Range { start: c, end: c + 1 });
        }
        i += 1;
    }
    assert(coords@.take(coords.len() as int) == coords@);
    runs
}

/// The strokes of the grid lines that cross line `at` between `start` and
/// `end`: the maximal runs of opaque pixels, in increasing order.
pub fn find_grid_line_ranges(img: &Image, axis: Axis, at: u32, start: u32, end: u32) -> (runs: Vec<
    Range<u32>,
>)
    requires
        line_holds(img@, axis, at as int, start as int, end as int),
    ensures
        runs@ == grid_line_ranges(img@, axis, at as int, start as int, end as int),
        is_segmentation(img@, axis, at as int, start as int, end as int, runs@),
{
    let coords = find_pixels(img, axis, at, start, end);
    proof {
        lemma_opaque_coords(img@, axis, at as int, start as int, end as int);
        lemma_grid_line_ranges(img@, axis, at as int, start as int, end as int);
    }
    group_sequences(&coords)
}

} // verus!
