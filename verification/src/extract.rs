//! The whole way from a picture of a grid to one normalized picture for
//! each of its cells.

use crate::cells::cell_rect;
use crate::compose::{make_sub_image, sub_image};
use crate::corners::{round_the_corners, rounded};
use crate::error::FpcError;
use crate::fit::{fitted_box, lemma_fitted_box, scale_to_constraints, AspectRatio};
use crate::geometry::Rect;
use crate::grid_finder::{
    find_grid_cells, grid_cells, is_blank_picture, lemma_blank_picture_has_no_border,
};
use crate::outline::{outlined, output_debug_image};
use crate::raster::{cropped, Image, ImageView, Pixel};
use crate::resample::{can_resample, rescale_to_72dpi_1in, rescaled, OUTPUT_WIDTH};
use crate::sheet::{is_in_view, is_sheet, lemma_sheet_cells};
use std::ops::Range;
use vstd::prelude::*;

verus! {

/// The radius, in pixels, with which the corners of every cell are rounded:
/// an eighth of an inch at 300 dots to the inch.
pub const CORNER_RADIUS: u32 = 37;

/// What was found in one picture.
#[derive(Debug, PartialEq, Eq)]
pub struct Extraction {
    /// The cells of the grid, row by row from the top and in each row from
    /// the left.
    pub cells: Vec<Rect>,
    /// One picture for each cell, in the order of the cells.
    pub images: Vec<Image>,
    /// The picture itself with the outline of every cell drawn into it, if
    /// it was asked for.
    pub debug_image: Option<Image>,
}

/// The whole of a cell `width` wide and `height` high, in its own
/// coordinates.
pub open spec fn whole(width: u32, height: u32) -> Rect {
    Rect { x: 0, y: 0, width, height }
}

/// The picture that is put out for a cell: the cell is cut out and laid
/// over the background, cut down to the aspect ratio and the greatest
/// width, rounded at the corners and resampled to the size of the output.
pub open spec fn extracted_cell(
    v: ImageView,
    cell: Rect,
    aspect_ratio: AspectRatio,
    max_width: u32,
    background_color: Pixel,
) -> ImageView {
    let composed = sub_image(v, cell, background_color);
    let fitted = cropped(
        composed,
        fitted_box(whole(cell.width, cell.height), aspect_ratio, max_width),
    );
    let round = rounded(fitted, CORNER_RADIUS as int);
    rescaled(
        round,
        OUTPUT_WIDTH as int,
        aspect_ratio.truncated_height_of(OUTPUT_WIDTH as int),
    )
}

/// The pictures that are put out for a picture of a grid, one for each
/// cell in the order of the cells, or why none is put out.
pub open spec fn extracted_pictures(
    v: ImageView,
    aspect_ratio: AspectRatio,
    max_width: u32,
    background_color: Pixel,
) -> Result<Seq<ImageView>, FpcError> {
    match grid_cells(v) {
        Err(e) => Err(e),
        Ok(cells) => Ok(
            Seq::new(
                cells.len(),
                |i: int| extracted_cell(v, cells[i], aspect_ratio, max_width, background_color),
            ),
        ),
    }
}

/// The views of a list of pictures.
pub open spec fn views(images: Seq<Image>) -> Seq<ImageView> {
    Seq::new(images.len(), |i: int| images[i]@)
}

/// A picture without an opaque pixel puts nothing out: the left edge of the
/// border is missing.
pub proof fn lemma_blank_picture_puts_nothing_out(
    v: ImageView,
    aspect_ratio: AspectRatio,
    max_width: u32,
    background_color: Pixel,
)
    requires
        is_blank_picture(v),
    ensures
        extracted_pictures(v, aspect_ratio, max_width, background_color) == Err::<
            Seq<ImageView>,
            FpcError,
        >(FpcError::MissingBorder("left")),
{
    lemma_blank_picture_has_no_border(v);
}

/// A clean sheet in view puts out one picture for each gap across and each
/// gap down, row by row: picture `i` is made from the cell in row
/// `i / columns` and column `i % columns`.
pub proof fn lemma_sheet_is_put_out(
    v: ImageView,
    bounds: Rect,
    border: int,
    horiz: Seq<Range<u32>>,
    vert: Seq<Range<u32>>,
    aspect_ratio: AspectRatio,
    max_width: u32,
    background_color: Pixel,
)
    requires
        is_sheet(v, bounds, border, horiz, vert),
        is_in_view(v, bounds, horiz, vert),
    ensures
        extracted_pictures(v, aspect_ratio, max_width, background_color) matches Ok(pictures)
            && pictures.len() == (horiz.len() - 1) * (vert.len() - 1) && forall|i: int|
            0 <= i < pictures.len() ==> #[trigger] pictures[i] == extracted_cell(
                v,
                cell_rect(
                    horiz[i / (vert.len() - 1)],
                    horiz[i / (vert.len() - 1) + 1],
                    vert[i % (vert.len() - 1)],
                    vert[i % (vert.len() - 1) + 1],
                ),
                aspect_ratio,
                max_width,
                background_color,
            ),
{
    lemma_sheet_cells(v, bounds, border, horiz, vert);
}

/// A picture no wider and no higher than one that can be resampled can be
/// resampled too.
proof fn lemma_can_resample_smaller(
    narrow: int,
    low: int,
    wide: int,
    high: int,
    new_width: int,
    new_height: int,
)
    requires
        0 <= narrow <= wide,
        0 <= low <= high,
        0 <= new_height,
        can_resample(wide, high, new_width, new_height),
    ensures
        can_resample(narrow, low, new_width, new_height),
{
    assert(narrow * new_height <= wide * new_height) by (nonlinear_arith)
        requires
            0 <= narrow <= wide,
            0 <= new_height,
    ;
}

/// A cell that the fit leaves nothing of is put out as a picture of the
/// usual size whose samples are all zero: fully transparent.
pub proof fn lemma_empty_fit_is_put_out_clear(
    v: ImageView,
    cell: Rect,
    aspect_ratio: AspectRatio,
    max_width: u32,
    background_color: Pixel,
)
    requires
        fitted_box(whole(cell.width, cell.height), aspect_ratio, max_width).width == 0
            || fitted_box(whole(cell.width, cell.height), aspect_ratio, max_width).height == 0,
    ensures
        ({
            let out = extracted_cell(v, cell, aspect_ratio, max_width, background_color);
            let height = aspect_ratio.truncated_height_of(OUTPUT_WIDTH as int);
            &&& out.width == OUTPUT_WIDTH
            &&& out.height == height as nat
            &&& out.samples == Seq::new((4 * (OUTPUT_WIDTH * height)) as nat, |k: int| 0u16)
        }),
{
}

/// Makes the picture that is put out for one cell.
pub fn extract_cell(
    img: &Image,
    cell: &Rect,
    aspect_ratio: AspectRatio,
    max_width: u32,
    background_color: Pixel,
) -> (out: Image)
    requires
        img@.holds(*cell),
        aspect_ratio.wf(),
        can_resample(
            cell.width as int,
            cell.height as int,
            OUTPUT_WIDTH as int,
            aspect_ratio.truncated_height_of(OUTPUT_WIDTH as int),
        ),
    ensures
        out@ == extracted_cell(img@, *cell, aspect_ratio, max_width, background_color),
        out@.wf(),
        out@.width == OUTPUT_WIDTH,
        out@.height == aspect_ratio.truncated_height_of(OUTPUT_WIDTH as int),
{
    let new_image = make_sub_image(img, cell, background_color);
    let new_image_bounds = Rect {
        x: 0,
        y: 0,
        width: new_image.width(),
        height: new_image.height(),
    };
    let scaled_image = scale_to_constraints(&new_image, new_image_bounds, aspect_ratio, max_width);
    let rounded_image = round_the_corners(&scaled_image, CORNER_RADIUS);
    proof {
        lemma_fitted_box(new_image_bounds, aspect_ratio, max_width);
        lemma_can_resample_smaller(
            rounded_image@.width as int,
            rounded_image@.height as int,
            cell.width as int,
            cell.height as int,
            OUTPUT_WIDTH as int,
            aspect_ratio.truncated_height_of(OUTPUT_WIDTH as int),
        );
    }
    rescale_to_72dpi_1in(aspect_ratio, &rounded_image)
}

/// Finds the grid in `img` and makes one picture for each of its cells, in
/// the order of the cells; with `debug`, also the picture that shows the
/// cells' outlines. Fails where the grid cannot be found, and then makes
/// nothing.
pub fn extract_images_from_image_grid(
    img: &Image,
    aspect_ratio: AspectRatio,
    max_width: u32,
    background_color: Pixel,
    debug: bool,
) -> (r: Result<Extraction, FpcError>)
    requires
        aspect_ratio.wf(),
        can_resample(
            img@.width as int,
            img@.height as int,
            OUTPUT_WIDTH as int,
            aspect_ratio.truncated_height_of(OUTPUT_WIDTH as int),
        ),
    ensures
        match r {
            Ok(found) => {
                &&& grid_cells(img@) == Ok::<Seq<Rect>, FpcError>(found.cells@)
                &&& found.images@.len() == found.cells@.len()
                &&& forall|i: int|
                    0 <= i < found.images@.len() ==> (#[trigger] found.images@[i])@
                        == extracted_cell(
                        img@,
                        found.cells@[i],
                        aspect_ratio,
                        max_width,
                        background_color,
                    )
                &&& match found.debug_image {
                    Some(picture) => debug && picture@ == outlined(img@, found.cells@),
                    None => !debug,
                }
            },
            Err(e) => grid_cells(img@) == Err::<Seq<Rect>, FpcError>(e),
        },
        match r {
            Ok(found) => extracted_pictures(img@, aspect_ratio, max_width, background_color)
                == Ok::<Seq<ImageView>, FpcError>(views(found.images@)),
            Err(e) => extracted_pictures(img@, aspect_ratio, max_width, background_color)
                == Err::<Seq<ImageView>, FpcError>(e),
        },
        is_blank_picture(img@) ==> (r matches Err(e) && e == FpcError::MissingBorder("left")),
{
    let cells = find_grid_cells(img)?;
    let debug_image = if debug {
        Some(output_debug_image(img, &cells))
    } else {
        None
    };
    let mut images: Vec<Image> = Vec::new();
    let mut i: usize = 0;
    while i < cells.len()
        invariant
            aspect_ratio.wf(),
            can_resample(
                img@.width as int,
                img@.height as int,
                OUTPUT_WIDTH as int,
                aspect_ratio.truncated_height_of(OUTPUT_WIDTH as int),
            ),
            forall|k: int| 0 <= k < cells@.len() ==> img@.holds(#[trigger] cells@[k]),
            i <= cells.len(),
            images@.len() == i,
            forall|k: int|
                0 <= k < i ==> (#[trigger] images@[k])@ == extracted_cell(
                    img@,
                    cells@[k],
                    aspect_ratio,
                    max_width,
                    background_color,
                ),
        decreases cells.len() - i,
    {
        let rect = cells[i];
        proof {
            assert(img@.holds(cells@[i as int]));
            lemma_can_resample_smaller(
                rect.width as int,
                rect.height as int,
                img@.width as int,
                img@.height as int,
                OUTPUT_WIDTH as int,
                aspect_ratio.truncated_height_of(OUTPUT_WIDTH as int),
            );
        }
        let new_image = extract_cell(img, &rect, aspect_ratio, max_width, background_color);
        images.push(new_image);
        i += 1;
    }
    proof {
        assert(views(images@) =~= Seq::new(
            cells@.len(),
            |i: int| extracted_cell(img@, cells@[i], aspect_ratio, max_width, background_color),
        ));
    }
    Ok(Extraction { cells, images, debug_image })
}

} // verus!
