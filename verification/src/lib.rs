//! Locates a rectangular grid of sub-images inside a picture with a
//! transparent background and cuts each cell out as a normalized image.

pub mod bounding;
pub mod cells;
pub mod compose;
pub mod corners;
pub mod error;
pub mod extract;
pub mod fit;
pub mod geometry;
pub mod grid_finder;
pub mod outline;
pub mod raster;
pub mod resample;
pub mod scan;
pub mod sheet;

pub use bounding::find_bounding_boxes;
pub use compose::make_sub_image;
pub use corners::round_the_corners;
pub use error::FpcError;
pub use extract::{extract_cell, extract_images_from_image_grid, Extraction, CORNER_RADIUS};
pub use fit::{fit_to_constraints, scale_to_constraints, AspectRatio};
pub use geometry::Rect;
pub use cells::cell_rectangles;
pub use grid_finder::{find_border_widths, find_bordered_bounds, find_grid_cells};
pub use outline::{draw_rect, output_debug_image};
pub use raster::{Image, Pixel};
pub use resample::{fits_for_resampling, rescale, rescale_to_72dpi_1in, MAX_SIDE, OUTPUT_WIDTH};
pub use scan::{
    find_grid_line_ranges, find_pixels, group_sequences, scan_range, transparent_pixel, Axis,
};
