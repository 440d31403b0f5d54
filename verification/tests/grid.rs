use fpc::{
    cell_rectangles, find_border_widths, find_bordered_bounds, find_grid_cells,
    find_grid_line_ranges, find_pixels, group_sequences, scan_range, transparent_pixel, Axis,
    FpcError, Image, Pixel, Rect,
};

const CLEAR: Pixel = Pixel { red: 0, green: 0, blue: 0, alpha: 0 };
const INK: Pixel = Pixel { red: 0, green: 0, blue: 0, alpha: 65535 };

fn grid_picture(width: u32, height: u32, pixel_at: impl Fn(u32, u32) -> Pixel) -> Image {
    let mut samples = Vec::new();
    for y in 0..height {
        for x in 0..width {
            let p = pixel_at(x, y);
            samples.extend([p.red, p.green, p.blue, p.alpha]);
        }
    }
    Image::from_raw(width, height, samples).expect("four samples for each pixel")
}

fn ink_if(opaque: bool) -> Pixel {
    if opaque {
        INK
    } else {
        CLEAR
    }
}

/// A bar across row 5 and a bar down column 5 that stop short of the right
/// and the bottom edge: the middle row and column of what they frame are
/// blank at both ends.
fn crossed_bars() -> Image {
    grid_picture(10, 10, |x, y| ink_if((y == 5 && x <= 7) || (x == 5 && y <= 7)))
}

/// A sheet of two columns and three rows at (4, 5): border and lines two
/// pixels thick, columns 10 and 16 pixels wide, rows 14 pixels high.
fn two_by_three() -> Image {
    grid_picture(40, 60, |x, y| {
        let inside = (4..36).contains(&x) && (5..55).contains(&y);
        let sx = x.wrapping_sub(4);
        let sy = y.wrapping_sub(5);
        let on_vertical = sx < 2 || (12..14).contains(&sx) || sx >= 30;
        let on_horizontal = sy < 2 || (16..18).contains(&sy) || (32..34).contains(&sy) || sy >= 48;
        ink_if(inside && (on_vertical || on_horizontal))
    })
}

#[test]
fn test_border_width() {
    let img = crossed_bars();
    let bounds = find_bordered_bounds(&img).unwrap();
    let foo = find_border_widths(&img, bounds).unwrap();

    assert_eq!(foo, (0, 0, 0, 0));
}

#[test]
fn test_grid() {
    let img = crossed_bars();
    let foo = find_grid_cells(&img).unwrap();

    assert_eq!(Vec::<Rect>::default(), foo);
}

#[test]
fn crossed_bars_are_framed_by_their_ends() {
    let img = crossed_bars();
    assert_eq!(find_bordered_bounds(&img), Ok(Rect { x: 0, y: 0, width: 8, height: 8 }));
}

#[test]
fn two_by_three_grid_has_six_cells_row_by_row() {
    let img = two_by_three();
    assert_eq!(find_bordered_bounds(&img), Ok(Rect { x: 4, y: 5, width: 32, height: 50 }));
    assert_eq!(
        find_border_widths(&img, Rect { x: 4, y: 5, width: 32, height: 50 }),
        Ok((2, 2, 2, 2))
    );
    let cells = find_grid_cells(&img).unwrap();
    assert_eq!(
        cells,
        vec![
            Rect { x: 6, y: 7, width: 10, height: 14 },
            Rect { x: 18, y: 7, width: 16, height: 14 },
            Rect { x: 6, y: 23, width: 10, height: 14 },
            Rect { x: 18, y: 23, width: 16, height: 14 },
            Rect { x: 6, y: 39, width: 10, height: 14 },
            Rect { x: 18, y: 39, width: 16, height: 14 },
        ]
    );
}

#[test]
fn cells_and_strokes_rebuild_the_inside_of_the_border() {
    let img = two_by_three();
    let cells = find_grid_cells(&img).unwrap();
    // In each row the cells and the stroke between them fill the stretch
    // between the left and the right border.
    for row in cells.chunks(2) {
        assert_eq!(row[0].x, 4 + 2);
        assert_eq!(row[0].x + row[0].width + 2, row[1].x);
        assert_eq!(row[1].x + row[1].width, 36 - 2);
    }
    for column in 0..2 {
        assert_eq!(cells[column].y, 5 + 2);
        assert_eq!(cells[column].y + cells[column].height + 2, cells[column + 2].y);
        assert_eq!(cells[column + 2].y + cells[column + 2].height + 2, cells[column + 4].y);
        assert_eq!(cells[column + 4].y + cells[column + 4].height, 55 - 2);
    }
}

#[test]
fn symmetric_two_column_grid_finds_no_blank_under_its_middle_line() {
    // With two columns of one width the middle column of the sheet is the
    // line between them, opaque from top to bottom.
    let img = grid_picture(30, 30, |x, y| {
        let inside = (3..27).contains(&x) && (3..27).contains(&y);
        let sx = x.wrapping_sub(3);
        let sy = y.wrapping_sub(3);
        let on_vertical = sx < 2 || (11..13).contains(&sx) || sx >= 22;
        let on_horizontal = sy < 2 || sy >= 22;
        ink_if(inside && (on_vertical || on_horizontal))
    });
    assert_eq!(find_bordered_bounds(&img), Ok(Rect { x: 3, y: 3, width: 24, height: 24 }));
    assert_eq!(find_grid_cells(&img), Err(FpcError::BlankNotFound));
}

#[test]
fn blank_pictures_of_any_size_miss_the_left_border() {
    for (width, height) in [(0, 0), (1, 1), (5, 0), (0, 5), (7, 9), (64, 48)] {
        let img = grid_picture(width, height, |_, _| CLEAR);
        assert_eq!(find_bordered_bounds(&img), Err(FpcError::MissingBorder("left")));
        assert_eq!(find_grid_cells(&img), Err(FpcError::MissingBorder("left")));
    }
}

#[test]
fn colour_without_alpha_is_still_blank() {
    let img = grid_picture(6, 6, |_, _| Pixel { red: 65535, green: 65535, blue: 65535, alpha: 0 });
    assert_eq!(find_grid_cells(&img), Err(FpcError::MissingBorder("left")));
}

#[test]
fn opaque_middle_row_without_opaque_middle_column_misses_the_top_border() {
    // Row 4 is opaque left of the middle only; column 4 is blank.
    let img = grid_picture(8, 8, |x, y| ink_if(y == 4 && x < 3));
    assert_eq!(find_bordered_bounds(&img), Err(FpcError::MissingBorder("top")));
    assert_eq!(find_grid_cells(&img), Err(FpcError::MissingBorder("top")));
}

#[test]
fn filled_rectangle_over_the_middle_has_no_blank_inside() {
    let img = grid_picture(20, 16, |x, y| ink_if((5..15).contains(&x) && (4..12).contains(&y)));
    assert_eq!(find_bordered_bounds(&img), Ok(Rect { x: 5, y: 4, width: 10, height: 8 }));
    assert_eq!(
        find_border_widths(&img, Rect { x: 5, y: 4, width: 10, height: 8 }),
        Err(FpcError::BlankNotFound)
    );
    assert_eq!(find_grid_cells(&img), Err(FpcError::BlankNotFound));
}

#[test]
fn filled_rectangle_beside_the_middle_has_no_border() {
    let above = grid_picture(20, 16, |x, y| ink_if((5..15).contains(&x) && y < 4));
    assert_eq!(find_grid_cells(&above), Err(FpcError::MissingBorder("left")));
    let left = grid_picture(20, 16, |x, y| ink_if(x < 6 && (4..12).contains(&y)));
    assert_eq!(find_grid_cells(&left), Err(FpcError::MissingBorder("top")));
}

#[test]
fn single_opaque_pixel_in_the_middle_is_its_own_border() {
    let img = grid_picture(5, 5, |x, y| ink_if(x == 2 && y == 2));
    assert_eq!(find_bordered_bounds(&img), Ok(Rect { x: 2, y: 2, width: 1, height: 1 }));
    assert_eq!(find_grid_cells(&img), Err(FpcError::BlankNotFound));
}

#[test]
fn empty_bounds_hold_no_blank_pixel() {
    let img = grid_picture(4, 4, |_, _| CLEAR);
    assert_eq!(
        find_border_widths(&img, Rect { x: 4, y: 0, width: 0, height: 4 }),
        Err(FpcError::BlankNotFound)
    );
    assert_eq!(
        find_border_widths(&img, Rect { x: 0, y: 4, width: 4, height: 0 }),
        Err(FpcError::BlankNotFound)
    );
}

#[test]
fn border_widths_are_measured_from_each_side() {
    // A frame at (10, 20), 30 by 40, whose sides are 3, 2, 4 and 5 thick.
    let img = grid_picture(60, 70, |x, y| {
        let inside = (10..40).contains(&x) && (20..60).contains(&y);
        let hollow = (13..36).contains(&x) && (22..55).contains(&y);
        ink_if(inside && !hollow)
    });
    let bounds = find_bordered_bounds(&img).unwrap();
    assert_eq!(bounds, Rect { x: 10, y: 20, width: 30, height: 40 });
    assert_eq!(find_border_widths(&img, bounds), Ok((3, 2, 4, 5)));
    // The frame alone has two strokes each way and so one cell.
    assert_eq!(
        find_grid_cells(&img),
        Ok(vec![Rect { x: 13, y: 22, width: 23, height: 33 }])
    );
}

#[test]
fn strokes_are_maximal_runs_of_a_hand_built_row() {
    //                0  1  2  3  4  5  6  7  8  9 10 11
    let opaque = [0, 1, 1, 1, 0, 0, 1, 0, 1, 1, 0, 1];
    let img = grid_picture(12, 1, |x, _| ink_if(opaque[x as usize] == 1));
    assert_eq!(find_pixels(&img, Axis::X, 0, 0, 12), vec![1, 2, 3, 6, 8, 9, 11]);
    let runs = find_grid_line_ranges(&img, Axis::X, 0, 0, 12);
    assert_eq!(runs, vec![1..4, 6..7, 8..10, 11..12]);
    for pair in runs.windows(2) {
        assert!(pair[0].end < pair[1].start);
    }
    for x in 0..12u32 {
        let covered = runs.iter().any(|run| run.contains(&x));
        assert_eq!(covered, opaque[x as usize] == 1);
    }
}

#[test]
fn strokes_of_a_stretch_stay_inside_it() {
    let opaque = [1, 1, 1, 1, 0, 0, 1, 0, 1, 1, 1, 1];
    let img = grid_picture(12, 1, |x, _| ink_if(opaque[x as usize] == 1));
    assert_eq!(find_grid_line_ranges(&img, Axis::X, 0, 2, 10), vec![2..4, 6..7, 8..10]);
    assert_eq!(find_grid_line_ranges(&img, Axis::X, 0, 4, 6), vec![]);
    assert_eq!(find_grid_line_ranges(&img, Axis::X, 0, 5, 5), vec![]);
}

#[test]
fn strokes_down_a_column() {
    let img = grid_picture(3, 8, |x, y| ink_if(x == 1 && (y == 0 || y == 1 || y == 5)));
    assert_eq!(find_pixels(&img, Axis::Y, 1, 0, 8), vec![0, 1, 5]);
    assert_eq!(find_grid_line_ranges(&img, Axis::Y, 1, 0, 8), vec![0..2, 5..6]);
    assert_eq!(find_grid_line_ranges(&img, Axis::Y, 0, 0, 8), vec![]);
}

#[test]
fn grouping_takes_coordinates_one_by_one() {
    assert_eq!(group_sequences(&vec![]), vec![]);
    assert_eq!(group_sequences(&vec![7]), vec![7..8]);
    assert_eq!(group_sequences(&vec![0, 1, 2]), vec![0..3]);
    assert_eq!(group_sequences(&vec![3, 4, 5, 9, 10, 2, 3]), vec![3..6, 9..11, 2..4]);
    assert_eq!(group_sequences(&vec![4, 4, 5]), vec![4..5, 4..6]);
    assert_eq!(group_sequences(&vec![4294967294]), vec![4294967294..4294967295]);
}

#[test]
fn scan_stops_at_the_first_blank_pixel() {
    let opaque = [1, 1, 0, 1, 0, 0, 1, 1];
    let img = grid_picture(8, 2, |x, y| ink_if(y == 1 && opaque[x as usize] == 1));
    assert_eq!(scan_range(&img, Axis::X, 1, 0, 8, false), Ok(2));
    assert_eq!(scan_range(&img, Axis::X, 1, 0, 8, true), Ok(5));
    assert_eq!(scan_range(&img, Axis::X, 1, 3, 8, false), Ok(4));
    assert_eq!(scan_range(&img, Axis::X, 1, 0, 2, false), Err(FpcError::BlankNotFound));
    assert_eq!(scan_range(&img, Axis::X, 1, 6, 8, true), Err(FpcError::BlankNotFound));
    assert_eq!(scan_range(&img, Axis::X, 1, 4, 4, false), Err(FpcError::BlankNotFound));
    assert_eq!(scan_range(&img, Axis::Y, 0, 0, 2, false), Ok(0));
    assert_eq!(scan_range(&img, Axis::Y, 0, 0, 2, true), Ok(0));
    assert_eq!(scan_range(&img, Axis::Y, 2, 0, 2, true), Ok(1));
}

#[test]
fn a_pixel_is_blank_when_its_alpha_is_zero() {
    let img = grid_picture(3, 1, |x, _| Pixel { red: 9, green: 9, blue: 9, alpha: x as u16 });
    assert!(transparent_pixel(&img, 0, 0));
    assert!(!transparent_pixel(&img, 1, 0));
    assert!(!transparent_pixel(&img, 2, 0));
}

#[test]
fn cells_lie_between_neighbouring_strokes() {
    let horiz = vec![0..2, 10..12, 30..31];
    let vert = vec![5..6, 9..12, 20..22, 40..41];
    let cells = cell_rectangles(&horiz, &vert);
    assert_eq!(
        cells,
        vec![
            Rect { x: 6, y: 2, width: 3, height: 8 },
            Rect { x: 12, y: 2, width: 8, height: 8 },
            Rect { x: 22, y: 2, width: 18, height: 8 },
            Rect { x: 6, y: 12, width: 3, height: 18 },
            Rect { x: 12, y: 12, width: 8, height: 18 },
            Rect { x: 22, y: 12, width: 18, height: 18 },
        ]
    );
    assert_eq!(cell_rectangles(&horiz, &vert), cells);
}

#[test]
fn fewer_than_two_strokes_leave_no_cell() {
    let some = vec![0..2, 10..12, 30..31];
    assert_eq!(cell_rectangles(&vec![], &some), vec![]);
    assert_eq!(cell_rectangles(&some, &vec![]), vec![]);
    assert_eq!(cell_rectangles(&vec![3..4], &some), vec![]);
    assert_eq!(cell_rectangles(&some, &vec![3..4]), vec![]);
    assert_eq!(cell_rectangles(&vec![], &vec![]), vec![]);
}

#[test]
fn samples_that_do_not_fill_the_picture_are_an_image_error() {
    assert!(matches!(Image::from_raw(2, 2, vec![0; 15]), Err(FpcError::ImageError(_))));
    assert!(matches!(Image::from_raw(2, 2, vec![0; 17]), Err(FpcError::ImageError(_))));
    assert!(matches!(Image::from_raw(0, 2, vec![0; 4]), Err(FpcError::ImageError(_))));
    assert!(Image::from_raw(2, 2, vec![0; 16]).is_ok());
    assert!(Image::from_raw(0, 7, vec![]).is_ok());
}
