use fpc::{
    draw_rect, extract_cell, extract_images_from_image_grid, find_grid_cells, fit_to_constraints,
    make_sub_image, output_debug_image, rescale, rescale_to_72dpi_1in, round_the_corners,
    scale_to_constraints, AspectRatio, FpcError, Image, Pixel, Rect, CORNER_RADIUS, OUTPUT_WIDTH,
};
use image::Pixel as Blend;

const CLEAR: Pixel = Pixel { red: 0, green: 0, blue: 0, alpha: 0 };
const INK: Pixel = Pixel { red: 0, green: 0, blue: 0, alpha: 65535 };
const WHITE: Pixel = Pixel { red: 65535, green: 65535, blue: 65535, alpha: 65535 };
const RED: Pixel = Pixel { red: 65535, green: 0, blue: 0, alpha: 65535 };
const CARD: AspectRatio = AspectRatio { height: 7, width: 5 };

fn painted(width: u32, height: u32, pixel_at: impl Fn(u32, u32) -> Pixel) -> Image {
    let mut samples = Vec::new();
    for y in 0..height {
        for x in 0..width {
            let p = pixel_at(x, y);
            samples.extend([p.red, p.green, p.blue, p.alpha]);
        }
    }
    Image::from_raw(width, height, samples).expect("four samples for each pixel")
}

/// A picture whose every pixel tells its own place.
fn numbered(width: u32, height: u32) -> Image {
    painted(width, height, |x, y| Pixel {
        red: x as u16,
        green: y as u16,
        blue: (x + 100 * y) as u16,
        alpha: 65535,
    })
}

fn pixels_of(img: &Image) -> Vec<Pixel> {
    let mut pixels = Vec::new();
    for y in 0..img.height() {
        for x in 0..img.width() {
            pixels.push(img.get_pixel(x, y));
        }
    }
    pixels
}

/// The sheet of two columns and three rows at (4, 5), with a patch of
/// colour inside each cell, `times` as large each way.
fn two_by_three_with_cards(times: u32) -> Image {
    painted(40 * times, 60 * times, |x, y| {
        let (x, y) = (x / times, y / times);
        let inside = (4..36).contains(&x) && (5..55).contains(&y);
        let sx = x.wrapping_sub(4);
        let sy = y.wrapping_sub(5);
        let on_vertical = sx < 2 || (12..14).contains(&sx) || sx >= 30;
        let on_horizontal = sy < 2 || (16..18).contains(&sy) || (32..34).contains(&sy) || sy >= 48;
        if inside && (on_vertical || on_horizontal) {
            return INK;
        }
        let column = if (8..14).contains(&x) {
            Some(0)
        } else if (22..30).contains(&x) {
            Some(1)
        } else {
            None
        };
        let row = if (10..18).contains(&y) {
            Some(0)
        } else if (26..34).contains(&y) {
            Some(1)
        } else if (42..50).contains(&y) {
            Some(2)
        } else {
            None
        };
        match (column, row) {
            (Some(c), Some(r)) => {
                Pixel { red: 1000 * (c + 1), green: 1000 * (r + 1), blue: 77, alpha: 65535 }
            }
            _ => CLEAR,
        }
    })
}

#[test]
fn sub_image_shows_the_background_where_the_cell_is_blank() {
    let img = painted(6, 5, |x, y| if x == 2 && y == 3 { INK } else { CLEAR });
    let sub = make_sub_image(&img, &Rect { x: 1, y: 2, width: 4, height: 3 }, WHITE);
    assert_eq!((sub.width(), sub.height()), (4, 3));
    for y in 0..3 {
        for x in 0..4 {
            let expected = if (x, y) == (1, 1) { INK } else { WHITE };
            assert_eq!(sub.get_pixel(x, y), expected);
        }
    }
}

#[test]
fn sub_image_keeps_opaque_pixels_of_the_cell() {
    let img = numbered(7, 6);
    let background = Pixel { red: 1, green: 2, blue: 3, alpha: 4 };
    let sub = make_sub_image(&img, &Rect { x: 2, y: 1, width: 3, height: 4 }, background);
    assert_eq!((sub.width(), sub.height()), (3, 4));
    for y in 0..4 {
        for x in 0..3 {
            assert_eq!(sub.get_pixel(x, y), img.get_pixel(x + 2, y + 1));
        }
    }
    let whole = make_sub_image(&img, &Rect { x: 0, y: 0, width: 7, height: 6 }, background);
    assert_eq!(pixels_of(&whole), pixels_of(&img));
    let none = make_sub_image(&img, &Rect { x: 7, y: 6, width: 0, height: 0 }, background);
    assert_eq!((none.width(), none.height()), (0, 0));
}

#[test]
fn sub_image_blends_what_is_half_transparent() {
    let veil = Pixel { red: 65535, green: 0, blue: 0, alpha: 32768 };
    let img = painted(2, 1, |x, _| if x == 0 { veil } else { CLEAR });
    let sub = make_sub_image(&img, &Rect { x: 0, y: 0, width: 2, height: 1 }, WHITE);
    let mut expected = image::Rgba([65535u16, 65535, 65535, 65535]);
    expected.blend(&image::Rgba([65535u16, 0, 0, 32768]));
    let got = sub.get_pixel(0, 0);
    assert_eq!([got.red, got.green, got.blue, got.alpha], expected.0);
    assert_ne!(got, WHITE);
    assert_ne!(got, veil);
    assert_eq!(got.red, 65535);
    assert_eq!(got.alpha, 65535);
    assert!(32000 < got.green && got.green < 33500);
    assert_eq!(sub.get_pixel(1, 0), WHITE);
}

#[test]
fn rounded_height_is_the_nearest_whole_number() {
    assert_eq!(CARD.rounded_height(750), 1050);
    assert_eq!(CARD.rounded_height(10), 14);
    assert_eq!(CARD.rounded_height(16), 22);
    assert_eq!(CARD.rounded_height(3), 4);
    assert_eq!(CARD.rounded_height(0), 0);
    let half = AspectRatio { height: 3, width: 2 };
    assert_eq!(half.rounded_height(5), 8);
    assert_eq!(half.rounded_height(1), 2);
    let thirds = AspectRatio { height: 1, width: 3 };
    assert_eq!(thirds.rounded_height(4), 1);
    assert_eq!(thirds.rounded_height(5), 2);
    assert_eq!(thirds.rounded_height(1), 0);
    let flat = AspectRatio { height: 0, width: 9 };
    assert_eq!(flat.rounded_height(1000), 0);
    let steep = AspectRatio { height: 4294967295, width: 1 };
    assert_eq!(steep.rounded_height(4294967295), 4294967295);
    assert_eq!(steep.rounded_height(2), 4294967295);
    assert_eq!(steep.rounded_height(1), 4294967295);
}

#[test]
fn truncated_height_cuts_the_fraction_off() {
    assert_eq!(CARD.truncated_height(108), 151);
    assert_eq!(CARD.truncated_height(3), 4);
    assert_eq!(CARD.truncated_height(2), 2);
    let half = AspectRatio { height: 3, width: 2 };
    assert_eq!(half.truncated_height(5), 7);
    let steep = AspectRatio { height: 4294967295, width: 1 };
    assert_eq!(steep.truncated_height(4294967295), 4294967295);
}

#[test]
fn a_ratio_can_hold_what_a_float_holds() {
    // 1.4 as a double is 6305039478318694 / 2^52, a little less than 1.4.
    let bits = 1.4f64.to_bits();
    let mantissa = (bits & ((1 << 52) - 1)) | (1 << 52);
    assert_eq!(mantissa, 6305039478318694);
    let float_card = AspectRatio { height: mantissa, width: 1 << 52 };
    assert_eq!(float_card.rounded_height(750), 1050);
    assert_eq!(float_card.rounded_height(10), 14);
    assert_eq!(float_card.truncated_height(108), 151);
    // Five times a little less than 1.4 is a little less than 7.
    assert_eq!(float_card.truncated_height(5), 6);
    assert_eq!(CARD.truncated_height(5), 7);
    let widest = AspectRatio { height: u64::MAX, width: u64::MAX };
    assert_eq!(widest.rounded_height(4294967295), 4294967295);
    assert_eq!(widest.truncated_height(12345), 12345);
    let steepest = AspectRatio { height: u64::MAX, width: 1 };
    assert_eq!(steepest.rounded_height(1), 4294967295);
    assert_eq!(steepest.rounded_height(0), 0);
    let flattest = AspectRatio { height: 1, width: u64::MAX };
    assert_eq!(flattest.rounded_height(4294967295), 0);
}

#[test]
fn a_binary_fraction_becomes_a_ratio() {
    let ratio = |height: u64, width: u64| AspectRatio { height, width };
    assert_eq!(AspectRatio::from_binary(6305039478318694, -52), ratio(6305039478318694, 1 << 52));
    assert_eq!(AspectRatio::from_binary(3, 0), ratio(3, 1));
    assert_eq!(AspectRatio::from_binary(3, 2), ratio(12, 1));
    assert_eq!(AspectRatio::from_binary(1, 63), ratio(1 << 63, 1));
    assert_eq!(AspectRatio::from_binary(1, 64), ratio(u64::MAX, 1));
    assert_eq!(AspectRatio::from_binary(u64::MAX, 0), ratio(u64::MAX, 1));
    assert_eq!(AspectRatio::from_binary(u64::MAX, 1), ratio(u64::MAX, 1));
    assert_eq!(AspectRatio::from_binary(1 << 52, 972), ratio(u64::MAX, 1));
    assert_eq!(AspectRatio::from_binary(1, i32::MAX), ratio(u64::MAX, 1));
    assert_eq!(AspectRatio::from_binary(0, i32::MAX), ratio(0, 1));
    assert_eq!(AspectRatio::from_binary(5, -1), ratio(5, 2));
    assert_eq!(AspectRatio::from_binary(0, -5), ratio(0, 32));
    assert_eq!(AspectRatio::from_binary(5, -63), ratio(5, 1 << 63));
    assert_eq!(AspectRatio::from_binary(5, -64), ratio(2, 1 << 63));
    assert_eq!(AspectRatio::from_binary(5, -65), ratio(1, 1 << 63));
    assert_eq!(AspectRatio::from_binary(5, -66), ratio(0, 1 << 63));
    assert_eq!(AspectRatio::from_binary(1 << 52, -115), ratio(1, 1 << 63));
    assert_eq!(AspectRatio::from_binary(1 << 52, -1074), ratio(0, 1 << 63));
    assert_eq!(AspectRatio::from_binary(7, i32::MIN), ratio(0, 1 << 63));
    // One and a half: 3 over 2.
    assert_eq!(AspectRatio::from_binary(3, -1).rounded_height(5), 8);
    assert_eq!(AspectRatio::from_binary(3, -1).truncated_height(5), 7);
}

#[test]
fn a_ratio_needs_a_width() {
    assert_eq!(AspectRatio::new(7, 5), Some(CARD));
    assert_eq!(AspectRatio::new(7, 0), None);
    assert_eq!(AspectRatio::new(0, 1), Some(AspectRatio { height: 0, width: 1 }));
}

#[test]
fn fitted_box_has_the_wanted_width_and_the_height_that_goes_with_it() {
    let bounds = Rect { x: 0, y: 0, width: 100, height: 200 };
    assert_eq!(
        fit_to_constraints(bounds, CARD, 750),
        Rect { x: 0, y: 30, width: 100, height: 140 }
    );
    assert_eq!(
        fit_to_constraints(bounds, CARD, 50),
        Rect { x: 25, y: 65, width: 50, height: 70 }
    );
    assert_eq!(
        fit_to_constraints(Rect { x: 7, y: 9, width: 101, height: 200 }, CARD, 50),
        Rect { x: 7 + 25, y: 9 + 65, width: 50, height: 70 }
    );
    assert_eq!(
        fit_to_constraints(Rect { x: 0, y: 0, width: 10, height: 14 }, CARD, 750),
        Rect { x: 0, y: 0, width: 10, height: 14 }
    );
    assert_eq!(
        fit_to_constraints(Rect { x: 3, y: 4, width: 10, height: 15 }, CARD, 0),
        Rect { x: 8, y: 11, width: 0, height: 0 }
    );
}

#[test]
fn fitted_box_is_empty_where_the_wanted_height_does_not_fit() {
    // 100 wide wants 140 high; 140 goes into 100 zero times.
    assert_eq!(
        fit_to_constraints(Rect { x: 0, y: 0, width: 100, height: 100 }, CARD, 750),
        Rect { x: 50, y: 50, width: 0, height: 0 }
    );
    assert_eq!(
        fit_to_constraints(Rect { x: 2, y: 3, width: 10, height: 13 }, CARD, 750),
        Rect { x: 7, y: 9, width: 0, height: 0 }
    );
    assert_eq!(
        fit_to_constraints(Rect { x: 0, y: 0, width: 16, height: 14 }, CARD, 750),
        Rect { x: 8, y: 7, width: 0, height: 0 }
    );
}

#[test]
fn fitted_box_is_no_wider_than_allowed_and_lies_in_the_middle() {
    for width in [0u32, 1, 2, 9, 10, 33, 100] {
        for height in [0u32, 1, 13, 14, 15, 47, 300] {
            for max_width in [0u32, 1, 5, 10, 32, 1000] {
                let square = AspectRatio { height: 1, width: 1 };
                let wide = AspectRatio { height: 2, width: 7 };
                for ratio in [CARD, square, wide] {
                    let bounds = Rect { x: 11, y: 13, width, height };
                    let fitted = fit_to_constraints(bounds, ratio, max_width);
                    assert!(fitted.width <= max_width);
                    assert!(fitted.width <= width && fitted.height <= height);
                    let left = fitted.x - bounds.x;
                    let right = bounds.x + width - (fitted.x + fitted.width);
                    assert!(right == left || right == left + 1);
                    let above = fitted.y - bounds.y;
                    let below = bounds.y + height - (fitted.y + fitted.height);
                    assert!(below == above || below == above + 1);
                    let wanted_width = width.min(max_width);
                    let wanted_height = ratio.rounded_height(wanted_width);
                    if wanted_height <= height {
                        assert_eq!(fitted.width, wanted_width);
                        assert_eq!(fitted.height, ratio.rounded_height(fitted.width));
                        let exact = fitted.width as f64 * ratio.height as f64 / ratio.width as f64;
                        assert!((fitted.height as f64 - exact).abs() <= 0.5);
                    } else {
                        assert_eq!((fitted.width, fitted.height), (0, 0));
                    }
                }
            }
        }
    }
}

#[test]
fn scaling_cuts_the_fitted_box_out() {
    let img = numbered(20, 30);
    let out = scale_to_constraints(&img, Rect { x: 0, y: 0, width: 20, height: 30 }, CARD, 10);
    // 10 wide, 14 high, in the middle: from (5, 8).
    assert_eq!((out.width(), out.height()), (10, 14));
    for y in 0..14 {
        for x in 0..10 {
            assert_eq!(out.get_pixel(x, y), img.get_pixel(x + 5, y + 8));
        }
    }
    let part = scale_to_constraints(&img, Rect { x: 4, y: 2, width: 5, height: 20 }, CARD, 750);
    assert_eq!((part.width(), part.height()), (5, 7));
    assert_eq!(part.get_pixel(0, 0), img.get_pixel(4, 2 + 6));
    assert_eq!(part.get_pixel(4, 6), img.get_pixel(8, 2 + 12));
    let empty = scale_to_constraints(&img, Rect { x: 0, y: 0, width: 20, height: 20 }, CARD, 750);
    assert_eq!((empty.width(), empty.height()), (0, 0));
}

#[test]
fn rounding_with_radius_zero_changes_nothing() {
    let img = numbered(9, 7);
    let out = round_the_corners(&img, 0);
    assert_eq!((out.width(), out.height()), (9, 7));
    assert_eq!(out.as_raw(), img.as_raw());
    let none = round_the_corners(&numbered(0, 0), 0);
    assert_eq!((none.width(), none.height()), (0, 0));
}

#[test]
fn rounding_clears_what_lies_beyond_the_radius() {
    let img = numbered(8, 8);
    let out = round_the_corners(&img, 4);
    let kept = |x: u32, y: u32| assert_eq!(out.get_pixel(x, y), img.get_pixel(x, y));
    let cleared = |x: u32, y: u32| assert_eq!(out.get_pixel(x, y), CLEAR);
    // Top left, centre (4, 4).
    cleared(0, 0);
    cleared(1, 1);
    kept(2, 1);
    kept(1, 2);
    cleared(3, 0);
    cleared(0, 3);
    kept(3, 3);
    // Top right, centre (4, 4): the quadrant starts at the centre's column.
    kept(4, 0);
    cleared(5, 0);
    cleared(7, 0);
    cleared(7, 1);
    kept(7, 2);
    kept(6, 1);
    // Bottom left, centre (4, 4): the quadrant starts at the centre's row.
    kept(0, 4);
    cleared(0, 5);
    cleared(0, 7);
    kept(2, 7);
    cleared(1, 7);
    // Bottom right, centre (4, 4): centre column and row belong to it.
    kept(4, 4);
    kept(7, 4);
    kept(4, 7);
    kept(6, 7);
    kept(7, 6);
    cleared(7, 7);
}

#[test]
fn rounding_by_half_the_shorter_side_clears_every_corner_pixel_beyond_the_circle() {
    for (width, height) in [(8u32, 8u32), (10, 6), (7, 12), (1, 1), (2, 9), (16, 16)] {
        let img = numbered(width, height);
        let radius = width.min(height) / 2;
        let out = round_the_corners(&img, radius);
        assert_eq!((out.width(), out.height()), (width, height));
        let r = radius as i64;
        for y in 0..height {
            for x in 0..width {
                let (px, py) = (x as i64, y as i64);
                let (w, h) = (width as i64, height as i64);
                let beyond = |cx: i64, cy: i64| (px - cx).pow(2) + (py - cy).pow(2) > r * r;
                let off = (px < r && py < r && beyond(r, r))
                    || (px >= w - r && py < r && beyond(w - r, r))
                    || (px < r && py >= h - r && beyond(r, h - r))
                    || (px >= w - r && py >= h - r && beyond(w - r, h - r));
                if off {
                    assert_eq!(out.get_pixel(x, y).alpha, 0);
                    assert_eq!(out.get_pixel(x, y), CLEAR);
                } else {
                    assert_eq!(out.get_pixel(x, y), img.get_pixel(x, y));
                }
            }
        }
    }
}

#[test]
fn rounding_with_a_radius_beyond_the_picture() {
    let img = numbered(3, 3);
    let out = round_the_corners(&img, 5);
    // Every pixel lies in every quadrant; the centres are (5, 5), (-2, 5),
    // (5, -2) and (-2, -2), and each pixel is farther than 5 from one of
    // them.
    assert_eq!(pixels_of(&out), vec![CLEAR; 9]);
    // With radius 3 the centres are (3, 3), (0, 3), (3, 0) and (0, 0): the
    // first row and the first column are farther than 3 from (3, 3).
    let mild = round_the_corners(&img, 3);
    let kept = [[false, false, false], [false, true, true], [false, true, true]];
    for y in 0..3u32 {
        for x in 0..3u32 {
            let want = if kept[y as usize][x as usize] { img.get_pixel(x, y) } else { CLEAR };
            assert_eq!(mild.get_pixel(x, y), want);
        }
    }
    let big = round_the_corners(&numbered(2, 2), 4294967295);
    assert_eq!((big.width(), big.height()), (2, 2));
    assert_eq!(pixels_of(&big), vec![CLEAR; 4]);
}

#[test]
fn resampling_gives_the_size_asked_for() {
    let img = painted(10, 14, |_, _| Pixel { red: 4000, green: 5000, blue: 6000, alpha: 65535 });
    let out = rescale(&img, 25, 7);
    assert_eq!((out.width(), out.height()), (25, 7));
    assert_eq!(out.as_raw().len(), 4 * 25 * 7);
    for pixel in pixels_of(&out) {
        assert_eq!(pixel, Pixel { red: 4000, green: 5000, blue: 6000, alpha: 65535 });
    }
    let same = rescale(&numbered(6, 5), 6, 5);
    assert_eq!(same.as_raw(), numbered(6, 5).as_raw());
    let from_nothing = rescale(&numbered(0, 0), 3, 2);
    assert_eq!((from_nothing.width(), from_nothing.height()), (3, 2));
    assert_eq!(pixels_of(&from_nothing), vec![CLEAR; 6]);
    let to_nothing = rescale(&numbered(4, 4), 0, 9);
    assert_eq!((to_nothing.width(), to_nothing.height()), (0, 9));
}

#[test]
fn resampling_smooths_between_neighbours() {
    // Black left, white right: doubled in width, the pixels on both sides
    // of the seam lie between the two.
    let img = painted(2, 1, |x, _| if x == 0 { INK } else { WHITE });
    let out = rescale(&img, 4, 1);
    let reference = image::imageops::resize(
        &image::ImageBuffer::<image::Rgba<u16>, Vec<u16>>::from_raw(2, 1, img.as_raw().clone())
            .unwrap(),
        4,
        1,
        image::imageops::FilterType::Triangle,
    );
    assert_eq!(out.as_raw(), reference.as_raw());
    assert_eq!(out.get_pixel(0, 0), INK);
    assert_eq!(out.get_pixel(3, 0), WHITE);
    let seam = out.get_pixel(1, 0);
    assert!(0 < seam.red && seam.red < 65535);
}

#[test]
fn output_is_an_inch_and_a_half_wide() {
    assert_eq!(OUTPUT_WIDTH, 108);
    assert_eq!(CORNER_RADIUS, 37);
    let out = rescale_to_72dpi_1in(CARD, &numbered(10, 14));
    assert_eq!((out.width(), out.height()), (108, 151));
    let square = rescale_to_72dpi_1in(AspectRatio { height: 1, width: 1 }, &numbered(3, 3));
    assert_eq!((square.width(), square.height()), (108, 108));
}

#[test]
fn outline_is_drawn_on_the_edge_of_the_rectangle() {
    let mut img = numbered(8, 7);
    let before = numbered(8, 7);
    draw_rect(&mut img, &Rect { x: 2, y: 1, width: 4, height: 5 });
    for y in 0..7u32 {
        for x in 0..8u32 {
            let inside = (2..6).contains(&x) && (1..6).contains(&y);
            let on_edge = inside && (x == 2 || x == 5 || y == 1 || y == 5);
            let want = if on_edge { RED } else { before.get_pixel(x, y) };
            assert_eq!(img.get_pixel(x, y), want);
        }
    }
    let mut dot = numbered(3, 3);
    draw_rect(&mut dot, &Rect { x: 1, y: 1, width: 1, height: 1 });
    assert_eq!(dot.get_pixel(1, 1), RED);
    assert_eq!(dot.get_pixel(0, 1), numbered(3, 3).get_pixel(0, 1));
}

#[test]
fn debug_picture_outlines_every_cell() {
    let img = two_by_three_with_cards(1);
    let cells = find_grid_cells(&img).unwrap();
    let out = output_debug_image(&img, &cells);
    assert_eq!((out.width(), out.height()), (40, 60));
    for y in 0..60u32 {
        for x in 0..40u32 {
            let on_edge = cells.iter().any(|c| {
                let inside = c.x <= x && x < c.x + c.width && c.y <= y && y < c.y + c.height;
                let last_column = c.x + c.width - 1;
                let last_row = c.y + c.height - 1;
                inside && (x == c.x || x == last_column || y == c.y || y == last_row)
            });
            let want = if on_edge { RED } else { img.get_pixel(x, y) };
            assert_eq!(out.get_pixel(x, y), want);
        }
    }
    assert_eq!(out.get_pixel(6, 7), RED);
    assert_eq!(out.get_pixel(33, 52), RED);
    assert_eq!(output_debug_image(&img, &vec![]).as_raw(), img.as_raw());
}

#[test]
fn two_by_three_grid_gives_six_pictures_in_the_order_of_the_cells() {
    let img = two_by_three_with_cards(10);
    let paper = Pixel { red: 60000, green: 61000, blue: 62000, alpha: 65535 };
    let found = extract_images_from_image_grid(&img, CARD, 100, paper, true).unwrap();
    assert_eq!(
        found.cells,
        vec![
            Rect { x: 60, y: 70, width: 100, height: 140 },
            Rect { x: 180, y: 70, width: 160, height: 140 },
            Rect { x: 60, y: 230, width: 100, height: 140 },
            Rect { x: 180, y: 230, width: 160, height: 140 },
            Rect { x: 60, y: 390, width: 100, height: 140 },
            Rect { x: 180, y: 390, width: 160, height: 140 },
        ]
    );
    assert_eq!(found.images.len(), 6);
    let debug = found.debug_image.expect("the debug picture was asked for");
    assert_eq!(debug.as_raw(), output_debug_image(&img, &found.cells).as_raw());
    for (index, cell) in found.cells.iter().enumerate() {
        let out = &found.images[index];
        assert_eq!((out.width(), out.height()), (108, 151));
        // Step by step: cut out over the background, fit, round, resample.
        let sub = make_sub_image(&img, cell, paper);
        for y in 0..cell.height {
            for x in 0..cell.width {
                let source = img.get_pixel(cell.x + x, cell.y + y);
                let want = if source.alpha == 0 { paper } else { source };
                assert_eq!(sub.get_pixel(x, y), want);
            }
        }
        let whole = Rect { x: 0, y: 0, width: cell.width, height: cell.height };
        let fitted = scale_to_constraints(&sub, whole, CARD, 100);
        assert_eq!((fitted.width(), fitted.height()), (100, 140));
        let rounded = round_the_corners(&fitted, CORNER_RADIUS);
        assert_eq!(rounded.get_pixel(0, 0), CLEAR);
        assert_eq!(rounded.get_pixel(50, 70), fitted.get_pixel(50, 70));
        let resampled = rescale_to_72dpi_1in(CARD, &rounded);
        assert_eq!(out.as_raw(), resampled.as_raw());
        assert_eq!(out.as_raw(), extract_cell(&img, cell, CARD, 100, paper).as_raw());
        // The corners are cut away, the middle of each edge is paper.
        assert_eq!(out.get_pixel(0, 0), CLEAR);
        assert_eq!(out.get_pixel(107, 150), CLEAR);
        assert_eq!(out.get_pixel(54, 0), paper);
        assert_eq!(out.get_pixel(0, 75), paper);
    }
    // The six pictures differ as the cells do: each shows its own patch.
    for a in 0..6 {
        for b in a + 1..6 {
            assert_ne!(found.images[a].as_raw(), found.images[b].as_raw());
        }
    }
}

#[test]
fn without_a_grid_nothing_is_extracted() {
    let blank = painted(30, 20, |_, _| CLEAR);
    assert!(matches!(
        extract_images_from_image_grid(&blank, CARD, 750, WHITE, true),
        Err(FpcError::MissingBorder("left"))
    ));
    let filled = painted(30, 20, |x, y| {
        if (5..25).contains(&x) && (5..15).contains(&y) {
            INK
        } else {
            CLEAR
        }
    });
    assert!(matches!(
        extract_images_from_image_grid(&filled, CARD, 750, WHITE, false),
        Err(FpcError::BlankNotFound)
    ));
}

#[test]
fn the_debug_picture_is_made_only_when_asked_for() {
    let img = two_by_three_with_cards(1);
    let found = extract_images_from_image_grid(&img, CARD, 750, WHITE, false).unwrap();
    assert!(found.debug_image.is_none());
    assert_eq!(found.images.len(), 6);
}
