use fpc::corners::{round_a_corner, Quadrant};
use fpc::outline::draw_line;
use fpc::scan::{blank_at, find_first};
use fpc::{fits_for_resampling, Axis, Image, Pixel, Rect, MAX_SIDE};

const CLEAR: Pixel = Pixel { red: 0, green: 0, blue: 0, alpha: 0 };
const TEAL: Pixel = Pixel { red: 0, green: 30000, blue: 30000, alpha: 65535 };

fn counted(width: u32, height: u32) -> Image {
    let samples: Vec<u16> = (0..4 * width * height).map(|k| k as u16).collect();
    Image::from_raw(width, height, samples).expect("four samples for each pixel")
}

#[test]
fn pixels_lie_row_by_row_four_samples_each() {
    let img = counted(3, 2);
    assert_eq!((img.width(), img.height()), (3, 2));
    assert_eq!(img.get_pixel(0, 0), Pixel { red: 0, green: 1, blue: 2, alpha: 3 });
    assert_eq!(img.get_pixel(2, 0), Pixel { red: 8, green: 9, blue: 10, alpha: 11 });
    assert_eq!(img.get_pixel(0, 1), Pixel { red: 12, green: 13, blue: 14, alpha: 15 });
    assert_eq!(img.get_pixel(2, 1), Pixel { red: 20, green: 21, blue: 22, alpha: 23 });
    assert_eq!(img.as_raw(), &(0..24).collect::<Vec<u16>>());
    assert_eq!(img.into_raw(), (0..24).collect::<Vec<u16>>());
}

#[test]
fn samples_taken_over_come_back_unchanged() {
    let samples: Vec<u16> = vec![5, 6, 7, 8, 9, 10, 11, 12];
    let img = Image::from_samples(1, 2, samples.clone());
    assert_eq!((img.width(), img.height()), (1, 2));
    assert_eq!(img.get_pixel(0, 1), Pixel { red: 9, green: 10, blue: 11, alpha: 12 });
    assert_eq!(img, Image::from_raw(1, 2, samples.clone()).unwrap());
    assert_eq!(img.into_raw(), samples);
}

#[test]
fn a_filled_picture_has_one_colour() {
    let img = Image::filled(4, 3, TEAL);
    assert_eq!((img.width(), img.height()), (4, 3));
    assert_eq!(img.as_raw().len(), 48);
    for y in 0..3 {
        for x in 0..4 {
            assert_eq!(img.get_pixel(x, y), TEAL);
        }
    }
    assert_eq!(Image::filled(0, 9, TEAL).into_raw(), Vec::<u16>::new());
    assert_eq!(Pixel::transparent(), CLEAR);
    assert_eq!(Image::filled(1, 1, Pixel::transparent()).into_raw(), vec![0, 0, 0, 0]);
}

#[test]
fn putting_a_pixel_changes_that_pixel_only() {
    let mut img = counted(3, 3);
    img.put_pixel(1, 2, TEAL);
    for y in 0..3 {
        for x in 0..3 {
            let want = if (x, y) == (1, 2) { TEAL } else { counted(3, 3).get_pixel(x, y) };
            assert_eq!(img.get_pixel(x, y), want);
        }
    }
    assert_eq!((img.width(), img.height()), (3, 3));
}

#[test]
fn a_copy_is_the_same_picture() {
    let img = counted(5, 4);
    let mut copy = img.duplicate();
    assert_eq!(copy, img);
    copy.put_pixel(0, 0, TEAL);
    assert_ne!(copy, img);
    assert_eq!(img, counted(5, 4));
}

#[test]
fn cropping_takes_the_part_that_the_rectangle_covers() {
    let img = counted(5, 4);
    let part = img.crop(Rect { x: 1, y: 2, width: 3, height: 2 });
    assert_eq!((part.width(), part.height()), (3, 2));
    for y in 0..2 {
        for x in 0..3 {
            assert_eq!(part.get_pixel(x, y), img.get_pixel(x + 1, y + 2));
        }
    }
    assert_eq!(img.crop(Rect { x: 0, y: 0, width: 5, height: 4 }), img);
    let none = img.crop(Rect { x: 5, y: 4, width: 0, height: 0 });
    assert_eq!((none.width(), none.height()), (0, 0));
    let sliver = img.crop(Rect { x: 4, y: 0, width: 1, height: 4 });
    assert_eq!(sliver.get_pixel(0, 3), img.get_pixel(4, 3));
}

#[test]
fn first_match_forward_and_backward() {
    // Alpha along the row: 0 7 7 0 0 7.
    let alphas = [0u16, 7, 7, 0, 0, 7];
    let samples: Vec<u16> = alphas.iter().flat_map(|a| [1, 1, 1, *a]).collect();
    let img = Image::from_raw(6, 1, samples).unwrap();
    assert!(blank_at(&img, Axis::X, 0, 0));
    assert!(!blank_at(&img, Axis::X, 0, 1));
    assert!(blank_at(&img, Axis::Y, 3, 0));
    assert!(!blank_at(&img, Axis::Y, 5, 0));
    assert_eq!(find_first(&img, Axis::X, 0, 0, 6, false, false), Some(1));
    assert_eq!(find_first(&img, Axis::X, 0, 0, 6, true, false), Some(5));
    assert_eq!(find_first(&img, Axis::X, 0, 0, 6, false, true), Some(0));
    assert_eq!(find_first(&img, Axis::X, 0, 0, 6, true, true), Some(4));
    assert_eq!(find_first(&img, Axis::X, 0, 3, 5, false, false), None);
    assert_eq!(find_first(&img, Axis::X, 0, 1, 3, true, true), None);
    assert_eq!(find_first(&img, Axis::X, 0, 2, 2, false, true), None);
    assert_eq!(find_first(&img, Axis::Y, 2, 0, 1, false, false), Some(0));
    assert_eq!(find_first(&img, Axis::Y, 2, 0, 1, false, true), None);
}

#[test]
fn a_line_is_drawn_along_its_axis() {
    let mut img = counted(5, 4);
    draw_line(&mut img, Axis::X, 1, 2, 5, TEAL);
    draw_line(&mut img, Axis::Y, 0, 1, 3, TEAL);
    draw_line(&mut img, Axis::Y, 4, 3, 3, TEAL);
    for y in 0..4u32 {
        for x in 0..5u32 {
            let on_row = y == 1 && (2..5).contains(&x);
            let on_column = x == 0 && (1..3).contains(&y);
            let want = if on_row || on_column { TEAL } else { counted(5, 4).get_pixel(x, y) };
            assert_eq!(img.get_pixel(x, y), want);
        }
    }
}

#[test]
fn one_corner_is_rounded_inside_its_quadrant_only() {
    let mut img = counted(6, 6);
    let quadrant =
        Quadrant { x_start: 0, x_end: 3, y_start: 0, y_end: 3, center_x: 3, center_y: 3 };
    round_a_corner(&mut img, &quadrant, 3);
    for y in 0..6u32 {
        for x in 0..6u32 {
            let inside = x < 3 && y < 3;
            let (dx, dy) = (x as i64 - 3, y as i64 - 3);
            let beyond = dx * dx + dy * dy > 9;
            let want = if inside && beyond { CLEAR } else { counted(6, 6).get_pixel(x, y) };
            assert_eq!(img.get_pixel(x, y), want);
        }
    }
    assert_eq!(img.get_pixel(0, 0), CLEAR);
    assert_eq!(img.get_pixel(1, 0), CLEAR);
    assert_eq!(img.get_pixel(2, 0), CLEAR);
    assert_eq!(img.get_pixel(2, 1), counted(6, 6).get_pixel(2, 1));
    assert_eq!(img.get_pixel(1, 1), counted(6, 6).get_pixel(1, 1));
    assert_eq!(img.get_pixel(3, 0), counted(6, 6).get_pixel(3, 0));
    assert_eq!(img.get_pixel(5, 5), counted(6, 6).get_pixel(5, 5));
}

#[test]
fn resampling_has_to_fit_in_memory_and_in_single_precision() {
    assert_eq!(MAX_SIDE, 1 << 20);
    assert!(fits_for_resampling(750, 1050, 108, 151));
    assert!(fits_for_resampling(0, 0, 0, 0));
    assert!(fits_for_resampling(1, 1, 1, 1));
    // No side may be longer than 2^20 pixels.
    assert!(fits_for_resampling(1 << 20, 1, 1, 1));
    assert!(fits_for_resampling(1, 1 << 20, 1, 1));
    assert!(fits_for_resampling(1, 1, 1 << 20, 1));
    assert!(fits_for_resampling(1, 1, 1, 1 << 20));
    assert!(!fits_for_resampling((1 << 20) + 1, 1, 1, 1));
    assert!(!fits_for_resampling(1, (1 << 20) + 1, 1, 1));
    assert!(!fits_for_resampling(1, 1, (1 << 20) + 1, 1));
    assert!(!fits_for_resampling(1, 1, 1, (1 << 20) + 1));
    assert!(!fits_for_resampling(1, 20_000_003, 1, 25_000_000));
    assert!(!fits_for_resampling(4294967295, 1, 108, 4294967295));
    // Sixteen bytes for each pixel between the two passes, eight after.
    let limit = isize::MAX as u128;
    let sides = [0u32, 1, 1000, 1 << 16, 1 << 20];
    for width in sides {
        for new_width in sides {
            for new_height in sides {
                let between = 16 * width as u128 * new_height as u128;
                let after = 8 * new_width as u128 * new_height as u128;
                assert_eq!(
                    fits_for_resampling(width, 7, new_width, new_height),
                    between <= limit && after <= limit
                );
            }
        }
    }
}
