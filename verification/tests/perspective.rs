use detection::perspective;
use detection::raster::Image;

#[test]
fn rectangle_is_mapped_by_scaling_and_shifting() {
    let corners: Vec<(u32, u32)> = vec![(10, 20), (110, 20), (10, 220), (110, 220)];
    let h = perspective::calculate(&corners, 50, 100).unwrap();
    assert_eq!(perspective::map_point(&h, 0, 0, 800, 600), Some((10, 20)));
    assert_eq!(perspective::map_point(&h, 50, 0, 800, 600), Some((110, 20)));
    assert_eq!(perspective::map_point(&h, 0, 100, 800, 600), Some((10, 220)));
    assert_eq!(perspective::map_point(&h, 50, 100, 800, 600), Some((110, 220)));
    assert_eq!(perspective::map_point(&h, 25, 50, 800, 600), Some((60, 120)));
    assert_eq!(perspective::map_point(&h, 1, 1, 800, 600), Some((12, 22)));
}

#[test]
fn mapped_points_are_rounded_down() {
    // The canonical rectangle is three times as wide as the source rectangle.
    let corners: Vec<(u32, u32)> = vec![(0, 0), (10, 0), (0, 10), (10, 10)];
    let h = perspective::calculate(&corners, 30, 30).unwrap();
    assert_eq!(perspective::map_point(&h, 1, 2, 100, 100), Some((0, 0)));
    assert_eq!(perspective::map_point(&h, 3, 5, 100, 100), Some((1, 1)));
    assert_eq!(perspective::map_point(&h, 29, 30, 100, 100), Some((9, 10)));
}

#[test]
fn canonical_corners_go_to_the_detected_corners() {
    let corners: Vec<(u32, u32)> = vec![(120, 80), (640, 95), (100, 500), (700, 540)];
    let h = perspective::calculate(&corners, 744, 1034).unwrap();
    assert_eq!(perspective::map_point(&h, 0, 0, 800, 600), Some((120, 80)));
    assert_eq!(perspective::map_point(&h, 744, 0, 800, 600), Some((640, 95)));
    assert_eq!(perspective::map_point(&h, 0, 1034, 800, 600), Some((100, 500)));
    assert_eq!(perspective::map_point(&h, 744, 1034, 800, 600), Some((700, 540)));
}

#[test]
fn points_outside_the_source_are_not_mapped() {
    let corners: Vec<(u32, u32)> = vec![(10, 20), (110, 20), (10, 220), (110, 220)];
    let h = perspective::calculate(&corners, 50, 100).unwrap();
    assert_eq!(perspective::map_point(&h, 50, 100, 110, 600), None);
    assert_eq!(perspective::map_point(&h, 50, 100, 111, 220), None);
    assert_eq!(perspective::map_point(&h, 50, 100, 111, 221), Some((110, 220)));
}

#[test]
fn three_corners_on_a_line_give_no_transform() {
    let first_three: Vec<(u32, u32)> = vec![(0, 0), (10, 10), (20, 20), (0, 30)];
    assert!(perspective::calculate(&first_three, 50, 100).is_none());
    let last_three: Vec<(u32, u32)> = vec![(0, 30), (0, 0), (10, 10), (20, 20)];
    assert!(perspective::calculate(&last_three, 50, 100).is_none());
    let repeated: Vec<(u32, u32)> = vec![(5, 5), (5, 5), (5, 5), (5, 5)];
    assert!(perspective::calculate(&repeated, 50, 100).is_none());
}

#[test]
fn trapezoid_is_foreshortened() {
    // The top side is a third as long as the bottom side. The middle of the
    // canonical rectangle goes to the crossing of the diagonals, a quarter of
    // the way down, and the middle of the left side to the same height.
    let corners: Vec<(u32, u32)> = vec![(300, 0), (600, 0), (0, 900), (900, 900)];
    let h = perspective::calculate(&corners, 100, 100).unwrap();
    assert_eq!(perspective::map_point(&h, 50, 50, 1000, 1000), Some((450, 225)));
    assert_eq!(perspective::map_point(&h, 0, 50, 1000, 1000), Some((225, 225)));
}

fn numbered_image(width: u32, height: u32) -> Image {
    let mut image = Image::new(width, height);
    for y in 0..height {
        for x in 0..width {
            image.put_pixel(x, y, (x as u8, y as u8, (x + y) as u8, 255));
        }
    }
    image
}

#[test]
fn resampling_copies_the_source_pixels() {
    let source = numbered_image(40, 30);
    let corners: Vec<(u32, u32)> = vec![(10, 5), (30, 5), (10, 25), (30, 25)];
    // The canonical rectangle is 10×10 with a margin of 2 that is cut away.
    let h = perspective::calculate(&corners, 10, 10).unwrap();
    let mut target = Image::new(6, 6);
    perspective::resample(&source, &h, 2, &mut target);
    for y in 0..6u32 {
        for x in 0..6u32 {
            let sx: u32 = 10 + 2 * (x + 2);
            let sy: u32 = 5 + 2 * (y + 2);
            assert_eq!(target.get_pixel(x, y), (sx as u8, sy as u8, (sx + sy) as u8, 255));
        }
    }
}

#[test]
fn resampling_skips_what_falls_outside() {
    // The source image ends at column 20, in the middle of the rectangle.
    let source = numbered_image(20, 30);
    let corners: Vec<(u32, u32)> = vec![(10, 5), (30, 5), (10, 25), (30, 25)];
    let h = perspective::calculate(&corners, 10, 10).unwrap();
    let mut target = Image::new(10, 10);
    target.put_pixel(9, 9, (1, 2, 3, 4));
    perspective::resample(&source, &h, 0, &mut target);
    assert_eq!(target.get_pixel(4, 0), (18, 5, 23, 255));
    assert_eq!(target.get_pixel(5, 0), (0, 0, 0, 0));
    assert_eq!(target.get_pixel(9, 9), (1, 2, 3, 4));
}
