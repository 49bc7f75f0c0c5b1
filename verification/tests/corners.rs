use detection::corners;
use detection::corners::NormalLine;
use detection::lines::LineCandidate;
use detection::trig::TRIG_ONE;

fn line(angle: i64, radius: u64) -> LineCandidate {
    LineCandidate { angle_sum: angle, radius_sum: radius, support: 1 }
}

fn corners_of(lines: &Vec<LineCandidate>, width: u32, height: u32) -> Vec<(u32, u32)> {
    let mut points: Vec<(u32, u32)> = vec![(9, 9)];
    corners::calculate(lines, width, height, &mut points);
    points
}

#[test]
fn normal_form_of_axis_lines() {
    // In an 800×600 image the diagonal is 1000: bucket 180 is 200 pixels out.
    let vertical = corners::to_normal(&line(0, 180), 1000);
    assert_eq!(vertical, NormalLine { a: TRIG_ONE, b: 0, e: 200 * TRIG_ONE as i128 });
    let horizontal = corners::to_normal(&line(225, 90), 1000);
    assert_eq!(horizontal, NormalLine { a: 0, b: TRIG_ONE, e: 100 * TRIG_ONE as i128 });
}

#[test]
fn normal_form_wraps_the_angle() {
    let wrapped = corners::to_normal(&line(900, 180), 1000);
    assert_eq!(wrapped, corners::to_normal(&line(0, 180), 1000));
    let below = corners::to_normal(&line(-225, 180), 1000);
    assert_eq!(below, corners::to_normal(&line(675, 180), 1000));
}

#[test]
fn normal_form_interpolates_between_buckets() {
    // Halfway between the buckets 0 and 1.
    let half = LineCandidate { angle_sum: 1, radius_sum: 0, support: 2 };
    let normal = corners::to_normal(&half, 1000);
    let (c1, s1) = detection::trig::cos_sin(1);
    assert_eq!(normal.a, (TRIG_ONE + c1) / 2);
    assert_eq!(normal.b, s1 / 2);
    assert_eq!(normal.e, 0);
}

#[test]
fn offset_is_the_average_radius_in_pixels() {
    // Radii 179 and 180 average to 179.5 buckets; the diagonal of 1800 makes
    // a bucket two pixels wide.
    let pair = LineCandidate { angle_sum: 0, radius_sum: 359, support: 2 };
    let normal = corners::to_normal(&pair, 1800);
    assert_eq!(normal.e, 359 * TRIG_ONE as i128);
}

#[test]
fn perpendicular_lines_cross_where_expected() {
    let vertical = NormalLine { a: TRIG_ONE, b: 0, e: 200 * TRIG_ONE as i128 };
    let horizontal = NormalLine { a: 0, b: TRIG_ONE, e: 100 * TRIG_ONE as i128 };
    assert_eq!(corners::cross(&vertical, &horizontal, 800, 600), Some((200, 100)));
    assert_eq!(corners::cross(&horizontal, &vertical, 800, 600), Some((200, 100)));
}

#[test]
fn crossings_are_rounded_down() {
    // x = 200.75, y = 100.5
    let vertical = NormalLine { a: 4, b: 0, e: 803 };
    let horizontal = NormalLine { a: 0, b: 2, e: 201 };
    assert_eq!(corners::cross(&vertical, &horizontal, 800, 600), Some((200, 100)));
}

#[test]
fn parallel_lines_do_not_cross() {
    let one = NormalLine { a: TRIG_ONE, b: 0, e: 200 * TRIG_ONE as i128 };
    let two = NormalLine { a: TRIG_ONE, b: 0, e: 300 * TRIG_ONE as i128 };
    assert_eq!(corners::cross(&one, &two, 800, 600), None);
}

#[test]
fn crossings_outside_the_image_are_dropped() {
    let vertical = NormalLine { a: 1, b: 0, e: 800 };
    let horizontal = NormalLine { a: 0, b: 1, e: 100 };
    assert_eq!(corners::cross(&vertical, &horizontal, 800, 600), None);
    assert_eq!(corners::cross(&vertical, &horizontal, 801, 600), Some((800, 100)));
    let low = NormalLine { a: 0, b: 1, e: 600 };
    let left = NormalLine { a: 1, b: 0, e: 0 };
    assert_eq!(corners::cross(&left, &low, 800, 600), None);
    assert_eq!(corners::cross(&left, &horizontal, 800, 600), Some((0, 100)));
    // A crossing at negative x: x + y = 100 and y = 200.
    let slanted = NormalLine { a: 1, b: 1, e: 100 };
    let flat = NormalLine { a: 0, b: 1, e: 200 };
    assert_eq!(corners::cross(&slanted, &flat, 800, 600), None);
}

#[test]
fn four_lines_of_a_rectangle_give_four_ordered_corners() {
    // Given in an order that is not the order of the corners.
    let lines = vec![line(225, 360), line(0, 540), line(225, 90), line(0, 180)];
    let points = corners_of(&lines, 800, 600);
    assert_eq!(points, vec![(200, 100), (600, 100), (200, 400), (600, 400)]);
}

#[test]
fn too_few_or_too_many_crossings_give_nothing() {
    let three = vec![line(0, 180), line(225, 90), line(225, 360)];
    assert_eq!(corners_of(&three, 800, 600).len(), 0);
    let five = vec![line(0, 180), line(0, 360), line(0, 540), line(225, 90), line(225, 360)];
    assert_eq!(corners_of(&five, 800, 600).len(), 0);
    let none: Vec<LineCandidate> = Vec::new();
    assert_eq!(corners_of(&none, 800, 600).len(), 0);
}

#[test]
fn a_corner_may_be_claimed_twice() {
    // All four crossings lie in the top-left part of a large image: each
    // image corner takes the crossing nearest to it, with no regard to the others.
    let lines = vec![line(0, 9), line(0, 18), line(225, 9), line(225, 18)];
    // The diagonal of 600×800 is 1000: buckets 9 and 18 are 10 and 20 pixels out.
    let points = corners_of(&lines, 600, 800);
    assert_eq!(points, vec![(10, 10), (20, 10), (10, 20), (20, 20)]);
}
