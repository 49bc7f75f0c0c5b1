use detection::corners;
use detection::filter;
use detection::lines::LineCandidate;

fn line(angle: i64, radius: u64) -> LineCandidate {
    LineCandidate { angle_sum: angle, radius_sum: radius, support: 1 }
}

#[test]
fn near_points_are_merged_into_their_average() {
    let points: Vec<(u32, u32)> = vec![(100, 100), (104, 103), (300, 300), (98, 99)];
    // The first cluster holds (100, 100), (104, 103) and (98, 99): the
    // average is (100 2/3, 100 2/3).
    assert_eq!(filter::merge(&points), vec![(100u32, 100u32), (300, 300)]);
}

#[test]
fn merging_reach_is_exclusive() {
    assert_eq!(filter::merge(&vec![(0, 0), (16, 0)]), vec![(0u32, 0u32), (16, 0)]);
    assert_eq!(filter::merge(&vec![(0, 0), (15, 0)]), vec![(7u32, 0u32)]);
    assert_eq!(filter::merge(&vec![(50, 50), (50, 66)]), vec![(50u32, 50u32), (50, 66)]);
    // 9² + 13² = 250, 10² + 13² = 269
    assert_eq!(filter::merge(&vec![(50, 50), (59, 63)]), vec![(54u32, 56u32)]);
    assert_eq!(filter::merge(&vec![(50, 50), (60, 63)]), vec![(50u32, 50u32), (60, 63)]);
}

#[test]
fn merging_measures_from_the_running_average() {
    // After (0, 0) and (14, 0) the cluster lies at (7, 0): (22, 0) is in
    // reach of it although it is 22 pixels from the first point.
    assert_eq!(filter::merge(&vec![(0, 0), (14, 0), (22, 0)]), vec![(12u32, 0u32)]);
    // In another order the second point starts a cluster of its own.
    assert_eq!(filter::merge(&vec![(0, 0), (22, 0), (14, 0)]), vec![(7u32, 0u32), (22, 0)]);
}

#[test]
fn merging_nothing_gives_nothing() {
    let none: Vec<(u32, u32)> = Vec::new();
    assert_eq!(filter::merge(&none), none);
    assert_eq!(filter::drop_collinear(&none), none);
    assert_eq!(filter::merge(&vec![(3, 4)]), vec![(3u32, 4u32)]);
}

#[test]
fn point_between_two_others_is_dropped() {
    let points: Vec<(u32, u32)> = vec![(0, 0), (100, 0), (50, 1)];
    assert_eq!(filter::drop_collinear(&points), vec![(0u32, 0u32), (100, 0)]);
    let points: Vec<(u32, u32)> = vec![(50, 1), (0, 0), (100, 0)];
    assert_eq!(filter::drop_collinear(&points), vec![(0u32, 0u32), (100, 0)]);
    let points: Vec<(u32, u32)> = vec![(0, 0), (50, 1), (100, 0)];
    assert_eq!(filter::drop_collinear(&points), vec![(0u32, 0u32), (100, 0)]);
}

#[test]
fn triangles_with_area_are_kept() {
    // Twice the area is 100 * 4 = 400: not below the limit.
    let points: Vec<(u32, u32)> = vec![(0, 0), (100, 0), (50, 4)];
    assert_eq!(filter::drop_collinear(&points), points);
    // Twice the area is 399.
    let points: Vec<(u32, u32)> = vec![(0, 0), (133, 0), (60, 3)];
    assert_eq!(filter::drop_collinear(&points), vec![(0u32, 0u32), (133, 0)]);
    let corners: Vec<(u32, u32)> = vec![(200, 100), (600, 100), (200, 400), (600, 400)];
    assert_eq!(filter::drop_collinear(&corners), corners);
}

#[test]
fn every_inner_point_of_a_row_is_dropped() {
    let points: Vec<(u32, u32)> = vec![(10, 10), (40, 10), (90, 10), (200, 10), (10, 300)];
    assert_eq!(filter::drop_collinear(&points), vec![(10u32, 10u32), (200, 10), (10, 300)]);
}

#[test]
fn equal_sides_drop_both_ends() {
    // An equilateral arrangement cannot nearly lie on a line, but a
    // repeated point can: every side that is longest marks its opposite.
    let points: Vec<(u32, u32)> = vec![(5, 5), (5, 5), (5, 5)];
    assert_eq!(filter::drop_collinear(&points), Vec::<(u32, u32)>::new());
    let points: Vec<(u32, u32)> = vec![(0, 0), (10, 0), (0, 0)];
    // The sides from the repeated point are equal and longest.
    assert_eq!(filter::drop_collinear(&points), vec![(10u32, 0u32)]);
}

#[test]
fn line_found_twice_still_gives_four_corners() {
    let lines = vec![line(0, 180), line(0, 182), line(0, 540), line(225, 90), line(225, 360)];
    let mut plain: Vec<(u32, u32)> = Vec::new();
    corners::calculate(&lines, 800, 600, &mut plain);
    assert_eq!(plain.len(), 0);
    assert_eq!(
        corners::crossings(&lines, 800, 600),
        vec![(200u32, 100u32), (200, 400), (202, 100), (202, 400), (600, 100), (600, 400)]
    );
    let mut filtered: Vec<(u32, u32)> = vec![(1, 1)];
    filter::calculate(&lines, 800, 600, &mut filtered);
    assert_eq!(filtered, vec![(201u32, 100u32), (600, 100), (201, 400), (600, 400)]);
}

#[test]
fn filtering_keeps_a_plain_rectangle() {
    let lines = vec![line(225, 360), line(0, 540), line(225, 90), line(0, 180)];
    let mut plain: Vec<(u32, u32)> = Vec::new();
    corners::calculate(&lines, 800, 600, &mut plain);
    let mut filtered: Vec<(u32, u32)> = Vec::new();
    filter::calculate(&lines, 800, 600, &mut filtered);
    assert_eq!(filtered, plain);
    assert_eq!(filtered.len(), 4);
}

#[test]
fn crossing_on_a_side_is_dropped() {
    // A slanted line crosses the top and the left side between the corners,
    // and the other two sides outside the image.
    let lines = vec![line(0, 36), line(0, 684), line(225, 27), line(225, 513), line(133, 237)];
    let mut plain: Vec<(u32, u32)> = Vec::new();
    corners::calculate(&lines, 800, 600, &mut plain);
    assert_eq!(plain.len(), 0);
    assert_eq!(corners::crossings(&lines, 800, 600).len(), 6);
    let mut filtered: Vec<(u32, u32)> = Vec::new();
    filter::calculate(&lines, 800, 600, &mut filtered);
    assert_eq!(filtered, vec![(40u32, 30u32), (760, 30), (40, 570), (760, 570)]);
}

#[test]
fn assignment_needs_exactly_four_points() {
    let mut out: Vec<(u32, u32)> = vec![(7, 7)];
    corners::assign(&vec![(1, 1), (2, 2), (3, 3)], 10, 10, &mut out);
    assert_eq!(out.len(), 0);
    corners::assign(&vec![(9, 9), (0, 9), (9, 0), (0, 0)], 10, 10, &mut out);
    assert_eq!(out, vec![(0u32, 0u32), (9, 0), (0, 9), (9, 9)]);
    // Of two points equally near to a corner the first is taken.
    corners::assign(&vec![(3, 0), (0, 3), (9, 9), (9, 8)], 10, 10, &mut out);
    assert_eq!(out[0], (3, 0));
}
