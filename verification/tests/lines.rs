use detection::lines;
use detection::lines::LineCandidate;

fn clusters_of(cells: &[(usize, usize, u32)]) -> Vec<LineCandidate> {
    let mut votes: Vec<u32> = vec![0u32; 900 * 900];
    for (a, r, v) in cells {
        votes[a * 900 + r] = *v;
    }
    let mut found: Vec<LineCandidate> = vec![LineCandidate { angle_sum: 7, radius_sum: 7, support: 7 }];
    lines::calculate(&votes, &mut found);
    found
}

#[test]
fn wrapped_delta_goes_the_short_way() {
    let at_one = LineCandidate { angle_sum: 1, radius_sum: 0, support: 1 };
    assert_eq!(lines::wrapped_delta(&at_one, 899), -2);
    assert_eq!(lines::wrapped_delta(&at_one, 3), 2);
    assert_eq!(lines::wrapped_delta(&at_one, 450), 449);
    assert_eq!(lines::wrapped_delta(&at_one, 452), -449);
    let at_end = LineCandidate { angle_sum: 899, radius_sum: 0, support: 1 };
    assert_eq!(lines::wrapped_delta(&at_end, 1), 2);
    assert_eq!(lines::wrapped_delta(&at_end, 890), -9);
}

#[test]
fn wrapped_delta_is_scaled_by_the_support() {
    // Three cells whose angles sum to 31: the average is 10 1/3.
    let line = LineCandidate { angle_sum: 31, radius_sum: 0, support: 3 };
    assert_eq!(lines::wrapped_delta(&line, 12), 5);
    assert_eq!(lines::wrapped_delta(&line, 10), -1);
    assert_eq!(lines::wrapped_delta(&line, 899), 3 * 899 - 3 * 900 - 31);
}

#[test]
fn average_of_one_and_899_is_near_zero() {
    let at_one = LineCandidate { angle_sum: 1, radius_sum: 0, support: 1 };
    // 1 and 899 - 900: the average of the two is 0.
    assert_eq!(lines::wrapped_weighted_average(&at_one, 899), 0);
    let at_end = LineCandidate { angle_sum: 899, radius_sum: 0, support: 1 };
    // 899 and 1 + 900: the average of the two is 900, which is 0 on the ring.
    assert_eq!(lines::wrapped_weighted_average(&at_end, 1), 1800);
}

#[test]
fn average_moves_in_proportion_to_the_weight() {
    // Average 10 over four cells, joined by a cell at 20: (40 + 20) / 5 = 12.
    let line = LineCandidate { angle_sum: 40, radius_sum: 0, support: 4 };
    assert_eq!(lines::wrapped_weighted_average(&line, 20), 60);
}

#[test]
fn only_cells_above_the_threshold_are_lines() {
    let found = clusters_of(&[(10, 20, 200), (30, 400, 201), (500, 7, 199)]);
    assert_eq!(found, vec![LineCandidate { angle_sum: 30, radius_sum: 400, support: 1 }]);
}

#[test]
fn empty_accumulator_gives_no_lines() {
    let found = clusters_of(&[]);
    assert_eq!(found.len(), 0);
}

#[test]
fn neighbours_merge_into_one_candidate() {
    let found = clusters_of(&[(100, 300, 500), (100, 301, 400), (101, 300, 300)]);
    assert_eq!(found, vec![LineCandidate { angle_sum: 301, radius_sum: 901, support: 3 }]);
}

#[test]
fn clusters_wrap_around_the_ring() {
    // Cells are taken in storage order: angle 1 first, then angle 899.
    let found = clusters_of(&[(899, 100, 300), (1, 100, 300)]);
    assert_eq!(found, vec![LineCandidate { angle_sum: 0, radius_sum: 200, support: 2 }]);
}

#[test]
fn reach_is_exclusive() {
    // 20 buckets of angle, or 50 of radius, are too far.
    let found = clusters_of(&[(100, 300, 300), (120, 300, 300)]);
    assert_eq!(found.len(), 2);
    let found = clusters_of(&[(100, 300, 300), (119, 300, 300)]);
    assert_eq!(found.len(), 1);
    let found = clusters_of(&[(100, 300, 300), (100, 350, 300)]);
    assert_eq!(found.len(), 2);
    let found = clusters_of(&[(100, 300, 300), (100, 349, 300)]);
    assert_eq!(found.len(), 1);
}

#[test]
fn a_cell_joins_the_first_candidate_in_reach() {
    // Candidates at radius 300 and 360; the cell at 330 is in reach of both
    // and joins the one that was started first.
    let found = clusters_of(&[(100, 300, 300), (100, 360, 300), (101, 330, 300)]);
    assert_eq!(
        found,
        vec![
            LineCandidate { angle_sum: 201, radius_sum: 630, support: 2 },
            LineCandidate { angle_sum: 100, radius_sum: 360, support: 1 },
        ]
    );
}

#[test]
fn reach_is_measured_from_the_running_average() {
    // After 300 and 340 the average radius is 320, so 369 is in reach
    // although it is 69 buckets from the first cell.
    let found = clusters_of(&[(100, 300, 300), (100, 340, 300), (100, 369, 300)]);
    assert_eq!(found, vec![LineCandidate { angle_sum: 300, radius_sum: 1009, support: 3 }]);
}
