use detection::hough;

fn votes_of(mask: &Vec<u32>, width: u32, height: u32) -> Vec<u32> {
    let mut votes: Vec<u32> = vec![5u32; 900 * 900];
    hough::calculate(mask, width, height, &mut votes);
    votes
}

fn row_total(votes: &Vec<u32>, a: usize) -> u32 {
    let mut total: u32 = 0;
    for r in 0..900usize {
        total += votes[a * 900 + r];
    }
    total
}

#[test]
fn diagonal_is_rounded_up() {
    assert_eq!(hough::diagonal_of(3, 4), 5);
    assert_eq!(hough::diagonal_of(800, 600), 1000);
    assert_eq!(hough::diagonal_of(1, 1), 2);
    assert_eq!(hough::diagonal_of(10, 10), 15);
    assert_eq!(hough::diagonal_of(1920, 1080), 2203);
    assert_eq!(hough::diagonal_of(0, 0), 0);
    assert_eq!(hough::diagonal_of(0, 7), 7);
    assert_eq!(hough::diagonal_of(u32::MAX, u32::MAX), 6074000999);
}

#[test]
fn empty_mask_clears_the_accumulator() {
    let mask: Vec<u32> = vec![0u32; 10 * 10];
    let votes = votes_of(&mask, 10, 10);
    assert!(votes.iter().all(|v| *v == 0));
}

#[test]
fn single_pixel_votes_once_per_angle_it_faces() {
    // Pixel (3, 4) of a 10×10 image, whose diagonal is 15.
    let mut mask: Vec<u32> = vec![0u32; 10 * 10];
    mask[4 * 10 + 3] = 1;
    let votes = votes_of(&mask, 10, 10);
    // At angle 0 the distance is x = 3: bucket 3 * 900 / 15.
    assert_eq!(votes[0 * 900 + 180], 1);
    assert_eq!(row_total(&votes, 0), 1);
    // At a quarter turn the distance is y = 4.
    assert_eq!(votes[225 * 900 + 240], 1);
    assert_eq!(row_total(&votes, 225), 1);
    // At half a turn and at three quarters the distance is negative.
    assert_eq!(row_total(&votes, 450), 0);
    assert_eq!(row_total(&votes, 675), 0);
    // At 1/8 turn (bucket 112.5 does not exist) the nearest buckets face the pixel.
    assert_eq!(row_total(&votes, 112), 1);
    assert_eq!(row_total(&votes, 113), 1);
}

#[test]
fn marks_are_added_up() {
    // A column of five pixels at x = 6, with marks 1, 2, 3, 4, 5.
    let mut mask: Vec<u32> = vec![0u32; 10 * 10];
    for y in 0..5usize {
        mask[y * 10 + 6] = y as u32 + 1;
    }
    let votes = votes_of(&mask, 10, 10);
    assert_eq!(votes[0 * 900 + 360], 15);
    assert_eq!(row_total(&votes, 0), 15);
    // Seen from above, each lies at its own distance y.
    for y in 0..5usize {
        assert_eq!(votes[225 * 900 + y * 60], y as u32 + 1);
    }
}

#[test]
fn origin_votes_into_the_first_bucket_of_every_angle() {
    let mut mask: Vec<u32> = vec![0u32; 4 * 4];
    mask[0] = 1;
    let votes = votes_of(&mask, 4, 4);
    for a in 0..900usize {
        assert_eq!(votes[a * 900], 1);
        assert_eq!(row_total(&votes, a), 1);
    }
}

#[test]
fn translation_moves_radii_and_keeps_angles() {
    // In an 800×600 image the diagonal is 1000, so 10 pixels span 9 buckets.
    let mut mask: Vec<u32> = vec![0u32; 800 * 600];
    let mut moved: Vec<u32> = vec![0u32; 800 * 600];
    let marks: [(usize, usize); 4] = [(100, 50), (100, 300), (400, 50), (250, 170)];
    for (x, y) in marks {
        mask[y * 800 + x] = 1;
        moved[(y + 20) * 800 + (x + 10)] = 1;
    }
    let before = votes_of(&mask, 800, 600);
    let after = votes_of(&moved, 800, 600);
    for r in 0..880usize {
        // Angle 0 looks along x: ten pixels are nine buckets.
        assert_eq!(after[0 * 900 + r + 9], before[0 * 900 + r]);
    }
    for r in 0..880usize {
        // A quarter turn looks along y: twenty pixels are eighteen buckets.
        assert_eq!(after[225 * 900 + r + 18], before[225 * 900 + r]);
    }
    for a in 0..226usize {
        assert_eq!(row_total(&after, a), 4);
        assert_eq!(row_total(&before, a), 4);
    }
}
