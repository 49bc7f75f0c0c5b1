use detection::sobel;
use detection::LumaVec;
use detection::YUYV442;

fn gradient_of(data: &Vec<u8>, width: u32, height: u32, fill: u8) -> Vec<u8> {
    let image = LumaVec { data: data.as_slice(), width, height };
    let mut out: Vec<u8> = vec![fill; (width * height) as usize];
    sobel::calculate(&image, &mut out);
    out
}

#[test]
fn flat_image_has_no_edges() {
    let data: Vec<u8> = vec![100u8; 5 * 4];
    let out = gradient_of(&data, 5, 4, 7);
    for y in 0..4usize {
        for x in 0..5usize {
            let interior = 1 <= x && x < 4 && 1 <= y && y < 3;
            assert_eq!(out[y * 5 + x], if interior { 0 } else { 7 });
        }
    }
}

#[test]
fn rounded_root_rounds_to_nearest() {
    assert_eq!(sobel::saturating_rounded_root(0), 0);
    assert_eq!(sobel::saturating_rounded_root(1), 1);
    assert_eq!(sobel::saturating_rounded_root(2), 1);
    assert_eq!(sobel::saturating_rounded_root(3), 2);
    assert_eq!(sobel::saturating_rounded_root(6), 2);
    assert_eq!(sobel::saturating_rounded_root(7), 3);
    assert_eq!(sobel::saturating_rounded_root(1800), 42);
    assert_eq!(sobel::saturating_rounded_root(1600), 40);
}

#[test]
fn rounded_root_saturates() {
    assert_eq!(sobel::saturating_rounded_root(254 * 254 + 254), 254);
    assert_eq!(sobel::saturating_rounded_root(254 * 254 + 255), 255);
    assert_eq!(sobel::saturating_rounded_root(255 * 255), 255);
    assert_eq!(sobel::saturating_rounded_root(2 * 1020 * 1020), 255);
    assert_eq!(sobel::saturating_rounded_root(u32::MAX), 255);
}

#[test]
fn vertical_step_gives_horizontal_gradient() {
    // Columns 0 and 1 hold 0, columns 2 to 4 hold 10.
    let mut data: Vec<u8> = vec![0u8; 5 * 5];
    for y in 0..5usize {
        for x in 2..5usize {
            data[y * 5 + x] = 10;
        }
    }
    let out = gradient_of(&data, 5, 5, 0);
    for y in 1..4usize {
        assert_eq!(out[y * 5 + 1], 40);
        assert_eq!(out[y * 5 + 2], 40);
        assert_eq!(out[y * 5 + 3], 0);
    }
}

#[test]
fn strong_step_saturates() {
    let mut data: Vec<u8> = vec![0u8; 4 * 4];
    for y in 0..4usize {
        for x in 2..4usize {
            data[y * 4 + x] = 255;
        }
    }
    let out = gradient_of(&data, 4, 4, 0);
    assert_eq!(out[1 * 4 + 1], 255);
    assert_eq!(out[2 * 4 + 2], 255);
}

#[test]
fn corner_of_a_block_mixes_both_gradients() {
    // A single bright pixel below and right of the centre: gx = gy = 30.
    let mut data: Vec<u8> = vec![0u8; 3 * 3];
    data[2 * 3 + 2] = 30;
    let out = gradient_of(&data, 3, 3, 9);
    assert_eq!(out[1 * 3 + 1], 42);
    assert_eq!(out[0], 9);
    assert_eq!(out[8], 9);
}

#[test]
fn images_without_interior_are_left_alone() {
    let data: Vec<u8> = vec![200u8, 0, 200, 0];
    let out = gradient_of(&data, 2, 2, 5);
    assert_eq!(out, vec![5u8, 5, 5, 5]);
    let none: Vec<u8> = Vec::new();
    let out = gradient_of(&none, 0, 0, 5);
    assert_eq!(out.len(), 0);
}

#[test]
fn packed_frame_reads_every_other_byte() {
    // Samples 0, 0, 10 per row, each followed by a chroma byte that must be ignored.
    let mut frame: Vec<u8> = vec![99u8; 3 * 3 * 2];
    for y in 0..3usize {
        frame[(y * 3 + 0) * 2] = 0;
        frame[(y * 3 + 1) * 2] = 0;
        frame[(y * 3 + 2) * 2] = 10;
    }
    let view = YUYV442 { data: frame.as_slice(), width: 3, height: 3 };
    let mut out: Vec<u8> = vec![0u8; 9];
    sobel::calculate(&view, &mut out);
    assert_eq!(out[4], 40);
}
