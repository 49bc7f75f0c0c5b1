use detection::border;
use detection::LumaVec;

fn mask_of(data: &Vec<u8>, width: u32, height: u32) -> Vec<u32> {
    let image = LumaVec { data: data.as_slice(), width, height };
    let mut mask: Vec<u32> = vec![9u32; (width * height) as usize];
    border::calculate(&image, &mut mask);
    mask
}

#[test]
fn weak_gradients_leave_no_mark() {
    let data: Vec<u8> = vec![40u8; 6 * 5];
    let mask = mask_of(&data, 6, 5);
    assert_eq!(mask, vec![0u32; 30]);
}

#[test]
fn edge_threshold_is_exclusive() {
    let mut data: Vec<u8> = vec![0u8; 3 * 3];
    data[4] = 41;
    let mask = mask_of(&data, 3, 3);
    let mut expected: Vec<u32> = vec![0u32; 9];
    expected[4] = 1;
    assert_eq!(mask, expected);
}

#[test]
fn filled_block_is_reduced_to_its_outline() {
    // A 4×4 block of strong pixels inside a 6×6 map.
    let mut data: Vec<u8> = vec![0u8; 6 * 6];
    for y in 1..5usize {
        for x in 1..5usize {
            data[y * 6 + x] = 200;
        }
    }
    let mask = mask_of(&data, 6, 6);
    for y in 0..6usize {
        for x in 0..6usize {
            let inside = 1 <= x && x < 5 && 1 <= y && y < 5;
            let core = 2 <= x && x < 4 && 2 <= y && y < 4;
            let expected: u32 = if inside && !core { 1 } else { 0 };
            assert_eq!(mask[y * 6 + x], expected, "at ({}, {})", x, y);
        }
    }
}

#[test]
fn each_ray_stops_at_its_first_edge() {
    // One row with edges at columns 1, 3 and 5; the middle one is hidden from
    // the horizontal rays but seen by the vertical ones.
    let mut data: Vec<u8> = vec![0u8; 7 * 3];
    data[1 * 7 + 1] = 100;
    data[1 * 7 + 3] = 100;
    data[1 * 7 + 5] = 100;
    let mask = mask_of(&data, 7, 3);
    let mut expected: Vec<u32> = vec![0u32; 21];
    expected[1 * 7 + 1] = 1;
    expected[1 * 7 + 3] = 1;
    expected[1 * 7 + 5] = 1;
    assert_eq!(mask, expected);
}

#[test]
fn pixels_behind_two_edges_stay_clear() {
    // A plus sign: the centre is hidden from all four sides.
    let mut data: Vec<u8> = vec![0u8; 5 * 5];
    for i in 0..5usize {
        data[2 * 5 + i] = 100;
        data[i * 5 + 2] = 100;
    }
    let mask = mask_of(&data, 5, 5);
    assert_eq!(mask[2 * 5 + 2], 0);
    assert_eq!(mask[2 * 5 + 0], 1);
    assert_eq!(mask[2 * 5 + 4], 1);
    assert_eq!(mask[0 * 5 + 2], 1);
    assert_eq!(mask[4 * 5 + 2], 1);
    // The arms next to the centre are seen by the rays that cross them.
    assert_eq!(mask[2 * 5 + 1], 1);
    assert_eq!(mask[1 * 5 + 2], 1);
}
