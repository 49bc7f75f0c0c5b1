use detection::fingerprint;
use detection::fingerprint::Fingerprint;
use detection::raster::Image;

fn hash_of(byte: u8) -> Fingerprint {
    Fingerprint { bits: vec![byte; 32] }
}

fn striped_image() -> Image {
    let mut image = Image::new(64, 48);
    for y in 0..48u32 {
        for x in 0..64u32 {
            let v: u8 = if (x / 8) % 2 == 0 { 220 } else { (y * 3) as u8 };
            image.put_pixel(x, y, (v, v / 2, 255 - v, 255));
        }
    }
    image
}

#[test]
fn count_ones_counts_the_set_bits() {
    assert_eq!(fingerprint::count_ones(0), 0);
    assert_eq!(fingerprint::count_ones(1), 1);
    assert_eq!(fingerprint::count_ones(0b1000_0000), 1);
    assert_eq!(fingerprint::count_ones(0b1010_0101), 4);
    assert_eq!(fingerprint::count_ones(255), 8);
    for b in 0..=255u8 {
        assert_eq!(fingerprint::count_ones(b) as u32, b.count_ones());
    }
}

#[test]
fn distance_counts_differing_bits() {
    assert_eq!(hash_of(0).dist(&hash_of(255)), 256);
    assert_eq!(hash_of(0b1111_0000).dist(&hash_of(0b1010_1010)), 32 * 4);
    let mut one = hash_of(0);
    one.bits[17] = 0b0001_0000;
    assert_eq!(hash_of(0).dist(&one), 1);
}

#[test]
fn distance_to_itself_is_zero() {
    for byte in [0u8, 1, 0x5a, 0xff] {
        assert_eq!(hash_of(byte).dist(&hash_of(byte)), 0);
    }
    let mut mixed = hash_of(0);
    for i in 0..32usize {
        mixed.bits[i] = (i * 37 + 11) as u8;
    }
    assert_eq!(mixed.dist(&mixed), 0);
}

#[test]
fn distance_is_symmetric() {
    let mut a = hash_of(0);
    let mut b = hash_of(0);
    for i in 0..32usize {
        a.bits[i] = (i * 37 + 11) as u8;
        b.bits[i] = (i * 101 + 3) as u8;
    }
    assert_eq!(a.dist(&b), b.dist(&a));
    assert!(a.dist(&b) > 0);
}

#[test]
fn distance_is_what_img_hash_gives() {
    let mut a = hash_of(0);
    let mut b = hash_of(0);
    for i in 0..32usize {
        a.bits[i] = (i * 37 + 11) as u8;
        b.bits[i] = (i * 101 + 3) as u8;
    }
    let left = img_hash::ImageHash::<Box<[u8]>>::from_bytes(&a.bits).unwrap();
    let right = img_hash::ImageHash::<Box<[u8]>>::from_bytes(&b.bits).unwrap();
    assert_eq!(a.dist(&b), left.dist(&right));
}

#[test]
fn ranking_sorts_by_distance() {
    let distances: Vec<u32> = vec![5, 3, 9, 1, 7];
    assert_eq!(fingerprint::rank(&distances, 3), vec![3usize, 1, 0]);
    assert_eq!(fingerprint::rank(&distances, 5), vec![3usize, 1, 0, 4, 2]);
    assert_eq!(fingerprint::rank(&distances, 1), vec![3usize]);
}

#[test]
fn ranking_keeps_the_order_of_ties() {
    let distances: Vec<u32> = vec![4, 2, 4, 2, 4, 2];
    assert_eq!(fingerprint::rank(&distances, 3), vec![1usize, 3, 5]);
    assert_eq!(fingerprint::rank(&distances, 4), vec![1usize, 3, 5, 0]);
    assert_eq!(fingerprint::rank(&distances, 6), vec![1usize, 3, 5, 0, 2, 4]);
}

#[test]
fn ranking_is_no_longer_than_the_catalog() {
    let distances: Vec<u32> = vec![8, 6];
    assert_eq!(fingerprint::rank(&distances, 3), vec![1usize, 0]);
    assert_eq!(fingerprint::rank(&distances, 0), Vec::<usize>::new());
    let none: Vec<u32> = Vec::new();
    assert_eq!(fingerprint::rank(&none, 3), Vec::<usize>::new());
}

#[test]
fn promotion_is_a_stable_partition() {
    let order: Vec<usize> = vec![7, 3, 9, 4];
    assert_eq!(fingerprint::promote(&order, &vec![false, true, false, true]), vec![3usize, 4, 7, 9]);
    assert_eq!(fingerprint::promote(&order, &vec![false, false, false, false]), order);
    assert_eq!(fingerprint::promote(&order, &vec![true, true, true, true]), order);
    assert_eq!(fingerprint::promote(&order, &vec![false, false, true, false]), vec![9usize, 7, 3, 4]);
}

#[test]
fn contains_finds_a_label_in_a_path() {
    assert!(fingerprint::contains("dataset/cpa/card-001.jpg", "cpa"));
    assert!(fingerprint::contains("dataset/cpa/card-001.jpg", "dataset"));
    assert!(fingerprint::contains("dataset/cpa/card-001.jpg", ".jpg"));
    assert!(fingerprint::contains("dataset/cpa/card-001.jpg", ""));
    assert!(fingerprint::contains("", ""));
    assert!(!fingerprint::contains("dataset/cpa/card-001.jpg", "ssh"));
    assert!(!fingerprint::contains("dataset/cpa/card-001.jpg", "cpb"));
    assert!(!fingerprint::contains("cp", "cpa"));
    assert!(!fingerprint::contains("", "a"));
    assert!(fingerprint::contains("données/été.png", "été"));
    assert!(!fingerprint::contains("données/été.png", "ete"));
    assert!(fingerprint::contains("aab", "ab"));
}

#[test]
fn base64_of_known_hashes() {
    let zeros = format!("{}=", "A".repeat(43));
    assert_eq!(hash_of(0).to_base64(), zeros);
    let ones = format!("{}8=", "/".repeat(42));
    assert_eq!(hash_of(255).to_base64(), ones);
    assert_eq!(Fingerprint::from_base64(&zeros).unwrap().bits, vec![0u8; 32]);
    assert_eq!(Fingerprint::from_base64(&ones).unwrap().bits, vec![255u8; 32]);
}

#[test]
fn base64_round_trip() {
    let mut hash = hash_of(0);
    for i in 0..32usize {
        hash.bits[i] = (i * 37 + 11) as u8;
    }
    let text = hash.to_base64();
    assert_eq!(text.len(), 44);
    assert!(!text.contains(' '));
    assert_eq!(Fingerprint::from_base64(&text).unwrap().bits, hash.bits);
}

#[test]
fn base64_refuses_what_is_no_fingerprint() {
    assert!(Fingerprint::from_base64("not base64!").is_none());
    assert!(Fingerprint::from_base64("").is_none());
    // Valid Base64 of three bytes.
    assert!(Fingerprint::from_base64("AAAA").is_none());
    // Valid Base64 of 33 bytes.
    assert!(Fingerprint::from_base64(&"A".repeat(44)).is_none());
}

#[test]
fn fingerprint_of_an_image_is_its_gradient_hash() {
    let image = striped_image();
    let hash = Fingerprint::of_image(&image);
    assert_eq!(hash.bits.len(), 32);
    let buffer = image::RgbaImage::from_raw(64, 48, image.data.clone()).unwrap();
    let hasher = img_hash::HasherConfig::new()
        .hash_size(16, 16)
        .hash_alg(img_hash::HashAlg::Gradient)
        .to_hasher();
    let expected = hasher.hash_image(&image::DynamicImage::ImageRgba8(buffer));
    assert_eq!(hash.bits.as_slice(), expected.as_bytes());
    assert_ne!(hash.bits, image.data);
}

#[test]
fn different_pictures_have_distant_fingerprints() {
    let striped = Fingerprint::of_image(&striped_image());
    let mut other = Image::new(64, 48);
    for y in 0..48u32 {
        for x in 0..64u32 {
            let v: u8 = (255 - 4 * x) as u8;
            other.put_pixel(x, y, (v, v, v, 255));
        }
    }
    let ramp = Fingerprint::of_image(&other);
    assert_eq!(striped.dist(&striped), 0);
    assert!(striped.dist(&ramp) > 20);
}

#[test]
fn distance_obeys_the_triangle_inequality() {
    let mut hashes: Vec<Fingerprint> = Vec::new();
    for seed in [3usize, 11, 29, 101, 211] {
        let mut hash = hash_of(0);
        for i in 0..32usize {
            hash.bits[i] = (i * seed + seed / 2) as u8;
        }
        hashes.push(hash);
    }
    for a in hashes.iter() {
        for b in hashes.iter() {
            for c in hashes.iter() {
                assert!(a.dist(c) <= a.dist(b) + b.dist(c));
            }
        }
    }
    // Equality on a straight way: from nothing over one bit to two bits.
    let mut one = hash_of(0);
    one.bits[0] = 1;
    let mut two = hash_of(0);
    two.bits[0] = 3;
    assert_eq!(hash_of(0).dist(&two), hash_of(0).dist(&one) + one.dist(&two));
}

#[test]
fn only_equal_fingerprints_are_at_distance_zero() {
    let mut other = hash_of(0x5a);
    assert_eq!(hash_of(0x5a).dist(&other), 0);
    other.bits[31] ^= 0x80;
    assert_eq!(hash_of(0x5a).dist(&other), 1);
}
