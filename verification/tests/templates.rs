use detection::raster::Image;
use detection::set_symbol_detection::Threshold;

fn pictures(count: usize) -> Vec<Image> {
    let mut images: Vec<Image> = Vec::new();
    for i in 0..count {
        let mut image = Image::new(4, 3);
        image.put_pixel(0, 0, (i as u8, 0, 0, 255));
        images.push(image);
    }
    images
}

#[test]
fn symbols_have_their_labels_and_thresholds() {
    let expected: [(&str, u16); 9] = [
        ("cpa", 20),
        ("ssh", 10),
        ("exp", 10),
        ("gen", 18),
        ("pls", 15),
        ("lc", 10),
        ("promo", 20),
        ("bst", 20),
        ("sum", 10),
    ];
    for i in 0..9usize {
        let (label, threshold) = detection::symbol(i);
        assert_eq!(label, expected[i].0);
        assert_eq!(threshold, Threshold { num: expected[i].1, den: 100 });
    }
}

#[test]
fn templates_pair_pictures_with_symbols() {
    let templates = detection::load_templates(pictures(9)).unwrap();
    assert_eq!(templates.len(), 9);
    assert_eq!(templates[0].label, "cpa");
    assert_eq!(templates[8].label, "sum");
    assert_eq!(templates[3].threshold, Threshold { num: 18, den: 100 });
    for i in 0..9usize {
        assert_eq!(templates[i].image.get_pixel(0, 0), (i as u8, 0, 0, 255));
    }
}

#[test]
fn wrong_number_of_pictures_gives_no_templates() {
    assert!(detection::load_templates(pictures(8)).is_none());
    assert!(detection::load_templates(pictures(10)).is_none());
    assert!(detection::load_templates(pictures(0)).is_none());
}

#[test]
fn unusable_picture_gives_no_templates() {
    let mut images = pictures(9);
    images[4].data.pop();
    assert!(detection::load_templates(images).is_none());
    let mut images = pictures(9);
    images[8] = Image::new(4097, 4096);
    assert!(detection::load_templates(images).is_none());
}
