use detection::catalog;
use detection::fingerprint::Fingerprint;
use detection::raster::Image;
use detection::CatalogError;
use detection::DatasetEntry;

fn zeros() -> String {
    format!("{}=", "A".repeat(43))
}

fn picture(seed: u32) -> Image {
    let mut image = Image::new(40, 40);
    for y in 0..40u32 {
        for x in 0..40u32 {
            let v: u8 = ((x * seed + y * 7) % 256) as u8;
            image.put_pixel(x, y, (v, v, v, 255));
        }
    }
    image
}

#[test]
fn line_is_path_space_hash() {
    let line = format!("dataset/card.png {}", zeros());
    let entry = catalog::parse_cache_line(&line).unwrap();
    assert_eq!(entry.path, "dataset/card.png");
    assert_eq!(entry.hash.bits, vec![0u8; 32]);
}

#[test]
fn further_fields_are_ignored() {
    let line = format!("a.png {} trailing words", zeros());
    let entry = catalog::parse_cache_line(&line).unwrap();
    assert_eq!(entry.path, "a.png");
    assert_eq!(entry.hash.bits, vec![0u8; 32]);
}

#[test]
fn path_may_be_empty_or_not_ascii() {
    let line = format!(" {}", zeros());
    assert_eq!(catalog::parse_cache_line(&line).unwrap().path, "");
    let line = format!("cartes/été.png {}", zeros());
    assert_eq!(catalog::parse_cache_line(&line).unwrap().path, "cartes/été.png");
}

#[test]
fn malformed_lines_are_refused() {
    assert!(catalog::parse_cache_line("").is_none());
    assert!(catalog::parse_cache_line("only-a-path.png").is_none());
    assert!(catalog::parse_cache_line("a.png ").is_none());
    assert!(catalog::parse_cache_line("a.png not-base64!").is_none());
    assert!(catalog::parse_cache_line("a.png AAAA").is_none());
    // Two spaces: the second field is empty.
    assert!(catalog::parse_cache_line(&format!("a.png  {}", zeros())).is_none());
}

#[test]
fn written_line_reads_back() {
    let mut bits: Vec<u8> = vec![0u8; 32];
    for i in 0..32usize {
        bits[i] = (i * 7 + 200) as u8;
    }
    let entry = DatasetEntry { hash: Fingerprint { bits: bits.clone() }, path: String::from("dataset/x/y.jpg") };
    let line = catalog::format_cache_line(&entry);
    assert!(line.starts_with("dataset/x/y.jpg "));
    assert!(!line.ends_with('\n'));
    assert_eq!(line.len(), "dataset/x/y.jpg ".len() + 44);
    let back = catalog::parse_cache_line(&line).unwrap();
    assert_eq!(back.path, "dataset/x/y.jpg");
    assert_eq!(back.hash.bits, bits);
}

#[test]
fn path_with_a_space_does_not_read_back() {
    let entry = DatasetEntry { hash: Fingerprint { bits: vec![0u8; 32] }, path: String::from("my cards/a.png") };
    let line = catalog::format_cache_line(&entry);
    assert_eq!(line, format!("my cards/a.png {}", zeros()));
    assert!(catalog::parse_cache_line(&line).is_none());
}

#[test]
fn catalog_is_read_line_by_line() {
    let lines: Vec<String> = vec![format!("a.png {}", zeros()), format!("b.png {}8=", "/".repeat(42))];
    let entries = catalog::parse_dataset(&lines).unwrap();
    assert_eq!(entries.len(), 2);
    assert_eq!(entries[0].path, "a.png");
    assert_eq!(entries[1].path, "b.png");
    assert_eq!(entries[1].hash.bits, vec![255u8; 32]);
}

#[test]
fn empty_catalog_is_an_error() {
    let lines: Vec<String> = Vec::new();
    assert_eq!(catalog::parse_dataset(&lines).err(), Some(CatalogError::CatalogEmpty));
    let images: Vec<(String, Image)> = Vec::new();
    assert_eq!(catalog::build_dataset(&images).err(), Some(CatalogError::CatalogEmpty));
    assert_eq!(detection::load_or_build_dataset(None, &images).err(), Some(CatalogError::CatalogEmpty));
    assert_eq!(
        detection::load_or_build_dataset(Some(&lines), &images).err(),
        Some(CatalogError::CatalogEmpty)
    );
}

#[test]
fn first_malformed_line_is_reported() {
    let lines: Vec<String> = vec![
        format!("a.png {}", zeros()),
        String::from("b.png"),
        format!("c.png {}", zeros()),
        String::from("d.png ???"),
    ];
    assert_eq!(
        catalog::parse_dataset(&lines).err(),
        Some(CatalogError::MalformedCacheLine { line: 1 })
    );
}

#[test]
fn entry_of_an_image_holds_its_fingerprint() {
    let image = picture(5);
    let entry = detection::calculate_dataset_entry("refs/five.png", &image);
    assert_eq!(entry.path, "refs/five.png");
    assert_eq!(entry.hash.bits, Fingerprint::of_image(&image).bits);
}

#[test]
fn catalog_is_built_where_there_is_no_cache() {
    let images: Vec<(String, Image)> =
        vec![(String::from("refs/a.png"), picture(3)), (String::from("refs/b.png"), picture(11))];
    let (entries, lines) = detection::load_or_build_dataset(None, &images).unwrap();
    assert_eq!(entries.len(), 2);
    assert_eq!(lines.len(), 2);
    assert_eq!(entries[0].path, "refs/a.png");
    assert_eq!(entries[1].path, "refs/b.png");
    assert_eq!(entries[1].hash.bits, Fingerprint::of_image(&images[1].1).bits);
    assert_eq!(lines[0], format!("refs/a.png {}", entries[0].hash.to_base64()));
    // The written cache gives the same catalog back.
    let (again, written) = detection::load_or_build_dataset(Some(&lines), &images).unwrap();
    assert_eq!(written.len(), 0);
    assert_eq!(again.len(), 2);
    assert_eq!(again[0].path, entries[0].path);
    assert_eq!(again[0].hash.bits, entries[0].hash.bits);
    assert_eq!(again[1].hash.bits, entries[1].hash.bits);
}

#[test]
fn cache_is_preferred_to_the_images() {
    let lines: Vec<String> = vec![format!("cached.png {}", zeros())];
    let images: Vec<(String, Image)> = vec![(String::from("refs/a.png"), picture(3))];
    let (entries, written) = detection::load_or_build_dataset(Some(&lines), &images).unwrap();
    assert_eq!(written.len(), 0);
    assert_eq!(entries.len(), 1);
    assert_eq!(entries[0].path, "cached.png");
}
