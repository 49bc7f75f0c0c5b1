use detection::raster::Image;
use detection::set_symbol_detection;
use detection::set_symbol_detection::SymbolMatch;
use detection::set_symbol_detection::Threshold;
use detection::set_symbol_detection::Window;
use detection::LumaVec;
use detection::Template;

const WIDTH: u32 = 734;
const HEIGHT: u32 = 1024;

fn fifth() -> Threshold {
    Threshold { num: 20, den: 100 }
}

fn pattern(dx: u32, dy: u32) -> u8 {
    (40 + 20 * dx + 8 * dy) as u8
}

fn template(size: u32) -> Image {
    let mut image = Image::new(size, size);
    for dy in 0..size {
        for dx in 0..size {
            image.put_pixel(dx, dy, (pattern(dx, dy), 0, 0, 255));
        }
    }
    image
}

fn stamp(card: &mut Vec<u8>, x: u32, y: u32, size: u32, offset: u8) {
    for dy in 0..size {
        for dx in 0..size {
            card[((y + dy) * WIDTH + x + dx) as usize] = pattern(dx, dy) + offset;
        }
    }
}

#[test]
fn score_parts_of_a_small_placement() {
    // Image values 10, 20 / 30, 40 under template values 11, 18 / 30, 50,
    // the last of which is transparent.
    let data: Vec<u8> = vec![0, 0, 0, 0, 10, 20, 0, 30, 40];
    let image = LumaVec { data: data.as_slice(), width: 3, height: 3 };
    let mut tpl = Image::new(2, 2);
    tpl.put_pixel(0, 0, (11, 0, 0, 255));
    tpl.put_pixel(1, 0, (18, 0, 0, 1));
    tpl.put_pixel(0, 1, (30, 0, 0, 255));
    tpl.put_pixel(1, 1, (50, 0, 0, 0));
    assert_eq!(set_symbol_detection::score(&image, &tpl, 1, 1), (1 + 4 + 0, 100 + 400 + 900));
    assert_eq!(set_symbol_detection::energy_of(&tpl), 121 + 324 + 900);
    assert_eq!(set_symbol_detection::score(&image, &tpl, 0, 0), (121 + 324 + 900 + 0, 0));
}

#[test]
fn acceptance_threshold_is_exclusive() {
    // 1 / sqrt(100 * 1) = 0.1, 2 / sqrt(100) = 0.2, 3 / sqrt(100) = 0.3
    assert!(set_symbol_detection::is_below(1, 100, 1, fifth()));
    assert!(!set_symbol_detection::is_below(2, 100, 1, fifth()));
    assert!(!set_symbol_detection::is_below(3, 100, 1, fifth()));
    assert!(set_symbol_detection::is_below(0, 1, 1, fifth()));
    // 199 / sqrt(1000 * 1000) < 0.2 <= 200 / 1000
    assert!(set_symbol_detection::is_below(199, 1000, 1000, fifth()));
    assert!(!set_symbol_detection::is_below(200, 1000, 1000, fifth()));
}

#[test]
fn nothing_is_below_a_threshold_of_zero() {
    let zero = Threshold { num: 0, den: 100 };
    assert!(!set_symbol_detection::is_below(0, 100, 100, zero));
}

#[test]
fn a_placement_without_energy_is_no_match() {
    assert!(!set_symbol_detection::is_below(0, 0, 100, fifth()));
    assert!(!set_symbol_detection::is_below(0, 100, 0, fifth()));
    assert!(!set_symbol_detection::is_below(0, 0, 0, fifth()));
    assert!(!set_symbol_detection::is_below(5, 0, 0, fifth()));
}

#[test]
fn scores_are_ordered_by_cross_multiplication() {
    // 3 / sqrt(9) = 1 < 4 / sqrt(4) = 2
    assert!(set_symbol_detection::is_less(3, 9, 4, 4));
    assert!(!set_symbol_detection::is_less(4, 4, 3, 9));
    // 2 / sqrt(4) = 3 / sqrt(9)
    assert!(!set_symbol_detection::is_less(2, 4, 3, 9));
    assert!(!set_symbol_detection::is_less(3, 9, 2, 4));
}

#[test]
fn search_windows_follow_the_sizes() {
    assert_eq!(
        set_symbol_detection::search_window(0, 734, 1024, 30, 20),
        Window { left: 10, right: 100, top: 900, bottom: 980 }
    );
    assert_eq!(
        set_symbol_detection::search_window(1, 734, 1024, 30, 20),
        Window { left: 600, right: 704, top: 850, bottom: 1004 }
    );
    assert_eq!(
        set_symbol_detection::search_window(2, 734, 1024, 30, 20),
        Window { left: 600, right: 704, top: 500, bottom: 600 }
    );
    // In a small image the windows are clipped, or empty.
    assert_eq!(
        set_symbol_detection::search_window(0, 100, 950, 30, 20),
        Window { left: 10, right: 70, top: 900, bottom: 930 }
    );
    assert_eq!(
        set_symbol_detection::search_window(1, 20, 10, 30, 20),
        Window { left: 600, right: 0, top: 850, bottom: 0 }
    );
}

#[test]
fn exact_copy_is_found_where_it_is() {
    let mut card: Vec<u8> = vec![0u8; (WIDTH * HEIGHT) as usize];
    stamp(&mut card, 640, 900, 8, 0);
    let image = LumaVec { data: card.as_slice(), width: WIDTH, height: HEIGHT };
    let tpl = template(8);
    let found = set_symbol_detection::detect(&image, &tpl, fifth()).unwrap();
    let energy: u64 = set_symbol_detection::energy_of(&tpl);
    assert_eq!(found, SymbolMatch { x: 640, y: 900, diff: 0, image_energy: energy, template_energy: energy });
}

#[test]
fn best_of_several_matches_is_reported() {
    let mut card: Vec<u8> = vec![0u8; (WIDTH * HEIGHT) as usize];
    // A brighter copy in the first window, a nearly exact one in the third.
    stamp(&mut card, 40, 920, 8, 4);
    stamp(&mut card, 650, 540, 8, 1);
    let image = LumaVec { data: card.as_slice(), width: WIDTH, height: HEIGHT };
    let tpl = template(8);
    let found = set_symbol_detection::detect(&image, &tpl, fifth()).unwrap();
    assert_eq!((found.x, found.y), (650, 540));
    assert_eq!(found.diff, 64);
    assert_eq!(set_symbol_detection::score(&image, &tpl, 40, 920).0, 64 * 16);
}

#[test]
fn first_of_equally_good_matches_is_reported() {
    let tpl = template(8);
    // Exact copies in the first and in the third window.
    let mut card: Vec<u8> = vec![0u8; (WIDTH * HEIGHT) as usize];
    stamp(&mut card, 650, 540, 8, 0);
    stamp(&mut card, 40, 920, 8, 0);
    let image = LumaVec { data: card.as_slice(), width: WIDTH, height: HEIGHT };
    let found = set_symbol_detection::detect(&image, &tpl, fifth()).unwrap();
    assert_eq!((found.x, found.y, found.diff), (40, 920, 0));
    // Exact copies in the second and in the third window.
    let mut card: Vec<u8> = vec![0u8; (WIDTH * HEIGHT) as usize];
    stamp(&mut card, 650, 540, 8, 0);
    stamp(&mut card, 700, 1000, 8, 0);
    let image = LumaVec { data: card.as_slice(), width: WIDTH, height: HEIGHT };
    let found = set_symbol_detection::detect(&image, &tpl, fifth()).unwrap();
    assert_eq!((found.x, found.y, found.diff), (700, 1000, 0));
    // Two exact copies in one window: the upper one, though it lies to the right.
    let mut card: Vec<u8> = vec![0u8; (WIDTH * HEIGHT) as usize];
    stamp(&mut card, 620, 900, 8, 0);
    stamp(&mut card, 700, 860, 8, 0);
    let image = LumaVec { data: card.as_slice(), width: WIDTH, height: HEIGHT };
    let found = set_symbol_detection::detect(&image, &tpl, fifth()).unwrap();
    assert_eq!((found.x, found.y, found.diff), (700, 860, 0));
    // Two exact copies in one row: the left one.
    let mut card: Vec<u8> = vec![0u8; (WIDTH * HEIGHT) as usize];
    stamp(&mut card, 700, 860, 8, 0);
    stamp(&mut card, 620, 860, 8, 0);
    let image = LumaVec { data: card.as_slice(), width: WIDTH, height: HEIGHT };
    let found = set_symbol_detection::detect(&image, &tpl, fifth()).unwrap();
    assert_eq!((found.x, found.y, found.diff), (620, 860, 0));
}

#[test]
fn copies_outside_the_windows_are_not_seen() {
    let mut card: Vec<u8> = vec![0u8; (WIDTH * HEIGHT) as usize];
    stamp(&mut card, 300, 300, 8, 0);
    stamp(&mut card, 200, 920, 8, 0);
    let image = LumaVec { data: card.as_slice(), width: WIDTH, height: HEIGHT };
    assert_eq!(set_symbol_detection::detect(&image, &template(8), fifth()), None);
}

#[test]
fn empty_card_matches_nothing() {
    let card: Vec<u8> = vec![0u8; (WIDTH * HEIGHT) as usize];
    let image = LumaVec { data: card.as_slice(), width: WIDTH, height: HEIGHT };
    assert_eq!(set_symbol_detection::detect(&image, &template(8), fifth()), None);
}

#[test]
fn transparent_template_never_matches() {
    let mut card: Vec<u8> = vec![0u8; (WIDTH * HEIGHT) as usize];
    stamp(&mut card, 640, 900, 8, 0);
    let image = LumaVec { data: card.as_slice(), width: WIDTH, height: HEIGHT };
    let mut tpl = template(8);
    for dy in 0..8u32 {
        for dx in 0..8u32 {
            tpl.put_pixel(dx, dy, (pattern(dx, dy), 0, 0, 0));
        }
    }
    assert_eq!(set_symbol_detection::energy_of(&tpl), 0);
    assert_eq!(set_symbol_detection::detect(&image, &tpl, fifth()), None);
    assert_eq!(set_symbol_detection::detect(&image, &tpl, Threshold { num: 1, den: 1 }), None);
}

#[test]
fn black_template_never_matches() {
    let card: Vec<u8> = vec![0u8; (WIDTH * HEIGHT) as usize];
    let image = LumaVec { data: card.as_slice(), width: WIDTH, height: HEIGHT };
    let mut tpl = Image::new(8, 8);
    for dy in 0..8u32 {
        for dx in 0..8u32 {
            tpl.put_pixel(dx, dy, (0, 0, 0, 255));
        }
    }
    assert_eq!(set_symbol_detection::detect(&image, &tpl, Threshold { num: 1, den: 1 }), None);
}

#[test]
fn template_larger_than_the_image_matches_nothing() {
    let data: Vec<u8> = vec![50u8; 16];
    let image = LumaVec { data: data.as_slice(), width: 4, height: 4 };
    assert_eq!(set_symbol_detection::detect(&image, &template(8), fifth()), None);
}

#[test]
fn masked_pixels_do_not_count() {
    let mut card: Vec<u8> = vec![0u8; (WIDTH * HEIGHT) as usize];
    stamp(&mut card, 640, 900, 8, 0);
    // Spoil the image under the top-left pixel of the template.
    card[(900 * WIDTH + 640) as usize] = 255;
    let image = LumaVec { data: card.as_slice(), width: WIDTH, height: HEIGHT };
    let mut tpl = template(8);
    tpl.put_pixel(0, 0, (pattern(0, 0), 0, 0, 0));
    let found = set_symbol_detection::detect(&image, &tpl, fifth()).unwrap();
    assert_eq!((found.x, found.y, found.diff), (640, 900, 0));
}

#[test]
fn first_matching_template_wins() {
    let mut card: Vec<u8> = vec![0u8; (WIDTH * HEIGHT) as usize];
    stamp(&mut card, 640, 900, 8, 0);
    let image = LumaVec { data: card.as_slice(), width: WIDTH, height: HEIGHT };
    let mut other = Image::new(8, 8);
    for dy in 0..8u32 {
        for dx in 0..8u32 {
            other.put_pixel(dx, dy, ((250 - 30 * dx) as u8, 0, 0, 255));
        }
    }
    let miss = Template { label: "miss", threshold: fifth(), image: other };
    let exact = Template { label: "exact", threshold: fifth(), image: template(8) };
    let loose = Template { label: "loose", threshold: Threshold { num: 1, den: 1 }, image: template(8) };
    assert_eq!(detection::detect_set(&image, &vec![miss, exact, loose]), Some("exact"));
}

#[test]
fn order_of_templates_decides() {
    let mut card: Vec<u8> = vec![0u8; (WIDTH * HEIGHT) as usize];
    stamp(&mut card, 640, 900, 8, 0);
    let image = LumaVec { data: card.as_slice(), width: WIDTH, height: HEIGHT };
    let exact = Template { label: "exact", threshold: fifth(), image: template(8) };
    let loose = Template { label: "loose", threshold: Threshold { num: 1, den: 1 }, image: template(8) };
    assert_eq!(detection::detect_set(&image, &vec![loose, exact]), Some("loose"));
}

#[test]
fn no_template_no_symbol() {
    let card: Vec<u8> = vec![0u8; (WIDTH * HEIGHT) as usize];
    let image = LumaVec { data: card.as_slice(), width: WIDTH, height: HEIGHT };
    let none: Vec<Template> = Vec::new();
    assert_eq!(detection::detect_set(&image, &none), None);
    let miss = Template { label: "miss", threshold: fifth(), image: template(8) };
    assert_eq!(detection::detect_set(&image, &vec![miss]), None);
}
