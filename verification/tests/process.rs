use detection::fingerprint::Fingerprint;
use detection::raster::Image;
use detection::set_symbol_detection::Threshold;
use detection::DatasetEntry;
use detection::ProcessingBuffers;
use detection::ProcessingPipeline;
use detection::Template;

const CARD_WIDTH: u32 = 734;
const CARD_HEIGHT: u32 = 1024;

/// The brightness of a card picture at `(u, v)`: a white frame around blocks
/// whose brightness depends on `seed`.
fn card_value(seed: u32, u: u32, v: u32) -> u8 {
    if u < 24 || v < 24 || u >= CARD_WIDTH - 24 || v >= CARD_HEIGHT - 24 {
        return 235;
    }
    let bx: u32 = u / 61;
    let by: u32 = v / 64;
    let mixed: u32 = (bx * 37 + by * 101 + seed * 53 + 7).wrapping_mul(2654435761);
    (40 + (mixed >> 24) % 180) as u8
}

fn card(seed: u32) -> Image {
    let mut image = Image::new(CARD_WIDTH, CARD_HEIGHT);
    for v in 0..CARD_HEIGHT {
        for u in 0..CARD_WIDTH {
            let g: u8 = card_value(seed, u, v);
            image.put_pixel(u, v, (g, g, g, 255));
        }
    }
    image
}

/// The projective map that sends the unit square to the quadrilateral with
/// the corners top-left, top-right, bottom-right, bottom-left.
fn square_to_quad(q: [(f64, f64); 4]) -> [f64; 9] {
    let (x0, y0) = q[0];
    let (x1, y1) = q[1];
    let (x2, y2) = q[2];
    let (x3, y3) = q[3];
    let dx1 = x1 - x2;
    let dx2 = x3 - x2;
    let dy1 = y1 - y2;
    let dy2 = y3 - y2;
    let sx = x0 - x1 + x2 - x3;
    let sy = y0 - y1 + y2 - y3;
    let det = dx1 * dy2 - dy1 * dx2;
    let g = (sx * dy2 - dx2 * sy) / det;
    let h = (dx1 * sy - sx * dy1) / det;
    [x1 - x0 + g * x1, x3 - x0 + h * x3, x0, y1 - y0 + g * y1, y3 - y0 + h * y3, y0, g, h, 1.0]
}

fn adjugate(m: [f64; 9]) -> [f64; 9] {
    [
        m[4] * m[8] - m[5] * m[7],
        m[2] * m[7] - m[1] * m[8],
        m[1] * m[5] - m[2] * m[4],
        m[5] * m[6] - m[3] * m[8],
        m[0] * m[8] - m[2] * m[6],
        m[2] * m[3] - m[0] * m[5],
        m[3] * m[7] - m[4] * m[6],
        m[1] * m[6] - m[0] * m[7],
        m[0] * m[4] - m[1] * m[3],
    ]
}

/// A dark frame with the card of `seed` laid on it, warped to the quadrilateral.
fn scene(width: u32, height: u32, seed: u32, quad: [(f64, f64); 4]) -> Vec<u8> {
    let back = adjugate(square_to_quad(quad));
    let mut luma: Vec<u8> = vec![12u8; (width * height) as usize];
    for y in 0..height {
        for x in 0..width {
            let px = x as f64 + 0.5;
            let py = y as f64 + 0.5;
            let w = back[6] * px + back[7] * py + back[8];
            let u = (back[0] * px + back[1] * py + back[2]) / w;
            let v = (back[3] * px + back[4] * py + back[5]) / w;
            if 0.0 <= u && u < 1.0 && 0.0 <= v && v < 1.0 {
                let cu = (u * CARD_WIDTH as f64) as u32;
                let cv = (v * CARD_HEIGHT as f64) as u32;
                luma[(y * width + x) as usize] = card_value(seed, cu, cv);
            }
        }
    }
    luma
}

fn load(buffers: &mut ProcessingBuffers, luma: &Vec<u8>) -> Vec<u8> {
    let mut frame: Vec<u8> = vec![128u8; luma.len() * 2];
    for i in 0..luma.len() {
        frame[2 * i] = luma[i];
        buffers.source_image.data[4 * i] = luma[i];
        buffers.source_image.data[4 * i + 1] = luma[i];
        buffers.source_image.data[4 * i + 2] = luma[i];
        buffers.source_image.data[4 * i + 3] = 255;
    }
    frame
}

fn catalog() -> Vec<DatasetEntry> {
    let mut entries: Vec<DatasetEntry> = Vec::new();
    for seed in [4u32, 9, 1, 6, 2] {
        let path = format!("dataset/card-{}.png", seed);
        entries.push(detection::calculate_dataset_entry(&path, &card(seed)));
    }
    entries
}

fn close(a: u32, b: f64) -> bool {
    (a as f64 - b).abs() <= 3.0
}

#[test]
fn warped_card_is_recognised() {
    let width: u32 = 1920;
    let height: u32 = 1080;
    let quad: [(f64, f64); 4] = [(640.0, 100.0), (1300.0, 120.0), (1330.0, 1000.0), (600.0, 960.0)];
    let luma = scene(width, height, 1, quad);
    let mut buffers = ProcessingBuffers::new(width, height);
    let frame = load(&mut buffers, &luma);
    let dataset = catalog();
    let templates: Vec<Template> = Vec::new();
    let mut processing = ProcessingPipeline { frame: frame.as_slice(), buffers: &mut buffers };
    let (_, best, symbol) = detection::process(&mut processing, &dataset, &templates);
    assert_eq!(buffers.lines.len(), 4, "lines {:?}", buffers.lines);
    assert_eq!(buffers.corners.len(), 4);
    // Top-left, top-right, bottom-left, bottom-right.
    let expected: [(f64, f64); 4] = [quad[0], quad[1], quad[3], quad[2]];
    for i in 0..4 {
        assert!(close(buffers.corners[i].0, expected[i].0), "corners {:?}", buffers.corners);
        assert!(close(buffers.corners[i].1, expected[i].1), "corners {:?}", buffers.corners);
    }
    assert_eq!(symbol, None);
    let best = best.unwrap();
    assert_eq!(best.len(), 3);
    assert_eq!(best[0].0.path, "dataset/card-1.png");
    assert!(best[0].1 < 40, "distance {}", best[0].1);
    assert!(best[0].1 < best[1].1);
    assert!(best[1].1 <= best[2].1);
    // The reported distances are the distances to the fingerprint of the card.
    let seen = Fingerprint::of_image(&buffers.perspective_image);
    for (entry, distance) in best.iter() {
        assert_eq!(*distance, seen.dist(&entry.hash));
    }
    assert_eq!(buffers.perspective_image.width, CARD_WIDTH);
    assert_eq!(buffers.perspective_image.height, CARD_HEIGHT);
}

#[test]
fn upright_card_is_rectified_to_its_picture() {
    let width: u32 = 800;
    let height: u32 = 600;
    let quad: [(f64, f64); 4] = [(250.0, 60.0), (617.0, 60.0), (617.0, 572.0), (250.0, 572.0)];
    let luma = scene(width, height, 6, quad);
    let mut buffers = ProcessingBuffers::new(width, height);
    let frame = load(&mut buffers, &luma);
    let dataset = catalog();
    let templates: Vec<Template> = Vec::new();
    let mut processing = ProcessingPipeline { frame: frame.as_slice(), buffers: &mut buffers };
    let (_, best, _) = detection::process(&mut processing, &dataset, &templates);
    let best = best.unwrap();
    assert_eq!(best[0].0.path, "dataset/card-6.png");
    // The middle of a block of the card shows the brightness of that block.
    for (u, v) in [(91u32, 96u32), (396, 544), (579, 864), (213, 288), (10, 500), (700, 1015)] {
        let shown = buffers.perspective_image.get_pixel(u, v);
        assert_eq!(shown, (card_value(6, u, v), card_value(6, u, v), card_value(6, u, v), 255));
    }
}

#[test]
fn symbol_moves_matching_entries_to_the_front() {
    let width: u32 = 800;
    let height: u32 = 600;
    let quad: [(f64, f64); 4] = [(250.0, 60.0), (617.0, 60.0), (617.0, 572.0), (250.0, 572.0)];
    let luma = scene(width, height, 6, quad);
    let mut buffers = ProcessingBuffers::new(width, height);
    let frame = load(&mut buffers, &luma);
    let dataset = catalog();
    // A template cut out of the card itself, from a place inside a search window.
    let picture = card(6);
    let mut cut = Image::new(20, 20);
    for dy in 0..20u32 {
        for dx in 0..20u32 {
            cut.put_pixel(dx, dy, picture.get_pixel(650 + dx, 890 + dy));
        }
    }
    let mut processing = ProcessingPipeline { frame: frame.as_slice(), buffers: &mut buffers };
    let plain: Vec<Template> = Vec::new();
    let (_, unlabelled, _) = detection::process(&mut processing, &dataset, &plain);
    let unlabelled: Vec<String> = unlabelled.unwrap().iter().map(|m| m.0.path.clone()).collect();
    // The label is found in the path of the entry that came last of the three.
    let last: &str = unlabelled[2].as_str();
    let label: &str = &last[8..last.len() - 4];
    let templates = vec![Template { label, threshold: Threshold { num: 20, den: 100 }, image: cut }];
    let (_, labelled, symbol) = detection::process(&mut processing, &dataset, &templates);
    assert_eq!(symbol, Some(label));
    let labelled: Vec<String> = labelled.unwrap().iter().map(|m| m.0.path.clone()).collect();
    assert_eq!(labelled, vec![unlabelled[2].clone(), unlabelled[0].clone(), unlabelled[1].clone()]);
}

#[test]
fn dark_frame_yields_no_detection() {
    let mut buffers = ProcessingBuffers::new(320, 240);
    let luma: Vec<u8> = vec![12u8; 320 * 240];
    let frame = load(&mut buffers, &luma);
    let dataset = catalog();
    let templates: Vec<Template> = Vec::new();
    buffers.perspective_image = card(2);
    let mut processing = ProcessingPipeline { frame: frame.as_slice(), buffers: &mut buffers };
    let (_, best, symbol) = detection::process(&mut processing, &dataset, &templates);
    assert!(best.is_none());
    assert!(symbol.is_none());
    assert_eq!(buffers.corners.len(), 0);
    assert_eq!(buffers.lines.len(), 0);
    assert_eq!(buffers.perspective_image.width, CARD_WIDTH);
    assert_eq!(buffers.perspective_image.height, CARD_HEIGHT);
    assert!(buffers.perspective_image.data.iter().all(|b| *b == 0));
}

#[test]
fn small_catalog_gives_fewer_matches() {
    let width: u32 = 800;
    let height: u32 = 600;
    let quad: [(f64, f64); 4] = [(250.0, 60.0), (617.0, 60.0), (617.0, 572.0), (250.0, 572.0)];
    let luma = scene(width, height, 6, quad);
    let mut buffers = ProcessingBuffers::new(width, height);
    let frame = load(&mut buffers, &luma);
    let mut dataset = catalog();
    dataset.truncate(2);
    let templates: Vec<Template> = Vec::new();
    let mut processing = ProcessingPipeline { frame: frame.as_slice(), buffers: &mut buffers };
    let (_, best, _) = detection::process(&mut processing, &dataset, &templates);
    assert_eq!(best.unwrap().len(), 2);
    let none: Vec<DatasetEntry> = Vec::new();
    let mut processing = ProcessingPipeline { frame: frame.as_slice(), buffers: &mut buffers };
    let (_, best, _) = detection::process(&mut processing, &none, &templates);
    assert_eq!(best.unwrap().len(), 0);
}

#[test]
fn classification_ranks_and_promotes() {
    let hash = Fingerprint { bits: vec![0u8; 32] };
    let mut dataset: Vec<DatasetEntry> = Vec::new();
    for (name, ones) in [("a/cpa/1", 5usize), ("a/ssh/2", 1), ("a/cpa/3", 3), ("a/gen/4", 2), ("a/ssh/5", 9)] {
        let mut bits: Vec<u8> = vec![0u8; 32];
        for i in 0..ones {
            bits[i] = 1;
        }
        dataset.push(DatasetEntry { hash: Fingerprint { bits }, path: String::from(name) });
    }
    let plain = detection::classify(&hash, &dataset, None);
    let plain: Vec<(&str, u32)> = plain.iter().map(|m| (m.0.path.as_str(), m.1)).collect();
    assert_eq!(plain, vec![("a/ssh/2", 1), ("a/gen/4", 2), ("a/cpa/3", 3)]);
    let cpa = detection::classify(&hash, &dataset, Some("cpa"));
    let cpa: Vec<(&str, u32)> = cpa.iter().map(|m| (m.0.path.as_str(), m.1)).collect();
    assert_eq!(cpa, vec![("a/cpa/3", 3), ("a/ssh/2", 1), ("a/gen/4", 2)]);
    let exp = detection::classify(&hash, &dataset, Some("exp"));
    let exp: Vec<(&str, u32)> = exp.iter().map(|m| (m.0.path.as_str(), m.1)).collect();
    assert_eq!(exp, vec![("a/ssh/2", 1), ("a/gen/4", 2), ("a/cpa/3", 3)]);
}

#[test]
fn new_buffers_are_cleared() {
    let buffers = ProcessingBuffers::new(7, 5);
    assert_eq!(buffers.width, 7);
    assert_eq!(buffers.height, 5);
    assert_eq!(buffers.sobel, vec![0u8; 35]);
    assert_eq!(buffers.border, vec![0u32; 35]);
    assert_eq!(buffers.hough.len(), 900 * 900);
    assert!(buffers.hough.iter().all(|v| *v == 0));
    assert_eq!(buffers.lines.len(), 0);
    assert_eq!(buffers.corners.len(), 0);
    assert_eq!(buffers.source_image.width, 7);
    assert_eq!(buffers.source_image.height, 5);
    assert_eq!(buffers.source_image.data, vec![0u8; 140]);
    assert_eq!(buffers.perspective_image.data.len(), 0);
}
