use detection::palette;
use detection::raster;
use detection::raster::Image;

fn painted(width: u32, height: u32, paint: &dyn Fn(u32, u32) -> (u8, u8, u8)) -> Image {
    let mut image = Image::new(width, height);
    for y in 0..height {
        for x in 0..width {
            let (r, g, b) = paint(x, y);
            image.put_pixel(x, y, (r, g, b, 255));
        }
    }
    image
}

#[test]
fn single_colour_image_has_one_dominant_colour() {
    let image = painted(6, 4, &|_, _| (200, 100, 31));
    assert_eq!(detection::colors(&image), vec![(6u8, 3u8, 0u8)]);
}

#[test]
fn colours_are_ranked_by_frequency() {
    // Columns 0 to 4 are red, 5 to 7 green, 8 and 9 blue.
    let image = painted(10, 3, &|x, _| {
        if x < 5 {
            (255, 0, 0)
        } else if x < 8 {
            (0, 255, 0)
        } else {
            (0, 0, 255)
        }
    });
    assert_eq!(detection::colors(&image), vec![(7u8, 0u8, 0u8), (0, 7, 0), (0, 0, 7)]);
}

#[test]
fn only_five_colours_are_reported() {
    // Seven grey levels, the brighter the more frequent.
    let image = painted(28, 1, &|x, _| {
        let level: u32 = if x < 1 {
            0
        } else if x < 3 {
            1
        } else if x < 6 {
            2
        } else if x < 10 {
            3
        } else if x < 15 {
            4
        } else if x < 21 {
            5
        } else {
            6
        };
        ((level * 32) as u8, (level * 32) as u8, (level * 32) as u8)
    });
    let found = detection::colors(&image);
    assert_eq!(found, vec![(6u8, 6u8, 6u8), (5, 5, 5), (4, 4, 4), (3, 3, 3), (2, 2, 2)]);
}

#[test]
fn colours_of_one_bucket_count_together() {
    let image = painted(4, 1, &|x, _| if x < 3 { (32 + x as u8 * 10, 0, 0) } else { (64, 0, 0) });
    assert_eq!(detection::colors(&image), vec![(1u8, 0u8, 0u8), (2, 0, 0)]);
    let counts = palette::histogram(&image);
    assert_eq!(counts.len(), 512);
    assert_eq!(counts[64], 3);
    assert_eq!(counts[128], 1);
    assert_eq!(counts.iter().sum::<u32>(), 4);
}

#[test]
fn empty_image_has_no_colours() {
    let image = Image::new(0, 0);
    assert_eq!(detection::colors(&image), Vec::<(u8, u8, u8)>::new());
}

#[test]
fn packed_frame_colours() {
    assert_eq!(raster::to_rgb(16, 128, 128), (0, 0, 0, 255));
    assert_eq!(raster::to_rgb(235, 128, 128), (255, 255, 255, 255));
    assert_eq!(raster::to_rgb(128, 128, 128), (130, 130, 130, 255));
    assert_eq!(raster::to_rgb(0, 128, 128), (0, 0, 0, 255));
    assert_eq!(raster::to_rgb(255, 128, 128), (255, 255, 255, 255));
    // Pure red, green and blue of the video range.
    assert_eq!(raster::to_rgb(81, 90, 240), (255, 0, 0, 255));
    assert_eq!(raster::to_rgb(145, 54, 34), (0, 255, 1, 255));
    assert_eq!(raster::to_rgb(41, 240, 110), (0, 0, 255, 255));
    // A value that is rounded down: (298 * 84 + 128) / 256 = 98.28
    assert_eq!(raster::to_rgb(100, 128, 128), (98, 98, 98, 255));
}

#[test]
fn packed_frame_fills_an_image() {
    // Two rows of two pairs: luma, chroma u, luma, chroma v.
    let frame: Vec<u8> = vec![
        16, 128, 235, 128, 81, 90, 81, 240, //
        100, 128, 128, 128, 41, 240, 145, 110,
    ];
    let mut image = Image::new(4, 2);
    raster::fill_from_frame(&frame, &mut image);
    assert_eq!(image.get_pixel(0, 0), (0, 0, 0, 255));
    assert_eq!(image.get_pixel(1, 0), (255, 255, 255, 255));
    assert_eq!(image.get_pixel(2, 0), (255, 0, 0, 255));
    assert_eq!(image.get_pixel(3, 0), (255, 0, 0, 255));
    assert_eq!(image.get_pixel(0, 1), (98, 98, 98, 255));
    assert_eq!(image.get_pixel(1, 1), (130, 130, 130, 255));
    assert_eq!(image.get_pixel(2, 1), raster::to_rgb(41, 240, 110));
    assert_eq!(image.get_pixel(3, 1), raster::to_rgb(145, 240, 110));
}
