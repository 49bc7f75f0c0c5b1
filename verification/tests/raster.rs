use detection::raster;
use detection::raster::Image;
use detection::Luma;

#[test]
fn new_image_is_transparent_black() {
    let image = Image::new(3, 2);
    assert_eq!(image.width, 3);
    assert_eq!(image.height, 2);
    assert_eq!(image.data, vec![0u8; 24]);
    assert_eq!(image.get_pixel(2, 1), (0, 0, 0, 0));
}

#[test]
fn pixels_are_stored_row_by_row() {
    let mut image = Image::new(3, 2);
    image.put_pixel(1, 0, (1, 2, 3, 4));
    image.put_pixel(2, 1, (5, 6, 7, 8));
    let mut expected: Vec<u8> = vec![0u8; 24];
    expected[4..8].copy_from_slice(&[1, 2, 3, 4]);
    expected[20..24].copy_from_slice(&[5, 6, 7, 8]);
    assert_eq!(image.data, expected);
    assert_eq!(image.get_pixel(1, 0), (1, 2, 3, 4));
    assert_eq!(image.get_pixel(2, 1), (5, 6, 7, 8));
    assert_eq!(image.get_pixel(0, 0), (0, 0, 0, 0));
}

#[test]
fn image_is_read_through_its_red_channel() {
    let mut image = Image::new(2, 2);
    image.put_pixel(1, 1, (9, 8, 7, 6));
    assert_eq!(Luma::width(&image), 2);
    assert_eq!(Luma::height(&image), 2);
    assert_eq!(Luma::get(&image, 1, 1), 9);
    assert_eq!(Luma::get(&image, 0, 1), 0);
}

#[test]
fn grayscale_weighs_the_colours() {
    let mut image = Image::new(4, 2);
    image.put_pixel(0, 0, (255, 0, 0, 255));
    image.put_pixel(1, 0, (0, 255, 0, 255));
    image.put_pixel(2, 0, (0, 0, 255, 255));
    image.put_pixel(3, 0, (255, 255, 255, 255));
    image.put_pixel(0, 1, (100, 100, 100, 0));
    image.put_pixel(1, 1, (10, 200, 30, 77));
    let gray = raster::grayscale(&image);
    assert_eq!(gray, vec![54u8, 182, 18, 255, 100, 147, 0, 0]);
}

#[test]
fn grayscale_is_what_the_image_crate_gives() {
    let mut image = Image::new(16, 16);
    for y in 0..16u32 {
        for x in 0..16u32 {
            image.put_pixel(x, y, ((x * 17) as u8, (y * 17) as u8, (x * y) as u8, (x + y) as u8));
        }
    }
    let gray = raster::grayscale(&image);
    let buffer = image::RgbaImage::from_raw(16, 16, image.data.clone()).unwrap();
    let expected = image::DynamicImage::ImageRgba8(buffer).grayscale().to_bytes();
    assert_eq!(gray, expected);
}
