//! Pixel buffers: four 8-bit channels per pixel, row after row.
use vstd::prelude::*;
use crate::arith::floor_div;
use crate::grid;
use crate::Luma;

verus! {

/// The channels of one pixel: red, green, blue, alpha.
pub type Pixel = (u8, u8, u8, u8);

/// An image of `width × height` pixels with four channels each.
pub struct Image {
    pub width: u32,
    pub height: u32,
    pub data: Vec<u8>,
}

impl Image {
    /// The buffer holds exactly the pixels of the image.
    pub open spec fn wf(&self) -> bool {
        self.data.len() == 4 * (self.width * self.height)
    }

    /// The pixel at column `x` of row `y`.
    pub open spec fn pixel(&self, x: int, y: int) -> Pixel {
        let i = 4 * grid::cell(x, y, self.width as int);
        (self.data[i], self.data[i + 1], self.data[i + 2], self.data[i + 3])
    }

    /// An image whose pixels are all transparent black.
    pub fn new(width: u32, height: u32) -> (image: Image)
        requires
            4 * (width * height) <= usize::MAX,
        ensures
            image.wf(),
            image.width == width,
            image.height == height,
            forall|i: int| 0 <= i < image.data.len() ==> image.data[i] == 0,
            forall|x: int, y: int|
                0 <= x < width && 0 <= y < height ==> #[trigger] image.pixel(x, y) == (
                    0u8,
                    0u8,
                    0u8,
                    0u8,
                ),
    {
        assert(width * height >= 0) by (nonlinear_arith)
            requires
                width >= 0,
                height >= 0,
        ;
        let n: usize = 4 * (width as usize * height as usize);
        let mut data: Vec<u8> = Vec::new();
        let mut i: usize = 0;
        while i < n
            invariant
                i <= n,
                data.len() == i,
                forall|j: int| 0 <= j < i ==> data[j] == 0,
            decreases n - i,
        {
            data.push(0);
            i = i + 1;
        }
        let image = Image { width, height, data };
        proof {
            assert forall|x: int, y: int| 0 <= x < width && 0 <= y < height implies #[trigger] image.pixel(
                x,
                y,
            ) == (0u8, 0u8, 0u8, 0u8) by {
                grid::lemma_cell_in_grid(x, y, width as int, height as int);
            }
        }
        image
    }

    /// Reads the pixel at column `x` of row `y`.
    pub fn get_pixel(&self, x: u32, y: u32) -> (p: Pixel)
        requires
            self.wf(),
            x < self.width,
            y < self.height,
        ensures
            p == self.pixel(x as int, y as int),
    {
        let c: usize = grid::index(x, y, self.width, self.height, self.data.len() / 4);
        let i: usize = 4 * c;
        (self.data[i], self.data[i + 1], self.data[i + 2], self.data[i + 3])
    }

    /// Writes the pixel at column `x` of row `y` and leaves the others as
    /// they were.
    pub fn put_pixel(&mut self, x: u32, y: u32, p: Pixel)
        requires
            old(self).wf(),
            x < old(self).width,
            y < old(self).height,
        ensures
            final(self).wf(),
            final(self).width == old(self).width,
            final(self).height == old(self).height,
            final(self).pixel(x as int, y as int) == p,
            forall|u: int, v: int|
                0 <= u < old(self).width && 0 <= v < old(self).height && !(u == x && v == y)
                    ==> #[trigger] final(self).pixel(u, v) == old(self).pixel(u, v),
    {
        let c: usize = grid::index(x, y, self.width, self.height, self.data.len() / 4);
        let i: usize = 4 * c;
        self.data[i] = p.0;
        self.data[i + 1] = p.1;
        self.data[i + 2] = p.2;
        self.data[i + 3] = p.3;
        proof {
            let w = self.width as int;
            assert forall|u: int, v: int|
                0 <= u < self.width && 0 <= v < self.height && !(u == x && v == y)
                implies #[trigger] self.pixel(u, v) == old(self).pixel(u, v) by {
                grid::lemma_cell_in_grid(u, v, w, self.height as int);
                if grid::cell(u, v, w) == grid::cell(x as int, y as int, w) {
                    grid::lemma_cell_unique(u, v, x as int, y as int, w);
                }
            }
        }
    }
}

/// The luma that `image::Pixel::to_luma` gives for a pixel of the colour
/// `(r, g, b)`.
pub uninterp spec fn luma_of(r: u8, g: u8, b: u8) -> u8;

/// Calls `image::Pixel::to_luma` on the pixel: its weighted sum of red,
/// green and blue, whatever the alpha.
#[verifier::external_body]
fn to_luma(p: Pixel) -> (luma: u8)
    ensures
        luma == luma_of(p.0, p.1, p.2),
{
    image::Pixel::to_luma(&image::Rgba([p.0, p.1, p.2, p.3])).0[0]
}

/// Converts the image to grayscale: one luma value per pixel, row after row.
pub fn grayscale(image: &Image) -> (gray: Vec<u8>)
    requires
        image.wf(),
    ensures
        gray.len() == image.width * image.height,
        forall|x: int, y: int|
            0 <= x < image.width && 0 <= y < image.height ==> #[trigger] gray[grid::cell(
                x,
                y,
                image.width as int,
            )] == luma_of(image.pixel(x, y).0, image.pixel(x, y).1, image.pixel(x, y).2),
{
    let mut gray: Vec<u8> = Vec::new();
    let mut y: u32 = 0;
    assert(0 * image.width == 0) by (nonlinear_arith);
    while y < image.height
        invariant
            y <= image.height,
            image.wf(),
            gray.len() == y * image.width,
            forall|u: int, v: int|
                0 <= u < image.width && 0 <= v < y ==> #[trigger] gray[grid::cell(
                    u,
                    v,
                    image.width as int,
                )] == luma_of(image.pixel(u, v).0, image.pixel(u, v).1, image.pixel(u, v).2),
        decreases image.height - y,
    {
        let mut x: u32 = 0;
        while x < image.width
            invariant
                y < image.height,
                x <= image.width,
                image.wf(),
                gray.len() == y * image.width + x,
                forall|u: int, v: int|
                    0 <= u < image.width && (0 <= v < y || (v == y && u < x)) ==> #[trigger] gray[grid::cell(
                        u,
                        v,
                        image.width as int,
                    )] == luma_of(image.pixel(u, v).0, image.pixel(u, v).1, image.pixel(u, v).2),
            decreases image.width - x,
        {
            let p: Pixel = image.get_pixel(x, y);
            let ghost before = gray@;
            gray.push(to_luma(p));
            proof {
                assert forall|u: int, v: int|
                    0 <= u < image.width && (0 <= v < y || (v == y && u < x + 1))
                    implies #[trigger] gray[grid::cell(u, v, image.width as int)] == luma_of(
                    image.pixel(u, v).0,
                    image.pixel(u, v).1,
                    image.pixel(u, v).2,
                ) by {
                    if v < y {
                        grid::lemma_cell_in_grid(u, v, image.width as int, y as int);
                        assert(image.width * y == y * image.width) by (nonlinear_arith);
                        assert(gray[grid::cell(u, v, image.width as int)] == before[grid::cell(
                            u,
                            v,
                            image.width as int,
                        )]);
                    } else if u < x {
                        assert(gray[grid::cell(u, v, image.width as int)] == before[grid::cell(
                            u,
                            v,
                            image.width as int,
                        )]);
                    }
                }
            }
            x = x + 1;
        }
        assert((y + 1) * image.width == y * image.width + image.width) by (nonlinear_arith);
        y = y + 1;
    }
    assert(image.height * image.width == image.width * image.height) by (nonlinear_arith);
    gray
}

/// A colour channel from its fixed-point value: the value divided by 256,
/// rounded down and kept within a byte.
pub open spec fn channel(value: int) -> u8 {
    let v = value / 256;
    if v < 0 {
        0
    } else if v > 255 {
        255
    } else {
        v as u8
    }
}

/// The colour of a pixel of a packed frame with luma `y` and chroma `u`, `v`.
pub open spec fn rgb_of(y: u8, u: u8, v: u8) -> Pixel {
    let c = y - 16;
    let d = u - 128;
    let e = v - 128;
    (
        channel(298 * c + 409 * e + 128),
        channel(298 * c - 100 * d - 208 * e + 128),
        channel(298 * c + 516 * d + 128),
        255,
    )
}

/// The colour of the pixel `(x, y)` of a packed frame: two neighbouring
/// pixels share their chroma, which follows the luma of the first and of the
/// second of them.
pub open spec fn frame_pixel(frame: Seq<u8>, width: int, x: int, y: int) -> Pixel {
    let pair = 2 * grid::cell(x - x % 2, y, width);
    rgb_of(frame[2 * grid::cell(x, y, width)], frame[pair + 1], frame[pair + 3])
}

/// Computes a colour channel from its fixed-point value.
fn channel_of(value: i32) -> (c: u8)
    requires
        -1000000 <= value <= 1000000,
    ensures
        c == channel(value as int),
{
    let v: i128 = floor_div(value as i128, 256);
    if v < 0 {
        0
    } else if v > 255 {
        255
    } else {
        v as u8
    }
}

/// Computes the colour of a pixel with luma `y` and chroma `u`, `v`.
pub fn to_rgb(y: u8, u: u8, v: u8) -> (p: Pixel)
    ensures
        p == rgb_of(y, u, v),
{
    let c: i32 = y as i32 - 16;
    let d: i32 = u as i32 - 128;
    let e: i32 = v as i32 - 128;
    (
        channel_of(298 * c + 409 * e + 128),
        channel_of(298 * c - 100 * d - 208 * e + 128),
        channel_of(298 * c + 516 * d + 128),
        255,
    )
}

/// Fills the image with the colours of a packed frame of the same size.
pub fn fill_from_frame(frame: &[u8], image: &mut Image)
    requires
        old(image).wf(),
        old(image).width % 2 == 0,
        frame@.len() >= 2 * (old(image).width * old(image).height),
    ensures
        final(image).wf(),
        final(image).width == old(image).width,
        final(image).height == old(image).height,
        forall|x: int, y: int|
            0 <= x < old(image).width && 0 <= y < old(image).height
                ==> #[trigger] final(image).pixel(x, y)
                    == frame_pixel(frame@, old(image).width as int, x, y),
{
    let width: u32 = image.width;
    let height: u32 = image.height;
    let mut y: u32 = 0;
    while y < height
        invariant
            y <= height,
            image.wf(),
            image.width == width,
            image.height == height,
            width == old(image).width,
            height == old(image).height,
            width % 2 == 0,
            frame@.len() >= 2 * (width * height),
            forall|u: int, v: int|
                0 <= u < width && 0 <= v < y ==> #[trigger] image.pixel(u, v) == frame_pixel(
                    frame@,
                    width as int,
                    u,
                    v,
                ),
        decreases height - y,
    {
        let mut x: u32 = 0;
        while x < width
            invariant
                y < height,
                x <= width,
                x % 2 == 0,
                image.wf(),
                image.width == width,
                image.height == height,
                width % 2 == 0,
                frame@.len() >= 2 * (width * height),
                forall|u: int, v: int|
                    0 <= u < width && (0 <= v < y || (v == y && u < x)) ==> #[trigger] image.pixel(
                        u,
                        v,
                    ) == frame_pixel(frame@, width as int, u, v),
            decreases width - x,
        {
            let i: usize = grid::index(x, y, width, height, frame.len() / 2);
            proof {
                grid::lemma_cell_in_grid(x as int + 1, y as int, width as int, height as int);
                assert((x as int) % 2 == 0 && (x as int + 1) % 2 == 1);
            }
            let y1: u8 = frame[2 * i];
            let u: u8 = frame[2 * i + 1];
            let y2: u8 = frame[2 * i + 2];
            let v: u8 = frame[2 * i + 3];
            image.put_pixel(x, y, to_rgb(y1, u, v));
            image.put_pixel(x + 1, y, to_rgb(y2, u, v));
            x = x + 2;
        }
        y = y + 1;
    }
}

/// The red channel of an image, read as intensity.
impl Luma<u8> for Image {
    open spec fn inv(&self) -> bool {
        self.wf()
    }

    open spec fn cols(&self) -> u32 {
        self.width
    }

    open spec fn rows(&self) -> u32 {
        self.height
    }

    open spec fn sample(&self, x: u32, y: u32) -> u8 {
        self.pixel(x as int, y as int).0
    }

    fn get(&self, x: u32, y: u32) -> (v: u8) {
        self.get_pixel(x, y).0
    }

    fn width(&self) -> (w: u32) {
        self.width
    }

    fn height(&self) -> (h: u32) {
        self.height
    }
}

} // verus!
