//! Edge strength: the magnitude of the 3×3 Sobel gradient.
use vstd::prelude::*;
use crate::grid;
use crate::Luma;

verus! {

/// The largest magnitude a cell can hold.
pub const MAX_MAGNITUDE: u8 = 255;

/// `r` is the square root of `n`, rounded to the nearest integer.
///
/// The root of an integer never lies halfway between two integers, so the
/// nearest one is the `r` with `(r - 1/2)² < n < (r + 1/2)²`, and `0` for `n = 0`.
pub open spec fn is_rounded_root(n: int, r: int) -> bool {
    &&& 0 <= r
    &&& r * r - r < n || (n == 0 && r == 0)
    &&& n <= r * r + r
}

/// The square root of `n`, rounded to the nearest integer.
pub open spec fn rounded_root(n: int) -> int {
    choose|r: int| is_rounded_root(n, r)
}

/// Every natural number has one rounded root.
pub proof fn lemma_rounded_root_unique(n: int, r: int)
    requires
        is_rounded_root(n, r),
    ensures
        rounded_root(n) == r,
{
    let s = rounded_root(n);
    assert(is_rounded_root(n, s));
    if s < r {
        assert(s * s + s <= r * r - r) by (nonlinear_arith)
            requires
                0 <= s,
                s + 1 <= r,
        ;
    } else if r < s {
        assert(r * r + r <= s * s - s) by (nonlinear_arith)
            requires
                0 <= r,
                r + 1 <= s,
        ;
    }
}

/// The horizontal Sobel response at an interior pixel.
pub open spec fn gradient_x<L: Luma<u8>>(image: &L, x: int, y: int) -> int {
    let l = (x - 1) as u32;
    let r = (x + 1) as u32;
    let u = (y - 1) as u32;
    let m = y as u32;
    let d = (y + 1) as u32;
    -image.sample(l, u) - 2 * image.sample(l, m) - image.sample(l, d) + image.sample(r, u) + 2
        * image.sample(r, m) + image.sample(r, d)
}

/// The vertical Sobel response at an interior pixel.
pub open spec fn gradient_y<L: Luma<u8>>(image: &L, x: int, y: int) -> int {
    let l = (x - 1) as u32;
    let c = x as u32;
    let r = (x + 1) as u32;
    let u = (y - 1) as u32;
    let d = (y + 1) as u32;
    -image.sample(l, u) - 2 * image.sample(c, u) - image.sample(r, u) + image.sample(l, d) + 2
        * image.sample(c, d) + image.sample(r, d)
}

/// The saturated, rounded length of the gradient `(gx, gy)`.
pub open spec fn magnitude(gx: int, gy: int) -> int {
    let r = rounded_root(gx * gx + gy * gy);
    if r < MAX_MAGNITUDE as int {
        r
    } else {
        MAX_MAGNITUDE as int
    }
}

/// The edge strength at an interior pixel.
pub open spec fn edge_strength<L: Luma<u8>>(image: &L, x: int, y: int) -> int {
    magnitude(gradient_x(image, x, y), gradient_y(image, x, y))
}

/// Whether `(x, y)` has all eight neighbours inside a `width × height` image.
pub open spec fn is_interior(x: int, y: int, width: int, height: int) -> bool {
    1 <= x < width - 1 && 1 <= y < height - 1
}

/// The rounded square root of `n`, saturated at `MAX_MAGNITUDE`.
pub fn saturating_rounded_root(n: u32) -> (m: u8)
    ensures
        m < MAX_MAGNITUDE ==> is_rounded_root(n as int, m as int),
        m == MAX_MAGNITUDE ==> rounded_root(n as int) >= MAX_MAGNITUDE,
        m as int == if rounded_root(n as int) < MAX_MAGNITUDE {
            rounded_root(n as int)
        } else {
            MAX_MAGNITUDE as int
        },
{
    let mut r: u32 = 0;
    let mut upper: u32 = 0;
    while r < 255 && upper < n
        invariant
            r <= 255,
            upper == r * r + r,
            upper <= 255 * 256,
            r == 0 || r * r - r < n,
        decreases 255 - r,
    {
        assert((r + 1) * (r + 1) - (r + 1) == r * r + r) by (nonlinear_arith);
        assert((r + 1) * (r + 1) + (r + 1) == r * r + r + 2 * r + 2) by (nonlinear_arith);
        assert((r + 1) * (r + 1) + (r + 1) <= 255 * 256) by (nonlinear_arith)
            requires
                r + 1 <= 255,
        ;
        upper = upper + 2 * r + 2;
        r = r + 1;
    }
    proof {
        if r < 255 {
            assert(is_rounded_root(n as int, r as int));
            lemma_rounded_root_unique(n as int, r as int);
        } else {
            let s = rounded_root(n as int);
            lemma_rounded_root_exists(n as int);
            assert(is_rounded_root(n as int, s));
            if s < 255 {
                assert(s * s + s <= 255 * 255 - 255) by (nonlinear_arith)
                    requires
                        0 <= s,
                        s + 1 <= 255,
                ;
            }
        }
    }
    r as u8
}

/// Every natural number has a rounded root.
pub proof fn lemma_rounded_root_exists(n: int)
    requires
        0 <= n,
    ensures
        is_rounded_root(n, rounded_root(n)),
{
    lemma_rounded_root_search(n, 0);
}

proof fn lemma_rounded_root_search(n: int, r: int)
    requires
        0 <= n,
        0 <= r,
        r == 0 || r * r - r < n,
    ensures
        exists|s: int| is_rounded_root(n, s),
    decreases n - r,
{
    if n <= r * r + r {
        assert(is_rounded_root(n, r));
    } else {
        assert((r + 1) * (r + 1) - (r + 1) == r * r + r) by (nonlinear_arith);
        assert(r < n) by (nonlinear_arith)
            requires
                r * r + r < n,
                0 <= r,
        ;
        lemma_rounded_root_search(n, r + 1);
    }
}

/// Whether `after` is the gradient map of `image`, written over `before`:
/// every interior pixel holds its edge strength, and the one-pixel frame
/// holds what it held before.
pub open spec fn is_gradient_map<L: Luma<u8>>(image: &L, before: Seq<u8>, after: Seq<u8>) -> bool {
    &&& after.len() == before.len()
    &&& forall|x: int, y: int|
        is_interior(x, y, image.cols() as int, image.rows() as int)
            ==> #[trigger] after[grid::cell(x, y, image.cols() as int)] == edge_strength(image, x, y)
    &&& forall|x: int, y: int|
        0 <= x < image.cols() && 0 <= y < image.rows()
            && !is_interior(x, y, image.cols() as int, image.rows() as int)
            ==> #[trigger] after[grid::cell(x, y, image.cols() as int)]
                == before[grid::cell(x, y, image.cols() as int)]
}

/// Writes the edge strength of every interior pixel of `image` into `sobel`.
///
/// The one-pixel frame of the buffer keeps the values it had.
pub fn calculate<L: Luma<u8>>(image: &L, sobel: &mut Vec<u8>)
    requires
        image.inv(),
        old(sobel).len() == image.cols() * image.rows(),
    ensures
        is_gradient_map(image, old(sobel)@, final(sobel)@),
{
    let width: u32 = image.width();
    let height: u32 = image.height();
    if width < 3 || height < 3 {
        return ;
    }
    let mut y: u32 = 1;
    while y < height - 1
        invariant
            image.inv(),
            width == image.cols(),
            height == image.rows(),
            width >= 3,
            height >= 3,
            1 <= y <= height - 1,
            sobel.len() == old(sobel).len(),
            sobel.len() == width * height,
            forall|px: int, py: int|
                is_interior(px, py, width as int, height as int) && py < y ==> #[trigger] sobel[grid::cell(
                    px,
                    py,
                    width as int,
                )] == edge_strength(image, px, py),
            forall|px: int, py: int|
                0 <= px < width && 0 <= py < height && !(is_interior(
                    px,
                    py,
                    width as int,
                    height as int,
                ) && py < y) ==> #[trigger] sobel[grid::cell(px, py, width as int)]
                    == old(sobel)[grid::cell(px, py, width as int)],
        decreases height - y,
    {
        let mut x: u32 = 1;
        while x < width - 1
            invariant
                image.inv(),
                width == image.cols(),
                height == image.rows(),
                width >= 3,
                height >= 3,
                1 <= y < height - 1,
                1 <= x <= width - 1,
                sobel.len() == old(sobel).len(),
                sobel.len() == width * height,
                forall|px: int, py: int|
                    is_interior(px, py, width as int, height as int) && (py < y || (py == y && px
                        < x)) ==> #[trigger] sobel[grid::cell(px, py, width as int)]
                        == edge_strength(image, px, py),
                forall|px: int, py: int|
                    0 <= px < width && 0 <= py < height && !(is_interior(
                        px,
                        py,
                        width as int,
                        height as int,
                    ) && (py < y || (py == y && px < x))) ==> #[trigger] sobel[grid::cell(px, py, width as int)]
                        == old(sobel)[grid::cell(px, py, width as int)],
            decreases width - x,
        {
            let val0: i32 = image.get(x - 1, y - 1) as i32;
            let val1: i32 = image.get(x, y - 1) as i32;
            let val2: i32 = image.get(x + 1, y - 1) as i32;
            let val3: i32 = image.get(x - 1, y) as i32;
            let val5: i32 = image.get(x + 1, y) as i32;
            let val6: i32 = image.get(x - 1, y + 1) as i32;
            let val7: i32 = image.get(x, y + 1) as i32;
            let val8: i32 = image.get(x + 1, y + 1) as i32;
            let gx: i32 = -val0 - 2 * val3 - val6 + val2 + 2 * val5 + val8;
            let gy: i32 = -val0 - 2 * val1 - val2 + val6 + 2 * val7 + val8;
            assert(0 <= gx * gx <= 1020 * 1020 && 0 <= gy * gy <= 1020 * 1020)
                by (nonlinear_arith)
                requires
                    -1020 <= gx <= 1020,
                    -1020 <= gy <= 1020,
            ;
            let mag: u8 = saturating_rounded_root((gx * gx + gy * gy) as u32);
            let i: usize = grid::index(x, y, width, height, sobel.len());
            let ghost before = sobel@;
            sobel[i] = mag;
            proof {
                assert forall|px: int, py: int|
                    0 <= px < width && 0 <= py < height && !(px == x && py
                        == y) implies #[trigger] sobel[grid::cell(px, py, width as int)]
                    == before[grid::cell(px, py, width as int)] by {
                    grid::lemma_cell_in_grid(px, py, width as int, height as int);
                    if grid::cell(px, py, width as int) == grid::cell(
                        x as int,
                        y as int,
                        width as int,
                    ) {
                        grid::lemma_cell_unique(px, py, x as int, y as int, width as int);
                    }
                }
            }
            x = x + 1;
        }
        y = y + 1;
    }
}

} // verus!
