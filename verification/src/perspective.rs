//! Projective rectification: the transform that sends the corners of the
//! canonical rectangle to the four detected corners.
//!
//! A projective transform is a 3×3 matrix up to a common factor. The factor
//! is chosen so that every entry is an integer, which makes the construction
//! exact.
use vstd::prelude::*;
use crate::corners::{lemma_pixel_inside, locate, pixel_of};
use crate::raster::{Image, Pixel};

verus! {

/// The largest width and height of the canonical rectangle.
pub const MAX_CANONICAL: u32 = 4096;

/// A projective transform from the canonical rectangle to the source image.
///
/// The point `(x, y)` goes to `(u / w, v / w)` with
/// `u = xx * x + xy * y + xw`, `v = yx * x + yy * y + yw` and
/// `w = wx * x + wy * y + ww`.
#[derive(Clone, Copy, Debug, PartialEq, Eq)]
pub struct Homography {
    pub xx: i128,
    pub xy: i128,
    pub xw: i128,
    pub yx: i128,
    pub yy: i128,
    pub yw: i128,
    pub wx: i128,
    pub wy: i128,
    pub ww: i128,
}

impl Homography {
    /// The bounds on the entries that keep the mapping of a canonical point
    /// within machine integers.
    pub open spec fn wf(&self) -> bool {
        &&& -0x8000_0000_0000_0000_0000_0000_0000 <= self.xx <= 0x8000_0000_0000_0000_0000_0000_0000
        &&& -0x8000_0000_0000_0000_0000_0000_0000 <= self.xy <= 0x8000_0000_0000_0000_0000_0000_0000
        &&& -0x8000_0000_0000_0000_0000_0000_0000 <= self.yx <= 0x8000_0000_0000_0000_0000_0000_0000
        &&& -0x8000_0000_0000_0000_0000_0000_0000 <= self.yy <= 0x8000_0000_0000_0000_0000_0000_0000
        &&& -0x400_0000_0000_0000_0000_0000_0000_0000 <= self.xw
            <= 0x400_0000_0000_0000_0000_0000_0000_0000
        &&& -0x400_0000_0000_0000_0000_0000_0000_0000 <= self.yw
            <= 0x400_0000_0000_0000_0000_0000_0000_0000
        &&& -0x8000_0000_0000_0000_0000 <= self.wx <= 0x8000_0000_0000_0000_0000
        &&& -0x8000_0000_0000_0000_0000 <= self.wy <= 0x8000_0000_0000_0000_0000
        &&& -0x400_0000_0000_0000_0000_0000 <= self.ww <= 0x400_0000_0000_0000_0000_0000
    }

    /// The homogeneous image `(u, v, w)` of the canonical point `(x, y)`.
    pub open spec fn apply(&self, x: int, y: int) -> (int, int, int) {
        (
            self.xx * x + self.xy * y + self.xw,
            self.yx * x + self.yy * y + self.yw,
            self.wx * x + self.wy * y + self.ww,
        )
    }

    /// The pixel of the source image that the canonical point `(x, y)` falls
    /// into, if it falls inside the `width × height` image.
    pub open spec fn source_pixel(&self, x: int, y: int, width: int, height: int) -> Option<(u32, u32)> {
        let (u, v, w) = self.apply(x, y);
        if w > 0 {
            pixel_of(u, v, w, width, height)
        } else if w < 0 {
            pixel_of(-u, -v, -w, width, height)
        } else {
            None
        }
    }
}

/// Twice the signed area of the triangle `p`, `q`, `r`; zero when the three
/// points lie on one line.
pub open spec fn area2(p: (u32, u32), q: (u32, u32), r: (u32, u32)) -> int {
    p.0 * (q.1 - r.1) - q.0 * (p.1 - r.1) + r.0 * (p.1 - q.1)
}

/// Whether no three of the four corners lie on one line.
pub open spec fn in_general_position(c: Seq<(u32, u32)>) -> bool {
    &&& area2(c[0], c[1], c[2]) != 0
    &&& area2(c[3], c[1], c[2]) != 0
    &&& area2(c[0], c[3], c[2]) != 0
    &&& area2(c[0], c[1], c[3]) != 0
}

/// The transform that sends the corners `(0, 0)`, `(width, 0)`, `(0, height)`
/// and `(width, height)` of the canonical rectangle to the corners `c[0]`,
/// `c[1]`, `c[2]` and `c[3]`.
///
/// With `m0`, `m1`, `m2` the weights that make `m0·c[0] + m1·c[1] + m2·c[2]`
/// a multiple of `c[3]` in homogeneous coordinates, the columns of the matrix
/// are `height·(m0·c[0] + m1·c[1])`, `width·(m0·c[0] + m2·c[2])` and
/// `-width·height·m0·c[0]`.
pub open spec fn homography_of(c: Seq<(u32, u32)>, width: int, height: int) -> Homography {
    let m0 = area2(c[3], c[1], c[2]);
    let m1 = area2(c[0], c[3], c[2]);
    let m2 = area2(c[0], c[1], c[3]);
    Homography {
        xx: (height * (m0 * c[0].0 + m1 * c[1].0)) as i128,
        xy: (width * (m0 * c[0].0 + m2 * c[2].0)) as i128,
        xw: (-(width * height) * (m0 * c[0].0)) as i128,
        yx: (height * (m0 * c[0].1 + m1 * c[1].1)) as i128,
        yy: (width * (m0 * c[0].1 + m2 * c[2].1)) as i128,
        yw: (-(width * height) * (m0 * c[0].1)) as i128,
        wx: (height * (m0 + m1)) as i128,
        wy: (width * (m0 + m2)) as i128,
        ww: (-(width * height) * m0) as i128,
    }
}

/// Twice the area of a triangle of pixels is bounded.
pub proof fn lemma_area2_bound(p: (u32, u32), q: (u32, u32), r: (u32, u32))
    ensures
        -0x3_0000_0000_0000_0000 <= area2(p, q, r) <= 0x3_0000_0000_0000_0000,
{
    lemma_product_bound(p.0 as int, q.1 - r.1, 0x1_0000_0000, 0x1_0000_0000);
    lemma_product_bound(q.0 as int, p.1 - r.1, 0x1_0000_0000, 0x1_0000_0000);
    lemma_product_bound(r.0 as int, p.1 - q.1, 0x1_0000_0000, 0x1_0000_0000);
}

/// A product is bounded by the product of the bounds of its factors.
pub proof fn lemma_product_bound(a: int, b: int, m: int, n: int)
    requires
        -m <= a <= m,
        -n <= b <= n,
    ensures
        -(m * n) <= a * b <= m * n,
{
    assert(-(m * n) <= a * b <= m * n) by (nonlinear_arith)
        requires
            -m <= a <= m,
            -n <= b <= n,
    ;
}

/// Cramer's rule for the fourth corner: the weights combine the first three
/// corners into the fourth, times the area of the first three.
pub proof fn lemma_weights(c: Seq<(u32, u32)>)
    requires
        c.len() == 4,
    ensures
        ({
            let m0 = area2(c[3], c[1], c[2]);
            let m1 = area2(c[0], c[3], c[2]);
            let m2 = area2(c[0], c[1], c[3]);
            let d = area2(c[0], c[1], c[2]);
            &&& m0 * c[0].0 + m1 * c[1].0 + m2 * c[2].0 == d * c[3].0
            &&& m0 * c[0].1 + m1 * c[1].1 + m2 * c[2].1 == d * c[3].1
            &&& m0 + m1 + m2 == d
        }),
{
    let x0 = c[0].0 as int;
    let y0 = c[0].1 as int;
    let x1 = c[1].0 as int;
    let y1 = c[1].1 as int;
    let x2 = c[2].0 as int;
    let y2 = c[2].1 as int;
    let x3 = c[3].0 as int;
    let y3 = c[3].1 as int;
    // Each area, written out in products of one `x` and one `y`.
    let m0 = area2(c[3], c[1], c[2]);
    lemma_distribute(x3, y1, y2);
    lemma_distribute(x1, y3, y2);
    lemma_distribute(x2, y3, y1);
    assert(m0 == x3 * y1 - x3 * y2 - x1 * y3 + x1 * y2 + x2 * y3 - x2 * y1);
    let m1 = area2(c[0], c[3], c[2]);
    lemma_distribute(x0, y3, y2);
    lemma_distribute(x3, y0, y2);
    lemma_distribute(x2, y0, y3);
    assert(m1 == x0 * y3 - x0 * y2 - x3 * y0 + x3 * y2 + x2 * y0 - x2 * y3);
    let m2 = area2(c[0], c[1], c[3]);
    lemma_distribute(x0, y1, y3);
    lemma_distribute(x1, y0, y3);
    lemma_distribute(x3, y0, y1);
    assert(m2 == x0 * y1 - x0 * y3 - x1 * y0 + x1 * y3 + x3 * y0 - x3 * y1);
    let d = area2(c[0], c[1], c[2]);
    lemma_distribute(x0, y1, y2);
    lemma_distribute(x1, y0, y2);
    lemma_distribute(x2, y0, y1);
    assert(d == x0 * y1 - x0 * y2 - x1 * y0 + x1 * y2 + x2 * y0 - x2 * y1);
    // Each area times a coordinate, product by product, with the factors of
    // every product in one order: the products that occur twice cancel.
    lemma_expand(x0, x3 * y1, x3 * y2, x1 * y3, x1 * y2, x2 * y3, x2 * y1);
    lemma_expand(x1, x0 * y3, x0 * y2, x3 * y0, x3 * y2, x2 * y0, x2 * y3);
    lemma_swap_inner(x1, x0, y3);
    lemma_swap_inner(x1, x0, y2);
    lemma_expand(x2, x0 * y1, x0 * y3, x1 * y0, x1 * y3, x3 * y0, x3 * y1);
    lemma_swap_inner(x2, x0, y1);
    lemma_swap_inner(x2, x0, y3);
    lemma_swap_inner(x2, x1, y0);
    lemma_swap_inner(x2, x1, y3);
    lemma_expand(x3, x0 * y1, x0 * y2, x1 * y0, x1 * y2, x2 * y0, x2 * y1);
    lemma_swap_inner(x3, x0, y1);
    lemma_swap_inner(x3, x0, y2);
    lemma_swap_inner(x3, x1, y0);
    lemma_swap_inner(x3, x1, y2);
    lemma_swap_inner(x3, x2, y0);
    lemma_swap_inner(x3, x2, y1);
    assert(m0 * x0 + m1 * x1 + m2 * x2 == d * x3);
    lemma_expand(y0, x3 * y1, x3 * y2, x1 * y3, x1 * y2, x2 * y3, x2 * y1);
    lemma_expand(y1, x0 * y3, x0 * y2, x3 * y0, x3 * y2, x2 * y0, x2 * y3);
    lemma_swap_outer(y1, x3, y0);
    lemma_swap_outer(y1, x2, y0);
    lemma_expand(y2, x0 * y1, x0 * y3, x1 * y0, x1 * y3, x3 * y0, x3 * y1);
    lemma_swap_outer(y2, x0, y1);
    lemma_swap_outer(y2, x1, y0);
    lemma_swap_outer(y2, x3, y0);
    lemma_swap_outer(y2, x3, y1);
    lemma_expand(y3, x0 * y1, x0 * y2, x1 * y0, x1 * y2, x2 * y0, x2 * y1);
    lemma_swap_outer(y3, x0, y1);
    lemma_swap_outer(y3, x0, y2);
    lemma_swap_outer(y3, x1, y0);
    lemma_swap_outer(y3, x1, y2);
    lemma_swap_outer(y3, x2, y0);
    lemma_swap_outer(y3, x2, y1);
    assert(m0 * y0 + m1 * y1 + m2 * y2 == d * y3);
}

/// Multiplication distributes over a difference.
proof fn lemma_distribute(a: int, b: int, c: int)
    ensures
        a * (b - c) == a * b - a * c,
{
    assert(a * (b - c) == a * b - a * c) by (nonlinear_arith);
}

/// Multiplication distributes over the six terms of an area.
proof fn lemma_expand(k: int, a: int, b: int, c: int, d: int, e: int, f: int)
    ensures
        (a - b - c + d + e - f) * k == k * a - k * b - k * c + k * d + k * e - k * f,
{
    assert((a - b - c + d + e - f) * k == k * a - k * b - k * c + k * d + k * e - k * f)
        by (nonlinear_arith);
}

/// The first two factors of a product of three may change places.
proof fn lemma_swap_inner(a: int, b: int, c: int)
    ensures
        a * (b * c) == b * (a * c),
{
    assert(a * (b * c) == b * (a * c)) by (nonlinear_arith);
}

/// The first and the last factor of a product of three may change places.
proof fn lemma_swap_outer(a: int, b: int, c: int)
    ensures
        a * (b * c) == c * (b * a),
{
    assert(a * (b * c) == c * (b * a)) by (nonlinear_arith);
}

/// Computes twice the signed area of the triangle `p`, `q`, `r`.
pub fn area(p: (u32, u32), q: (u32, u32), r: (u32, u32)) -> (a: i128)
    ensures
        a == area2(p, q, r),
        -0x3_0000_0000_0000_0000 <= a <= 0x3_0000_0000_0000_0000,
{
    proof {
        lemma_product_bound(p.0 as int, q.1 - r.1, 0x1_0000_0000, 0x1_0000_0000);
        lemma_product_bound(q.0 as int, p.1 - r.1, 0x1_0000_0000, 0x1_0000_0000);
        lemma_product_bound(r.0 as int, p.1 - q.1, 0x1_0000_0000, 0x1_0000_0000);
    }
    p.0 as i128 * (q.1 as i128 - r.1 as i128) - q.0 as i128 * (p.1 as i128 - r.1 as i128) + r.0 as i128
        * (p.1 as i128 - q.1 as i128)
}

/// Computes `side * (m * u + n * v)`, one entry of the first two columns.
fn column(side: u32, m: i128, u: u32, n: i128, v: u32) -> (e: i128)
    requires
        side <= MAX_CANONICAL,
        -0x3_0000_0000_0000_0000 <= m <= 0x3_0000_0000_0000_0000,
        -0x3_0000_0000_0000_0000 <= n <= 0x3_0000_0000_0000_0000,
    ensures
        e == side * (m * u + n * v),
        -0x8000_0000_0000_0000_0000_0000_0000 <= e <= 0x8000_0000_0000_0000_0000_0000_0000,
{
    proof {
        lemma_product_bound(m as int, u as int, 0x3_0000_0000_0000_0000, 0x1_0000_0000);
        lemma_product_bound(n as int, v as int, 0x3_0000_0000_0000_0000, 0x1_0000_0000);
        lemma_product_bound(
            side as int,
            m * u + n * v,
            0x1000,
            0x6_0000_0000_0000_0000_0000_0000,
        );
    }
    side as i128 * (m * u as i128 + n * v as i128)
}

/// Computes `-(width * height) * (m * u)`, one entry of the last column.
fn corner_column(width: u32, height: u32, m: i128, u: u32) -> (e: i128)
    requires
        width <= MAX_CANONICAL,
        height <= MAX_CANONICAL,
        -0x3_0000_0000_0000_0000 <= m <= 0x3_0000_0000_0000_0000,
    ensures
        e == -(width * height) * (m * u),
        -0x400_0000_0000_0000_0000_0000_0000_0000 <= e <= 0x400_0000_0000_0000_0000_0000_0000_0000,
{
    proof {
        lemma_product_bound(width as int, height as int, 0x1000, 0x1000);
        lemma_product_bound(m as int, u as int, 0x3_0000_0000_0000_0000, 0x1_0000_0000);
        lemma_product_bound(
            -(width * height),
            m * u,
            0x100_0000,
            0x3_0000_0000_0000_0000_0000_0000,
        );
    }
    -(width as i128 * height as i128) * (m * u as i128)
}

/// Solves for the transform that sends the corners of the canonical
/// `width × height` rectangle to the four `corners`, given in the order
/// top-left, top-right, bottom-left, bottom-right.
///
/// There is such a transform, and it is returned, exactly when no three of
/// the corners lie on one line.
pub fn calculate(corners: &Vec<(u32, u32)>, width: u32, height: u32) -> (h: Option<Homography>)
    requires
        corners.len() == 4,
        1 <= width <= MAX_CANONICAL,
        1 <= height <= MAX_CANONICAL,
    ensures
        h.is_some() == in_general_position(corners@),
        h.is_some() ==> h.unwrap() == homography_of(corners@, width as int, height as int)
            && h.unwrap().wf(),
{
    let c0: (u32, u32) = corners[0];
    let c1: (u32, u32) = corners[1];
    let c2: (u32, u32) = corners[2];
    let c3: (u32, u32) = corners[3];
    let d: i128 = area(c0, c1, c2);
    let m0: i128 = area(c3, c1, c2);
    let m1: i128 = area(c0, c3, c2);
    let m2: i128 = area(c0, c1, c3);
    if d == 0 || m0 == 0 || m1 == 0 || m2 == 0 {
        return None;
    }
    proof {
        lemma_product_bound(width as int, height as int, 0x1000, 0x1000);
        lemma_product_bound(height as int, m0 + m1, 0x1000, 0x6_0000_0000_0000_0000);
        lemma_product_bound(width as int, m0 + m2, 0x1000, 0x6_0000_0000_0000_0000);
        lemma_product_bound(-(width * height), m0 as int, 0x100_0000, 0x3_0000_0000_0000_0000);
    }
    Some(
        Homography {
            xx: column(height, m0, c0.0, m1, c1.0),
            xy: column(width, m0, c0.0, m2, c2.0),
            xw: corner_column(width, height, m0, c0.0),
            yx: column(height, m0, c0.1, m1, c1.1),
            yy: column(width, m0, c0.1, m2, c2.1),
            yw: corner_column(width, height, m0, c0.1),
            wx: height as i128 * (m0 + m1),
            wy: width as i128 * (m0 + m2),
            ww: -(width as i128 * height as i128) * m0,
        },
    )
}

/// Finds the pixel of the source image that the canonical point `(x, y)`
/// falls into, if it falls inside the `width × height` image.
pub fn map_point(h: &Homography, x: u32, y: u32, width: u32, height: u32) -> (p: Option<(u32, u32)>)
    requires
        h.wf(),
        x <= MAX_CANONICAL,
        y <= MAX_CANONICAL,
    ensures
        p == h.source_pixel(x as int, y as int, width as int, height as int),
        p.is_some() ==> p.unwrap().0 < width && p.unwrap().1 < height,
{
    proof {
        lemma_product_bound(h.xx as int, x as int, 0x8000_0000_0000_0000_0000_0000_0000, 0x1000);
        lemma_product_bound(h.xy as int, y as int, 0x8000_0000_0000_0000_0000_0000_0000, 0x1000);
        lemma_product_bound(h.yx as int, x as int, 0x8000_0000_0000_0000_0000_0000_0000, 0x1000);
        lemma_product_bound(h.yy as int, y as int, 0x8000_0000_0000_0000_0000_0000_0000, 0x1000);
        lemma_product_bound(h.wx as int, x as int, 0x8000_0000_0000_0000_0000, 0x1000);
        lemma_product_bound(h.wy as int, y as int, 0x8000_0000_0000_0000_0000, 0x1000);
    }
    let u: i128 = h.xx * x as i128 + h.xy * y as i128 + h.xw;
    let v: i128 = h.yx * x as i128 + h.yy * y as i128 + h.yw;
    let w: i128 = h.wx * x as i128 + h.wy * y as i128 + h.ww;
    if w > 0 {
        proof {
            if pixel_of(u as int, v as int, w as int, width as int, height as int).is_some() {
                lemma_pixel_inside(u as int, v as int, w as int, width as int, height as int);
            }
        }
        locate(u, v, w, width, height)
    } else if w < 0 {
        proof {
            if pixel_of(-u, -v, -w, width as int, height as int).is_some() {
                lemma_pixel_inside(-u, -v, -w, width as int, height as int);
            }
        }
        locate(-u, -v, -w, width, height)
    } else {
        None
    }
}

/// The pixel that rectification gives to the target position `(x, y)`: the
/// source pixel that the canonical point `(x + margin, y + margin)` falls
/// into, or `default` if that point falls outside the source image.
pub open spec fn resampled(source: &Image, h: &Homography, margin: int, default: Pixel, x: int, y: int) -> Pixel {
    match h.source_pixel(x + margin, y + margin, source.width as int, source.height as int) {
        Some(p) => source.pixel(p.0 as int, p.1 as int),
        None => default,
    }
}

/// Resamples `source` through the transform `h` into `target`.
///
/// The target shows the canonical rectangle without a frame of `margin`
/// pixels on every side. Each target pixel takes the source pixel that its
/// canonical point falls into, without interpolation; a target pixel whose
/// point falls outside the source keeps the value it had.
pub fn resample(source: &Image, h: &Homography, margin: u32, target: &mut Image)
    requires
        source.wf(),
        old(target).wf(),
        h.wf(),
        old(target).width + margin <= MAX_CANONICAL,
        old(target).height + margin <= MAX_CANONICAL,
    ensures
        final(target).wf(),
        final(target).width == old(target).width,
        final(target).height == old(target).height,
        forall|x: int, y: int|
            0 <= x < old(target).width && 0 <= y < old(target).height
                ==> #[trigger] final(target).pixel(x, y) == resampled(
                source,
                h,
                margin as int,
                old(target).pixel(x, y),
                x,
                y,
            ),
{
    let width: u32 = target.width;
    let height: u32 = target.height;
    let mut y: u32 = 0;
    while y < height
        invariant
            y <= height,
            source.wf(),
            target.wf(),
            h.wf(),
            target.width == width,
            target.height == height,
            width == old(target).width,
            height == old(target).height,
            width + margin <= MAX_CANONICAL,
            height + margin <= MAX_CANONICAL,
            forall|u: int, v: int|
                0 <= u < width && 0 <= v < height ==> #[trigger] target.pixel(u, v) == if v < y {
                    resampled(source, h, margin as int, old(target).pixel(u, v), u, v)
                } else {
                    old(target).pixel(u, v)
                },
        decreases height - y,
    {
        let mut x: u32 = 0;
        while x < width
            invariant
                y < height,
                x <= width,
                source.wf(),
                target.wf(),
                h.wf(),
                target.width == width,
                target.height == height,
                width == old(target).width,
                height == old(target).height,
                width + margin <= MAX_CANONICAL,
                height + margin <= MAX_CANONICAL,
                forall|u: int, v: int|
                    0 <= u < width && 0 <= v < height ==> #[trigger] target.pixel(u, v) == if v < y
                        || (v == y && u < x) {
                        resampled(source, h, margin as int, old(target).pixel(u, v), u, v)
                    } else {
                        old(target).pixel(u, v)
                    },
            decreases width - x,
        {
            let hit: Option<(u32, u32)> = map_point(
                h,
                x + margin,
                y + margin,
                source.width,
                source.height,
            );
            if let Some(p) = hit {
                let pixel: Pixel = source.get_pixel(p.0, p.1);
                target.put_pixel(x, y, pixel);
            }
            x = x + 1;
        }
        y = y + 1;
    }
}

/// The point `p` in homogeneous coordinates, scaled by `k`.
pub open spec fn scaled(k: int, p: (u32, u32)) -> (int, int, int) {
    (k * p.0, k * p.1, k)
}

/// The transform sends each corner of the canonical rectangle to a non-zero
/// multiple of the corner it was solved for.
pub proof fn lemma_corners_reproduced(c: Seq<(u32, u32)>, width: int, height: int)
    requires
        c.len() == 4,
        in_general_position(c),
        1 <= width <= MAX_CANONICAL,
        1 <= height <= MAX_CANONICAL,
    ensures
        ({
            let h = homography_of(c, width, height);
            let area = width * height;
            &&& area > 0
            &&& h.apply(0, 0) == scaled(-area * area2(c[3], c[1], c[2]), c[0])
            &&& h.apply(width, 0) == scaled(area * area2(c[0], c[3], c[2]), c[1])
            &&& h.apply(0, height) == scaled(area * area2(c[0], c[1], c[3]), c[2])
            &&& h.apply(width, height) == scaled(area * area2(c[0], c[1], c[2]), c[3])
            &&& -area * area2(c[3], c[1], c[2]) != 0
            &&& area * area2(c[0], c[3], c[2]) != 0
            &&& area * area2(c[0], c[1], c[3]) != 0
            &&& area * area2(c[0], c[1], c[2]) != 0
        }),
{
    let h = homography_of(c, width, height);
    let area = width * height;
    let m0 = area2(c[3], c[1], c[2]);
    let m1 = area2(c[0], c[3], c[2]);
    let m2 = area2(c[0], c[1], c[3]);
    let d = area2(c[0], c[1], c[2]);
    lemma_entries(c, width, height);
    lemma_weights(c);
    assert(area > 0) by (nonlinear_arith)
        requires
            area == width * height,
            width >= 1,
            height >= 1,
    ;
    lemma_nonzero_product(area, m0);
    lemma_nonzero_product(area, m1);
    lemma_nonzero_product(area, m2);
    lemma_nonzero_product(area, d);
    assert(-area * m0 == -(area * m0)) by (nonlinear_arith);
    lemma_column_sum(width, height, m0, m1, m2, d, c[0].0 as int, c[1].0 as int, c[2].0 as int, c[3].0 as int);
    lemma_column_sum(width, height, m0, m1, m2, d, c[0].1 as int, c[1].1 as int, c[2].1 as int, c[3].1 as int);
    lemma_column_sum(width, height, m0, m1, m2, d, 1, 1, 1, 1);
}

/// A non-zero multiple of a pixel inside the image stands for that pixel.
proof fn lemma_scaled_pixel(h: Homography, x: int, y: int, k: int, p: (u32, u32), width: int, height: int)
    requires
        h.apply(x, y) == scaled(k, p),
        k != 0,
        p.0 < width,
        p.1 < height,
    ensures
        h.source_pixel(x, y, width, height) == Some(p),
{
    let n = if k > 0 {
        k
    } else {
        -k
    };
    assert(0 <= n * p.0 < width * n && 0 <= n * p.1 < height * n) by (nonlinear_arith)
        requires
            n > 0,
            0 <= p.0 < width,
            0 <= p.1 < height,
    ;
    assert(-(k * p.0) == (-k) * p.0 && -(k * p.1) == (-k) * p.1) by (nonlinear_arith);
    vstd::arithmetic::div_mod::lemma_div_multiples_vanish(p.0 as int, n);
    vstd::arithmetic::div_mod::lemma_div_multiples_vanish(p.1 as int, n);
}

/// Rectification undoes the detection: the transform solved for four
/// corners sends the corners of the canonical rectangle back to exactly
/// those four corners of the source image.
pub proof fn lemma_rectification_inverts(
    c: Seq<(u32, u32)>,
    width: int,
    height: int,
    source_width: int,
    source_height: int,
)
    requires
        c.len() == 4,
        in_general_position(c),
        1 <= width <= MAX_CANONICAL,
        1 <= height <= MAX_CANONICAL,
        forall|i: int| 0 <= i < 4 ==> (#[trigger] c[i]).0 < source_width && c[i].1 < source_height,
    ensures
        ({
            let h = homography_of(c, width, height);
            &&& h.source_pixel(0, 0, source_width, source_height) == Some(c[0])
            &&& h.source_pixel(width, 0, source_width, source_height) == Some(c[1])
            &&& h.source_pixel(0, height, source_width, source_height) == Some(c[2])
            &&& h.source_pixel(width, height, source_width, source_height) == Some(c[3])
        }),
{
    let h = homography_of(c, width, height);
    let area = width * height;
    lemma_corners_reproduced(c, width, height);
    assert(c[0].0 < source_width && c[1].0 < source_width && c[2].0 < source_width && c[3].0
        < source_width);
    lemma_scaled_pixel(h, 0, 0, -area * area2(c[3], c[1], c[2]), c[0], source_width, source_height);
    lemma_scaled_pixel(h, width, 0, area * area2(c[0], c[3], c[2]), c[1], source_width, source_height);
    lemma_scaled_pixel(h, 0, height, area * area2(c[0], c[1], c[3]), c[2], source_width, source_height);
    lemma_scaled_pixel(
        h,
        width,
        height,
        area * area2(c[0], c[1], c[2]),
        c[3],
        source_width,
        source_height,
    );
}

/// The entries of the transform fit their machine integers.
proof fn lemma_entries(c: Seq<(u32, u32)>, width: int, height: int)
    requires
        c.len() == 4,
        1 <= width <= MAX_CANONICAL,
        1 <= height <= MAX_CANONICAL,
    ensures
        ({
            let h = homography_of(c, width, height);
            let m0 = area2(c[3], c[1], c[2]);
            let m1 = area2(c[0], c[3], c[2]);
            let m2 = area2(c[0], c[1], c[3]);
            &&& h.xx == height * (m0 * c[0].0 + m1 * c[1].0)
            &&& h.xy == width * (m0 * c[0].0 + m2 * c[2].0)
            &&& h.xw == -(width * height) * (m0 * c[0].0)
            &&& h.yx == height * (m0 * c[0].1 + m1 * c[1].1)
            &&& h.yy == width * (m0 * c[0].1 + m2 * c[2].1)
            &&& h.yw == -(width * height) * (m0 * c[0].1)
            &&& h.wx == height * (m0 + m1)
            &&& h.wy == width * (m0 + m2)
            &&& h.ww == -(width * height) * m0
        }),
{
    let m0 = area2(c[3], c[1], c[2]);
    let m1 = area2(c[0], c[3], c[2]);
    let m2 = area2(c[0], c[1], c[3]);
    lemma_area2_bound(c[3], c[1], c[2]);
    lemma_area2_bound(c[0], c[3], c[2]);
    lemma_area2_bound(c[0], c[1], c[3]);
    lemma_product_bound(width, height, 0x1000, 0x1000);
    lemma_product_bound(m0, c[0].0 as int, 0x3_0000_0000_0000_0000, 0x1_0000_0000);
    lemma_product_bound(m0, c[0].1 as int, 0x3_0000_0000_0000_0000, 0x1_0000_0000);
    lemma_product_bound(m1, c[1].0 as int, 0x3_0000_0000_0000_0000, 0x1_0000_0000);
    lemma_product_bound(m1, c[1].1 as int, 0x3_0000_0000_0000_0000, 0x1_0000_0000);
    lemma_product_bound(m2, c[2].0 as int, 0x3_0000_0000_0000_0000, 0x1_0000_0000);
    lemma_product_bound(m2, c[2].1 as int, 0x3_0000_0000_0000_0000, 0x1_0000_0000);
    lemma_product_bound(height, m0 * c[0].0 + m1 * c[1].0, 0x1000, 0x6_0000_0000_0000_0000_0000_0000);
    lemma_product_bound(width, m0 * c[0].0 + m2 * c[2].0, 0x1000, 0x6_0000_0000_0000_0000_0000_0000);
    lemma_product_bound(height, m0 * c[0].1 + m1 * c[1].1, 0x1000, 0x6_0000_0000_0000_0000_0000_0000);
    lemma_product_bound(width, m0 * c[0].1 + m2 * c[2].1, 0x1000, 0x6_0000_0000_0000_0000_0000_0000);
    lemma_product_bound(-(width * height), m0 * c[0].0, 0x100_0000, 0x3_0000_0000_0000_0000_0000_0000);
    lemma_product_bound(-(width * height), m0 * c[0].1, 0x100_0000, 0x3_0000_0000_0000_0000_0000_0000);
    lemma_product_bound(height, m0 + m1, 0x1000, 0x6_0000_0000_0000_0000);
    lemma_product_bound(width, m0 + m2, 0x1000, 0x6_0000_0000_0000_0000);
    lemma_product_bound(-(width * height), m0, 0x100_0000, 0x3_0000_0000_0000_0000);
}

/// A product of numbers that are not zero is not zero.
proof fn lemma_nonzero_product(a: int, b: int)
    requires
        a != 0,
        b != 0,
    ensures
        a * b != 0,
{
    assert(a * b != 0) by (nonlinear_arith)
        requires
            a != 0,
            b != 0,
    ;
}

/// One row of the transform applied to the four canonical corners, where
/// `u0`, `u1`, `u2`, `u3` are that row's coordinate of the four corners.
proof fn lemma_column_sum(
    width: int,
    height: int,
    m0: int,
    m1: int,
    m2: int,
    d: int,
    u0: int,
    u1: int,
    u2: int,
    u3: int,
)
    requires
        m0 * u0 + m1 * u1 + m2 * u2 == d * u3,
    ensures
        ({
            let a = height * (m0 * u0 + m1 * u1);
            let b = width * (m0 * u0 + m2 * u2);
            let e = -(width * height) * (m0 * u0);
            let area = width * height;
            &&& a * 0 + b * 0 + e == (-area * m0) * u0
            &&& a * width + b * 0 + e == (area * m1) * u1
            &&& a * 0 + b * height + e == (area * m2) * u2
            &&& a * width + b * height + e == (area * d) * u3
        }),
{
    let area = width * height;
    let q0 = m0 * u0;
    let q1 = m1 * u1;
    let q2 = m2 * u2;
    let a = height * (q0 + q1);
    let b = width * (q0 + q2);
    let e = -area * q0;
    assert(e == (-area * m0) * u0) by (nonlinear_arith)
        requires
            e == -area * q0,
            q0 == m0 * u0,
    ;
    assert(a * width == area * q0 + area * q1) by (nonlinear_arith)
        requires
            a == height * (q0 + q1),
            area == width * height,
    ;
    assert(b * height == area * q0 + area * q2) by (nonlinear_arith)
        requires
            b == width * (q0 + q2),
            area == width * height,
    ;
    assert(-area * q0 == -(area * q0)) by (nonlinear_arith);
    assert(area * q1 == (area * m1) * u1) by (nonlinear_arith)
        requires
            q1 == m1 * u1,
    ;
    assert(area * q2 == (area * m2) * u2) by (nonlinear_arith)
        requires
            q2 == m2 * u2,
    ;
    assert(area * q0 + area * q1 + area * q2 == (area * d) * u3) by (nonlinear_arith)
        requires
            q0 + q1 + q2 == d * u3,
    ;
}

} // verus!
