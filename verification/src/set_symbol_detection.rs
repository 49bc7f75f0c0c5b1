//! Symbol matching: a small template is scored against the image at the
//! positions of three fixed search windows.
//!
//! The score of a placement is the sum of squared differences between image
//! and template, divided by the square root of the product of their
//! energies. It is never computed as a number: scores are held as the exact
//! parts they are made of and compared by cross-multiplication.
use vstd::prelude::*;
use crate::raster::Image;
use crate::Luma;

verus! {

/// The largest number of pixels a template may have.
pub const MAX_TEMPLATE_PIXELS: u64 = 0x100_0000;

/// The acceptance threshold `num / den` of a template, at most one.
#[derive(Clone, Copy, Debug, PartialEq, Eq)]
pub struct Threshold {
    pub num: u16,
    pub den: u16,
}

impl Threshold {
    /// A threshold is a fraction between zero and one.
    pub open spec fn wf(&self) -> bool {
        self.den > 0 && self.num <= self.den
    }
}

/// A rectangle of placements: the template's top-left corner may stand at
/// the columns `left <= x < right` of the rows `top <= y < bottom`.
#[derive(Clone, Copy, Debug, PartialEq, Eq)]
pub struct Window {
    pub left: u32,
    pub right: u32,
    pub top: u32,
    pub bottom: u32,
}

impl Window {
    /// Whether the placement `(x, y)` belongs to the window.
    pub open spec fn holds(&self, x: int, y: int) -> bool {
        self.left <= x < self.right && self.top <= y < self.bottom
    }
}

/// The score of the best placement of a template, in exact parts.
///
/// The score is `diff / sqrt(image_energy * template_energy)`.
#[derive(Clone, Copy, Debug, PartialEq, Eq)]
pub struct SymbolMatch {
    /// The column of the placement.
    pub x: u32,
    /// The row of the placement.
    pub y: u32,
    /// The sum of the squared differences between image and template.
    pub diff: u64,
    /// The sum of the squared image values under the template.
    pub image_energy: u64,
    /// The sum of the squared template values.
    pub template_energy: u64,
}

/// `limit - size`, or zero where the template does not fit.
pub open spec fn room(limit: int, size: int) -> u32 {
    if limit >= size {
        (limit - size) as u32
    } else {
        0
    }
}

/// The smaller of two numbers.
pub open spec fn least(a: int, b: int) -> int {
    if a <= b {
        a
    } else {
        b
    }
}

/// The `k`-th of the three search windows for a template of `tw × th` pixels
/// in an image of `iw × ih` pixels.
pub open spec fn window(k: int, iw: int, ih: int, tw: int, th: int) -> Window {
    if k == 0 {
        Window { left: 10, right: room(least(iw, 130), tw), top: 900, bottom: room(least(ih, 1000), th) }
    } else if k == 1 {
        Window { left: 600, right: room(iw, tw), top: 850, bottom: room(ih, th) }
    } else {
        Window { left: 600, right: room(iw, tw), top: 500, bottom: room(least(ih, 620), th) }
    }
}

/// Whether `(x, y)` is one of the placements that are tried.
pub open spec fn is_placement(iw: int, ih: int, tw: int, th: int, x: int, y: int) -> bool {
    window(0, iw, ih, tw, th).holds(x, y) || window(1, iw, ih, tw, th).holds(x, y) || window(
        2,
        iw,
        ih,
        tw,
        th,
    ).holds(x, y)
}

/// Whether the template pixel `(dx, dy)` takes part in scoring: a pixel with
/// alpha zero does not.
pub open spec fn masked(template: &Image, dx: int, dy: int) -> bool {
    template.pixel(dx, dy).3 != 0
}

/// The sum of the squared template values over the first `n` pixels of row `dy`.
pub open spec fn energy_row(template: &Image, dy: int, n: int) -> int
    decreases n,
{
    if n <= 0 {
        0
    } else {
        energy_row(template, dy, n - 1) + if masked(template, n - 1, dy) {
            template.pixel(n - 1, dy).0 * template.pixel(n - 1, dy).0
        } else {
            0
        }
    }
}

/// The sum of the squared template values over the first `rows` rows.
pub open spec fn energy(template: &Image, rows: int) -> int
    decreases rows,
{
    if rows <= 0 {
        0
    } else {
        energy(template, rows - 1) + energy_row(template, rows - 1, template.width as int)
    }
}

/// The energy of the template: the sum of its squared values over the pixels
/// that take part.
pub open spec fn template_energy(template: &Image) -> int {
    energy(template, template.height as int)
}

/// The squared difference and the squared image value that the template
/// pixel `(dx, dy)` adds to the placement `(x, y)`.
pub open spec fn pixel_parts<L: Luma<u8>>(image: &L, template: &Image, x: int, y: int, dx: int, dy: int) -> (int, int) {
    if masked(template, dx, dy) {
        let i = image.sample((x + dx) as u32, (y + dy) as u32) as int;
        let t = template.pixel(dx, dy).0 as int;
        ((i - t) * (i - t), i * i)
    } else {
        (0, 0)
    }
}

/// The sums of squared differences and of squared image values over the
/// first `n` pixels of template row `dy`, for the placement `(x, y)`.
pub open spec fn row_parts<L: Luma<u8>>(image: &L, template: &Image, x: int, y: int, dy: int, n: int) -> (int, int)
    decreases n,
{
    if n <= 0 {
        (0, 0)
    } else {
        let before = row_parts(image, template, x, y, dy, n - 1);
        let here = pixel_parts(image, template, x, y, n - 1, dy);
        (before.0 + here.0, before.1 + here.1)
    }
}

/// The sums of squared differences and of squared image values over the
/// first `rows` rows of the template, for the placement `(x, y)`.
pub open spec fn parts<L: Luma<u8>>(image: &L, template: &Image, x: int, y: int, rows: int) -> (int, int)
    decreases rows,
{
    if rows <= 0 {
        (0, 0)
    } else {
        let before = parts(image, template, x, y, rows - 1);
        let row = row_parts(image, template, x, y, rows - 1, template.width as int);
        (before.0 + row.0, before.1 + row.1)
    }
}

/// The sum of squared differences of the placement `(x, y)`.
pub open spec fn diff_at<L: Luma<u8>>(image: &L, template: &Image, x: int, y: int) -> int {
    parts(image, template, x, y, template.height as int).0
}

/// The image energy of the placement `(x, y)`.
pub open spec fn image_energy_at<L: Luma<u8>>(image: &L, template: &Image, x: int, y: int) -> int {
    parts(image, template, x, y, template.height as int).1
}

/// Whether the score `diff / sqrt(image_energy * template_energy)` lies
/// below the threshold. A placement without energy never does.
pub open spec fn below(diff: int, image_energy: int, template_energy: int, threshold: Threshold) -> bool {
    (diff * diff) * (threshold.den * threshold.den) < (threshold.num * threshold.num) * (image_energy
        * template_energy)
}

/// Whether the placement `(x, y)` is a match.
pub open spec fn qualifies<L: Luma<u8>>(image: &L, template: &Image, threshold: Threshold, x: int, y: int) -> bool {
    below(
        diff_at(image, template, x, y),
        image_energy_at(image, template, x, y),
        template_energy(template),
        threshold,
    )
}

/// Whether `diff1 / sqrt(energy1)` is less than `diff2 / sqrt(energy2)`:
/// the order of two scores for the same template.
pub open spec fn score_less(diff1: int, energy1: int, diff2: int, energy2: int) -> bool {
    (diff1 * diff1) * energy2 < (diff2 * diff2) * energy1
}

/// Whether the match records the placement `(x, y)` of the template.
pub open spec fn records<L: Luma<u8>>(m: SymbolMatch, image: &L, template: &Image) -> bool {
    &&& m.diff == diff_at(image, template, m.x as int, m.y as int)
    &&& m.image_energy == image_energy_at(image, template, m.x as int, m.y as int)
    &&& m.template_energy == template_energy(template)
}

/// The sums over a row are bounded by the number of pixels counted.
pub proof fn lemma_row_parts_bound<L: Luma<u8>>(image: &L, template: &Image, x: int, y: int, dy: int, n: int)
    requires
        0 <= n,
    ensures
        0 <= row_parts(image, template, x, y, dy, n).0 <= 65025 * n,
        0 <= row_parts(image, template, x, y, dy, n).1 <= 65025 * n,
        0 <= energy_row(template, dy, n) <= 65025 * n,
    decreases n,
{
    if n > 0 {
        lemma_row_parts_bound(image, template, x, y, dy, n - 1);
        let i = image.sample((x + n - 1) as u32, (y + dy) as u32) as int;
        let t = template.pixel(n - 1, dy).0 as int;
        assert(0 <= (i - t) * (i - t) <= 65025 && 0 <= i * i <= 65025 && 0 <= t * t <= 65025)
            by (nonlinear_arith)
            requires
                0 <= i <= 255,
                0 <= t <= 255,
        ;
    }
}

/// The sums over the template are bounded by the number of pixels counted.
pub proof fn lemma_parts_bound<L: Luma<u8>>(image: &L, template: &Image, x: int, y: int, rows: int)
    requires
        0 <= rows,
    ensures
        0 <= parts(image, template, x, y, rows).0 <= 65025 * (template.width * rows),
        0 <= parts(image, template, x, y, rows).1 <= 65025 * (template.width * rows),
        0 <= energy(template, rows) <= 65025 * (template.width * rows),
    decreases rows,
{
    if rows > 0 {
        lemma_parts_bound(image, template, x, y, rows - 1);
        lemma_row_parts_bound(image, template, x, y, rows - 1, template.width as int);
        assert(template.width * rows == template.width * (rows - 1) + template.width)
            by (nonlinear_arith);
    } else {
        assert(template.width * rows == 0) by (nonlinear_arith)
            requires
                rows == 0,
        ;
    }
}

/// A template without energy matches nowhere.
pub proof fn lemma_no_energy_no_match(diff: int, image_energy: int, threshold: Threshold)
    ensures
        !below(diff, image_energy, 0, threshold),
        !below(diff, 0, image_energy, threshold),
{
    assert((diff * diff) * (threshold.den * threshold.den) >= 0) by (nonlinear_arith);
    assert((threshold.num * threshold.num) * (image_energy * 0) == 0) by (nonlinear_arith);
    assert((threshold.num * threshold.num) * (0 * image_energy) == 0) by (nonlinear_arith);
}

/// A placement that is a match has energy.
pub proof fn lemma_match_has_energy(diff: int, image_energy: int, template_energy: int, threshold: Threshold)
    requires
        below(diff, image_energy, template_energy, threshold),
        image_energy >= 0,
        template_energy >= 0,
    ensures
        image_energy > 0,
        template_energy > 0,
{
    lemma_no_energy_no_match(diff, image_energy, threshold);
    lemma_no_energy_no_match(diff, template_energy, threshold);
}

/// Computes the energy of the template.
pub fn energy_of(template: &Image) -> (e: u64)
    requires
        template.wf(),
        template.width * template.height <= MAX_TEMPLATE_PIXELS,
    ensures
        e == template_energy(template),
        e <= 65025 * MAX_TEMPLATE_PIXELS,
{
    let mut total: u64 = 0;
    let mut dy: u32 = 0;
    proof {
        lemma_parts_bound(template, template, 0, 0, template.height as int);
    }
    while dy < template.height
        invariant
            dy <= template.height,
            template.wf(),
            template.width * template.height <= MAX_TEMPLATE_PIXELS,
            total == energy(template, dy as int),
        decreases template.height - dy,
    {
        let mut row: u64 = 0;
        let mut dx: u32 = 0;
        while dx < template.width
            invariant
                dy < template.height,
                dx <= template.width,
                template.wf(),
                row == energy_row(template, dy as int, dx as int),
                row <= 65025 * dx,
            decreases template.width - dx,
        {
            let p: (u8, u8, u8, u8) = template.get_pixel(dx, dy);
            if p.3 != 0 {
                let t: u64 = p.0 as u64;
                assert(t * t <= 65025) by (nonlinear_arith)
                    requires
                        t <= 255,
                ;
                row = row + t * t;
            }
            dx = dx + 1;
        }
        proof {
            lemma_parts_bound(template, template, 0, 0, dy as int + 1);
            assert(template.width * (dy + 1) <= template.width * template.height)
                by (nonlinear_arith)
                requires
                    dy + 1 <= template.height,
            ;
        }
        total = total + row;
        dy = dy + 1;
    }
    proof {
        lemma_parts_bound(template, template, 0, 0, template.height as int);
    }
    total
}

/// Computes the parts of the score of the placement `(x, y)`: the sum of
/// squared differences and the image energy.
pub fn score<L: Luma<u8>>(image: &L, template: &Image, x: u32, y: u32) -> (s: (u64, u64))
    requires
        image.inv(),
        template.wf(),
        template.width * template.height <= MAX_TEMPLATE_PIXELS,
        x + template.width <= image.cols(),
        y + template.height <= image.rows(),
    ensures
        s.0 == diff_at(image, template, x as int, y as int),
        s.1 == image_energy_at(image, template, x as int, y as int),
        s.0 <= 65025 * MAX_TEMPLATE_PIXELS,
        s.1 <= 65025 * MAX_TEMPLATE_PIXELS,
{
    let mut diff: u64 = 0;
    let mut total: u64 = 0;
    let mut dy: u32 = 0;
    while dy < template.height
        invariant
            dy <= template.height,
            image.inv(),
            template.wf(),
            template.width * template.height <= MAX_TEMPLATE_PIXELS,
            x + template.width <= image.cols(),
            y + template.height <= image.rows(),
            diff == parts(image, template, x as int, y as int, dy as int).0,
            total == parts(image, template, x as int, y as int, dy as int).1,
        decreases template.height - dy,
    {
        let mut row_diff: u64 = 0;
        let mut row_total: u64 = 0;
        let mut dx: u32 = 0;
        while dx < template.width
            invariant
                dy < template.height,
                dx <= template.width,
                image.inv(),
                template.wf(),
                x + template.width <= image.cols(),
                y + template.height <= image.rows(),
                row_diff == row_parts(image, template, x as int, y as int, dy as int, dx as int).0,
                row_total == row_parts(image, template, x as int, y as int, dy as int, dx as int).1,
                row_diff <= 65025 * dx,
                row_total <= 65025 * dx,
            decreases template.width - dx,
        {
            let p: (u8, u8, u8, u8) = template.get_pixel(dx, dy);
            if p.3 != 0 {
                let i: i64 = image.get(x + dx, y + dy) as i64;
                let t: i64 = p.0 as i64;
                assert(0 <= (i - t) * (i - t) <= 65025 && 0 <= i * i <= 65025) by (nonlinear_arith)
                    requires
                        0 <= i <= 255,
                        0 <= t <= 255,
                ;
                row_diff = row_diff + ((i - t) * (i - t)) as u64;
                row_total = row_total + (i * i) as u64;
            }
            dx = dx + 1;
        }
        proof {
            lemma_parts_bound(image, template, x as int, y as int, dy as int + 1);
            assert(template.width * (dy + 1) <= template.width * template.height)
                by (nonlinear_arith)
                requires
                    dy + 1 <= template.height,
            ;
        }
        diff = diff + row_diff;
        total = total + row_total;
        dy = dy + 1;
    }
    proof {
        lemma_parts_bound(image, template, x as int, y as int, template.height as int);
    }
    (diff, total)
}

/// Decides whether a score lies below the threshold.
pub fn is_below(diff: u64, image_energy: u64, template_energy: u64, threshold: Threshold) -> (b: bool)
    requires
        diff <= 65025 * MAX_TEMPLATE_PIXELS,
        image_energy <= 65025 * MAX_TEMPLATE_PIXELS,
        template_energy <= 65025 * MAX_TEMPLATE_PIXELS,
    ensures
        b == below(diff as int, image_energy as int, template_energy as int, threshold),
{
    let ghost top: int = 0x1_0000_0000_0000_0000_0000int;
    assert(diff * diff <= top && image_energy * template_energy <= top) by (nonlinear_arith)
        requires
            diff <= 0x100_0000_0000,
            image_energy <= 0x100_0000_0000,
            template_energy <= 0x100_0000_0000,
            top == 0x1_0000_0000_0000_0000_0000,
    ;
    assert(threshold.den * threshold.den <= 0x1_0000_0000 && threshold.num * threshold.num
        <= 0x1_0000_0000) by (nonlinear_arith)
        requires
            threshold.den <= 0xffff,
            threshold.num <= 0xffff,
    ;
    assert((diff * diff) * (threshold.den * threshold.den) <= top * 0x1_0000_0000
        && (threshold.num * threshold.num) * (image_energy * template_energy) <= top
        * 0x1_0000_0000) by (nonlinear_arith)
        requires
            0 <= diff * diff <= top,
            0 <= image_energy * template_energy <= top,
            0 <= threshold.den * threshold.den <= 0x1_0000_0000,
            0 <= threshold.num * threshold.num <= 0x1_0000_0000,
    ;
    let d2: u128 = diff as u128 * diff as u128;
    let e2: u128 = image_energy as u128 * template_energy as u128;
    let den2: u128 = threshold.den as u128 * threshold.den as u128;
    let num2: u128 = threshold.num as u128 * threshold.num as u128;
    d2 * den2 < num2 * e2
}

/// Decides whether the first score is less than the second.
pub fn is_less(diff1: u64, energy1: u64, diff2: u64, energy2: u64) -> (b: bool)
    requires
        diff1 <= 65025 * MAX_TEMPLATE_PIXELS,
        energy1 <= 65025 * MAX_TEMPLATE_PIXELS,
        diff2 <= 65025 * MAX_TEMPLATE_PIXELS,
        energy2 <= 65025 * MAX_TEMPLATE_PIXELS,
    ensures
        b == score_less(diff1 as int, energy1 as int, diff2 as int, energy2 as int),
{
    let ghost top: int = 0x1_0000_0000_0000_0000_0000int;
    assert(diff1 * diff1 <= top && diff2 * diff2 <= top) by (nonlinear_arith)
        requires
            diff1 <= 0x100_0000_0000,
            diff2 <= 0x100_0000_0000,
            top == 0x1_0000_0000_0000_0000_0000,
    ;
    assert((diff1 * diff1) * energy2 <= top * 0x100_0000_0000 && (diff2 * diff2) * energy1 <= top
        * 0x100_0000_0000) by (nonlinear_arith)
        requires
            0 <= diff1 * diff1 <= top,
            0 <= diff2 * diff2 <= top,
            energy1 <= 0x100_0000_0000,
            energy2 <= 0x100_0000_0000,
    ;
    let a: u128 = diff1 as u128 * diff1 as u128;
    let c: u128 = diff2 as u128 * diff2 as u128;
    a * (energy2 as u128) < c * (energy1 as u128)
}

/// Computes `limit - size`, or zero where the template does not fit.
fn room_of(limit: u32, size: u32) -> (r: u32)
    ensures
        r == room(limit as int, size as int),
{
    if limit >= size {
        limit - size
    } else {
        0
    }
}

/// Computes the `k`-th search window.
pub fn search_window(k: usize, iw: u32, ih: u32, tw: u32, th: u32) -> (w: Window)
    requires
        k < 3,
    ensures
        w == window(k as int, iw as int, ih as int, tw as int, th as int),
        forall|x: int, y: int| #[trigger] w.holds(x, y) ==> x + tw < iw && y + th < ih,
{
    if k == 0 {
        let lx: u32 = if iw <= 130 {
            iw
        } else {
            130
        };
        let ly: u32 = if ih <= 1000 {
            ih
        } else {
            1000
        };
        Window { left: 10, right: room_of(lx, tw), top: 900, bottom: room_of(ly, th) }
    } else if k == 1 {
        Window { left: 600, right: room_of(iw, tw), top: 850, bottom: room_of(ih, th) }
    } else {
        let ly: u32 = if ih <= 620 {
            ih
        } else {
            620
        };
        Window { left: 600, right: room_of(iw, tw), top: 500, bottom: room_of(ly, th) }
    }
}

/// Whether the match `m` scores no higher than the placement `(x, y)`.
pub open spec fn no_worse<L: Luma<u8>>(m: SymbolMatch, image: &L, template: &Image, x: int, y: int) -> bool {
    !score_less(
        diff_at(image, template, x, y),
        image_energy_at(image, template, x, y),
        m.diff as int,
        m.image_energy as int,
    )
}

/// Whether the match `m` scores lower than the placement `(x, y)`.
pub open spec fn better<L: Luma<u8>>(m: SymbolMatch, image: &L, template: &Image, x: int, y: int) -> bool {
    score_less(
        m.diff as int,
        m.image_energy as int,
        diff_at(image, template, x, y),
        image_energy_at(image, template, x, y),
    )
}

/// Whether `m` is a match of the template at a placement that is tried.
pub open spec fn is_match<L: Luma<u8>>(m: SymbolMatch, image: &L, template: &Image, threshold: Threshold) -> bool {
    &&& records(m, image, template)
    &&& qualifies(image, template, threshold, m.x as int, m.y as int)
    &&& is_placement(
        image.cols() as int,
        image.rows() as int,
        template.width as int,
        template.height as int,
        m.x as int,
        m.y as int,
    )
}

/// The number of the window that holds a placement. No two windows overlap.
pub open spec fn window_index(iw: int, ih: int, tw: int, th: int, x: int, y: int) -> int {
    if window(0, iw, ih, tw, th).holds(x, y) {
        0
    } else if window(1, iw, ih, tw, th).holds(x, y) {
        1
    } else {
        2
    }
}

/// Whether the placement `(u, v)` is tried before the placement `(x, y)`:
/// the windows are searched one after the other, each row by row.
pub open spec fn tried_before(iw: int, ih: int, tw: int, th: int, u: int, v: int, x: int, y: int) -> bool {
    let first = window_index(iw, ih, tw, th, u, v);
    let second = window_index(iw, ih, tw, th, x, y);
    first < second || (first == second && (v < y || (v == y && u < x)))
}

/// Whether `found` is the outcome of the search of the windows before
/// window `k`: the first of the matches with the lowest score, or nothing
/// where no placement is a match.
pub open spec fn is_first_best<L: Luma<u8>>(
    found: Option<SymbolMatch>,
    image: &L,
    template: &Image,
    threshold: Threshold,
    k: int,
) -> bool {
    let iw = image.cols() as int;
    let ih = image.rows() as int;
    let tw = template.width as int;
    let th = template.height as int;
    match found {
        None => forall|x: int, y: int|
            is_placement(iw, ih, tw, th, x, y) && window_index(iw, ih, tw, th, x, y) < k
                ==> !#[trigger] qualifies(image, template, threshold, x, y),
        Some(m) => {
            &&& is_match(m, image, template, threshold)
            &&& window_index(iw, ih, tw, th, m.x as int, m.y as int) < k
            &&& forall|x: int, y: int|
                is_placement(iw, ih, tw, th, x, y) && window_index(iw, ih, tw, th, x, y) < k
                    && #[trigger] qualifies(image, template, threshold, x, y) ==> {
                    &&& no_worse(m, image, template, x, y)
                    &&& tried_before(iw, ih, tw, th, x, y, m.x as int, m.y as int) ==> better(
                        m,
                        image,
                        template,
                        x,
                        y,
                    )
                }
        },
    }
}

/// A score below a second one that is not above a third is below the third.
pub proof fn lemma_score_strict(d1: int, e1: int, d2: int, e2: int, d3: int, e3: int)
    requires
        e1 > 0,
        e2 > 0,
        e3 > 0,
        score_less(d1, e1, d2, e2),
        !score_less(d3, e3, d2, e2),
    ensures
        score_less(d1, e1, d3, e3),
{
    let a = d1 * d1;
    let b = d2 * d2;
    let c = d3 * d3;
    assert(a * e2 < b * e1);
    assert(b * e3 <= c * e2);
    assert((a * e2) * e3 < (b * e1) * e3) by (nonlinear_arith)
        requires
            a * e2 < b * e1,
            e3 > 0,
    ;
    assert((b * e3) * e1 <= (c * e2) * e1) by (nonlinear_arith)
        requires
            b * e3 <= c * e2,
            e1 > 0,
    ;
    assert((b * e1) * e3 == (b * e3) * e1) by (nonlinear_arith);
    assert((a * e2) * e3 == (a * e3) * e2) by (nonlinear_arith);
    assert((c * e2) * e1 == (c * e1) * e2) by (nonlinear_arith);
    assert(a * e3 < c * e1) by (nonlinear_arith)
        requires
            (a * e3) * e2 < (c * e1) * e2,
            e2 > 0,
    ;
}

/// A match that scores lower than the best match so far scores lower than
/// every placement that one was compared with.
proof fn lemma_takes_over<L: Luma<u8>>(
    image: &L,
    template: &Image,
    threshold: Threshold,
    earlier: SymbolMatch,
    later: SymbolMatch,
    x: int,
    y: int,
)
    requires
        is_match(earlier, image, template, threshold),
        is_match(later, image, template, threshold),
        qualifies(image, template, threshold, x, y),
        no_worse(earlier, image, template, x, y),
        score_less(
            later.diff as int,
            later.image_energy as int,
            earlier.diff as int,
            earlier.image_energy as int,
        ),
    ensures
        better(later, image, template, x, y),
        no_worse(later, image, template, x, y),
{
    lemma_parts_bound(image, template, x, y, template.height as int);
    lemma_parts_bound(template, template, 0, 0, template.height as int);
    lemma_match_has_energy(
        diff_at(image, template, x, y),
        image_energy_at(image, template, x, y),
        template_energy(template),
        threshold,
    );
    lemma_match_has_energy(
        earlier.diff as int,
        earlier.image_energy as int,
        earlier.template_energy as int,
        threshold,
    );
    lemma_match_has_energy(
        later.diff as int,
        later.image_energy as int,
        later.template_energy as int,
        threshold,
    );
    lemma_score_strict(
        later.diff as int,
        later.image_energy as int,
        earlier.diff as int,
        earlier.image_energy as int,
        diff_at(image, template, x, y),
        image_energy_at(image, template, x, y),
    );
    let d = diff_at(image, template, x, y);
    let e = image_energy_at(image, template, x, y);
    assert(!score_less(d, e, later.diff as int, later.image_energy as int)) by (nonlinear_arith)
        requires
            (later.diff * later.diff) * e < (d * d) * later.image_energy,
    ;
}

/// Whether the placement `(u, v)` of window `k` has been scored when the
/// search of that window has come to the placement `(x, y)`, or belongs to a
/// window before it.
pub open spec fn is_seen(iw: int, ih: int, tw: int, th: int, k: int, x: int, y: int, u: int, v: int) -> bool {
    &&& is_placement(iw, ih, tw, th, u, v)
    &&& {
        ||| window_index(iw, ih, tw, th, u, v) < k
        ||| window_index(iw, ih, tw, th, u, v) == k && (v < y || (v == y && u < x))
    }
}

/// Whether `found` is the first of the best matches among the placements
/// that have been seen.
pub open spec fn is_first_best_seen<L: Luma<u8>>(
    found: Option<SymbolMatch>,
    image: &L,
    template: &Image,
    threshold: Threshold,
    k: int,
    x: int,
    y: int,
) -> bool {
    let iw = image.cols() as int;
    let ih = image.rows() as int;
    let tw = template.width as int;
    let th = template.height as int;
    match found {
        None => forall|u: int, v: int|
            is_seen(iw, ih, tw, th, k, x, y, u, v) ==> !#[trigger] qualifies(
                image,
                template,
                threshold,
                u,
                v,
            ),
        Some(m) => {
            &&& is_match(m, image, template, threshold)
            &&& is_seen(iw, ih, tw, th, k, x, y, m.x as int, m.y as int)
            &&& forall|u: int, v: int|
                is_seen(iw, ih, tw, th, k, x, y, u, v) && #[trigger] qualifies(
                    image,
                    template,
                    threshold,
                    u,
                    v,
                ) ==> {
                    &&& no_worse(m, image, template, u, v)
                    &&& tried_before(iw, ih, tw, th, u, v, m.x as int, m.y as int) ==> better(
                        m,
                        image,
                        template,
                        u,
                        v,
                    )
                }
        },
    }
}

/// Takes the score of the placement `(x, y)` of window `k` into the outcome
/// of the search.
fn consider<L: Luma<u8>>(
    image: &L,
    template: &Image,
    threshold: Threshold,
    template_energy: u64,
    best: Option<SymbolMatch>,
    x: u32,
    y: u32,
    Ghost(k): Ghost<int>,
) -> (out: Option<SymbolMatch>)
    requires
        image.inv(),
        template.wf(),
        template.width * template.height <= MAX_TEMPLATE_PIXELS,
        template_energy == self::template_energy(template),
        0 <= k < 3,
        x < u32::MAX,
        window(
            k,
            image.cols() as int,
            image.rows() as int,
            template.width as int,
            template.height as int,
        ).holds(x as int, y as int),
        is_first_best_seen(best, image, template, threshold, k, x as int, y as int),
    ensures
        is_first_best_seen(out, image, template, threshold, k, x as int + 1, y as int),
{
    let ghost iw = image.cols() as int;
    let ghost ih = image.rows() as int;
    let ghost tw = template.width as int;
    let ghost th = template.height as int;
    proof {
        lemma_parts_bound(template, template, 0, 0, template.height as int);
        assert(window_index(iw, ih, tw, th, x as int, y as int) == k);
        assert(is_placement(iw, ih, tw, th, x as int, y as int));
    }
    let (diff, image_energy) = score(image, template, x, y);
    if !is_below(diff, image_energy, template_energy, threshold) {
        return best;
    }
    let found = SymbolMatch { x, y, diff, image_energy, template_energy };
    proof {
        lemma_match_has_energy(diff as int, image_energy as int, template_energy as int, threshold);
        assert(is_match(found, image, template, threshold));
    }
    match best {
        None => Some(found),
        Some(m) => {
            proof {
                lemma_match_has_energy(
                    m.diff as int,
                    m.image_energy as int,
                    m.template_energy as int,
                    threshold,
                );
                lemma_parts_bound(image, template, m.x as int, m.y as int, template.height as int);
            }
            if is_less(diff, image_energy, m.diff, m.image_energy) {
                proof {
                    assert forall|u: int, v: int|
                        is_seen(iw, ih, tw, th, k, x as int + 1, y as int, u, v) && #[trigger] qualifies(
                            image,
                            template,
                            threshold,
                            u,
                            v,
                        ) implies no_worse(found, image, template, u, v) && (tried_before(
                        iw,
                        ih,
                        tw,
                        th,
                        u,
                        v,
                        x as int,
                        y as int,
                    ) ==> better(found, image, template, u, v)) by {
                        if !(u == x && v == y) {
                            assert(is_seen(iw, ih, tw, th, k, x as int, y as int, u, v));
                            lemma_takes_over(image, template, threshold, m, found, u, v);
                        }
                    }
                }
                Some(found)
            } else {
                proof {
                    assert forall|u: int, v: int|
                        is_seen(iw, ih, tw, th, k, x as int + 1, y as int, u, v) && #[trigger] qualifies(
                            image,
                            template,
                            threshold,
                            u,
                            v,
                        ) implies no_worse(m, image, template, u, v) && (tried_before(
                        iw,
                        ih,
                        tw,
                        th,
                        u,
                        v,
                        m.x as int,
                        m.y as int,
                    ) ==> better(m, image, template, u, v)) by {
                        if !(u == x && v == y) {
                            assert(is_seen(iw, ih, tw, th, k, x as int, y as int, u, v));
                        }
                    }
                }
                Some(m)
            }
        },
    }
}

/// Scores the placements of window `k` and carries the outcome of the
/// search on from the windows before it.
fn scan_window<L: Luma<u8>>(
    image: &L,
    template: &Image,
    threshold: Threshold,
    template_energy: u64,
    k: usize,
    best: Option<SymbolMatch>,
) -> (out: Option<SymbolMatch>)
    requires
        image.inv(),
        template.wf(),
        template.width * template.height <= MAX_TEMPLATE_PIXELS,
        template_energy == self::template_energy(template),
        k < 3,
        is_first_best(best, image, template, threshold, k as int),
    ensures
        is_first_best(out, image, template, threshold, k as int + 1),
{
    let iw: u32 = image.width();
    let ih: u32 = image.height();
    let win: Window = search_window(k, iw, ih, template.width, template.height);
    let ghost tw = template.width as int;
    let ghost th = template.height as int;
    let mut out: Option<SymbolMatch> = best;
    let mut y: u32 = win.top;
    while y < win.bottom
        invariant
            image.inv(),
            template.wf(),
            template.width * template.height <= MAX_TEMPLATE_PIXELS,
            template_energy == self::template_energy(template),
            iw == image.cols(),
            ih == image.rows(),
            tw == template.width,
            th == template.height,
            win == window(k as int, iw as int, ih as int, tw, th),
            k < 3,
            forall|u: int, v: int| #[trigger] win.holds(u, v) ==> u + tw < iw && v + th < ih,
            win.top <= y,
            is_first_best_seen(out, image, template, threshold, k as int, win.left as int, y as int),
        decreases win.bottom - y,
    {
        let mut x: u32 = win.left;
        while x < win.right
            invariant
                image.inv(),
                template.wf(),
                template.width * template.height <= MAX_TEMPLATE_PIXELS,
                template_energy == self::template_energy(template),
                iw == image.cols(),
                ih == image.rows(),
                tw == template.width,
                th == template.height,
                win == window(k as int, iw as int, ih as int, tw, th),
                k < 3,
                forall|u: int, v: int| #[trigger] win.holds(u, v) ==> u + tw < iw && v + th < ih,
                win.top <= y < win.bottom,
                win.left <= x,
                is_first_best_seen(out, image, template, threshold, k as int, x as int, y as int),
            decreases win.right - x,
        {
            assert(win.holds(x as int, y as int));
            out = consider(image, template, threshold, template_energy, out, x, y, Ghost(k as int));
            x = x + 1;
        }
        proof {
            // The row is done: what was seen up to its end is what is seen
            // at the start of the next row.
            lemma_row_done(out, image, template, threshold, k as int, x as int, y as int);
        }
        y = y + 1;
    }
    proof {
        lemma_window_done(out, image, template, threshold, k as int, y as int);
    }
    out
}

/// What has been seen at the end of a row has been seen at the start of the
/// next one.
proof fn lemma_row_done<L: Luma<u8>>(
    found: Option<SymbolMatch>,
    image: &L,
    template: &Image,
    threshold: Threshold,
    k: int,
    x: int,
    y: int,
)
    requires
        0 <= k < 3,
        window(
            k,
            image.cols() as int,
            image.rows() as int,
            template.width as int,
            template.height as int,
        ).right <= x,
        is_first_best_seen(found, image, template, threshold, k, x, y),
    ensures
        is_first_best_seen(
            found,
            image,
            template,
            threshold,
            k,
            window(
                k,
                image.cols() as int,
                image.rows() as int,
                template.width as int,
                template.height as int,
            ).left as int,
            y + 1,
        ),
{
    let iw = image.cols() as int;
    let ih = image.rows() as int;
    let tw = template.width as int;
    let th = template.height as int;
    let left = window(k, iw, ih, tw, th).left as int;
    assert forall|u: int, v: int| is_seen(iw, ih, tw, th, k, left, y + 1, u, v) implies is_seen(
        iw,
        ih,
        tw,
        th,
        k,
        x,
        y,
        u,
        v,
    ) by {
        if window_index(iw, ih, tw, th, u, v) == k {
            assert(window(k, iw, ih, tw, th).holds(u, v));
        }
    }
    assert forall|u: int, v: int| is_seen(iw, ih, tw, th, k, x, y, u, v) implies is_seen(
        iw,
        ih,
        tw,
        th,
        k,
        left,
        y + 1,
        u,
        v,
    ) by {
    }
}

/// What has been seen at the end of a window is the placements of the
/// windows up to it.
proof fn lemma_window_done<L: Luma<u8>>(
    found: Option<SymbolMatch>,
    image: &L,
    template: &Image,
    threshold: Threshold,
    k: int,
    y: int,
)
    requires
        0 <= k < 3,
        window(
            k,
            image.cols() as int,
            image.rows() as int,
            template.width as int,
            template.height as int,
        ).bottom <= y,
        is_first_best_seen(
            found,
            image,
            template,
            threshold,
            k,
            window(
                k,
                image.cols() as int,
                image.rows() as int,
                template.width as int,
                template.height as int,
            ).left as int,
            y,
        ),
    ensures
        is_first_best(found, image, template, threshold, k + 1),
{
    let iw = image.cols() as int;
    let ih = image.rows() as int;
    let tw = template.width as int;
    let th = template.height as int;
    let left = window(k, iw, ih, tw, th).left as int;
    assert forall|u: int, v: int|
        is_placement(iw, ih, tw, th, u, v) && window_index(iw, ih, tw, th, u, v) < k
            + 1 implies is_seen(iw, ih, tw, th, k, left, y, u, v) by {
        if window_index(iw, ih, tw, th, u, v) == k {
            assert(window(k, iw, ih, tw, th).holds(u, v));
        }
    }
}

/// Looks for the template in the image.
///
/// The template is scored at every placement of the three search windows,
/// one window after the other and each row by row. A placement is a match
/// when its score lies below `threshold`. The result is the first of the
/// matches with the lowest score, or `None` when no placement is a match; a
/// template whose pixels are all transparent or black has no energy and
/// matches nowhere.
pub fn detect<L: Luma<u8>>(image: &L, template: &Image, threshold: Threshold) -> (best: Option<SymbolMatch>)
    requires
        image.inv(),
        template.wf(),
        template.width * template.height <= MAX_TEMPLATE_PIXELS,
    ensures
        is_first_best(best, image, template, threshold, 3),
        best.is_some() ==> is_match(best.unwrap(), image, template, threshold),
        best.is_none() <==> forall|x: int, y: int|
            is_placement(
                image.cols() as int,
                image.rows() as int,
                template.width as int,
                template.height as int,
                x,
                y,
            ) ==> !#[trigger] qualifies(image, template, threshold, x, y),
        best.is_some() ==> forall|x: int, y: int|
            is_placement(
                image.cols() as int,
                image.rows() as int,
                template.width as int,
                template.height as int,
                x,
                y,
            ) && #[trigger] qualifies(image, template, threshold, x, y) ==> no_worse(
                best.unwrap(),
                image,
                template,
                x,
                y,
            ),
        template_energy(template) == 0 ==> best.is_none(),
{
    let template_energy: u64 = energy_of(template);
    let first: Option<SymbolMatch> = scan_window(image, template, threshold, template_energy, 0, None);
    let second: Option<SymbolMatch> = scan_window(image, template, threshold, template_energy, 1, first);
    let third: Option<SymbolMatch> = scan_window(image, template, threshold, template_energy, 2, second);
    proof {
        if self::template_energy(template) == 0 && third.is_some() {
            let m = third.unwrap();
            lemma_no_energy_no_match(m.diff as int, m.image_energy as int, threshold);
        }
    }
    third
}

} // verus!
