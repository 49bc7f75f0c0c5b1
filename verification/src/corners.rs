//! Corner resolution: the line candidates are intersected pairwise, and the
//! four crossings inside the image are assigned to the four image corners.
use vstd::prelude::*;
use crate::arith::{floor_div, lemma_mod_pos_bound_any};
use crate::hough::{diagonal, diagonal_of, is_diagonal, RHOS};
use crate::lines::{LineCandidate, CELLS};
use crate::trig::{cos_fixed, cos_sin, lemma_unit_bound, sin_fixed, ANGLES, TRIG_ONE};

verus! {

/// A line in normal form: the points `(x, y)` with `a * x + b * y == e`.
///
/// `(a, b)` is the fixed-point unit normal of the line, and `e` its distance
/// from the origin in pixels, times `TRIG_ONE`.
#[derive(Clone, Copy, Debug, PartialEq, Eq)]
pub struct NormalLine {
    pub a: i64,
    pub b: i64,
    pub e: i128,
}

impl NormalLine {
    /// The bounds that the normal form of every line candidate meets.
    pub open spec fn wf(&self) -> bool {
        &&& -TRIG_ONE <= self.a <= TRIG_ONE
        &&& -TRIG_ONE <= self.b <= TRIG_ONE
        &&& 0 <= self.e <= 0x8000_0000_0000_0000
    }
}

/// The value a fraction `f / c` of the way from `v0` to `v1`, rounded down.
pub open spec fn blend(v0: int, v1: int, f: int, c: int) -> int {
    (v0 * (c - f) + v1 * f) / c
}

/// The bucket on the ring that the unwrapped bucket `b` stands for.
pub open spec fn ring(b: int) -> int {
    b % (ANGLES as int)
}

/// The fixed-point cosine of the angle `angle_sum / support`, interpolated
/// linearly between the two buckets around it.
pub open spec fn cos_at(angle_sum: int, support: int) -> int {
    let lo = angle_sum / support;
    blend(cos_fixed(ring(lo)), cos_fixed(ring(lo + 1)), angle_sum % support, support)
}

/// The fixed-point sine of the angle `angle_sum / support`, interpolated
/// linearly between the two buckets around it.
pub open spec fn sin_at(angle_sum: int, support: int) -> int {
    let lo = angle_sum / support;
    blend(sin_fixed(ring(lo)), sin_fixed(ring(lo + 1)), angle_sum % support, support)
}

/// The fixed-point distance from the origin of a line whose radius is
/// `radius_sum / support` buckets, in an image with rounded-up diagonal
/// `diag`: one bucket is `diag / RHOS` pixels wide.
pub open spec fn offset_at(radius_sum: int, support: int, diag: int) -> int {
    (radius_sum * diag * TRIG_ONE) / (support * RHOS)
}

/// The normal form of a line candidate.
pub open spec fn normal_of(line: LineCandidate, diag: int) -> NormalLine {
    NormalLine {
        a: cos_at(line.angle_sum as int, line.support as int) as i64,
        b: sin_at(line.angle_sum as int, line.support as int) as i64,
        e: offset_at(line.radius_sum as int, line.support as int, diag) as i128,
    }
}

/// A blend of two values lies between them.
pub proof fn lemma_blend_bound(v0: int, v1: int, f: int, c: int, bound: int)
    requires
        -bound <= v0 <= bound,
        -bound <= v1 <= bound,
        0 <= f < c,
    ensures
        -bound <= blend(v0, v1, f, c) <= bound,
{
    let n = v0 * (c - f) + v1 * f;
    assert(-bound * (c - f) <= v0 * (c - f) <= bound * (c - f)) by (nonlinear_arith)
        requires
            -bound <= v0 <= bound,
            0 <= c - f,
    ;
    assert(-bound * f <= v1 * f <= bound * f) by (nonlinear_arith)
        requires
            -bound <= v1 <= bound,
            0 <= f,
    ;
    assert(bound * (c - f) + bound * f == bound * c) by (nonlinear_arith);
    assert(-bound * (c - f) + -bound * f == -(bound * c)) by (nonlinear_arith);
    vstd::arithmetic::div_mod::lemma_fundamental_div_mod(n, c);
    lemma_mod_pos_bound_any(n, c);
    let q = n / c;
    if q > bound {
        assert(c * q >= c * (bound + 1)) by (nonlinear_arith)
            requires
                q >= bound + 1,
                c > 0,
        ;
        assert(c * (bound + 1) == bound * c + c) by (nonlinear_arith);
    }
    if q < -bound {
        assert(c * q <= c * (-bound - 1)) by (nonlinear_arith)
            requires
                q <= -bound - 1,
                c > 0,
        ;
        assert(c * (-bound - 1) == -(bound * c) - c) by (nonlinear_arith);
    }
}

/// The fixed-point cosine and sine of the unwrapped bucket `b`.
fn ring_cos_sin(b: i64) -> (cs: (i64, i64))
    requires
        -0x4000_0000_0000 <= b <= 0x4000_0000_0000,
    ensures
        cs.0 == cos_fixed(ring(b as int)),
        cs.1 == sin_fixed(ring(b as int)),
        -TRIG_ONE <= cs.0 <= TRIG_ONE,
        -TRIG_ONE <= cs.1 <= TRIG_ONE,
{
    let q: i128 = floor_div(b as i128, ANGLES as i128);
    let m: i128 = b as i128 - q * ANGLES as i128;
    proof {
        vstd::arithmetic::div_mod::lemma_fundamental_div_mod(b as int, ANGLES as int);
        lemma_mod_pos_bound_any(b as int, ANGLES as int);
        assert(ANGLES * (b as int / (ANGLES as int)) == (b as int / (ANGLES as int)) * ANGLES)
            by (nonlinear_arith);
        assert(m == ring(b as int));
        lemma_unit_bound(m as int);
    }
    cos_sin(m as usize)
}

/// The blend of two fixed-point values.
fn blend_fixed(v0: i64, v1: i64, f: i64, c: i64) -> (v: i64)
    requires
        -TRIG_ONE <= v0 <= TRIG_ONE,
        -TRIG_ONE <= v1 <= TRIG_ONE,
        0 <= f < c,
        c <= CELLS,
    ensures
        v == blend(v0 as int, v1 as int, f as int, c as int),
        -TRIG_ONE <= v <= TRIG_ONE,
{
    proof {
        lemma_blend_bound(v0 as int, v1 as int, f as int, c as int, TRIG_ONE as int);
    }
    assert(-0x4000_0000 * 810000 <= v0 * (c - f) <= 0x4000_0000 * 810000) by (nonlinear_arith)
        requires
            -0x4000_0000 <= v0 <= 0x4000_0000,
            0 <= c - f <= 810000,
    ;
    assert(-0x4000_0000 * 810000 <= v1 * f <= 0x4000_0000 * 810000) by (nonlinear_arith)
        requires
            -0x4000_0000 <= v1 <= 0x4000_0000,
            0 <= f <= 810000,
    ;
    let n: i128 = v0 as i128 * (c - f) as i128 + v1 as i128 * f as i128;
    let q: i128 = floor_div(n, c as i128);
    q as i64
}

/// Computes the normal form of a line candidate.
pub fn to_normal(line: &LineCandidate, diag: u64) -> (normal: NormalLine)
    requires
        line.wf(),
        diag <= 0x2_0000_0000,
    ensures
        normal == normal_of(*line, diag as int),
        normal.wf(),
{
    let c: i64 = line.support as i64;
    let s: i64 = line.angle_sum;
    assert(-1800 * 810000 <= s <= 1800 * 810000) by (nonlinear_arith)
        requires
            -2 * ANGLES * c <= s <= 2 * ANGLES * c,
            1 <= c <= 810000,
            ANGLES == 900,
    ;
    let lo: i128 = floor_div(s as i128, c as i128);
    let f: i128 = s as i128 - lo * c as i128;
    proof {
        vstd::arithmetic::div_mod::lemma_fundamental_div_mod(s as int, c as int);
        lemma_mod_pos_bound_any(s as int, c as int);
        assert(c * (s as int / (c as int)) == (s as int / (c as int)) * c) by (nonlinear_arith);
        assert(f == s as int % (c as int));
        assert(-1800 * 810000 - 1 <= lo <= 1800 * 810000) by (nonlinear_arith)
            requires
                lo * c <= s < lo * c + c,
                -1800 * 810000 <= s <= 1800 * 810000,
                1 <= c,
        ;
    }
    let (c0, s0) = ring_cos_sin(lo as i64);
    let (c1, s1) = ring_cos_sin(lo as i64 + 1);
    let a: i64 = blend_fixed(c0, c1, f as i64, c);
    let b: i64 = blend_fixed(s0, s1, f as i64, c);
    let t: u64 = line.radius_sum;
    assert(t <= 900 * c && 900 * c <= 900 * 810000) by (nonlinear_arith)
        requires
            t <= RHOS * c,
            RHOS == 900,
            1 <= c <= 810000,
    ;
    assert(0 <= t * diag <= 900 * c * 0x2_0000_0000) by (nonlinear_arith)
        requires
            0 <= t <= 900 * c,
            0 <= diag <= 0x2_0000_0000,
    ;
    assert(t * diag * TRIG_ONE <= (900 * c * 0x2_0000_0000) * 0x4000_0000) by (nonlinear_arith)
        requires
            0 <= t * diag <= 900 * c * 0x2_0000_0000,
            TRIG_ONE == 0x4000_0000,
    ;
    assert(0 <= t * diag * TRIG_ONE) by (nonlinear_arith)
        requires
            0 <= t * diag,
            TRIG_ONE == 0x4000_0000,
    ;
    assert((900 * c * 0x2_0000_0000) * 0x4000_0000 <= (900 * 810000 * 0x2_0000_0000) * 0x4000_0000)
        by (nonlinear_arith)
        requires
            1 <= c <= 810000,
    ;
    let num: i128 = t as i128 * diag as i128 * TRIG_ONE as i128;
    let den: i128 = c as i128 * RHOS as i128;
    assert(den == 900 * c) by (nonlinear_arith)
        requires
            den == c * RHOS,
            RHOS == 900,
    ;
    let e: i128 = num / den;
    proof {
        vstd::arithmetic::div_mod::lemma_fundamental_div_mod(num as int, den as int);
        lemma_mod_pos_bound_any(num as int, den as int);
        vstd::arithmetic::div_mod::lemma_div_pos_is_pos(num as int, den as int);
        let bound: int = 0x8000_0000_0000_0000int;
        assert((900 * c * 0x2_0000_0000) * 0x4000_0000 == den * bound) by (nonlinear_arith)
            requires
                den == 900 * c,
                bound == 0x8000_0000_0000_0000,
        ;
        if e > bound {
            assert(den * e >= den * (bound + 1)) by (nonlinear_arith)
                requires
                    e >= bound + 1,
                    den > 0,
            ;
            assert(den * (bound + 1) == den * bound + den) by (nonlinear_arith);
        }
        assert(line.support * RHOS == den);
        assert(line.radius_sum * diag * TRIG_ONE == num);
    }
    NormalLine { a, b, e }
}

/// The determinant of the normals of two lines; zero when they are parallel.
pub open spec fn determinant(l1: NormalLine, l2: NormalLine) -> int {
    l1.a * l2.b - l1.b * l2.a
}

/// The `x` coordinate of the crossing of two lines, times their determinant.
pub open spec fn crossing_x(l1: NormalLine, l2: NormalLine) -> int {
    l2.b * l1.e - l1.b * l2.e
}

/// The `y` coordinate of the crossing of two lines, times their determinant.
pub open spec fn crossing_y(l1: NormalLine, l2: NormalLine) -> int {
    l1.a * l2.e - l2.a * l1.e
}

/// The pixel that holds the point `(nx / d, ny / d)` for a positive `d`, if
/// the point lies inside the `width × height` image.
pub open spec fn pixel_of(nx: int, ny: int, d: int, width: int, height: int) -> Option<(u32, u32)> {
    if 0 <= nx < width * d && 0 <= ny < height * d {
        Some(((nx / d) as u32, (ny / d) as u32))
    } else {
        None
    }
}

/// The pixel in which two lines cross, if they cross inside the image.
///
/// The crossing of `l1` and `l2` is the point `(crossing_x / determinant,
/// crossing_y / determinant)`; parallel lines have none.
pub open spec fn crossing(l1: NormalLine, l2: NormalLine, width: int, height: int) -> Option<(u32, u32)> {
    let d = determinant(l1, l2);
    if d > 0 {
        pixel_of(crossing_x(l1, l2), crossing_y(l1, l2), d, width, height)
    } else if d < 0 {
        pixel_of(-crossing_x(l1, l2), -crossing_y(l1, l2), -d, width, height)
    } else {
        None
    }
}

/// The pixel of a point inside the image has coordinates inside the image.
pub proof fn lemma_pixel_inside(nx: int, ny: int, d: int, width: int, height: int)
    requires
        d > 0,
        0 <= nx < width * d,
        0 <= ny < height * d,
    ensures
        0 <= nx / d < width,
        0 <= ny / d < height,
{
    lemma_quotient_inside(nx, d, width);
    lemma_quotient_inside(ny, d, height);
}

proof fn lemma_quotient_inside(n: int, d: int, limit: int)
    requires
        d > 0,
        0 <= n < limit * d,
    ensures
        0 <= n / d < limit,
{
    vstd::arithmetic::div_mod::lemma_fundamental_div_mod(n, d);
    lemma_mod_pos_bound_any(n, d);
    vstd::arithmetic::div_mod::lemma_div_pos_is_pos(n, d);
    let q = n / d;
    if q >= limit {
        assert(d * q >= d * limit) by (nonlinear_arith)
            requires
                q >= limit,
                d > 0,
        ;
        assert(d * limit == limit * d) by (nonlinear_arith);
    }
}

/// Computes the pixel of the point `(nx / d, ny / d)`, if it is inside the image.
pub fn locate(nx: i128, ny: i128, d: i128, width: u32, height: u32) -> (p: Option<(u32, u32)>)
    requires
        0 < d <= 0x4000_0000_0000_0000_0000_0000,
    ensures
        p == pixel_of(nx as int, ny as int, d as int, width as int, height as int),
{
    assert(0 <= width * d <= 0xffff_ffff * 0x4000_0000_0000_0000_0000_0000 && 0 <= height * d
        <= 0xffff_ffff * 0x4000_0000_0000_0000_0000_0000) by (nonlinear_arith)
        requires
            0 < d <= 0x4000_0000_0000_0000_0000_0000,
            0 <= width <= 0xffff_ffff,
            0 <= height <= 0xffff_ffff,
    ;
    if 0 <= nx && nx < width as i128 * d && 0 <= ny && ny < height as i128 * d {
        proof {
            lemma_pixel_inside(nx as int, ny as int, d as int, width as int, height as int);
        }
        Some(((nx / d) as u32, (ny / d) as u32))
    } else {
        None
    }
}

/// Computes the pixel in which two lines cross, if they cross inside the image.
pub fn cross(l1: &NormalLine, l2: &NormalLine, width: u32, height: u32) -> (p: Option<(u32, u32)>)
    requires
        l1.wf(),
        l2.wf(),
    ensures
        p == crossing(*l1, *l2, width as int, height as int),
{
    let ghost one: int = 0x4000_0000int;
    let ghost far: int = 0x8000_0000_0000_0000int;
    assert(-one * one <= l1.a * l2.b <= one * one && -one * one <= l1.b * l2.a <= one * one)
        by (nonlinear_arith)
        requires
            -one <= l1.a <= one,
            -one <= l1.b <= one,
            -one <= l2.a <= one,
            -one <= l2.b <= one,
            one == 0x4000_0000,
    ;
    assert(-one * far <= l2.b * l1.e <= one * far && -one * far <= l1.b * l2.e <= one * far
        && -one * far <= l1.a * l2.e <= one * far && -one * far <= l2.a * l1.e <= one * far)
        by (nonlinear_arith)
        requires
            -one <= l1.a <= one,
            -one <= l1.b <= one,
            -one <= l2.a <= one,
            -one <= l2.b <= one,
            0 <= l1.e <= far,
            0 <= l2.e <= far,
            one == 0x4000_0000,
            far == 0x8000_0000_0000_0000,
    ;
    let d: i128 = l1.a as i128 * l2.b as i128 - l1.b as i128 * l2.a as i128;
    let nx: i128 = l2.b as i128 * l1.e - l1.b as i128 * l2.e;
    let ny: i128 = l1.a as i128 * l2.e - l2.a as i128 * l1.e;
    if d > 0 {
        locate(nx, ny, d, width, height)
    } else if d < 0 {
        locate(-nx, -ny, -d, width, height)
    } else {
        None
    }
}

/// The crossings inside the image of line `i` with the lines after it, up to
/// line `n`, in order.
pub open spec fn row_crossings(normals: Seq<NormalLine>, width: int, height: int, i: int, n: int) -> Seq<(u32, u32)>
    decreases n - i,
{
    if n <= i + 1 {
        Seq::empty()
    } else {
        let before = row_crossings(normals, width, height, i, n - 1);
        match crossing(normals[i], normals[n - 1], width, height) {
            Some(p) => before.push(p),
            None => before,
        }
    }
}

/// The crossings inside the image of every pair of lines whose first line
/// comes before line `m`, in the order of the pairs.
pub open spec fn all_crossings(normals: Seq<NormalLine>, width: int, height: int, m: int) -> Seq<(u32, u32)>
    decreases m,
{
    if m <= 0 {
        Seq::empty()
    } else {
        all_crossings(normals, width, height, m - 1) + row_crossings(
            normals,
            width,
            height,
            m - 1,
            normals.len() as int,
        )
    }
}

/// The squared distance between the pixel `p` and the point `(cx, cy)`.
pub open spec fn distance_squared(p: (u32, u32), cx: int, cy: int) -> int {
    (p.0 - cx) * (p.0 - cx) + (p.1 - cy) * (p.1 - cy)
}

/// The position, among the first `n` points, of the one closest to `(cx, cy)`;
/// of several that are equally close, the first.
pub open spec fn nearest(points: Seq<(u32, u32)>, cx: int, cy: int, n: int) -> int
    decreases n,
{
    if n <= 1 {
        0
    } else {
        let best = nearest(points, cx, cy, n - 1);
        if distance_squared(points[n - 1], cx, cy) < distance_squared(points[best], cx, cy) {
            n - 1
        } else {
            best
        }
    }
}

/// The first of the nearest points is a point of the list, none is closer,
/// and none before it is as close.
pub proof fn lemma_nearest(points: Seq<(u32, u32)>, cx: int, cy: int, n: int)
    requires
        1 <= n <= points.len(),
    ensures
        0 <= nearest(points, cx, cy, n) < n,
        forall|j: int|
            0 <= j < n ==> distance_squared(points[nearest(points, cx, cy, n)], cx, cy)
                <= distance_squared(#[trigger] points[j], cx, cy),
        forall|j: int|
            0 <= j < nearest(points, cx, cy, n) ==> distance_squared(
                points[nearest(points, cx, cy, n)],
                cx,
                cy,
            ) < distance_squared(#[trigger] points[j], cx, cy),
    decreases n,
{
    if n > 1 {
        lemma_nearest(points, cx, cy, n - 1);
    }
}

/// The four crossings, each the nearest one to an image corner, in the order
/// top-left, top-right, bottom-left, bottom-right.
pub open spec fn assigned(points: Seq<(u32, u32)>, width: int, height: int) -> Seq<(u32, u32)> {
    seq![
        points[nearest(points, 0, 0, 4)],
        points[nearest(points, width, 0, 4)],
        points[nearest(points, 0, height, 4)],
        points[nearest(points, width, height, 4)],
    ]
}

/// The normal forms of the line candidates.
pub open spec fn normals_of(lines: Seq<LineCandidate>, diag: int) -> Seq<NormalLine> {
    Seq::new(lines.len(), |i: int| normal_of(lines[i], diag))
}

/// The crossings inside the image of every pair of line candidates, in the
/// order of the pairs.
pub open spec fn crossings_of(lines: Seq<LineCandidate>, width: int, height: int) -> Seq<(u32, u32)> {
    let normals = normals_of(lines, diagonal(width, height));
    all_crossings(normals, width, height, normals.len() as int)
}

/// The corners that a list of crossings gives: exactly four crossings,
/// assigned to the image corners, or nothing.
pub open spec fn corners_from(points: Seq<(u32, u32)>, width: int, height: int) -> Seq<(u32, u32)> {
    if points.len() == 4 {
        assigned(points, width, height)
    } else {
        Seq::empty()
    }
}

/// The corners that the line candidates give: the four crossings inside the
/// image, assigned to the image corners, or nothing if the lines do not cross
/// exactly four times inside the image.
pub open spec fn corners_of(lines: Seq<LineCandidate>, width: int, height: int) -> Seq<(u32, u32)> {
    corners_from(crossings_of(lines, width, height), width, height)
}

/// Computes the squared distance between the pixel `p` and the point `(cx, cy)`.
fn distance(p: (u32, u32), cx: u32, cy: u32) -> (d: i128)
    ensures
        d == distance_squared(p, cx as int, cy as int),
{
    let dx: i128 = p.0 as i128 - cx as i128;
    let dy: i128 = p.1 as i128 - cy as i128;
    assert(0 <= dx * dx <= 0xffff_ffff * 0xffff_ffff && 0 <= dy * dy <= 0xffff_ffff * 0xffff_ffff)
        by (nonlinear_arith)
        requires
            -0xffff_ffff <= dx <= 0xffff_ffff,
            -0xffff_ffff <= dy <= 0xffff_ffff,
    ;
    dx * dx + dy * dy
}

/// Finds the point closest to `(cx, cy)`; of several that are equally close,
/// the first.
fn closest(points: &Vec<(u32, u32)>, cx: u32, cy: u32) -> (best: usize)
    requires
        points.len() >= 1,
    ensures
        best == nearest(points@, cx as int, cy as int, points.len() as int),
        best < points.len(),
{
    let mut best: usize = 0;
    let mut least: i128 = distance(points[0], cx, cy);
    let mut i: usize = 1;
    while i < points.len()
        invariant
            1 <= i <= points.len(),
            best == nearest(points@, cx as int, cy as int, i as int),
            best < i,
            least == distance_squared(points[best as int], cx as int, cy as int),
        decreases points.len() - i,
    {
        let d: i128 = distance(points[i], cx, cy);
        if d < least {
            best = i;
            least = d;
        }
        i = i + 1;
    }
    best
}

/// Intersects every pair of line candidates and keeps the crossings inside
/// the image, in the order of the pairs.
pub fn crossings(lines: &Vec<LineCandidate>, width: u32, height: u32) -> (points: Vec<(u32, u32)>)
    requires
        forall|j: int| 0 <= j < lines.len() ==> (#[trigger] lines[j]).wf(),
    ensures
        points@ == crossings_of(lines@, width as int, height as int),
        points.len() <= lines.len() * lines.len(),
        forall|j: int|
            0 <= j < points.len() ==> (#[trigger] points[j]).0 < width && points[j].1 < height,
{
    let diag: u64 = diagonal_of(width, height);
    let count: usize = lines.len();
    let mut normals: Vec<NormalLine> = Vec::new();
    let mut k: usize = 0;
    while k < count
        invariant
            k <= count,
            count == lines.len(),
            normals.len() == k,
            diag <= 0x2_0000_0000,
            forall|j: int| 0 <= j < lines.len() ==> (#[trigger] lines[j]).wf(),
            forall|j: int|
                0 <= j < k ==> (#[trigger] normals[j]).wf() && normals[j] == normal_of(
                    lines[j],
                    diag as int,
                ),
        decreases count - k,
    {
        let normal: NormalLine = to_normal(&lines[k], diag);
        normals.push(normal);
        k = k + 1;
    }
    assert(normals@ =~= normals_of(lines@, diag as int));
    let mut points: Vec<(u32, u32)> = Vec::new();
    let mut i1: usize = 0;
    assert(0 * count == 0) by (nonlinear_arith);
    while i1 < count
        invariant
            i1 <= count,
            count == normals.len(),
            forall|j: int| 0 <= j < count ==> (#[trigger] normals[j]).wf(),
            points@ == all_crossings(normals@, width as int, height as int, i1 as int),
            points.len() <= i1 * count,
            forall|j: int|
                0 <= j < points.len() ==> (#[trigger] points[j]).0 < width && points[j].1 < height,
        decreases count - i1,
    {
        let mut i2: usize = i1 + 1;
        while i2 < count
            invariant
                i1 < count,
                i1 + 1 <= i2 <= count,
                count == normals.len(),
                forall|j: int| 0 <= j < count ==> (#[trigger] normals[j]).wf(),
                points@ == all_crossings(normals@, width as int, height as int, i1 as int)
                    + row_crossings(normals@, width as int, height as int, i1 as int, i2 as int),
                points.len() <= i1 * count + i2,
                forall|j: int|
                    0 <= j < points.len() ==> (#[trigger] points[j]).0 < width && points[j].1
                        < height,
            decreases count - i2,
        {
            let hit: Option<(u32, u32)> = cross(&normals[i1], &normals[i2], width, height);
            let ghost row = row_crossings(
                normals@,
                width as int,
                height as int,
                i1 as int,
                i2 as int,
            );
            if let Some(p) = hit {
                proof {
                    lemma_crossing_inside(normals[i1 as int], normals[i2 as int], width as int, height as int);
                }
                points.push(p);
                assert(points@ =~= all_crossings(normals@, width as int, height as int, i1 as int)
                    + row.push(p));
            }
            i2 = i2 + 1;
        }
        assert((i1 + 1) * count == i1 * count + count) by (nonlinear_arith);
        i1 = i1 + 1;
    }
    points
}

/// Assigns four crossings to the corners of the image.
///
/// If there are exactly four crossings, `corners` gets them in the order
/// top-left, top-right, bottom-left, bottom-right, each being the crossing
/// nearest to that corner of the image. Otherwise `corners` is left empty.
pub fn assign(points: &Vec<(u32, u32)>, width: u32, height: u32, corners: &mut Vec<(u32, u32)>)
    ensures
        final(corners)@ == corners_from(points@, width as int, height as int),
        forall|j: int|
            0 <= j < final(corners).len() ==> points@.contains(#[trigger] final(corners)[j]),
{
    corners.clear();
    if points.len() != 4 {
        return ;
    }
    let tl: usize = closest(points, 0, 0);
    let tr: usize = closest(points, width, 0);
    let bl: usize = closest(points, 0, height);
    let br: usize = closest(points, width, height);
    corners.push(points[tl]);
    corners.push(points[tr]);
    corners.push(points[bl]);
    corners.push(points[br]);
    assert(corners@ =~= assigned(points@, width as int, height as int));
}

/// Resolves the corners of the card from the line candidates.
///
/// Every pair of candidates is intersected; the crossings inside the image are
/// kept, in the order of the pairs. If exactly four are left, `corners` gets
/// them in the order top-left, top-right, bottom-left, bottom-right, each
/// being the crossing nearest to that corner of the image. Otherwise
/// `corners` is left empty.
pub fn calculate(lines: &Vec<LineCandidate>, width: u32, height: u32, corners: &mut Vec<(u32, u32)>)
    requires
        forall|j: int| 0 <= j < lines.len() ==> (#[trigger] lines[j]).wf(),
    ensures
        final(corners)@ == corners_of(lines@, width as int, height as int),
        final(corners).len() == 0 || final(corners).len() == 4,
        forall|j: int|
            0 <= j < final(corners).len() ==> (#[trigger] final(corners)[j]).0 < width
                && final(corners)[j].1 < height,
{
    let points: Vec<(u32, u32)> = crossings(lines, width, height);
    assign(&points, width, height, corners);
    proof {
        assert forall|j: int| 0 <= j < corners.len() implies (#[trigger] corners[j]).0 < width
            && corners[j].1 < height by {
            let p = corners[j];
            assert(points@.contains(p));
            let i = choose|i: int| 0 <= i < points.len() && points[i] == p;
            assert(points[i].0 < width);
        }
    }
}

/// Two lines that cross inside the image cross in a pixel of the image.
pub proof fn lemma_crossing_inside(l1: NormalLine, l2: NormalLine, width: int, height: int)
    requires
        crossing(l1, l2, width, height).is_some(),
        0 <= width <= u32::MAX,
        0 <= height <= u32::MAX,
    ensures
        crossing(l1, l2, width, height).unwrap().0 < width,
        crossing(l1, l2, width, height).unwrap().1 < height,
{
    let d = determinant(l1, l2);
    if d > 0 {
        lemma_pixel_inside(crossing_x(l1, l2), crossing_y(l1, l2), d, width, height);
    } else {
        lemma_pixel_inside(-crossing_x(l1, l2), -crossing_y(l1, l2), -d, width, height);
    }
}

} // verus!
