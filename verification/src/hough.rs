//! Hough line voting: every silhouette pixel votes, for each angle bucket, for
//! the radius bucket of the line through it with that normal direction.
use vstd::prelude::*;
use crate::grid;
use crate::sums::{is_moved, lemma_sum_equal, lemma_sum_moved, lemma_sum_single, lemma_sum_swap, lemma_sum_zero, sum};
use crate::trig::{cos_fixed, cos_sin, lemma_quarter_pair, lemma_unit_bound, sin_fixed, ANGLES, QUARTER_TURN, TRIG_ONE};

verus! {

/// The number of radius buckets.
pub const RHOS: usize = 900;

/// `d` is the length of the image diagonal, rounded up: the least `d` with
/// `width² + height² <= d²`.
pub open spec fn is_diagonal(width: int, height: int, d: int) -> bool {
    &&& 0 <= d
    &&& width * width + height * height <= d * d
    &&& d == 0 || (d - 1) * (d - 1) < width * width + height * height
}

/// The length of the image diagonal, rounded up.
pub open spec fn diagonal(width: int, height: int) -> int {
    choose|d: int| is_diagonal(width, height, d)
}

/// An image has one rounded-up diagonal.
pub proof fn lemma_diagonal_unique(width: int, height: int, d: int)
    requires
        is_diagonal(width, height, d),
    ensures
        diagonal(width, height) == d,
{
    let e = diagonal(width, height);
    assert(is_diagonal(width, height, e));
    if e < d {
        assert(e * e <= (d - 1) * (d - 1)) by (nonlinear_arith)
            requires
                0 <= e <= d - 1,
        ;
    } else if d < e {
        assert(d * d <= (e - 1) * (e - 1)) by (nonlinear_arith)
            requires
                0 <= d <= e - 1,
        ;
    }
}

/// Computes the rounded-up diagonal of a `width × height` image.
pub fn diagonal_of(width: u32, height: u32) -> (d: u64)
    ensures
        is_diagonal(width as int, height as int, d as int),
        d == diagonal(width as int, height as int),
        d <= 0x2_0000_0000,
        (width > 0 || height > 0) ==> d > 0,
{
    assert(width * width <= 0xffff_ffff * 0xffff_ffff && height * height <= 0xffff_ffff
        * 0xffff_ffff) by (nonlinear_arith)
        requires
            width <= 0xffff_ffff,
            height <= 0xffff_ffff,
    ;
    let n: u128 = width as u128 * width as u128 + height as u128 * height as u128;
    // The least d with n <= d * d lies in [lo, hi].
    let mut lo: u64 = 0;
    let mut hi: u64 = 0x2_0000_0000;
    assert(0x2_0000_0000 * 0x2_0000_0000 >= 2 * (0xffff_ffff * 0xffff_ffff)) by (nonlinear_arith);
    while lo < hi
        invariant
            lo <= hi <= 0x2_0000_0000,
            n <= hi * hi,
            lo == 0 || (lo - 1) * (lo - 1) < n,
        decreases hi - lo,
    {
        let mid: u64 = lo + (hi - lo) / 2;
        assert(mid * mid <= 0x2_0000_0000 * 0x2_0000_0000) by (nonlinear_arith)
            requires
                mid <= 0x2_0000_0000,
        ;
        if mid as u128 * mid as u128 >= n {
            hi = mid;
        } else {
            lo = mid + 1;
        }
    }
    proof {
        lemma_diagonal_unique(width as int, height as int, lo as int);
        assert(width > 0 || height > 0 ==> width * width + height * height > 0)
            by (nonlinear_arith);
        assert(lo == 0 ==> lo * lo == 0);
    }
    lo
}

/// The fixed-point distance from the origin of the line through `(x, y)`
/// whose normal points in the direction of angle bucket `a`.
pub open spec fn rho_fixed(x: int, y: int, a: int) -> int {
    x * cos_fixed(a) + y * sin_fixed(a)
}

/// The radius bucket of a non-negative fixed-point distance, for an image
/// with rounded-up diagonal `diag`: the range `[0, diag)` is divided evenly
/// into `RHOS` buckets.
pub open spec fn bucket(rho: int, diag: int) -> int {
    (rho * RHOS) / (diag * TRIG_ONE)
}

/// Whether the pixel `(x, y)` votes for cell `(a, r)`: only lines at a
/// non-negative distance are recorded.
pub open spec fn votes_for(x: int, y: int, a: int, r: int, diag: int) -> bool {
    rho_fixed(x, y, a) >= 0 && bucket(rho_fixed(x, y, a), diag) == r
}

/// What the pixel `(x, y)` adds to cell `(a, r)`: its mark if it votes for
/// the cell, nothing otherwise.
pub open spec fn contribution(
    mask: Seq<u32>,
    width: int,
    diag: int,
    a: int,
    r: int,
    x: int,
    y: int,
) -> int {
    if votes_for(x, y, a, r, diag) {
        mask[grid::cell(x, y, width)] as int
    } else {
        0
    }
}

/// The votes for cell `(a, r)` from the first `n` pixels of row `y`.
pub open spec fn row_tally(mask: Seq<u32>, width: int, diag: int, a: int, r: int, y: int, n: int) -> int
    decreases n,
{
    if n <= 0 {
        0
    } else {
        row_tally(mask, width, diag, a, r, y, n - 1) + contribution(mask, width, diag, a, r, n - 1, y)
    }
}

/// The votes for cell `(a, r)` from the first `rows` rows.
pub open spec fn tally(mask: Seq<u32>, width: int, diag: int, a: int, r: int, rows: int) -> int
    decreases rows,
{
    if rows <= 0 {
        0
    } else {
        tally(mask, width, diag, a, r, rows - 1) + row_tally(mask, width, diag, a, r, rows - 1, width)
    }
}

/// The sum of the marks of the first `n` pixels of row `y`.
pub open spec fn row_weight(mask: Seq<u32>, width: int, y: int, n: int) -> int
    decreases n,
{
    if n <= 0 {
        0
    } else {
        row_weight(mask, width, y, n - 1) + mask[grid::cell(n - 1, y, width)]
    }
}

/// The sum of the marks of the first `rows` rows.
pub open spec fn weight(mask: Seq<u32>, width: int, rows: int) -> int
    decreases rows,
{
    if rows <= 0 {
        0
    } else {
        weight(mask, width, rows - 1) + row_weight(mask, width, rows - 1, width)
    }
}

/// A row's weight grows with the number of pixels counted.
pub proof fn lemma_row_weight_monotone(mask: Seq<u32>, width: int, y: int, m: int, n: int)
    requires
        m <= n,
    ensures
        0 <= row_weight(mask, width, y, m) <= row_weight(mask, width, y, n),
    decreases n,
{
    if n <= 0 {
    } else if m == n {
        lemma_row_weight_monotone(mask, width, y, m - 1, n - 1);
    } else {
        lemma_row_weight_monotone(mask, width, y, m, n - 1);
    }
}

/// The weight grows with the number of rows counted.
pub proof fn lemma_weight_monotone(mask: Seq<u32>, width: int, m: int, n: int)
    requires
        m <= n,
    ensures
        0 <= weight(mask, width, m) <= weight(mask, width, n),
    decreases n,
{
    if n <= 0 {
    } else {
        if width >= 0 {
            lemma_row_weight_monotone(mask, width, n - 1, 0, width);
        }
        if m == n {
            lemma_weight_monotone(mask, width, m - 1, n - 1);
        } else {
            lemma_weight_monotone(mask, width, m, n - 1);
        }
    }
}

/// A cell never receives more from a row than the row weighs.
pub proof fn lemma_row_tally_bound(
    mask: Seq<u32>,
    width: int,
    diag: int,
    a: int,
    r: int,
    y: int,
    n: int,
)
    ensures
        0 <= row_tally(mask, width, diag, a, r, y, n) <= row_weight(mask, width, y, n),
    decreases n,
{
    if n > 0 {
        lemma_row_tally_bound(mask, width, diag, a, r, y, n - 1);
    }
}

/// A cell never receives more than the mask weighs.
pub proof fn lemma_tally_bound(mask: Seq<u32>, width: int, diag: int, a: int, r: int, rows: int)
    ensures
        0 <= tally(mask, width, diag, a, r, rows) <= weight(mask, width, rows),
    decreases rows,
{
    if rows > 0 {
        lemma_tally_bound(mask, width, diag, a, r, rows - 1);
        lemma_row_tally_bound(mask, width, diag, a, r, rows - 1, width);
    }
}

/// A mask of flags that are `0` or `1` weighs no more than it has cells.
pub proof fn lemma_flag_mask_weight(mask: Seq<u32>, width: int, height: int)
    requires
        0 <= width,
        0 <= height,
        mask.len() == width * height,
        forall|i: int| 0 <= i < mask.len() ==> mask[i] <= 1,
    ensures
        weight(mask, width, height) <= width * height,
{
    lemma_flag_mask_weight_rows(mask, width, height, height);
}

proof fn lemma_flag_mask_weight_rows(mask: Seq<u32>, width: int, height: int, rows: int)
    requires
        0 <= width,
        0 <= rows <= height,
        mask.len() == width * height,
        forall|i: int| 0 <= i < mask.len() ==> mask[i] <= 1,
    ensures
        weight(mask, width, rows) <= width * rows,
    decreases rows,
{
    if rows > 0 {
        lemma_flag_mask_weight_rows(mask, width, height, rows - 1);
        lemma_flag_mask_weight_row(mask, width, height, rows - 1, width);
        assert(width * rows == width * (rows - 1) + width) by (nonlinear_arith);
    } else {
        assert(width * rows == 0) by (nonlinear_arith)
            requires
                rows == 0,
        ;
    }
}

proof fn lemma_flag_mask_weight_row(mask: Seq<u32>, width: int, height: int, y: int, n: int)
    requires
        0 <= n <= width,
        0 <= y < height,
        mask.len() == width * height,
        forall|i: int| 0 <= i < mask.len() ==> mask[i] <= 1,
    ensures
        row_weight(mask, width, y, n) <= n,
    decreases n,
{
    if n > 0 {
        lemma_flag_mask_weight_row(mask, width, height, y, n - 1);
        grid::lemma_cell_in_grid(n - 1, y, width, height);
    }
}

/// The Cauchy–Schwarz inequality in the plane.
pub proof fn lemma_inner_product_bound(x: int, y: int, c: int, s: int)
    ensures
        (x * c + y * s) * (x * c + y * s) <= (x * x + y * y) * (c * c + s * s),
{
    let xc = x * c;
    let ys = y * s;
    let xs = x * s;
    let yc = y * c;
    assert((xc + ys) * (xc + ys) == xc * xc + 2 * (xc * ys) + ys * ys) by (nonlinear_arith);
    assert((xs - yc) * (xs - yc) == xs * xs - 2 * (xs * yc) + yc * yc) by (nonlinear_arith);
    assert(xc * ys == xs * yc) by (nonlinear_arith)
        requires
            xc == x * c,
            ys == y * s,
            xs == x * s,
            yc == y * c,
    ;
    assert(xc * xc == (x * x) * (c * c)) by (nonlinear_arith)
        requires
            xc == x * c,
    ;
    assert(ys * ys == (y * y) * (s * s)) by (nonlinear_arith)
        requires
            ys == y * s,
    ;
    assert(xs * xs == (x * x) * (s * s)) by (nonlinear_arith)
        requires
            xs == x * s,
    ;
    assert(yc * yc == (y * y) * (c * c)) by (nonlinear_arith)
        requires
            yc == y * c,
    ;
    let a = x * x;
    let b = y * y;
    let d = c * c;
    let e = s * s;
    assert((a + b) * (d + e) == a * d + a * e + b * d + b * e) by (nonlinear_arith);
    assert(0 <= (xs - yc) * (xs - yc)) by (nonlinear_arith);
}

/// Every pixel of the image lies closer to the origin than the rounded-up
/// diagonal, so its radius bucket exists.
pub proof fn lemma_bucket_in_range(x: int, y: int, width: int, height: int, a: int, diag: int)
    requires
        0 <= x < width,
        0 <= y < height,
        0 <= a < ANGLES,
        is_diagonal(width, height, diag),
        rho_fixed(x, y, a) >= 0,
    ensures
        diag > 0,
        rho_fixed(x, y, a) < diag * TRIG_ONE,
        0 <= bucket(rho_fixed(x, y, a), diag) < RHOS,
{
    lemma_unit_bound(a);
    let c = cos_fixed(a);
    let s = sin_fixed(a);
    let rho = rho_fixed(x, y, a);
    let one = TRIG_ONE as int;
    let n = x * x + y * y;
    assert(x * x < width * width) by (nonlinear_arith)
        requires
            0 <= x < width,
    ;
    assert(y * y < height * height) by (nonlinear_arith)
        requires
            0 <= y < height,
    ;
    assert(0 <= x * x && 0 <= y * y) by (nonlinear_arith);
    assert(n < diag * diag);
    assert(diag > 0) by (nonlinear_arith)
        requires
            0 <= n < diag * diag,
            0 <= diag,
    ;
    // Cauchy–Schwarz: (xc + ys)² + (xs − yc)² == (x² + y²)(c² + s²).
    lemma_inner_product_bound(x, y, c, s);
    assert(n * (c * c + s * s) <= n * (one * one)) by (nonlinear_arith)
        requires
            0 <= n,
            c * c + s * s <= one * one,
    ;
    assert(n * (one * one) < (diag * diag) * (one * one)) by (nonlinear_arith)
        requires
            n < diag * diag,
            one > 0,
    ;
    assert((diag * diag) * (one * one) == (diag * one) * (diag * one)) by (nonlinear_arith);
    assert(rho < diag * one) by (nonlinear_arith)
        requires
            rho * rho < (diag * one) * (diag * one),
            0 <= rho,
            0 <= diag * one,
    ;
    let den = diag * one;
    assert(rho * RHOS < den * RHOS) by (nonlinear_arith)
        requires
            rho < den,
    ;
    assert(0 <= rho * RHOS) by (nonlinear_arith)
        requires
            0 <= rho,
    ;
    vstd::arithmetic::div_mod::lemma_div_pos_is_pos(rho * RHOS, den);
    vstd::arithmetic::div_mod::lemma_fundamental_div_mod(rho * RHOS, den);
    let q = (rho * RHOS) / den;
    if q >= RHOS {
        assert(den * q >= den * RHOS) by (nonlinear_arith)
            requires
                q >= RHOS,
                den > 0,
        ;
    }
}

/// Whether `hough` holds the votes of the silhouette `border` of a
/// `width × height` image: cell `(a, r)`, at position `a * RHOS + r`, holds
/// the tally of the whole mask.
pub open spec fn is_accumulator(border: Seq<u32>, width: int, height: int, hough: Seq<u32>) -> bool {
    &&& hough.len() == ANGLES * RHOS
    &&& forall|a: int, r: int|
        0 <= a < ANGLES && 0 <= r < RHOS ==> #[trigger] hough[grid::cell(r, a, RHOS as int)] == tally(
            border,
            width,
            diagonal(width, height),
            a,
            r,
            height,
        )
}

/// Clears every cell of the accumulator.
fn clear(hough: &mut Vec<u32>)
    ensures
        final(hough).len() == old(hough).len(),
        forall|i: int| 0 <= i < final(hough).len() ==> final(hough)[i] == 0,
{
    let n: usize = hough.len();
    let mut i: usize = 0;
    while i < n
        invariant
            hough.len() == n,
            i <= n,
            forall|j: int| 0 <= j < i ==> hough[j] == 0,
        decreases n - i,
    {
        hough[i] = 0;
        i = i + 1;
    }
}

/// Adds the mark of pixel `(x, y)` to the cell it votes for at angle `a`.
fn vote(hough: &mut Vec<u32>, x: u32, y: u32, a: usize, mark: u32, diag: u64, Ghost(width): Ghost<int>, Ghost(height): Ghost<int>)
    requires
        x < width,
        y < height,
        a < ANGLES,
        is_diagonal(width, height, diag as int),
        diag <= 0x2_0000_0000,
        old(hough).len() == ANGLES * RHOS,
        forall|r: int| 0 <= r < RHOS ==> #[trigger] old(hough)[grid::cell(r, a as int, RHOS as int)] + mark <= u32::MAX,
    ensures
        final(hough).len() == old(hough).len(),
        forall|b: int, r: int|
            0 <= b < ANGLES && 0 <= r < RHOS
                ==> #[trigger] final(hough)[grid::cell(r, b, RHOS as int)]
                    == old(hough)[grid::cell(r, b, RHOS as int)] + if b == a && votes_for(
                    x as int,
                    y as int,
                    a as int,
                    r,
                    diag as int,
                ) {
                    mark as int
                } else {
                    0
                },
{
    let (c, s) = cos_sin(a);
    proof {
        lemma_unit_bound(a as int);
    }
    assert(-0x1_0000_0000 * 0x4000_0000 <= x * c <= 0x1_0000_0000 * 0x4000_0000) by (nonlinear_arith)
        requires
            0 <= x <= 0xffff_ffff,
            -0x4000_0000 <= c <= 0x4000_0000,
    ;
    assert(-0x1_0000_0000 * 0x4000_0000 <= y * s <= 0x1_0000_0000 * 0x4000_0000) by (nonlinear_arith)
        requires
            0 <= y <= 0xffff_ffff,
            -0x4000_0000 <= s <= 0x4000_0000,
    ;
    let rho: i128 = x as i128 * c as i128 + y as i128 * s as i128;
    assert(rho == rho_fixed(x as int, y as int, a as int));
    if rho >= 0 {
        proof {
            lemma_bucket_in_range(x as int, y as int, width, height, a as int, diag as int);
        }
        assert(0 < diag * TRIG_ONE <= 0x2_0000_0000 * 0x4000_0000) by (nonlinear_arith)
            requires
                0 < diag <= 0x2_0000_0000,
                TRIG_ONE == 0x4000_0000,
        ;
        assert(rho * RHOS <= 0x2_0000_0000 * 0x4000_0000 * 900) by (nonlinear_arith)
            requires
                0 <= rho <= 0x2_0000_0000 * 0x4000_0000,
                RHOS == 900,
        ;
        let den: u128 = diag as u128 * TRIG_ONE as u128;
        let num: u128 = rho as u128 * RHOS as u128;
        let r: usize = (num / den) as usize;
        assert(r == bucket(rho as int, diag as int));
        let i: usize = a * RHOS + r;
        assert(i == grid::cell(r as int, a as int, RHOS as int));
        proof {
            grid::lemma_cell_in_grid(r as int, a as int, RHOS as int, ANGLES as int);
        }
        let sum: u32 = hough[i] + mark;
        hough[i] = sum;
        proof {
            assert forall|b: int, q: int| 0 <= b < ANGLES && 0 <= q < RHOS
                implies #[trigger] hough[grid::cell(q, b, RHOS as int)]
                    == old(hough)[grid::cell(q, b, RHOS as int)] + if b == a && votes_for(
                    x as int,
                    y as int,
                    a as int,
                    q,
                    diag as int,
                ) {
                    mark as int
                } else {
                    0
                } by {
                grid::lemma_cell_in_grid(q, b, RHOS as int, ANGLES as int);
                if grid::cell(q, b, RHOS as int) == grid::cell(r as int, a as int, RHOS as int) {
                    grid::lemma_cell_unique(q, b, r as int, a as int, RHOS as int);
                }
            }
        }
    }
}

/// Fills the accumulator `hough` with the votes of the silhouette `border`.
///
/// Cell `(a, r)`, stored at position `a * RHOS + r`, receives the sum of the
/// marks of the pixels `(x, y)` whose line with the normal direction of
/// bucket `a` lies at a non-negative distance in radius bucket `r`.
///
/// The cells are plain sums of 32 bits. No cell can receive more than the
/// mask weighs, so the weight of the mask must fit: a mask of flags does for
/// every image of up to `u32::MAX` pixels.
pub fn calculate(border: &Vec<u32>, width: u32, height: u32, hough: &mut Vec<u32>)
    requires
        border.len() == width * height,
        old(hough).len() == ANGLES * RHOS,
        weight(border@, width as int, height as int) <= u32::MAX,
    ensures
        is_accumulator(border@, width as int, height as int, final(hough)@),
{
    let diag: u64 = diagonal_of(width, height);
    clear(hough);
    proof {
        assert forall|a: int, r: int| 0 <= a < ANGLES && 0 <= r < RHOS
            implies #[trigger] hough[grid::cell(r, a, RHOS as int)] == 0 by {
            grid::lemma_cell_in_grid(r, a, RHOS as int, ANGLES as int);
        }
    }
    let mut y: u32 = 0;
    while y < height
        invariant
            y <= height,
            border.len() == width * height,
            hough.len() == ANGLES * RHOS,
            hough.len() == old(hough).len(),
            weight(border@, width as int, height as int) <= u32::MAX,
            diag == diagonal(width as int, height as int),
            is_diagonal(width as int, height as int, diag as int),
            diag <= 0x2_0000_0000,
            forall|a: int, r: int|
                0 <= a < ANGLES && 0 <= r < RHOS
                    ==> #[trigger] hough[grid::cell(r, a, RHOS as int)]
                        == tally(border@, width as int, diag as int, a, r, y as int),
        decreases height - y,
    {
        let mut x: u32 = 0;
        while x < width
            invariant
                y < height,
                x <= width,
                border.len() == width * height,
                hough.len() == ANGLES * RHOS,
                hough.len() == old(hough).len(),
                weight(border@, width as int, height as int) <= u32::MAX,
                diag == diagonal(width as int, height as int),
                is_diagonal(width as int, height as int, diag as int),
                diag <= 0x2_0000_0000,
            diag <= 0x2_0000_0000,
                forall|a: int, r: int|
                    0 <= a < ANGLES && 0 <= r < RHOS
                        ==> #[trigger] hough[grid::cell(r, a, RHOS as int)]
                            == tally(border@, width as int, diag as int, a, r, y as int)
                            + row_tally(border@, width as int, diag as int, a, r, y as int, x as int),
            decreases width - x,
        {
            let i: usize = grid::index(x, y, width, height, border.len());
            let magnitude: u32 = border[i];
            if magnitude > 0 {
                let mut a: usize = 0;
                while a < ANGLES
                    invariant
                        y < height,
                        x < width,
                        a <= ANGLES,
                        border.len() == width * height,
                        magnitude == border[grid::cell(x as int, y as int, width as int)],
                        hough.len() == ANGLES * RHOS,
                        hough.len() == old(hough).len(),
                        weight(border@, width as int, height as int) <= u32::MAX,
                        is_diagonal(width as int, height as int, diag as int),
                        diag <= 0x2_0000_0000,
                diag <= 0x2_0000_0000,
            diag <= 0x2_0000_0000,
                        forall|b: int, r: int|
                            0 <= b < ANGLES && 0 <= r < RHOS
                                ==> #[trigger] hough[grid::cell(r, b, RHOS as int)]
                                    == tally(border@, width as int, diag as int, b, r, y as int)
                                    + row_tally(
                                    border@,
                                    width as int,
                                    diag as int,
                                    b,
                                    r,
                                    y as int,
                                    x as int + if b < a {
                                        1int
                                    } else {
                                        0int
                                    },
                                ),
                    decreases ANGLES - a,
                {
                    proof {
                        assert forall|r: int| 0 <= r < RHOS
                            implies #[trigger] hough[grid::cell(r, a as int, RHOS as int)]
                                + magnitude <= u32::MAX by {
                            lemma_tally_bound(border@, width as int, diag as int, a as int, r, y as int);
                            lemma_row_tally_bound(
                                border@,
                                width as int,
                                diag as int,
                                a as int,
                                r,
                                y as int,
                                x as int,
                            );
                            lemma_row_weight_monotone(border@, width as int, y as int, x as int + 1, width as int);
                            lemma_weight_monotone(border@, width as int, y as int + 1, height as int);
                        }
                    }
                    vote(hough, x, y, a, magnitude, diag, Ghost(width as int), Ghost(height as int));
                    a = a + 1;
                }
            }
            x = x + 1;
        }
        y = y + 1;
    }
}

/// What the pixel `(x, y)` adds to cell `(a, r)` once its distance has been
/// moved by `delta`.
pub open spec fn moved_contribution(
    mask: Seq<u32>,
    width: int,
    diag: int,
    a: int,
    r: int,
    delta: int,
    x: int,
    y: int,
) -> int {
    if rho_fixed(x, y, a) + delta >= 0 && bucket(rho_fixed(x, y, a) + delta, diag) == r {
        mask[grid::cell(x, y, width)] as int
    } else {
        0
    }
}

/// The votes for cell `(a, r)` from the first `rows` rows of a mask once
/// every distance has been moved by `delta`.
pub open spec fn moved_tally(
    mask: Seq<u32>,
    width: int,
    diag: int,
    a: int,
    r: int,
    delta: int,
    rows: int,
) -> int {
    sum(
        |y: int| sum(|x: int| moved_contribution(mask, width, diag, a, r, delta, x, y), width),
        rows,
    )
}

/// Whether `moved` is the mask `mask` of a `width × height` image with every
/// mark moved by `(dx, dy)`, no mark leaving the image.
pub open spec fn is_translation(
    mask: Seq<u32>,
    moved: Seq<u32>,
    width: int,
    height: int,
    dx: int,
    dy: int,
) -> bool {
    &&& forall|x: int, y: int|
        0 <= x < width && 0 <= y < height ==> #[trigger] moved[grid::cell(x, y, width)] == if 0 <= x
            - dx < width && 0 <= y - dy < height {
            mask[grid::cell(x - dx, y - dy, width)]
        } else {
            0
        }
    &&& forall|x: int, y: int|
        0 <= x < width && 0 <= y < height && !(0 <= x + dx < width && 0 <= y + dy < height)
            ==> #[trigger] mask[grid::cell(x, y, width)] == 0
}

/// The distance is linear: moving a pixel by `(dx, dy)` moves the line
/// through it, at every angle, by the distance of `(dx, dy)` itself.
pub proof fn lemma_rho_moved(x: int, y: int, dx: int, dy: int, a: int)
    ensures
        rho_fixed(x + dx, y + dy, a) == rho_fixed(x, y, a) + rho_fixed(dx, dy, a),
{
    let c = cos_fixed(a);
    let s = sin_fixed(a);
    assert((x + dx) * c == x * c + dx * c) by (nonlinear_arith);
    assert((y + dy) * s == y * s + dy * s) by (nonlinear_arith);
}

/// The votes of a row are the sum of what its pixels add.
pub proof fn lemma_row_tally_is_sum(mask: Seq<u32>, width: int, diag: int, a: int, r: int, y: int, n: int)
    ensures
        row_tally(mask, width, diag, a, r, y, n) == sum(
            |x: int| contribution(mask, width, diag, a, r, x, y),
            n,
        ),
    decreases n,
{
    if n > 0 {
        lemma_row_tally_is_sum(mask, width, diag, a, r, y, n - 1);
    }
}

/// The votes of a mask are the sum of the votes of its rows.
pub proof fn lemma_tally_is_sum(mask: Seq<u32>, width: int, diag: int, a: int, r: int, rows: int)
    ensures
        tally(mask, width, diag, a, r, rows) == sum(
            |y: int| row_tally(mask, width, diag, a, r, y, width),
            rows,
        ),
    decreases rows,
{
    if rows > 0 {
        lemma_tally_is_sum(mask, width, diag, a, r, rows - 1);
    }
}

/// The accumulator follows a translation of the mask: when every mark moves
/// by `(dx, dy)` inside the image, each cell of angle `a` collects the marks
/// it would collect from the mask as it was with every distance moved by the
/// distance of `(dx, dy)` at that angle. Lines keep their angle, and their
/// radius moves by an amount that depends on the angle alone.
pub proof fn lemma_translation(
    mask: Seq<u32>,
    moved: Seq<u32>,
    width: int,
    height: int,
    dx: int,
    dy: int,
    diag: int,
    a: int,
    r: int,
)
    requires
        0 <= width,
        0 <= height,
        is_translation(mask, moved, width, height, dx, dy),
    ensures
        tally(moved, width, diag, a, r, height) == moved_tally(
            mask,
            width,
            diag,
            a,
            r,
            rho_fixed(dx, dy, a),
            height,
        ),
{
    let delta = rho_fixed(dx, dy, a);
    let after = |y: int| row_tally(moved, width, diag, a, r, y, width);
    let before = |y: int| sum(|x: int| moved_contribution(mask, width, diag, a, r, delta, x, y), width);
    lemma_tally_is_sum(moved, width, diag, a, r, height);
    assert(is_moved(after, before, height, dy)) by {
        assert forall|y: int| 0 <= y < height implies #[trigger] after(y) == if 0 <= y - dy < height {
            before(y - dy)
        } else {
            0
        } by {
            let new_row = |x: int| contribution(moved, width, diag, a, r, x, y);
            lemma_row_tally_is_sum(moved, width, diag, a, r, y, width);
            if 0 <= y - dy < height {
                let old_row = |x: int| moved_contribution(mask, width, diag, a, r, delta, x, y - dy);
                assert(is_moved(new_row, old_row, width, dx)) by {
                    assert forall|x: int| 0 <= x < width implies #[trigger] new_row(x) == if 0 <= x
                        - dx < width {
                        old_row(x - dx)
                    } else {
                        0
                    } by {
                        assert(moved[grid::cell(x, y, width)] == if 0 <= x - dx < width {
                            mask[grid::cell(x - dx, y - dy, width)]
                        } else {
                            0
                        });
                        lemma_rho_moved(x - dx, y - dy, dx, dy, a);
                    }
                    assert forall|x: int| 0 <= x < width && !(0 <= x + dx < width) implies #[trigger] old_row(
                        x,
                    ) == 0 by {
                        assert(mask[grid::cell(x, y - dy, width)] == 0);
                    }
                }
                lemma_sum_moved(new_row, old_row, width, dx);
            } else {
                let nothing = |x: int| 0int;
                assert forall|x: int| 0 <= x < width implies #[trigger] new_row(x) == nothing(x) by {
                    assert(moved[grid::cell(x, y, width)] == 0);
                }
                lemma_sum_equal(new_row, nothing, width);
                crate::sums::lemma_sum_skip(nothing, 0, width);
            }
        }
        assert forall|y: int| 0 <= y < height && !(0 <= y + dy < height) implies #[trigger] before(y)
            == 0 by {
            let old_row = |x: int| moved_contribution(mask, width, diag, a, r, delta, x, y);
            let nothing = |x: int| 0int;
            assert forall|x: int| 0 <= x < width implies #[trigger] old_row(x) == nothing(x) by {
                assert(mask[grid::cell(x, y, width)] == 0);
            }
            lemma_sum_equal(old_row, nothing, width);
            crate::sums::lemma_sum_skip(nothing, 0, width);
        }
    }
    lemma_sum_moved(after, before, height, dy);
}

/// A mask whose distances are moved by nothing votes as it is.
pub proof fn lemma_unmoved(mask: Seq<u32>, width: int, diag: int, a: int, r: int, rows: int)
    ensures
        moved_tally(mask, width, diag, a, r, 0, rows) == tally(mask, width, diag, a, r, rows),
{
    let plain = |y: int| row_tally(mask, width, diag, a, r, y, width);
    let moved = |y: int| sum(|x: int| moved_contribution(mask, width, diag, a, r, 0, x, y), width);
    lemma_tally_is_sum(mask, width, diag, a, r, rows);
    assert forall|y: int| 0 <= y < rows implies #[trigger] moved(y) == plain(y) by {
        lemma_row_tally_is_sum(mask, width, diag, a, r, y, width);
        lemma_sum_equal(
            |x: int| moved_contribution(mask, width, diag, a, r, 0, x, y),
            |x: int| contribution(mask, width, diag, a, r, x, y),
            width,
        );
    }
    lemma_sum_equal(moved, plain, rows);
}

/// Moving a distance by `delta` moves its bucket by the buckets that `delta`
/// spans, or by one more.
pub proof fn lemma_bucket_moved(rho: int, delta: int, diag: int)
    requires
        diag > 0,
    ensures
        bucket(rho + delta, diag) == bucket(rho, diag) + bucket(delta, diag) || bucket(
            rho + delta,
            diag,
        ) == bucket(rho, diag) + bucket(delta, diag) + 1,
{
    let den = diag * TRIG_ONE;
    assert(den > 0) by (nonlinear_arith)
        requires
            diag > 0,
            den == diag * TRIG_ONE,
            TRIG_ONE == 0x4000_0000,
    ;
    let u = rho * RHOS;
    let v = delta * RHOS;
    assert((rho + delta) * RHOS == u + v) by (nonlinear_arith)
        requires
            u == rho * RHOS,
            v == delta * RHOS,
    ;
    vstd::arithmetic::div_mod::lemma_fundamental_div_mod(u, den);
    vstd::arithmetic::div_mod::lemma_fundamental_div_mod(v, den);
    vstd::arithmetic::div_mod::lemma_mod_bound(u, den);
    vstd::arithmetic::div_mod::lemma_mod_bound(v, den);
    let qu = u / den;
    let qv = v / den;
    let ru = u % den;
    let rv = v % den;
    assert(den * qu + den * qv == (qu + qv) * den) by (nonlinear_arith);
    assert((qu + qv + 1) * den == (qu + qv) * den + den) by (nonlinear_arith);
    if ru + rv < den {
        vstd::arithmetic::div_mod::lemma_fundamental_div_mod_converse(u + v, den, qu + qv, ru + rv);
    } else {
        vstd::arithmetic::div_mod::lemma_fundamental_div_mod_converse(
            u + v,
            den,
            qu + qv + 1,
            ru + rv - den,
        );
    }
}

/// The total of the votes at angle `a`, over all radius buckets.
pub open spec fn angle_total(mask: Seq<u32>, width: int, height: int, a: int) -> int {
    sum(|r: int| tally(mask, width, diagonal(width, height), a, r, height), RHOS as int)
}

/// The mark of the pixel `(x, y)` if the line through it at angle `a` lies
/// at a non-negative distance, nothing otherwise.
pub open spec fn faced_mark(mask: Seq<u32>, width: int, a: int, x: int, y: int) -> int {
    if rho_fixed(x, y, a) >= 0 {
        mask[grid::cell(x, y, width)] as int
    } else {
        0
    }
}

/// The sum of the marks of the pixels that face angle `a`: those whose line
/// at that angle lies at a non-negative distance.
pub open spec fn faced_weight(mask: Seq<u32>, width: int, height: int, a: int) -> int {
    sum(|y: int| sum(|x: int| faced_mark(mask, width, a, x, y), width), height)
}

/// Every pixel that faces an angle votes into exactly one bucket of that
/// angle: the votes at an angle add up to the marks of the pixels that face
/// it.
pub proof fn lemma_angle_total(mask: Seq<u32>, width: int, height: int, a: int)
    requires
        0 <= width,
        0 <= height,
        0 <= a < ANGLES,
    ensures
        angle_total(mask, width, height, a) == faced_weight(mask, width, height, a),
{
    let diag = diagonal(width, height);
    let by_bucket = |r: int| tally(mask, width, diag, a, r, height);
    let by_row = |y: int| sum(|x: int| faced_mark(mask, width, a, x, y), width);
    // The votes as a sum over buckets of sums over rows, and the other way round.
    let cell = |r: int, y: int| row_tally(mask, width, diag, a, r, y, width);
    assert forall|r: int| 0 <= r < RHOS implies #[trigger] by_bucket(r) == sum(
        |y: int| cell(r, y),
        height,
    ) by {
        lemma_tally_is_sum(mask, width, diag, a, r, height);
        lemma_sum_equal(|y: int| row_tally(mask, width, diag, a, r, y, width), |y: int| cell(r, y), height);
    }
    lemma_sum_equal(by_bucket, |r: int| sum(|y: int| cell(r, y), height), RHOS as int);
    lemma_sum_swap(cell, RHOS as int, height);
    assert forall|y: int| 0 <= y < height implies #[trigger] by_row(y) == sum(
        |r: int| cell(r, y),
        RHOS as int,
    ) by {
        // Within a row, the same exchange between buckets and pixels.
        let pixel = |r: int, x: int| contribution(mask, width, diag, a, r, x, y);
        assert forall|r: int| 0 <= r < RHOS implies #[trigger] cell(r, y) == sum(
            |x: int| pixel(r, x),
            width,
        ) by {
            lemma_row_tally_is_sum(mask, width, diag, a, r, y, width);
            lemma_sum_equal(|x: int| contribution(mask, width, diag, a, r, x, y), |x: int| pixel(r, x), width);
        }
        lemma_sum_equal(|r: int| cell(r, y), |r: int| sum(|x: int| pixel(r, x), width), RHOS as int);
        lemma_sum_swap(pixel, RHOS as int, width);
        assert forall|x: int| 0 <= x < width implies #[trigger] faced_mark(mask, width, a, x, y)
            == sum(|r: int| pixel(r, x), RHOS as int) by {
            let votes = |r: int| pixel(r, x);
            if rho_fixed(x, y, a) >= 0 {
                lemma_diagonal_exists(width, height);
                lemma_bucket_in_range(x, y, width, height, a, diag);
                lemma_sum_single(votes, RHOS as int, bucket(rho_fixed(x, y, a), diag));
            } else {
                lemma_sum_zero(votes, RHOS as int);
            }
        }
        lemma_sum_equal(
            |x: int| faced_mark(mask, width, a, x, y),
            |x: int| sum(|r: int| pixel(r, x), RHOS as int),
            width,
        );
    }
    lemma_sum_equal(by_row, |y: int| sum(|r: int| cell(r, y), RHOS as int), height);
}

/// Every image has a rounded-up diagonal.
pub proof fn lemma_diagonal_exists(width: int, height: int)
    ensures
        is_diagonal(width, height, diagonal(width, height)),
{
    assert(0 <= width * width && 0 <= height * height) by (nonlinear_arith);
    lemma_diagonal_search(width, height, 0);
}

proof fn lemma_diagonal_search(width: int, height: int, d: int)
    requires
        0 <= width * width + height * height,
        0 <= d,
        d == 0 || (d - 1) * (d - 1) < width * width + height * height,
    ensures
        exists|e: int| is_diagonal(width, height, e),
    decreases width * width + height * height - d,
{
    let n = width * width + height * height;
    if n <= d * d {
        assert(is_diagonal(width, height, d));
    } else {
        assert(d < n) by (nonlinear_arith)
            requires
                d * d < n,
                0 <= d,
        ;
        lemma_diagonal_search(width, height, d + 1);
    }
}

/// The weight of a mask is the sum of its marks.
pub proof fn lemma_weight_is_sum(mask: Seq<u32>, width: int, rows: int)
    ensures
        weight(mask, width, rows) == sum(
            |y: int| sum(|x: int| mask[grid::cell(x, y, width)] as int, width),
            rows,
        ),
    decreases rows,
{
    if rows > 0 {
        lemma_weight_is_sum(mask, width, rows - 1);
        lemma_row_weight_is_sum(mask, width, rows - 1, width);
    }
}

proof fn lemma_row_weight_is_sum(mask: Seq<u32>, width: int, y: int, n: int)
    ensures
        row_weight(mask, width, y, n) == sum(|x: int| mask[grid::cell(x, y, width)] as int, n),
    decreases n,
{
    if n > 0 {
        lemma_row_weight_is_sum(mask, width, y, n - 1);
    }
}

/// Every pixel faces the angles of the first quarter turn: at those angles
/// the votes add up to the weight of the mask.
pub proof fn lemma_first_quarter_total(mask: Seq<u32>, width: int, height: int, a: int)
    requires
        0 <= width,
        0 <= height,
        0 <= a <= QUARTER_TURN,
    ensures
        angle_total(mask, width, height, a) == weight(mask, width, height),
{
    lemma_angle_total(mask, width, height, a);
    lemma_weight_is_sum(mask, width, height);
    lemma_quarter_pair(a);
    lemma_quarter_pair(225 - a);
    let faced = |y: int| sum(|x: int| faced_mark(mask, width, a, x, y), width);
    let all = |y: int| sum(|x: int| mask[grid::cell(x, y, width)] as int, width);
    assert forall|y: int| 0 <= y < height implies #[trigger] faced(y) == all(y) by {
        assert forall|x: int| 0 <= x < width implies #[trigger] faced_mark(mask, width, a, x, y)
            == mask[grid::cell(x, y, width)] as int by {
            assert(0 <= x * cos_fixed(a) && 0 <= y * sin_fixed(a)) by (nonlinear_arith)
                requires
                    0 <= x,
                    0 <= y,
                    0 <= cos_fixed(a),
                    0 <= sin_fixed(a),
            ;
        }
        lemma_sum_equal(
            |x: int| faced_mark(mask, width, a, x, y),
            |x: int| mask[grid::cell(x, y, width)] as int,
            width,
        );
    }
    lemma_sum_equal(faced, all, height);
}

/// A translation keeps the weight of a mask.
pub proof fn lemma_weight_translation(
    mask: Seq<u32>,
    moved: Seq<u32>,
    width: int,
    height: int,
    dx: int,
    dy: int,
)
    requires
        0 <= width,
        0 <= height,
        is_translation(mask, moved, width, height, dx, dy),
    ensures
        weight(moved, width, height) == weight(mask, width, height),
{
    lemma_weight_is_sum(mask, width, height);
    lemma_weight_is_sum(moved, width, height);
    let after = |y: int| sum(|x: int| moved[grid::cell(x, y, width)] as int, width);
    let before = |y: int| sum(|x: int| mask[grid::cell(x, y, width)] as int, width);
    assert(is_moved(after, before, height, dy)) by {
        assert forall|y: int| 0 <= y < height implies #[trigger] after(y) == if 0 <= y - dy < height {
            before(y - dy)
        } else {
            0
        } by {
            let new_row = |x: int| moved[grid::cell(x, y, width)] as int;
            if 0 <= y - dy < height {
                let old_row = |x: int| mask[grid::cell(x, y - dy, width)] as int;
                assert(is_moved(new_row, old_row, width, dx)) by {
                    assert forall|x: int| 0 <= x < width && !(0 <= x + dx < width) implies #[trigger] old_row(
                        x,
                    ) == 0 by {
                        assert(mask[grid::cell(x, y - dy, width)] == 0);
                    }
                }
                lemma_sum_moved(new_row, old_row, width, dx);
            } else {
                lemma_sum_zero(new_row, width);
            }
        }
        assert forall|y: int| 0 <= y < height && !(0 <= y + dy < height) implies #[trigger] before(y)
            == 0 by {
            let old_row = |x: int| mask[grid::cell(x, y, width)] as int;
            assert forall|x: int| 0 <= x < width implies #[trigger] old_row(x) == 0 by {
                assert(mask[grid::cell(x, y, width)] == 0);
            }
            lemma_sum_zero(old_row, width);
        }
    }
    lemma_sum_moved(after, before, height, dy);
}

/// The totals of the votes do not change when the mask is translated: at
/// every angle of the first quarter turn, which every pixel faces wherever it
/// lies, a mask and its translation collect the same total.
pub proof fn lemma_total_translation(
    mask: Seq<u32>,
    moved: Seq<u32>,
    width: int,
    height: int,
    dx: int,
    dy: int,
    a: int,
)
    requires
        0 <= width,
        0 <= height,
        0 <= a <= QUARTER_TURN,
        is_translation(mask, moved, width, height, dx, dy),
    ensures
        angle_total(moved, width, height, a) == angle_total(mask, width, height, a),
{
    lemma_first_quarter_total(mask, width, height, a);
    lemma_first_quarter_total(moved, width, height, a);
    lemma_weight_translation(mask, moved, width, height, dx, dy);
}

} // verus!
