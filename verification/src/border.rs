//! Silhouette tracing: the first strong edge met by a ray cast from each side.
use vstd::prelude::*;
use crate::grid;
use crate::Luma;

verus! {

/// A magnitude above this value stops a ray.
pub const BORDER_THRESHOLD: u8 = 40;

/// The width of the frame along the sides of the map that the rays leave out.
pub const BORDER_MARGIN: u32 = 0;

/// Where the rays end along a side of the given length: the margin short of
/// its end.
pub open spec fn limit(size: u32) -> u32 {
    if size >= BORDER_MARGIN {
        (size - BORDER_MARGIN) as u32
    } else {
        0
    }
}

/// Whether the pixel lies where the rays run: inside the margin.
pub open spec fn is_scanned<L: Luma<u8>>(image: &L, x: int, y: int) -> bool {
    BORDER_MARGIN <= x < limit(image.cols()) && BORDER_MARGIN <= y < limit(image.rows())
}

/// Whether the pixel is strong enough to stop a ray.
pub open spec fn is_edge<L: Luma<u8>>(image: &L, x: int, y: int) -> bool {
    image.sample(x as u32, y as u32) > BORDER_THRESHOLD
}

/// `(x, y)` is the first edge of column `x`, going down from the top.
pub open spec fn first_from_top<L: Luma<u8>>(image: &L, x: int, y: int) -> bool {
    &&& is_scanned(image, x, y)
    &&& is_edge(image, x, y)
    &&& forall|v: int| BORDER_MARGIN <= v < y ==> !#[trigger] is_edge(image, x, v)
}

/// `(x, y)` is the first edge of column `x`, going up from the bottom.
pub open spec fn first_from_bottom<L: Luma<u8>>(image: &L, x: int, y: int) -> bool {
    &&& is_scanned(image, x, y)
    &&& is_edge(image, x, y)
    &&& forall|v: int| y < v < limit(image.rows()) ==> !#[trigger] is_edge(image, x, v)
}

/// `(x, y)` is the first edge of row `y`, going right from the left.
pub open spec fn first_from_left<L: Luma<u8>>(image: &L, x: int, y: int) -> bool {
    &&& is_scanned(image, x, y)
    &&& is_edge(image, x, y)
    &&& forall|u: int| BORDER_MARGIN <= u < x ==> !#[trigger] is_edge(image, u, y)
}

/// `(x, y)` is the first edge of row `y`, going left from the right.
pub open spec fn first_from_right<L: Luma<u8>>(image: &L, x: int, y: int) -> bool {
    &&& is_scanned(image, x, y)
    &&& is_edge(image, x, y)
    &&& forall|u: int| x < u < limit(image.cols()) ==> !#[trigger] is_edge(image, u, y)
}

/// Whether one of the two vertical rays of column `x` stops at `(x, y)`.
pub open spec fn column_mark<L: Luma<u8>>(image: &L, x: int, y: int) -> bool {
    first_from_top(image, x, y) || first_from_bottom(image, x, y)
}

/// Whether one of the two horizontal rays of row `y` stops at `(x, y)`.
pub open spec fn row_mark<L: Luma<u8>>(image: &L, x: int, y: int) -> bool {
    first_from_left(image, x, y) || first_from_right(image, x, y)
}

/// Whether `(x, y)` belongs to the silhouette: one of the four rays through
/// it stops there.
pub open spec fn on_outline<L: Luma<u8>>(image: &L, x: int, y: int) -> bool {
    column_mark(image, x, y) || row_mark(image, x, y)
}

/// The flag of a pixel: `1` on the silhouette, `0` elsewhere.
pub open spec fn flag(set: bool) -> u32 {
    if set {
        1
    } else {
        0
    }
}

/// Whether `border` is the silhouette mask of the gradient map `image`: the
/// flag of every pixel says whether the pixel is on the outline.
pub open spec fn is_silhouette<L: Luma<u8>>(image: &L, border: Seq<u32>) -> bool {
    &&& border.len() == image.cols() * image.rows()
    &&& forall|x: int, y: int|
        0 <= x < image.cols() && 0 <= y < image.rows()
            ==> #[trigger] border[grid::cell(x, y, image.cols() as int)] == flag(on_outline(image, x, y))
}

/// A ray stops once: each of the four directions marks at most one pixel of
/// a column or a row, so the mask is a thin outline and no filled region.
pub proof fn lemma_one_stop_per_ray<L: Luma<u8>>(image: &L, x1: int, y1: int, x2: int, y2: int)
    ensures
        first_from_top(image, x1, y1) && first_from_top(image, x1, y2) ==> y1 == y2,
        first_from_bottom(image, x1, y1) && first_from_bottom(image, x1, y2) ==> y1 == y2,
        first_from_left(image, x1, y1) && first_from_left(image, x2, y1) ==> x1 == x2,
        first_from_right(image, x1, y1) && first_from_right(image, x2, y1) ==> x1 == x2,
{
    if first_from_top(image, x1, y1) && first_from_top(image, x1, y2) {
        assert(is_edge(image, x1, y1) && is_edge(image, x1, y2));
    }
    if first_from_bottom(image, x1, y1) && first_from_bottom(image, x1, y2) {
        assert(is_edge(image, x1, y1) && is_edge(image, x1, y2));
    }
    if first_from_left(image, x1, y1) && first_from_left(image, x2, y1) {
        assert(is_edge(image, x1, y1) && is_edge(image, x2, y1));
    }
    if first_from_right(image, x1, y1) && first_from_right(image, x2, y1) {
        assert(is_edge(image, x1, y1) && is_edge(image, x2, y1));
    }
}

/// Computes where the rays end along a side of the given length.
fn limit_of(size: u32) -> (end: u32)
    ensures
        end == limit(size),
        end <= size,
{
    if size >= BORDER_MARGIN {
        size - BORDER_MARGIN
    } else {
        0
    }
}

/// The row at which the ray going down column `x` stops, if it stops.
fn scan_down<L: Luma<u8>>(image: &L, x: u32) -> (hit: Option<u32>)
    requires
        image.inv(),
        BORDER_MARGIN <= x < limit(image.cols()),
    ensures
        match hit {
            Some(y) => y < image.rows() && first_from_top(image, x as int, y as int),
            None => forall|v: int|
                BORDER_MARGIN <= v < limit(image.rows()) ==> !#[trigger] is_edge(image, x as int, v),
        },
{
    let bottom: u32 = limit_of(image.height());
    let mut y: u32 = BORDER_MARGIN;
    while y < bottom
        invariant
            image.inv(),
            BORDER_MARGIN <= x < limit(image.cols()),
            bottom == limit(image.rows()),
            BORDER_MARGIN <= y,
            forall|v: int| BORDER_MARGIN <= v < y ==> !#[trigger] is_edge(image, x as int, v),
        decreases bottom - y,
    {
        if image.get(x, y) > BORDER_THRESHOLD {
            return Some(y);
        }
        y = y + 1;
    }
    None
}

/// The row at which the ray going up column `x` stops, if it stops.
fn scan_up<L: Luma<u8>>(image: &L, x: u32) -> (hit: Option<u32>)
    requires
        image.inv(),
        BORDER_MARGIN <= x < limit(image.cols()),
    ensures
        match hit {
            Some(y) => y < image.rows() && first_from_bottom(image, x as int, y as int),
            None => forall|v: int|
                BORDER_MARGIN <= v < limit(image.rows()) ==> !#[trigger] is_edge(image, x as int, v),
        },
{
    let bottom: u32 = limit_of(image.height());
    let mut y: u32 = bottom;
    while y > BORDER_MARGIN
        invariant
            image.inv(),
            BORDER_MARGIN <= x < limit(image.cols()),
            bottom == limit(image.rows()),
            y <= bottom,
            forall|v: int| y <= v < bottom ==> !#[trigger] is_edge(image, x as int, v),
        decreases y,
    {
        y = y - 1;
        if image.get(x, y) > BORDER_THRESHOLD {
            return Some(y);
        }
    }
    None
}

/// The column at which the ray going right along row `y` stops, if it stops.
fn scan_right<L: Luma<u8>>(image: &L, y: u32) -> (hit: Option<u32>)
    requires
        image.inv(),
        BORDER_MARGIN <= y < limit(image.rows()),
    ensures
        match hit {
            Some(x) => x < image.cols() && first_from_left(image, x as int, y as int),
            None => forall|u: int|
                BORDER_MARGIN <= u < limit(image.cols()) ==> !#[trigger] is_edge(image, u, y as int),
        },
{
    let right: u32 = limit_of(image.width());
    let mut x: u32 = BORDER_MARGIN;
    while x < right
        invariant
            image.inv(),
            BORDER_MARGIN <= y < limit(image.rows()),
            right == limit(image.cols()),
            BORDER_MARGIN <= x,
            forall|u: int| BORDER_MARGIN <= u < x ==> !#[trigger] is_edge(image, u, y as int),
        decreases right - x,
    {
        if image.get(x, y) > BORDER_THRESHOLD {
            return Some(x);
        }
        x = x + 1;
    }
    None
}

/// The column at which the ray going left along row `y` stops, if it stops.
fn scan_left<L: Luma<u8>>(image: &L, y: u32) -> (hit: Option<u32>)
    requires
        image.inv(),
        BORDER_MARGIN <= y < limit(image.rows()),
    ensures
        match hit {
            Some(x) => x < image.cols() && first_from_right(image, x as int, y as int),
            None => forall|u: int|
                BORDER_MARGIN <= u < limit(image.cols()) ==> !#[trigger] is_edge(image, u, y as int),
        },
{
    let right: u32 = limit_of(image.width());
    let mut x: u32 = right;
    while x > BORDER_MARGIN
        invariant
            image.inv(),
            BORDER_MARGIN <= y < limit(image.rows()),
            right == limit(image.cols()),
            x <= right,
            forall|u: int| x <= u < right ==> !#[trigger] is_edge(image, u, y as int),
        decreases x,
    {
        x = x - 1;
        if image.get(x, y) > BORDER_THRESHOLD {
            return Some(x);
        }
    }
    None
}

/// Sets the flag of one pixel and leaves every other flag as it was.
fn mark(border: &mut Vec<u32>, x: u32, y: u32, width: u32, height: u32)
    requires
        x < width,
        y < height,
        old(border).len() == width * height,
    ensures
        final(border).len() == old(border).len(),
        final(border)[grid::cell(x as int, y as int, width as int)] == 1,
        forall|px: int, py: int|
            0 <= px < width && 0 <= py < height && !(px == x && py == y)
                ==> #[trigger] final(border)[grid::cell(px, py, width as int)]
                    == old(border)[grid::cell(px, py, width as int)],
{
    let i: usize = grid::index(x, y, width, height, border.len());
    border[i] = 1;
    proof {
        assert forall|px: int, py: int|
            0 <= px < width && 0 <= py < height && !(px == x && py == y)
            implies #[trigger] border[grid::cell(px, py, width as int)]
                == old(border)[grid::cell(px, py, width as int)] by {
            grid::lemma_cell_in_grid(px, py, width as int, height as int);
            if grid::cell(px, py, width as int) == grid::cell(x as int, y as int, width as int) {
                grid::lemma_cell_unique(px, py, x as int, y as int, width as int);
            }
        }
    }
}

/// Clears every flag.
fn clear(border: &mut Vec<u32>)
    ensures
        final(border).len() == old(border).len(),
        forall|i: int| 0 <= i < final(border).len() ==> final(border)[i] == 0,
{
    let n: usize = border.len();
    let mut i: usize = 0;
    while i < n
        invariant
            border.len() == n,
            i <= n,
            forall|j: int| 0 <= j < i ==> border[j] == 0,
        decreases n - i,
    {
        border[i] = 0;
        i = i + 1;
    }
}

/// Traces the silhouette of the gradient map `image` into `border`.
///
/// From each side of the image a ray runs along every row and every column
/// and stops at the first pixel whose magnitude exceeds `BORDER_THRESHOLD`.
/// The pixels where a ray stops get the flag `1`, all others `0`. The rays
/// leave out a frame of `BORDER_MARGIN` pixels along the sides.
pub fn calculate<L: Luma<u8>>(image: &L, border: &mut Vec<u32>)
    requires
        image.inv(),
        old(border).len() == image.cols() * image.rows(),
    ensures
        is_silhouette(image, final(border)@),
{
    let width: u32 = image.width();
    let height: u32 = image.height();
    let right: u32 = limit_of(width);
    let bottom: u32 = limit_of(height);
    clear(border);
    proof {
        assert forall|px: int, py: int| 0 <= px < width && 0 <= py < height
            implies #[trigger] border[grid::cell(px, py, width as int)] == 0 by {
            grid::lemma_cell_in_grid(px, py, width as int, height as int);
        }
    }
    let mut x: u32 = BORDER_MARGIN;
    while x < right
        invariant
            image.inv(),
            width == image.cols(),
            height == image.rows(),
            right == limit(width),
            BORDER_MARGIN <= x,
            border.len() == old(border).len(),
            border.len() == width * height,
            forall|px: int, py: int|
                0 <= px < width && 0 <= py < height
                    ==> #[trigger] border[grid::cell(px, py, width as int)]
                        == flag(px < x && column_mark(image, px, py)),
        decreases right - x,
    {
        let down: Option<u32> = scan_down(image, x);
        if let Some(y) = down {
            mark(border, x, y, width, height);
        }
        assert forall|px: int, py: int| 0 <= px < width && 0 <= py < height
            implies #[trigger] border[grid::cell(px, py, width as int)]
                == flag(
                (px < x && column_mark(image, px, py))
                    || (px == x && first_from_top(image, px, py)),
            ) by {
            if px == x && first_from_top(image, px, py) {
                assert(is_edge(image, px, py));
            }
        }
        let up: Option<u32> = scan_up(image, x);
        if let Some(y) = up {
            mark(border, x, y, width, height);
        }
        assert forall|px: int, py: int| 0 <= px < width && 0 <= py < height
            implies #[trigger] border[grid::cell(px, py, width as int)]
                == flag(px < x + 1 && column_mark(image, px, py)) by {
            if px == x && first_from_bottom(image, px, py) {
                assert(is_edge(image, px, py));
            }
        }
        x = x + 1;
    }
    let mut y: u32 = BORDER_MARGIN;
    while y < bottom
        invariant
            image.inv(),
            width == image.cols(),
            height == image.rows(),
            bottom == limit(height),
            BORDER_MARGIN <= y,
            border.len() == old(border).len(),
            border.len() == width * height,
            forall|px: int, py: int|
                0 <= px < width && 0 <= py < height
                    ==> #[trigger] border[grid::cell(px, py, width as int)]
                        == flag(
                        column_mark(image, px, py) || (py < y && row_mark(image, px, py)),
                    ),
        decreases bottom - y,
    {
        let right_hit: Option<u32> = scan_right(image, y);
        if let Some(x) = right_hit {
            mark(border, x, y, width, height);
        }
        assert forall|px: int, py: int| 0 <= px < width && 0 <= py < height
            implies #[trigger] border[grid::cell(px, py, width as int)]
                == flag(
                column_mark(image, px, py) || (py < y && row_mark(image, px, py))
                    || (py == y && first_from_left(image, px, py)),
            ) by {
            if py == y && first_from_left(image, px, py) {
                assert(is_edge(image, px, py));
            }
        }
        let left_hit: Option<u32> = scan_left(image, y);
        if let Some(x) = left_hit {
            mark(border, x, y, width, height);
        }
        assert forall|px: int, py: int| 0 <= px < width && 0 <= py < height
            implies #[trigger] border[grid::cell(px, py, width as int)]
                == flag(
                column_mark(image, px, py) || (py < y + 1 && row_mark(image, px, py)),
            ) by {
            if py == y && first_from_right(image, px, py) {
                assert(is_edge(image, px, py));
            }
        }
        y = y + 1;
    }
}

} // verus!
