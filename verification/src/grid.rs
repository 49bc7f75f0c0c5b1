//! Row-major addressing of dense `width × height` buffers.
use vstd::prelude::*;

verus! {

/// The position of column `x` of row `y` in a row-major buffer.
pub open spec fn cell(x: int, y: int, width: int) -> int {
    y * width + x
}

/// A cell inside the grid lies inside a buffer of `width * height` entries.
pub proof fn lemma_cell_in_grid(x: int, y: int, width: int, height: int)
    requires
        0 <= x < width,
        0 <= y < height,
    ensures
        0 <= cell(x, y, width) < width * height,
        y * width <= cell(x, y, width),
{
    assert(y * width >= 0) by (nonlinear_arith)
        requires
            y >= 0,
            width >= 0,
    ;
    assert((y + 1) * width <= height * width) by (nonlinear_arith)
        requires
            y + 1 <= height,
            width >= 0,
    ;
    assert((y + 1) * width == y * width + width) by (nonlinear_arith);
    assert(height * width == width * height) by (nonlinear_arith);
}

/// A cell determines its column and row.
pub proof fn lemma_cell_unique(x1: int, y1: int, x2: int, y2: int, width: int)
    requires
        0 <= x1 < width,
        0 <= x2 < width,
        0 <= y1,
        0 <= y2,
        cell(x1, y1, width) == cell(x2, y2, width),
    ensures
        x1 == x2,
        y1 == y2,
{
    if y1 < y2 {
        assert((y1 + 1) * width <= y2 * width) by (nonlinear_arith)
            requires
                y1 + 1 <= y2,
                width >= 0,
        ;
        assert((y1 + 1) * width == y1 * width + width) by (nonlinear_arith);
    } else if y2 < y1 {
        assert((y2 + 1) * width <= y1 * width) by (nonlinear_arith)
            requires
                y2 + 1 <= y1,
                width >= 0,
        ;
        assert((y2 + 1) * width == y2 * width + width) by (nonlinear_arith);
    }
}

/// Every position of the buffer is the cell of one column and row.
pub proof fn lemma_position_is_cell(i: int, width: int, height: int)
    requires
        0 <= i < width * height,
        0 < width,
    ensures
        0 <= i % width < width,
        0 <= i / width < height,
        cell(i % width, i / width, width) == i,
{
    vstd::arithmetic::div_mod::lemma_fundamental_div_mod(i, width);
    vstd::arithmetic::div_mod::lemma_div_pos_is_pos(i, width);
    assert(width * (i / width) == (i / width) * width) by (nonlinear_arith);
    if i / width >= height {
        assert((i / width) * width >= height * width) by (nonlinear_arith)
            requires
                i / width >= height,
                width > 0,
        ;
        assert(height * width == width * height) by (nonlinear_arith);
    }
}

/// The buffer position of a pixel, computed without overflow.
pub fn index(x: u32, y: u32, width: u32, height: u32, len: usize) -> (i: usize)
    requires
        x < width,
        y < height,
        width * height <= len,
    ensures
        i == cell(x as int, y as int, width as int),
        i < width * height,
{
    proof {
        lemma_cell_in_grid(x as int, y as int, width as int, height as int);
    }
    y as usize * width as usize + x as usize
}

} // verus!
