//! Row-major coordinates on a `w × h` grid.
use vstd::prelude::*;
use vstd::arithmetic::div_mod::*;

verus! {

/// Column of cell `i`.
pub open spec fn col_of(i: int, w: int) -> int {
    i % w
}

/// Row of cell `i`.
pub open spec fn row_of(i: int, w: int) -> int {
    i / w
}

/// Index of the cell at column `x` and row `y`.
pub open spec fn cell_at(x: int, y: int, w: int) -> int {
    y * w + x
}

/// Steps from cell `i` to the bottom-right corner of a `w × h` grid.
pub open spec fn corner_distance(i: int, w: int, h: int) -> int {
    (w - 1 - col_of(i, w)) + (h - 1 - row_of(i, w))
}

/// Column and row of a cell lie inside the grid, and give the cell back.
pub proof fn lemma_cell_coords(i: int, w: int, h: int)
    requires
        w >= 1,
        h >= 1,
        0 <= i < w * h,
    ensures
        0 <= col_of(i, w) < w,
        0 <= row_of(i, w) < h,
        cell_at(col_of(i, w), row_of(i, w), w) == i,
        corner_distance(i, w, h) >= 0,
{
    lemma_fundamental_div_mod(i, w);
    lemma_mod_pos_bound(i, w);
    let x = i % w;
    let y = i / w;
    assert(y * w == w * y) by (nonlinear_arith);
    assert(y >= 0) by (nonlinear_arith)
        requires
            i == w * y + x,
            0 <= x < w,
            0 <= i,
    ;
    assert(y < h) by (nonlinear_arith)
        requires
            i == w * y + x,
            0 <= x,
            i < w * h,
            w >= 1,
    ;
}

/// The cell at column `x` and row `y` lies inside the grid and has these
/// coordinates.
pub proof fn lemma_cell_at(x: int, y: int, w: int, h: int)
    requires
        0 <= x < w,
        0 <= y < h,
    ensures
        0 <= cell_at(x, y, w) < w * h,
        col_of(cell_at(x, y, w), w) == x,
        row_of(cell_at(x, y, w), w) == y,
{
    lemma_fundamental_div_mod_converse(cell_at(x, y, w), w, y, x);
    assert(0 <= y * w + x < w * h) by (nonlinear_arith)
        requires
            0 <= x < w,
            0 <= y < h,
    ;
}

/// Only the last cell is at the corner, and the one before it is one step
/// away.
pub proof fn lemma_corner_cells(i: int, w: int, h: int)
    requires
        w >= 2,
        h >= 1,
        0 <= i < w * h,
    ensures
        corner_distance(i, w, h) == 0 <==> i == w * h - 1,
        i == w * h - 2 ==> corner_distance(i, w, h) == 1,
{
    lemma_cell_coords(i, w, h);
    lemma_cell_at(w - 1, h - 1, w, h);
    lemma_cell_at(w - 2, h - 1, w, h);
    assert((h - 1) * w + (w - 1) == w * h - 1) by (nonlinear_arith);
    assert((h - 1) * w + (w - 2) == w * h - 2) by (nonlinear_arith);
}

/// A grid of `n` cells and width `w` has `n / w` whole rows.
pub proof fn lemma_rows(n: int, w: int)
    requires
        w >= 1,
        n >= 0,
        n % w == 0,
    ensures
        n == w * (n / w),
        n / w >= 0,
{
    lemma_fundamental_div_mod(n, w);
    lemma_div_pos_is_pos(n, w);
}

} // verus!
