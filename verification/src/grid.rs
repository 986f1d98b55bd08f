//! Row-major addressing of a rectangular pixel grid.

use vstd::prelude::*;

verus! {

/// The position of cell `(x, y)` in a row-major grid of the given width.
pub open spec fn xy_spec(width: int, x: int, y: int) -> int {
    y * width + x
}

/// Row-major index of the cell in column `x` of row `y`.
pub fn xy(width: usize, x: usize, y: usize) -> (index: usize)
    requires
        xy_spec(width as int, x as int, y as int) <= usize::MAX,
    ensures
        index == xy_spec(width as int, x as int, y as int),
{
    assert(y * width >= 0) by (nonlinear_arith)
        requires
            y >= 0,
            width >= 0,
    ;
    y * width + x
}

} // verus!
