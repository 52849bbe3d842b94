//! Geometry of a square grid stored row-major: cell `i` of a grid of side
//! `size` sits at column `i % size` and row `i / size`.

use vstd::prelude::*;
use vstd::arithmetic::div_mod::{lemma_fundamental_div_mod, lemma_fundamental_div_mod_converse};

verus! {

pub open spec fn col(size: int, i: int) -> int {
    i % size
}

pub open spec fn row(size: int, i: int) -> int {
    i / size
}

/// Cells `i` and `j` differ by at most one in each axis (a cell is near itself).
pub open spec fn near(size: int, i: int, j: int) -> bool {
    &&& -1 <= col(size, j) - col(size, i) <= 1
    &&& -1 <= row(size, j) - row(size, i) <= 1
}

/// The place of the step from `i` to `j` in the fixed neighbour order
/// (+1,+1), (+1,0), (+1,-1), (0,+1), (0,0), (0,-1), (-1,+1), (-1,0), (-1,-1),
/// written as (column step, row step).
pub open spec fn step_rank(size: int, i: int, j: int) -> int {
    3 * (1 - (col(size, j) - col(size, i))) + (1 - (row(size, j) - row(size, i)))
}

/// The cell at column `x` and row `y` has index `x + y * size`, and back.
pub proof fn lemma_cell_coords(size: int, x: int, y: int)
    requires
        size > 0,
        0 <= x < size,
        0 <= y,
    ensures
        col(size, x + y * size) == x,
        row(size, x + y * size) == y,
        0 <= x + y * size,
        y < size ==> x + y * size < size * size,
{
    lemma_fundamental_div_mod_converse(x + y * size, size, y, x);
    assert(0 <= y * size) by (nonlinear_arith)
        requires
            0 <= y,
            size > 0,
    ;
    if y < size {
        assert(x + y * size < size * size) by (nonlinear_arith)
            requires
                0 <= x < size,
                0 <= y < size,
        ;
    }
}

/// Every cell of the grid has its column and row inside the grid.
pub proof fn lemma_cell_in_grid(size: int, i: int)
    requires
        size > 0,
        0 <= i < size * size,
    ensures
        0 <= col(size, i) < size,
        0 <= row(size, i) < size,
        i == col(size, i) + row(size, i) * size,
{
    lemma_fundamental_div_mod(i, size);
    assert(0 <= i / size < size) by {
        vstd::arithmetic::div_mod::lemma_div_pos_is_pos(i, size);
        vstd::arithmetic::div_mod::lemma_div_by_multiple_is_strongly_ordered(i, size * size, size, size);
        vstd::arithmetic::div_mod::lemma_div_multiples_vanish(size, size);
    }
    vstd::arithmetic::div_mod::lemma_mod_pos_bound(i, size);
    assert(size * (i / size) == (i / size) * size) by (nonlinear_arith);
}

} // verus!
