//! Rectangular grids stored row by row.

use vstd::arithmetic::div_mod::{lemma_fundamental_div_mod_converse, lemma_small_mod};
use vstd::prelude::*;

verus! {

/// The place of column `x` of row `r` in a grid of rows of `width` cells.
pub open spec fn cell(width: int, x: int, r: int) -> int {
    r * width + x
}

/// Every cell of a grid has a place of its own, from which its column and its
/// row can be told.
pub proof fn law_cells_are_apart(width: int, depth: int, x: int, r: int)
    requires
        0 <= x < width,
        0 <= r < depth,
    ensures
        0 <= cell(width, x, r) < depth * width,
        cell(width, x, r) % width == x,
        cell(width, x, r) / width == r,
{
    assert(0 <= r * width && r * width + width <= depth * width) by (nonlinear_arith)
        requires
            0 <= x < width,
            0 <= r < depth,
    ;
    lemma_fundamental_div_mod_converse(r * width + x, width, r, x);
}

/// The remainder of a number below twice the divisor.
pub(crate) proof fn wraps_once(a: int, d: int)
    requires
        0 <= a < 2 * d,
    ensures
        a % d == if a < d {
            a
        } else {
            a - d
        },
{
    if a < d {
        lemma_small_mod(a as nat, d as nat);
    } else {
        lemma_fundamental_div_mod_converse(a, d, 1, a - d);
    }
}

/// The place of a cell.
pub(crate) fn cell_at(width: usize, depth: usize, x: usize, r: usize) -> (i: usize)
    requires
        x < width,
        r < depth,
        depth * width <= usize::MAX,
    ensures
        i == cell(width as int, x as int, r as int),
        i < depth * width,
{
    proof {
        law_cells_are_apart(width as int, depth as int, x as int, r as int);
        assert(0 <= r * width <= depth * width) by (nonlinear_arith)
            requires
                0 <= r < depth,
                0 <= width,
        ;
    }
    r * width + x
}

} // verus!
