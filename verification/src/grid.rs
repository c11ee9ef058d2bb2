//! The 81-cell grid, its coordinates and its three kinds of scope.

use vstd::prelude::*;

verus! {

/// Number of cells in a grid.
pub const CELLS: usize = 81;

/// Row of the cell with flat index `i`.
pub open spec fn row_of(i: int) -> int {
    i / 9
}

/// Column of the cell with flat index `i`.
pub open spec fn col_of(i: int) -> int {
    i % 9
}

/// Block id of the cell at row `r`, column `c`.
pub open spec fn block_at(r: int, c: int) -> int {
    (r / 3) * 3 + c / 3
}

/// Block id of the cell with flat index `i`.
pub open spec fn block_of(i: int) -> int {
    block_at(row_of(i), col_of(i))
}

/// Two cells share a scope: same row, same column or same block.
pub open spec fn same_scope(i: int, j: int) -> bool {
    row_of(i) == row_of(j) || col_of(i) == col_of(j) || block_of(i) == block_of(j)
}

/// `j` is a peer of `i`: a different cell of the grid sharing a scope with it.
pub open spec fn peers(i: int, j: int) -> bool {
    0 <= i < 81 && 0 <= j < 81 && i != j && same_scope(i, j)
}

/// Splits a flat index into `(row, column)`.
pub fn coords_from_ind(ind: usize) -> (rc: (usize, usize))
    ensures
        rc.0 == row_of(ind as int),
        rc.1 == col_of(ind as int),
        rc.0 * 9 + rc.1 == ind,
        rc.1 < 9,
        ind < 81 ==> rc.0 < 9,
{
    let j: usize = ind % 9;
    let i: usize = (ind - j) / 9;
    (i, j)
}

/// Block id `(i / 3) * 3 + j / 3` of the cell at row `i`, column `j`.
pub fn block_num_from_coords(i: usize, j: usize) -> (z: usize)
    requires
        i < 9,
        j < 9,
    ensures
        z == block_at(i as int, j as int),
        z < 9,
{
    (i / 3) * 3 + j / 3
}

} // verus!
