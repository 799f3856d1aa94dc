//! The hexagonal adjacency of a rhombus-shaped `size x size` Hex board.
//!
//! Cells carry dense indices in row-major order: cell `c` lies at row
//! `c / size`, column `c % size`.  A hex grid skewed into a rhombus gives
//! each cell up to six neighbors, at the row/column offsets
//! `(0, -1)`, `(0, 1)`, `(-1, 0)`, `(-1, 1)`, `(1, -1)` and `(1, 0)` —
//! note the asymmetric `col + 1` on the row above and `col - 1` on the row
//! below, which is what distinguishes hex adjacency from a plain square
//! neighborhood.

use vstd::arithmetic::div_mod::lemma_fundamental_div_mod;
use vstd::arithmetic::div_mod::lemma_fundamental_div_mod_converse_div;
use vstd::arithmetic::div_mod::lemma_fundamental_div_mod_converse_mod;
use vstd::prelude::*;

verus! {

/// The row of cell `c` on a board with `size` columns.
pub open spec fn row_of(size: int, c: int) -> int {
    c / size
}

/// The column of cell `c` on a board with `size` columns.
pub open spec fn col_of(size: int, c: int) -> int {
    c % size
}

/// Whether distinct cells `a` and `b` are grid-neighbors on a
/// `size x size` Hex board (virtual edge nodes are not part of this
/// relation).
pub open spec fn grid_adjacent(size: int, a: int, b: int) -> bool {
    &&& 0 <= a < size * size
    &&& 0 <= b < size * size
    &&& ({
        let dr = row_of(size, b) - row_of(size, a);
        let dc = col_of(size, b) - col_of(size, a);
        ||| (dr == 0 && (dc == 1 || dc == -1))
        ||| (dr == -1 && (dc == 0 || dc == 1))
        ||| (dr == 1 && (dc == 0 || dc == -1))
    })
}

/// Every cell index decomposes into its row and column, both in range.
pub proof fn lemma_cell_coords(size: int, c: int)
    requires
        size >= 1,
        0 <= c < size * size,
    ensures
        c == row_of(size, c) * size + col_of(size, c),
        0 <= col_of(size, c) < size,
        0 <= row_of(size, c) < size,
{
    lemma_fundamental_div_mod(c, size);
    assert(c == size * (c / size) + c % size);
    assert(size * (c / size) == (c / size) * size) by (nonlinear_arith);
    assert(0 <= c % size < size) by (nonlinear_arith)
        requires
            size >= 1,
    ;
    assert(c / size >= 0) by {
        if c / size < 0 {
            assert((c / size) * size <= -size) by (nonlinear_arith)
                requires
                    size >= 1 && c / size <= -1,
            ;
        }
    }
    assert(c / size < size) by {
        if c / size >= size {
            assert((c / size) * size >= size * size) by (nonlinear_arith)
                requires
                    size >= 1 && c / size >= size,
            ;
        }
    }
}

/// Conversely, a row and column in range name the cell
/// `row * size + col`, and the decomposition returns exactly them.
pub proof fn lemma_coords_cell(size: int, row: int, col: int)
    requires
        size >= 1,
        0 <= row < size,
        0 <= col < size,
    ensures
        0 <= row * size + col < size * size,
        row_of(size, row * size + col) == row,
        col_of(size, row * size + col) == col,
{
    let c = row * size + col;
    assert(0 <= c < size * size) by (nonlinear_arith)
        requires
            size >= 1 && 0 <= row < size && 0 <= col < size && c == row * size + col,
    ;
    lemma_fundamental_div_mod_converse_div(c, size, row, col);
    lemma_fundamental_div_mod_converse_mod(c, size, row, col);
}

/// Grid adjacency is symmetric: whenever `b` is a grid-neighbor of `a`,
/// `a` is a grid-neighbor of `b`.  (The virtual edge nodes a move is
/// additionally joined with are deliberately not symmetric and are not
/// part of this relation.)
pub proof fn lemma_grid_adjacent_symmetric(size: int, a: int, b: int)
    ensures
        grid_adjacent(size, a, b) <==> grid_adjacent(size, b, a),
{
}

} // verus!
