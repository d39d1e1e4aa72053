use vstd::prelude::*;
use vstd::arithmetic::div_mod::lemma_fundamental_div_mod_converse;

verus! {

/// Largest number of rows or columns a grid may have.  The bound keeps every
/// cell index inside `usize` and every cost computation inside `u64`.
pub const MAX_DIM: usize = 65535;

/// Number of cells of a `rows` by `cols` grid.
pub open spec fn cell_count(rows: int, cols: int) -> int {
    rows * cols
}

/// Index of the cell at row `r`, column `c`, in row-major order.
pub open spec fn cell_index(cols: int, r: int, c: int) -> int {
    r * cols + c
}

/// Row of the cell with index `i`.
pub open spec fn row_of(cols: int, i: int) -> int {
    i / cols
}

/// Column of the cell with index `i`.
pub open spec fn col_of(cols: int, i: int) -> int {
    i % cols
}

/// Whether `(r, c)` lies on a `rows` by `cols` grid.
pub open spec fn in_grid(rows: int, cols: int, r: int, c: int) -> bool {
    0 <= r < rows && 0 <= c < cols
}

/// Whether `(r2, c2)` is one king-move away from `(r1, c1)`; with `diag`
/// false only the four axis-aligned moves count.
pub open spec fn is_adjacent(r1: int, c1: int, r2: int, c2: int, diag: bool) -> bool {
    let dr = abs1(r1 - r2);
    let dc = abs1(c1 - c2);
    dr <= 1 && dc <= 1 && dr + dc >= 1 && (diag || dr + dc == 1)
}

/// Absolute value of an integer.
pub open spec fn abs1(x: int) -> int {
    if x >= 0 {
        x
    } else {
        -x
    }
}

/// Row-major indexing decomposes: the row and column of `cell_index(cols, r, c)`
/// are `r` and `c` again.
pub broadcast proof fn lemma_cell_index_decompose(cols: int, r: int, c: int)
    requires
        0 <= c < cols,
        0 <= r,
    ensures
        row_of(cols, #[trigger] cell_index(cols, r, c)) == r,
        col_of(cols, cell_index(cols, r, c)) == c,
{
    lemma_fundamental_div_mod_converse(r * cols + c, cols, r, c);
}

/// Row-major indexing is injective over the cells of one grid.
pub broadcast proof fn lemma_cell_index_injective(cols: int, r1: int, c1: int, r2: int, c2: int)
    requires
        0 <= c1 < cols,
        0 <= c2 < cols,
        0 <= r1,
        0 <= r2,
    ensures
        (#[trigger] cell_index(cols, r1, c1) == #[trigger] cell_index(cols, r2, c2)) <==> (r1
            == r2 && c1 == c2),
{
    lemma_cell_index_decompose(cols, r1, c1);
    lemma_cell_index_decompose(cols, r2, c2);
}

/// Every in-grid pair indexes a cell below `cell_count`.
pub broadcast proof fn lemma_cell_index_bounds(rows: int, cols: int, r: int, c: int)
    requires
        in_grid(rows, cols, r, c),
    ensures
        0 <= #[trigger] cell_index(cols, r, c) < #[trigger] cell_count(rows, cols),
{
    assert(r * cols + c < rows * cols) by (nonlinear_arith)
        requires
            0 <= r < rows,
            0 <= c < cols,
    ;
    assert(0 <= r * cols) by (nonlinear_arith)
        requires
            0 <= r,
            0 <= cols,
    ;
}

/// Every index below `cell_count` decomposes into an in-grid pair.
pub broadcast proof fn lemma_cell_of_index(rows: int, cols: int, i: int)
    requires
        0 < cols,
        0 <= i < #[trigger] cell_count(rows, cols),
    ensures
        in_grid(rows, cols, #[trigger] row_of(cols, i), col_of(cols, i)),
        cell_index(cols, row_of(cols, i), col_of(cols, i)) == i,
{
    vstd::arithmetic::div_mod::lemma_fundamental_div_mod(i, cols);
    vstd::arithmetic::div_mod::lemma_mod_bound(i, cols);
    vstd::arithmetic::div_mod::lemma_div_pos_is_pos(i, cols);
    if row_of(cols, i) >= rows {
        assert(row_of(cols, i) * cols >= rows * cols) by (nonlinear_arith)
            requires
                row_of(cols, i) >= rows,
                cols > 0,
        ;
    }
}

/// The indexing facts that the grid, search and engine modules lean on.
pub broadcast group group_geom {
    lemma_cell_index_decompose,
    lemma_cell_index_injective,
    lemma_cell_index_bounds,
    lemma_cell_of_index,
}

} // verus!
