use vstd::prelude::*;

verus! {

/// Row-major position of the cell in column `gx` and row `gy` of a grid that
/// is `cols` cells wide.
pub open spec fn cell_index(cols: int, gx: int, gy: int) -> int {
    gy * cols + gx
}

/// The column of the cell at index `i` of a grid `cols` cells wide.
#[verifier::opaque]
pub open spec fn col_of(cols: int, i: int) -> int {
    i % cols
}

/// The row of the cell at index `i` of a grid `cols` cells wide.
#[verifier::opaque]
pub open spec fn row_of(cols: int, i: int) -> int {
    i / cols
}

/// A cell inside a `cols` by `rows` grid has an index below `cols * rows`, and
/// its column and row are read back from that index.
pub proof fn lemma_cell_index(cols: int, rows: int, gx: int, gy: int)
    requires
        0 <= gx < cols,
        0 <= gy < rows,
    ensures
        0 <= cell_index(cols, gx, gy) < cols * rows,
        row_of(cols, cell_index(cols, gx, gy)) == gy,
        col_of(cols, cell_index(cols, gx, gy)) == gx,
{
    reveal(row_of);
    reveal(col_of);
    assert(0 <= gy * cols + gx < cols * rows) by (nonlinear_arith)
        requires
            0 <= gx < cols,
            0 <= gy < rows,
    ;
    vstd::arithmetic::div_mod::lemma_fundamental_div_mod_converse(gy * cols + gx, cols, gy, gx);
}

/// Every index below `cols * rows` is the index of the cell in its own
/// column and row, both inside the grid.
pub proof fn lemma_index_cell(cols: int, rows: int, i: int)
    requires
        0 <= i < cols * rows,
        cols > 0,
    ensures
        0 <= col_of(cols, i) < cols,
        0 <= row_of(cols, i) < rows,
        i == cell_index(cols, col_of(cols, i), row_of(cols, i)),
{
    reveal(row_of);
    reveal(col_of);
    vstd::arithmetic::div_mod::lemma_fundamental_div_mod(i, cols);
    vstd::arithmetic::div_mod::lemma_mod_bound(i, cols);
    vstd::arithmetic::div_mod::lemma_div_pos_is_pos(i, cols);
    let q = i / cols;
    let r = i % cols;
    assert(q < rows) by (nonlinear_arith)
        requires
            i == cols * q + r,
            0 <= r,
            i < cols * rows,
            cols > 0,
    ;
    vstd::arithmetic::mul::lemma_mul_is_commutative(cols, q);
}

/// The index of the cell in column `gx`, row `gy` of a `cols` by `rows`
/// grid held in a buffer of `len` cells.
pub fn cell_at(cols: usize, rows: usize, gx: usize, gy: usize, len: usize) -> (i: usize)
    requires
        gx < cols,
        gy < rows,
        cols * rows <= len,
    ensures
        i == cell_index(cols as int, gx as int, gy as int),
        i == gy * cols + gx,
        i < cols * rows,
        row_of(cols as int, i as int) == gy,
        col_of(cols as int, i as int) == gx,
{
    proof {
        lemma_cell_index(cols as int, rows as int, gx as int, gy as int);
    }
    gy * cols + gx
}

/// Two cells of a grid with the same column and row have the same index.
pub proof fn lemma_index_unique(cols: int, rows: int, i: int, j: int)
    requires
        0 <= i < cols * rows,
        0 <= j < cols * rows,
        cols > 0,
        col_of(cols, i) == col_of(cols, j),
        row_of(cols, i) == row_of(cols, j),
    ensures
        i == j,
{
    lemma_index_cell(cols, rows, i);
    lemma_index_cell(cols, rows, j);
}

} // verus!
