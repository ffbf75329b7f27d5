//! Row-major addressing.

use vstd::arithmetic::div_mod::lemma_fundamental_div_mod_converse;
use vstd::prelude::*;

verus! {

/// The first `used` entries of each of `rows` rows, `cols` apart, lie within `len` entries.
pub open spec fn rows_fit(len: int, rows: int, cols: int, used: int) -> bool {
    rows == 0 || used == 0 || (rows - 1) * cols + used <= len
}

/// The part of length `width` that starts at column `start` of row `row`.
pub open spec fn cells<T>(s: Seq<T>, cols: int, row: int, start: int, width: int) -> Seq<T> {
    s.subrange(row * cols + start, row * cols + start + width)
}

/// Row and column are found again from the flat index.
pub proof fn lemma_flat(row: int, col: int, cols: int)
    requires
        0 <= row,
        0 <= col < cols,
    ensures
        (row * cols + col) / cols == row,
        (row * cols + col) % cols == col,
        0 <= row * cols + col,
{
    lemma_fundamental_div_mod_converse(row * cols + col, cols, row, col);
    assert(row * cols >= 0) by (nonlinear_arith)
        requires
            row >= 0,
            cols > 0,
    ;
}

/// An entry of a row lies within the table.
pub proof fn lemma_cell(row: int, rows: int, cols: int)
    requires
        0 <= row < rows,
        0 <= cols,
    ensures
        0 <= row * cols,
        row * cols + cols <= rows * cols,
        (row + 1) * cols == row * cols + cols,
{
    assert(row * cols >= 0 && row * cols + cols <= rows * cols && (row + 1) * cols == row * cols
        + cols) by (nonlinear_arith)
        requires
            0 <= row < rows,
            0 <= cols,
    ;
}

/// What a row uses lies within the data.
pub proof fn lemma_row_fits(len: int, row: int, rows: int, cols: int, used: int)
    requires
        rows_fit(len, rows, cols, used),
        0 <= row < rows,
        0 <= cols,
        0 < used,
    ensures
        0 <= row * cols,
        row * cols + used <= len,
{
    assert(0 <= row * cols <= (rows - 1) * cols) by (nonlinear_arith)
        requires
            0 <= row < rows,
            0 <= cols,
    ;
}

} // verus!
