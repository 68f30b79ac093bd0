//! Facts of integer arithmetic that the lattices rest on.

use vstd::prelude::*;
use vstd::arithmetic::div_mod::{lemma_fundamental_div_mod, lemma_fundamental_div_mod_converse};

verus! {

/// Cells of a grid that are numbered row by row have numbers below the
/// number of cells.
pub proof fn lemma_grid_number_in_range(column: int, row: int, columns: int, rows: int)
    requires
        0 <= column < columns,
        0 <= row < rows,
    ensures
        0 <= column + row * columns < columns * rows,
{
    assert(0 <= row * columns <= (rows - 1) * columns) by (nonlinear_arith)
        requires
            0 <= row <= rows - 1,
            0 <= columns,
    ;
    assert((rows - 1) * columns == columns * rows - columns) by (nonlinear_arith);
}

/// Two cells of a grid with the same number are the same cell.
pub proof fn lemma_grid_number_injective(a: int, b: int, c: int, d: int, columns: int)
    requires
        0 <= a < columns,
        0 <= c < columns,
        a + b * columns == c + d * columns,
    ensures
        a == c,
        b == d,
{
    assert((b - d) * columns == b * columns - d * columns) by (nonlinear_arith);
    assert(b == d) by (nonlinear_arith)
        requires
            (b - d) * columns == c - a,
            -columns < c - a < columns,
    ;
}

/// `x / d` is the one `q` for which `x` lies in `[q * d, q * d + d)`.
pub proof fn lemma_quotient_is(x: int, d: int, q: int)
    requires
        d > 0,
    ensures
        (q * d <= x < q * d + d) <==> x / d == q,
{
    lemma_fundamental_div_mod(x, d);
    assert(d * (x / d) == (x / d) * d) by (nonlinear_arith);
    if q * d <= x < q * d + d {
        lemma_fundamental_div_mod_converse(x, d, q, x - q * d);
    }
}

} // verus!
