//! Row-major index arithmetic.

use vstd::prelude::*;

verus! {

/// A row-major index lies inside the grid, and division takes it apart again.
pub proof fn lemma_row_major(y: int, x: int, w: int, h: int)
    requires
        0 <= x < w,
        0 <= y < h,
    ensures
        0 <= y * w <= y * w + x < w * h,
        (y + 1) * w == y * w + w,
        y * w + w <= w * h,
        (y * w + x) / w == y,
        (y * w + x) % w == x,
{
    assert((y + 1) * w == y * w + w) by (nonlinear_arith);
    assert(0 <= y * w) by (nonlinear_arith)
        requires
            0 <= y,
            0 < w,
    ;
    assert((y + 1) * w <= h * w) by (nonlinear_arith)
        requires
            y + 1 <= h,
            0 < w,
    ;
    assert(h * w == w * h) by (nonlinear_arith);
    vstd::arithmetic::div_mod::lemma_fundamental_div_mod_converse(y * w + x, w, y, x);
}

/// Taking an index apart gives a row and a column inside the grid.
pub proof fn lemma_split(i: int, w: int, h: int)
    requires
        0 <= i < w * h,
        0 < w,
    ensures
        0 <= i / w < h,
        0 <= i % w < w,
        i == (i / w) * w + i % w,
{
    vstd::arithmetic::div_mod::lemma_fundamental_div_mod(i, w);
    assert(w * (i / w) == (i / w) * w) by (nonlinear_arith);
    assert(0 <= i / w) by (nonlinear_arith)
        requires
            0 <= i,
            0 < w,
    ;
    assert(i / w < h) by (nonlinear_arith)
        requires
            i < w * h,
            0 < w,
            i == w * (i / w) + i % w,
            0 <= i % w,
    ;
}

} // verus!
