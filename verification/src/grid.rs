//! Positions in a grid stored row by row.

use vstd::arithmetic::div_mod::lemma_fundamental_div_mod_converse;
use vstd::prelude::*;

verus! {

/// The place of column `c` of row `r` in a grid `w` wide.
pub proof fn lemma_place(w: int, h: int, r: int, c: int)
    requires
        0 <= r < h,
        0 <= c < w,
    ensures
        0 <= r * w,
        0 <= r * w + c < w * h,
        r * w + w <= w * h,
        (r * w + c) / w == r,
        (r * w + c) % w == c,
{
    assert(0 <= r * w) by (nonlinear_arith)
        requires
            r >= 0,
            w > 0,
    ;
    assert(r * w + w <= w * h) by (nonlinear_arith)
        requires
            r + 1 <= h,
            w > 0,
    ;
    lemma_fundamental_div_mod_converse(r * w + c, w, r, c);
}

/// A position in a grid has a row and a column.
pub proof fn lemma_row_and_column(w: int, h: int, k: int)
    requires
        0 <= k < w * h,
        w >= 0,
    ensures
        0 <= k / w < h,
        0 <= k % w < w,
        k == (k / w) * w + k % w,
{
    assert(w > 0) by (nonlinear_arith)
        requires
            0 < w * h,
            w >= 0,
    ;
    vstd::arithmetic::div_mod::lemma_fundamental_div_mod(k, w);
    vstd::arithmetic::mul::lemma_mul_is_commutative(w, k / w);
    let q = k / w;
    assert(0 <= q < h) by (nonlinear_arith)
        requires
            k == q * w + k % w,
            0 <= k % w < w,
            0 <= k < w * h,
            w > 0,
    ;
}

} // verus!
