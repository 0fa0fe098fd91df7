//! Row-major indexing of rectangular buffers.

use vstd::prelude::*;
use vstd::arithmetic::div_mod::{
    lemma_fundamental_div_mod, lemma_fundamental_div_mod_converse_div,
    lemma_fundamental_div_mod_converse_mod,
};

verus! {

/// `i` clamped into `[0, n)`: the edge rule of every filter here.
pub open spec fn clamp_index(i: int, n: int) -> int {
    if i < 0 {
        0
    } else if i >= n {
        n - 1
    } else {
        i
    }
}

/// The cell `(y, x)` of a `w`-wide row-major buffer sits at `y * w + x`,
/// and that index gives the row and column back.
pub proof fn lemma_row_major(y: int, x: int, w: int)
    requires
        0 <= y,
        0 <= x < w,
    ensures
        (y * w + x) % w == x,
        (y * w + x) / w == y,
{
    lemma_fundamental_div_mod_converse_mod(y * w + x, w, y, x);
    lemma_fundamental_div_mod_converse_div(y * w + x, w, y, x);
}

/// Inside a `w` by `h` buffer, row `y` ends no later than the buffer does.
pub proof fn lemma_row_in_area(y: int, w: int, h: int)
    by (nonlinear_arith)
    requires
        0 <= y < h,
        0 <= w,
    ensures
        0 <= y * w,
        y * w + w <= w * h,
{
}

/// Every index of a `w` by `h` buffer names a cell inside it, and its row
/// and column give the index back.
pub proof fn lemma_index_in_area(i: int, w: int, h: int)
    requires
        0 <= i < w * h,
        0 < w,
    ensures
        0 <= i / w < h,
        0 <= i % w < w,
        i == (i / w) * w + i % w,
{
    lemma_fundamental_div_mod(i, w);
    assert(w * (i / w) == (i / w) * w) by (nonlinear_arith);
    if i / w >= h {
        assert((i / w) * w >= h * w) by (nonlinear_arith)
            requires
                i / w >= h,
                w > 0,
        ;
        assert(h * w == w * h) by (nonlinear_arith);
    }
    if i / w < 0 {
        assert((i / w) * w < 0) by (nonlinear_arith)
            requires
                i / w < 0,
                w > 0,
        ;
    }
}

} // verus!
