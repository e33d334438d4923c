//! Row-major grid arithmetic shared by the raster algorithms.

use vstd::prelude::*;

verus! {

/// Pixel `(x, y)` at index `y * w + x`, read back by division.
pub proof fn lemma_coords(w: int, h: int, x: int, y: int)
    requires
        0 <= x < w,
        0 <= y < h,
    ensures
        0 <= y * w + x < w * h,
        (y * w + x) % w == x,
        (y * w + x) / w == y,
{
    assert(y * w + w <= w * h) by (nonlinear_arith)
        requires
            y + 1 <= h,
            w >= 0,
    ;
    assert(y * w >= 0) by (nonlinear_arith)
        requires
            y >= 0,
            w >= 0,
    ;
    vstd::arithmetic::div_mod::lemma_fundamental_div_mod_converse(y * w + x, w, y, x);
}

/// Index `p` of a `w` x `h` grid decomposed into its column and row.
pub proof fn lemma_index(w: int, h: int, p: int)
    requires
        w >= 0,
        h >= 0,
        0 <= p < w * h,
    ensures
        w > 0,
        p == (p / w) * w + p % w,
        0 <= p % w < w,
        0 <= p / w < h,
{
    if w <= 0 {
        assert(w * h <= 0) by (nonlinear_arith)
            requires
                w <= 0,
                h >= 0,
                p >= 0,
                p < w * h,
        ;
        assert(false);
    }
    vstd::arithmetic::div_mod::lemma_fundamental_div_mod(p, w);
    assert(w * (p / w) == (p / w) * w) by (nonlinear_arith);
    if p / w >= h {
        assert((p / w) * w >= h * w) by (nonlinear_arith)
            requires
                p / w >= h,
                w > 0,
        ;
        assert(h * w == w * h) by (nonlinear_arith);
    }
    if p / w < 0 {
        assert((p / w) * w <= -w) by (nonlinear_arith)
            requires
                p / w < 0,
                w > 0,
        ;
    }
}

} // verus!
