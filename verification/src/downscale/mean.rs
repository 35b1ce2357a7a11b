//! What the downsamplers compute: interpolated pixels and block means.

use vstd::prelude::*;

use crate::downscale::{
    blend, block_sum4, downscaled_4x4, downscaled_65, hpassed, size_65, weight1, weight2,
};
use crate::grid::lemma_row_major;

verus! {

/// A blend lies on the line between its samples, `k + 1` sixths of the way from the first to the second,
/// up to a gray level and two thirds.
proof fn lemma_blend_is_between(k: int, a: u8, b: u8)
    requires
        0 <= k < 5,
    ensures
        -10 <= 6 * blend(k, a, b) - ((5 - k) * a + (k + 1) * b) <= 10,
{
    let w1 = weight1(k);
    let w2 = weight2(k);
    let wa = w1 * a;
    let wb = w2 * b;
    let ka = (5 - k) * a;
    let kb = (k + 1) * b;
    if k == 0 {
        assert(wa == 107 * a && wb == 21 * b && ka == 5 * a && kb == 1 * b) by (nonlinear_arith)
            requires
                k == 0,
                w1 == 107,
                w2 == 21,
                wa == w1 * a,
                wb == w2 * b,
                ka == (5 - k) * a,
                kb == (k + 1) * b,
        ;
    } else if k == 1 {
        assert(wa == 85 * a && wb == 43 * b && ka == 4 * a && kb == 2 * b) by (nonlinear_arith)
            requires
                k == 1,
                w1 == 85,
                w2 == 43,
                wa == w1 * a,
                wb == w2 * b,
                ka == (5 - k) * a,
                kb == (k + 1) * b,
        ;
    } else if k == 2 {
        assert(wa == 64 * a && wb == 64 * b && ka == 3 * a && kb == 3 * b) by (nonlinear_arith)
            requires
                k == 2,
                w1 == 64,
                w2 == 64,
                wa == w1 * a,
                wb == w2 * b,
                ka == (5 - k) * a,
                kb == (k + 1) * b,
        ;
    } else if k == 3 {
        assert(wa == 43 * a && wb == 85 * b && ka == 2 * a && kb == 4 * b) by (nonlinear_arith)
            requires
                k == 3,
                w1 == 43,
                w2 == 85,
                wa == w1 * a,
                wb == w2 * b,
                ka == (5 - k) * a,
                kb == (k + 1) * b,
        ;
    } else {
        assert(wa == 21 * a && wb == 107 * b && ka == 1 * a && kb == 5 * b) by (nonlinear_arith)
            requires
                k == 4,
                w1 == 21,
                w2 == 107,
                wa == w1 * a,
                wb == w2 * b,
                ka == (5 - k) * a,
                kb == (k + 1) * b,
        ;
    }
    assert(0 <= wa + wb <= 128 * 255);
}

/// Every pixel of the 6:5 downsample is interpolated between four neighbours: pixel `(5 g + m, 5 f + k)`
/// lies `m + 1` sixths of the way from row `6 g + m` to the next one, and `k + 1` sixths of the way from
/// column `6 f + k` to the next one. It is off by at most ten thirds of a gray level.
pub proof fn downscale_interpolates(
    src: Seq<u8>,
    sw: int,
    sh: int,
    g: int,
    m: int,
    f: int,
    k: int,
)
    requires
        0 <= m < 5,
        0 <= k < 5,
        0 <= g < sh / 6,
        0 <= f < sw / 6,
        sw * sh <= src.len(),
    ensures
        ({
            let out = downscaled_65(src, sw, sh)[(5 * g + m) * size_65(sw) + 5 * f + k] as int;
            let top = (6 * g + m) * sw + 6 * f + k;
            let bottom = (6 * g + m + 1) * sw + 6 * f + k;
            let exact = (5 - m) * ((5 - k) * src[top] + (k + 1) * src[top + 1]) + (m + 1) * ((5 - k)
                * src[bottom] + (k + 1) * src[bottom + 1]);
            -120 <= 36 * out - exact <= 120
        }),
{
    let dw = size_65(sw);
    let dh = size_65(sh);
    let y = 5 * g + m;
    let x = 5 * f + k;
    let htmp = hpassed(src, sw, sh);
    lemma_row_major(y, x, dw, dh);
    let i = y * dw + x;
    vstd::arithmetic::div_mod::lemma_fundamental_div_mod_converse(i, dw, y, x);
    assert(y / 5 == g && y % 5 == m && x / 5 == f && x % 5 == k);
    let r = 6 * g + m;
    lemma_row_major(r, x, dw, sh);
    lemma_row_major(r + 1, x, dw, sh);
    vstd::arithmetic::div_mod::lemma_fundamental_div_mod_converse(r * dw + x, dw, r, x);
    vstd::arithmetic::div_mod::lemma_fundamental_div_mod_converse((r + 1) * dw + x, dw, r + 1, x);
    let top = r * sw + 6 * f + k;
    let bottom = (r + 1) * sw + 6 * f + k;
    let t0 = htmp[r * dw + x];
    let t1 = htmp[(r + 1) * dw + x];
    assert(t0 == blend(k, src[top], src[top + 1]));
    assert(t1 == blend(k, src[bottom], src[bottom + 1]));
    lemma_blend_is_between(k, src[top], src[top + 1]);
    lemma_blend_is_between(k, src[bottom], src[bottom + 1]);
    lemma_blend_is_between(m, t0, t1);
    let e0 = (5 - k) * src[top] + (k + 1) * src[top + 1];
    let e1 = (5 - k) * src[bottom] + (k + 1) * src[bottom + 1];
    let d0 = 6 * t0 - e0;
    let d1 = 6 * t1 - e1;
    assert(-10 * (5 - m) <= (5 - m) * d0 <= 10 * (5 - m)) by (nonlinear_arith)
        requires
            -10 <= d0 <= 10,
            0 <= m < 5,
    ;
    assert(-10 * (m + 1) <= (m + 1) * d1 <= 10 * (m + 1)) by (nonlinear_arith)
        requires
            -10 <= d1 <= 10,
            0 <= m < 5,
    ;
    assert((5 - m) * d0 == 6 * ((5 - m) * t0) - (5 - m) * e0) by (nonlinear_arith)
        requires
            d0 == 6 * t0 - e0,
    ;
    assert((m + 1) * d1 == 6 * ((m + 1) * t1) - (m + 1) * e1) by (nonlinear_arith)
        requires
            d1 == 6 * t1 - e1,
    ;
}

/// Sum of the first `n` pixels of the block of four rows and four columns at output position
/// (`y`, `x`), row by row.
pub open spec fn block_sum(src: Seq<u8>, sw: int, y: int, x: int, n: int) -> int
    decreases n,
{
    if n <= 0 {
        0
    } else {
        block_sum(src, sw, y, x, n - 1) + src[(4 * y + (n - 1) / 4) * sw + 4 * x + (n - 1) % 4]
    }
}

/// Every pixel of the 4:1 downsample is the mean of the sixteen pixels of its block, rounded down.
pub proof fn block_mean_is_mean(src: Seq<u8>, sw: int, sh: int, y: int, x: int)
    requires
        0 <= y < sh / 4,
        0 <= x < sw / 4,
        sw * sh <= src.len(),
    ensures
        ({
            let out = downscaled_4x4(src, sw, sh)[y * (sw / 4) + x] as int;
            16 * out <= block_sum(src, sw, y, x, 16) < 16 * out + 16
        }),
{
    let dw = sw / 4;
    lemma_row_major(y, x, dw, sh / 4);
    vstd::arithmetic::div_mod::lemma_fundamental_div_mod_converse(y * dw + x, dw, y, x);
    reveal_with_fuel(block_sum, 17);
    assert((4 * y) * sw == 4 * y * sw);
    assert((4 * y + 1) * sw == 4 * y * sw + sw) by (nonlinear_arith);
    assert((4 * y + 2) * sw == 4 * y * sw + 2 * sw) by (nonlinear_arith);
    assert((4 * y + 3) * sw == 4 * y * sw + 3 * sw) by (nonlinear_arith);
    assert((4 * y + 0) * sw == 4 * y * sw);
    let s = block_sum4(src, sw, y, x);
    assert(block_sum(src, sw, y, x, 16) == s);
    assert(0 <= s <= 4080);
}

} // verus!
