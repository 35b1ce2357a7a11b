//! What the blur is: the mean of a window.

use vstd::prelude::*;

use crate::blur::{blurred, blurred_at, box_sum};
use crate::grid::lemma_row_major;

verus! {

/// The pixel at row `y` and column `x`, or the nearest one of the image.
pub open spec fn nearest_pixel(src: Seq<u8>, w: int, h: int, y: int, x: int) -> int {
    let row = if y < 0 {
        0
    } else if y >= h {
        h - 1
    } else {
        y
    };
    let col = if x < 0 {
        0
    } else if x >= w {
        w - 1
    } else {
        x
    };
    src[row * w + col] as int
}

/// Sum of the five pixels of row `y` around column `x`.
pub open spec fn window_row(src: Seq<u8>, w: int, h: int, y: int, x: int) -> int {
    nearest_pixel(src, w, h, y, x - 2) + nearest_pixel(src, w, h, y, x - 1) + nearest_pixel(
        src,
        w,
        h,
        y,
        x,
    ) + nearest_pixel(src, w, h, y, x + 1) + nearest_pixel(src, w, h, y, x + 2)
}

/// Sum of the 25 pixels of the window of five rows and five columns around (`y`, `x`).
pub open spec fn window_sum(src: Seq<u8>, w: int, h: int, y: int, x: int) -> int {
    window_row(src, w, h, y - 2, x) + window_row(src, w, h, y - 1, x) + window_row(src, w, h, y, x)
        + window_row(src, w, h, y + 1, x) + window_row(src, w, h, y + 2, x)
}

/// Every blurred pixel is the mean of the 25 pixels of its window, rounded to the nearest integer.
pub proof fn blur_is_window_mean(src: Seq<u8>, w: int, h: int, y: int, x: int)
    requires
        0 <= y < h,
        0 <= x < w,
        w * h <= src.len(),
    ensures
        -12 <= 25 * blurred(src, w, h)[y * w + x] - window_sum(src, w, h, y, x) <= 12,
{
    lemma_row_major(y, x, w, h);
    let i = y * w + x;
    vstd::arithmetic::div_mod::lemma_fundamental_div_mod_converse(i, w, y, x);
    assert(blurred(src, w, h)[i] == blurred_at(src, w, h, i));
    let s = box_sum(src, w, h, y, x);
    assert(window_sum(src, w, h, y, x) == s);
    assert(0 <= s <= 6375);
}

} // verus!
