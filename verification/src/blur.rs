//! 5x5 box blur over contiguous grayscale frames (row-major bytes): separable
//! (running column sums, then a horizontal five-tap sum), with clamped borders.
//! `scratch` holds one row of column sums.

use vstd::prelude::*;

use crate::grid::lemma_row_major;
use crate::words::{pack4, unpack4};

pub mod mean;

verus! {

/// Kernel width and height.
pub const WINDOW: usize = 5;

/// Kernel half-width.
pub const RADIUS: usize = 2;

/// `v` moved to the nearest value in `0..=hi`.
pub open spec fn clamp_to(v: int, hi: int) -> int {
    if v < 0 {
        0
    } else if v > hi {
        hi
    } else {
        v
    }
}

/// Sum of column `x` over the five rows around `y`, rows clamped to the image.
pub open spec fn col_sum(src: Seq<u8>, w: int, h: int, y: int, x: int) -> int {
    src[clamp_to(y - 2, h - 1) * w + x] + src[clamp_to(y - 1, h - 1) * w + x] + src[y * w + x]
        + src[clamp_to(y + 1, h - 1) * w + x] + src[clamp_to(y + 2, h - 1) * w + x]
}

/// Sum of the 5x5 window around (`y`, `x`), both axes clamped to the image.
pub open spec fn box_sum(src: Seq<u8>, w: int, h: int, y: int, x: int) -> int {
    col_sum(src, w, h, y, clamp_to(x - 2, w - 1)) + col_sum(src, w, h, y, clamp_to(x - 1, w - 1))
        + col_sum(src, w, h, y, x) + col_sum(src, w, h, y, clamp_to(x + 1, w - 1)) + col_sum(
        src,
        w,
        h,
        y,
        clamp_to(x + 2, w - 1),
    )
}

/// `s / 25` rounded to the nearest integer.
pub open spec fn round25(s: int) -> int {
    (s + 12) / 25
}

/// The blurred pixel with row-major index `i`.
pub open spec fn blurred_at(src: Seq<u8>, w: int, h: int, i: int) -> u8 {
    round25(box_sum(src, w, h, i / w, i % w)) as u8
}

/// The blurred image.
pub open spec fn blurred(src: Seq<u8>, w: int, h: int) -> Seq<u8> {
    Seq::new((w * h) as nat, |i: int| blurred_at(src, w, h, i))
}

/// Rounding division by 25 as a multiply and a shift, for every sum of 25 bytes.
pub fn div25(s: u16) -> (r: u8)
    requires
        s <= 6375,
    ensures
        r == round25(s as int),
{
    let p: u32 = s as u32 * 41943 + 524288;
    assert(p >> 20 == p / 1048576) by (bit_vector);
    (p >> 20) as u8
}

/// The same division with the rounding term added before the multiply.
pub fn div25_simd(s: u16) -> (r: u8)
    requires
        s <= 6375,
    ensures
        r == round25(s as int),
{
    let p: u32 = (s as u32 + 12) * 41944;
    assert(p >> 20 == p / 1048576) by (bit_vector);
    (p >> 20) as u8
}

/// `x + d - 2` moved into `0..n`.
fn clamp_tap(x: usize, d: usize, n: usize) -> (r: usize)
    requires
        x < n,
        d < 5,
    ensures
        r == clamp_to(x + d - 2, n - 1),
{
    if d < 2 {
        if x < 2 - d {
            0
        } else {
            x - (2 - d)
        }
    } else if d - 2 > n - 1 - x {
        n - 1
    } else {
        x + (d - 2)
    }
}

/// Sum of column `x` over the five clamped rows around `y`.
fn col_sum_clamped(src: &[u8], w: usize, h: usize, y: usize, x: usize) -> (s: u16)
    requires
        y < h,
        x < w,
        w * h <= src.len(),
    ensures
        s == col_sum(src@, w as int, h as int, y as int, x as int),
        s <= 1275,
{
    let y0: usize = clamp_tap(y, 0, h);
    let y1: usize = clamp_tap(y, 1, h);
    let y3: usize = clamp_tap(y, 3, h);
    let y4: usize = clamp_tap(y, 4, h);
    proof {
        lemma_row_major(y0 as int, x as int, w as int, h as int);
        lemma_row_major(y1 as int, x as int, w as int, h as int);
        lemma_row_major(y as int, x as int, w as int, h as int);
        lemma_row_major(y3 as int, x as int, w as int, h as int);
        lemma_row_major(y4 as int, x as int, w as int, h as int);
    }
    src[y0 * w + x] as u16 + src[y1 * w + x] as u16 + src[y * w + x] as u16 + src[y3 * w + x] as u16
        + src[y4 * w + x] as u16
}

/// Clamped 25-tap box at pixel (`y`, `x`), for border rows and small frames.
pub fn blur_px_clamped(src: &[u8], w: usize, h: usize, y: usize, x: usize) -> (r: u8)
    requires
        y < h,
        x < w,
        w * h <= src.len(),
    ensures
        r == round25(box_sum(src@, w as int, h as int, y as int, x as int)),
{
    let s: u16 = col_sum_clamped(src, w, h, y, clamp_tap(x, 0, w)) + col_sum_clamped(
        src,
        w,
        h,
        y,
        clamp_tap(x, 1, w),
    ) + col_sum_clamped(src, w, h, y, x) + col_sum_clamped(src, w, h, y, clamp_tap(x, 3, w))
        + col_sum_clamped(src, w, h, y, clamp_tap(x, 4, w));
    div25(s)
}

/// Writes one whole output row, both axes clamped.
fn fill_row_clamped(src: &[u8], dst: &mut [u8], w: usize, h: usize, y: usize)
    requires
        y < h,
        0 < w,
        w * h <= src.len(),
        w * h <= old(dst).len(),
    ensures
        final(dst)@.len() == old(dst)@.len(),
        forall|i: int|
            0 <= i < final(dst)@.len() ==> #[trigger] final(dst)@[i] == if y * w <= i < (y + 1) * w {
                blurred_at(src@, w as int, h as int, i)
            } else {
                old(dst)@[i]
            },
{
    proof {
        lemma_row_major(y as int, 0, w as int, h as int);
    }
    let base: usize = y * w;
    for x in 0..w
        invariant
            y < h,
            0 < w,
            w * h <= src.len(),
            w * h <= dst.len(),
            dst@.len() == old(dst)@.len(),
            base == y * w,
            base + w <= w * h,
            forall|i: int|
                0 <= i < dst@.len() ==> #[trigger] dst@[i] == if base <= i < base + x {
                    blurred_at(src@, w as int, h as int, i)
                } else {
                    old(dst)@[i]
                },
    {
        proof {
            lemma_row_major(y as int, x as int, w as int, h as int);
        }
        let v: u8 = blur_px_clamped(src, w, h, y, x);
        dst[base + x] = v;
    }
}

/// The column sums of the window of output row `y`, in the first `w` entries.
pub open spec fn holds_col_sums(vcol: Seq<u16>, src: Seq<u8>, w: int, h: int, y: int) -> bool {
    &&& w <= vcol.len()
    &&& forall|x: int| 0 <= x < w ==> #[trigger] vcol[x] == col_sum(src, w, h, y, x)
}

/// Five neighbouring column sums around `x`.
pub open spec fn five(vcol: Seq<u16>, x: int) -> int {
    vcol[x - 2] + vcol[x - 1] + vcol[x] + vcol[x + 1] + vcol[x + 2]
}

/// Seeds `vcol` with the column sums of source rows 0..=4, the window of output row 2.
fn vcol_init(src: &[u8], w: usize, h: usize, vcol: &mut [u16])
    requires
        5 <= h,
        0 < w,
        w * h <= src.len(),
        w <= old(vcol).len(),
    ensures
        final(vcol)@.len() == old(vcol)@.len(),
        holds_col_sums(final(vcol)@, src@, w as int, h as int, 2),
        forall|x: int| w <= x < old(vcol)@.len() ==> #[trigger] final(vcol)@[x] == old(vcol)@[x],
{
    for x in 0..w
        invariant
            5 <= h,
            w * h <= src.len(),
            w <= vcol.len(),
            vcol@.len() == old(vcol)@.len(),
            forall|k: int|
                0 <= k < x ==> #[trigger] vcol@[k] == col_sum(src@, w as int, h as int, 2, k),
            forall|k: int| x <= k < vcol@.len() ==> #[trigger] vcol@[k] == old(vcol)@[k],
    {
        proof {
            lemma_row_major(0, x as int, w as int, h as int);
            lemma_row_major(1, x as int, w as int, h as int);
            lemma_row_major(2, x as int, w as int, h as int);
            lemma_row_major(3, x as int, w as int, h as int);
            lemma_row_major(4, x as int, w as int, h as int);
        }
        let v: u16 = src[x] as u16 + src[w + x] as u16 + src[2 * w + x] as u16 + src[3 * w + x] as u16
            + src[4 * w + x] as u16;
        assert(v == col_sum(src@, w as int, h as int, 2, x as int)) by {
            assert(0 * w == 0 && 1 * w == w);
        }
        vcol[x] = v;
    }
}

/// One block of eight horizontal outputs, `x..x + 8` of an interior row: the five-tap sums over
/// `vcol` divided by 25, packed into two little-endian words.
pub fn simd_out_block8(vcol: &[u16], x: usize) -> (words: [u32; 2])
    requires
        2 <= x,
        x + 10 <= vcol.len(),
        forall|k: int| x - 2 <= k < x + 10 ==> #[trigger] vcol@[k] <= 1275,
    ensures
        forall|i: int|
            0 <= i < 8 ==> #[trigger] crate::words::word_byte(words@[i / 4], i % 4) == round25(
                five(vcol@, x + i),
            ),
{
    let mut bytes: [u8; 8] = [0; 8];
    for i in 0..8usize
        invariant
            2 <= x,
            x + 10 <= vcol.len(),
            forall|k: int| x - 2 <= k < x + 10 ==> #[trigger] vcol@[k] <= 1275,
            forall|k: int| 0 <= k < i ==> #[trigger] bytes@[k] == round25(five(vcol@, x + k)),
    {
        let s: u32 = vcol[x - 2 + i] as u32 + vcol[x - 1 + i] as u32 + vcol[x + i] as u32 + vcol[x
            + 1 + i] as u32 + vcol[x + 2 + i] as u32;
        let q: u8 = div25_simd(s as u16);
        bytes[i] = q;
    }
    let words: [u32; 2] = [
        pack4(bytes[0], bytes[1], bytes[2], bytes[3]),
        pack4(bytes[4], bytes[5], bytes[6], bytes[7]),
    ];
    proof {
        assert forall|i: int| 0 <= i < 8 implies #[trigger] crate::words::word_byte(
            words@[i / 4],
            i % 4,
        ) == round25(five(vcol@, x + i)) by {
            assert(crate::words::word_byte(words@[i / 4], i % 4) == bytes@[i]);
        }
    }
    words
}

/// Writes the eight bytes of a packed block to `dst[x..x + 8]`.
pub fn store8(dst: &mut [u8], x: usize, words: [u32; 2])
    requires
        x + 8 <= old(dst).len(),
    ensures
        final(dst)@.len() == old(dst)@.len(),
        forall|k: int|
            0 <= k < old(dst)@.len() ==> #[trigger] final(dst)@[k] == if x <= k < x + 8 {
                crate::words::word_byte(words@[(k - x) / 4], (k - x) % 4)
            } else {
                old(dst)@[k]
            },
{
    let lo: [u8; 4] = unpack4(words[0]);
    let hi: [u8; 4] = unpack4(words[1]);
    dst[x] = lo[0];
    dst[x + 1] = lo[1];
    dst[x + 2] = lo[2];
    dst[x + 3] = lo[3];
    dst[x + 4] = hi[0];
    dst[x + 5] = hi[1];
    dst[x + 6] = hi[2];
    dst[x + 7] = hi[3];
}

/// One block of sixteen columns of the vertical slide: `vcol[x + i] += add[i] - drop[i]`, where
/// the two source rows start at `add` and `drop`.
fn simd_vcol_block16(vcol: &mut [u16], x: usize, src: &[u8], add: usize, drop: usize)
    requires
        x + 16 <= old(vcol).len(),
        add + x + 16 <= src.len(),
        drop + x + 16 <= src.len(),
        forall|i: int|
            x <= i < x + 16 ==> src@[drop + i] <= #[trigger] old(vcol)@[i] <= 1275,
    ensures
        final(vcol)@.len() == old(vcol)@.len(),
        forall|i: int|
            0 <= i < old(vcol)@.len() ==> #[trigger] final(vcol)@[i] == if x <= i < x + 16 {
                old(vcol)@[i] + src@[add + i] - src@[drop + i]
            } else {
                old(vcol)@[i] as int
            },
{
    for i in 0..16usize
        invariant
            x + 16 <= vcol.len(),
            add + x + 16 <= src.len(),
            drop + x + 16 <= src.len(),
            vcol@.len() == old(vcol)@.len(),
            forall|k: int|
                x <= k < x + 16 ==> src@[drop + k] <= #[trigger] old(vcol)@[k] <= 1275,
            forall|k: int|
                0 <= k < vcol@.len() ==> #[trigger] vcol@[k] == if x <= k < x + i {
                    old(vcol)@[k] + src@[add + k] - src@[drop + k]
                } else {
                    old(vcol)@[k] as int
                },
    {
        assert(src@[drop + (x + i)] <= old(vcol)@[x + i] <= 1275);
        let v: u16 = vcol[x + i] + src[add + x + i] as u16 - src[drop + x + i] as u16;
        vcol[x + i] = v;
    }
}

/// Slides the vertical window down from output row `y` to `y + 1`: drops source row `y - 2`, adds
/// source row `y + 3`. Blocks of sixteen columns, then the remaining columns one by one.
fn vcol_advance(src: &[u8], w: usize, h: usize, y: usize, vcol: &mut [u16])
    requires
        2 <= y,
        y + 3 < h,
        0 < w,
        w * h <= src.len(),
        holds_col_sums(old(vcol)@, src@, w as int, h as int, y as int),
    ensures
        final(vcol)@.len() == old(vcol)@.len(),
        holds_col_sums(final(vcol)@, src@, w as int, h as int, y + 1),
        forall|x: int| w <= x < old(vcol)@.len() ==> #[trigger] final(vcol)@[x] == old(vcol)@[x],
{
    assert(w <= vcol.len());
    proof {
        lemma_row_major(y - 2, 0, w as int, h as int);
        lemma_row_major(y + 3, 0, w as int, h as int);
        assert((y - 2) * w >= 0 && (y + 3) * w + w <= w * h);
        assert forall|x: int| 0 <= x < w implies col_sum(src@, w as int, h as int, y + 1, x)
            == #[trigger] vcol@[x] + src@[(y + 3) * w + x] - src@[(y - 2) * w + x]
            && src@[(y - 2) * w + x] <= vcol@[x] <= 1275 by {
            assert(vcol@[x] == col_sum(src@, w as int, h as int, y as int, x));
        }
    }
    let drop: usize = (y - 2) * w;
    let add: usize = (y + 3) * w;
    let mut x: usize = 0;
    while w - x >= 16
        invariant
            x <= w,
            0 < w,
            w <= vcol.len(),
            vcol@.len() == old(vcol)@.len(),
            add == (y + 3) * w,
            drop == (y - 2) * w,
            add + w <= src.len(),
            drop + w <= src.len(),
            forall|k: int|
                0 <= k < w ==> src@[drop + k] <= #[trigger] old(vcol)@[k] <= 1275,
            forall|k: int|
                0 <= k < vcol@.len() ==> #[trigger] vcol@[k] == if k < x {
                    old(vcol)@[k] + src@[add + k] - src@[drop + k]
                } else {
                    old(vcol)@[k] as int
                },
        decreases w - x,
    {
        proof {
            assert forall|i: int| x <= i < x + 16 implies src@[drop + i] <= #[trigger] vcol@[i]
                <= 1275 by {
                assert(old(vcol)@[i] == vcol@[i]);
            }
        }
        simd_vcol_block16(vcol, x, src, add, drop);
        x = x + 16;
    }
    while x < w
        invariant
            x <= w,
            w <= vcol.len(),
            vcol@.len() == old(vcol)@.len(),
            add + w <= src.len(),
            drop + w <= src.len(),
            forall|k: int|
                0 <= k < w ==> src@[drop + k] <= #[trigger] old(vcol)@[k] <= 1275,
            forall|k: int|
                0 <= k < vcol@.len() ==> #[trigger] vcol@[k] == if k < x {
                    old(vcol)@[k] + src@[add + k] - src@[drop + k]
                } else {
                    old(vcol)@[k] as int
                },
        decreases w - x,
    {
        assert(src@[drop + x] <= old(vcol)@[x as int] <= 1275);
        let v: u16 = vcol[x] + src[add + x] as u16 - src[drop + x] as u16;
        vcol[x] = v;
        x = x + 1;
    }
}

/// Horizontal five-tap sum over the column sums of output row `y`, written to that row of `dst`.
/// The ends are clamped; the interior runs in blocks of eight, then pixel by pixel.
fn out_row_from_vcol(
    vcol: &[u16],
    Ghost(src): Ghost<Seq<u8>>,
    w: usize,
    h: usize,
    y: usize,
    dst: &mut [u8],
)
    requires
        5 <= w,
        y < h,
        w * h <= old(dst).len(),
        holds_col_sums(vcol@, src, w as int, h as int, y as int),
    ensures
        final(dst)@.len() == old(dst)@.len(),
        forall|i: int|
            0 <= i < final(dst)@.len() ==> #[trigger] final(dst)@[i] == if y * w <= i < (y + 1) * w {
                blurred_at(src, w as int, h as int, i)
            } else {
                old(dst)@[i]
            },
{
    proof {
        lemma_row_major(y as int, 0, w as int, h as int);
        assert forall|k: int| 0 <= k < w implies #[trigger] vcol@[k] <= 1275 by {
            assert(vcol@[k] == col_sum(src, w as int, h as int, y as int, k));
        }
        assert forall|x: int| 0 <= x < w implies (#[trigger] blurred_at(
            src,
            w as int,
            h as int,
            y * w + x,
        )) as int == round25(
            vcol@[clamp_to(x - 2, w - 1)] + vcol@[clamp_to(x - 1, w - 1)] + vcol@[x] + vcol@[clamp_to(
                x + 1,
                w - 1,
            )] + vcol@[clamp_to(x + 2, w - 1)],
        ) by {
            lemma_row_major(y as int, x, w as int, h as int);
        }
    }
    let base: usize = y * w;
    let p: u8 = div25(3 * vcol[0] + vcol[1] + vcol[2]);
    assert(p == blurred_at(src, w as int, h as int, y * w + 0));
    dst[base] = p;
    let p: u8 = div25(2 * vcol[0] + vcol[1] + vcol[2] + vcol[3]);
    assert(p == blurred_at(src, w as int, h as int, y * w + 1));
    dst[base + 1] = p;
    let mut x: usize = 2;
    while w - x >= 14
        invariant
            2 <= x <= w - 2,
            5 <= w <= vcol.len(),
            base == y * w,
            base + w <= w * h <= dst.len(),
            dst@.len() == old(dst)@.len(),
            forall|k: int| 0 <= k < w ==> #[trigger] vcol@[k] <= 1275,
            forall|k: int|
                2 <= k < w - 2 ==> (#[trigger] blurred_at(src, w as int, h as int, y * w + k)) as int
                    == round25(five(vcol@, k)),
            forall|i: int|
                0 <= i < dst@.len() ==> #[trigger] dst@[i] == if base <= i < base + x {
                    blurred_at(src, w as int, h as int, i)
                } else {
                    old(dst)@[i]
                },
        decreases w - x,
    {
        let words: [u32; 2] = simd_out_block8(vcol, x);
        store8(dst, base + x, words);
        proof {
            assert forall|i: int| 0 <= i < dst@.len() implies #[trigger] dst@[i] == if base <= i
                < base + x + 8 {
                blurred_at(src, w as int, h as int, i)
            } else {
                old(dst)@[i]
            } by {
                if base + x <= i < base + x + 8 {
                    let k = i - base;
                    assert(blurred_at(src, w as int, h as int, y * w + k) as int == round25(
                        five(vcol@, k),
                    ));
                    let d = i - base - x;
                    assert(crate::words::word_byte(words@[d / 4], d % 4) == round25(
                        five(vcol@, x + d),
                    ));
                }
            }
        }
        x = x + 8;
    }
    while x < w - 2
        invariant
            2 <= x <= w - 2,
            5 <= w <= vcol.len(),
            base == y * w,
            base + w <= w * h <= dst.len(),
            dst@.len() == old(dst)@.len(),
            forall|k: int| 0 <= k < w ==> #[trigger] vcol@[k] <= 1275,
            forall|k: int|
                2 <= k < w - 2 ==> (#[trigger] blurred_at(src, w as int, h as int, y * w + k)) as int
                    == round25(five(vcol@, k)),
            forall|i: int|
                0 <= i < dst@.len() ==> #[trigger] dst@[i] == if base <= i < base + x {
                    blurred_at(src, w as int, h as int, i)
                } else {
                    old(dst)@[i]
                },
        decreases w - x,
    {
        let s: u32 = vcol[x - 2] as u32 + vcol[x - 1] as u32 + vcol[x] as u32 + vcol[x + 1] as u32 + vcol[x
            + 2] as u32;
        let p: u8 = div25(s as u16);
        assert(p == blurred_at(src, w as int, h as int, y * w + x));
        dst[base + x] = p;
        x = x + 1;
    }
    let p: u8 = div25(vcol[w - 4] + vcol[w - 3] + vcol[w - 2] + 2 * vcol[w - 1]);
    assert(p == blurred_at(src, w as int, h as int, y * w + (w - 2)));
    dst[base + w - 2] = p;
    let p: u8 = div25(vcol[w - 3] + vcol[w - 2] + 3 * vcol[w - 1]);
    assert(p == blurred_at(src, w as int, h as int, y * w + (w - 1)));
    dst[base + w - 1] = p;
}

/// 5x5 box blur with clamped borders from `src` to `dst`, `width * height` bytes each; `scratch`
/// takes one row of column sums. Returns false, and changes nothing, on a zero size or on a buffer
/// that is too short.
pub fn box_blur5x5(
    src: &[u8],
    dst: &mut [u8],
    width: usize,
    height: usize,
    scratch: &mut [u16],
) -> (ok: bool)
    requires
        width * height <= usize::MAX,
    ensures
        ok == (width > 0 && height > 0 && src@.len() >= width * height && old(dst)@.len() >= width
            * height && old(scratch)@.len() >= width),
        final(dst)@.len() == old(dst)@.len(),
        final(scratch)@.len() == old(scratch)@.len(),
        !ok ==> final(dst)@ == old(dst)@ && final(scratch)@ == old(scratch)@,
        ok ==> final(dst)@ == blurred(src@, width as int, height as int) + old(dst)@.skip(
            width * height,
        ),
        ok && (width < WINDOW || height < WINDOW) ==> final(scratch)@ == old(scratch)@,
        ok && width >= WINDOW && height >= WINDOW ==> {
            &&& holds_col_sums(
                final(scratch)@,
                src@,
                width as int,
                height as int,
                height - 3,
            )
            &&& final(scratch)@.skip(width as int) == old(scratch)@.skip(width as int)
        },
{
    let n: usize = width * height;
    if width == 0 || height == 0 || src.len() < n || dst.len() < n || scratch.len() < width {
        return false;
    }
    if width < WINDOW || height < WINDOW {
        proof {
            assert(0 * width == 0);
        }
        for y in 0..height
            invariant
                0 < width,
                width * height <= src.len(),
                width * height <= dst.len(),
                dst@.len() == old(dst)@.len(),
                scratch@ == old(scratch)@,
                forall|i: int|
                    0 <= i < dst@.len() ==> #[trigger] dst@[i] == if i < y * width {
                        blurred_at(src@, width as int, height as int, i)
                    } else {
                        old(dst)@[i]
                    },
        {
            proof {
                lemma_row_major(y as int, 0, width as int, height as int);
            }
            fill_row_clamped(src, dst, width, height, y);
        }
        proof {
            assert(height * width == width * height) by (nonlinear_arith);
            assert(dst@ =~= blurred(src@, width as int, height as int) + old(dst)@.skip(
                width * height,
            ));
        }
        return true;
    }
    proof {
        assert(0 * width == 0);
    }
    for y in 0..RADIUS
        invariant
            5 <= width,
            5 <= height,
            width * height <= src.len(),
            width * height <= dst.len(),
            dst@.len() == old(dst)@.len(),
            scratch@ == old(scratch)@,
            forall|i: int|
                0 <= i < dst@.len() ==> #[trigger] dst@[i] == if i < y * width {
                    blurred_at(src@, width as int, height as int, i)
                } else {
                    old(dst)@[i]
                },
    {
        proof {
            lemma_row_major(y as int, 0, width as int, height as int);
        }
        fill_row_clamped(src, dst, width, height, y);
    }
    vcol_init(src, width, height, scratch);
    for y in RADIUS..height - RADIUS
        invariant
            5 <= width,
            5 <= height,
            width * height <= src.len(),
            width * height <= dst.len(),
            dst@.len() == old(dst)@.len(),
            scratch@.len() == old(scratch)@.len(),
            holds_col_sums(
                scratch@,
                src@,
                width as int,
                height as int,
                if y <= height - 3 {
                    y as int
                } else {
                    height - 3
                },
            ),
            forall|x: int|
                width <= x < scratch@.len() ==> #[trigger] scratch@[x] == old(scratch)@[x],
            forall|i: int|
                0 <= i < dst@.len() ==> #[trigger] dst@[i] == if i < y * width {
                    blurred_at(src@, width as int, height as int, i)
                } else {
                    old(dst)@[i]
                },
    {
        proof {
            lemma_row_major(y as int, 0, width as int, height as int);
        }
        out_row_from_vcol(scratch, Ghost(src@), width, height, y, dst);
        if y < height - 3 {
            vcol_advance(src, width, height, y, scratch);
        }
    }
    for y in height - RADIUS..height
        invariant
            5 <= width,
            5 <= height,
            width * height <= src.len(),
            width * height <= dst.len(),
            dst@.len() == old(dst)@.len(),
            scratch@.len() == old(scratch)@.len(),
            holds_col_sums(scratch@, src@, width as int, height as int, height - 3),
            forall|x: int|
                width <= x < scratch@.len() ==> #[trigger] scratch@[x] == old(scratch)@[x],
            forall|i: int|
                0 <= i < dst@.len() ==> #[trigger] dst@[i] == if i < y * width {
                    blurred_at(src@, width as int, height as int, i)
                } else {
                    old(dst)@[i]
                },
    {
        proof {
            lemma_row_major(y as int, 0, width as int, height as int);
        }
        fill_row_clamped(src, dst, width, height, y);
    }
    proof {
        assert(height * width == width * height) by (nonlinear_arith);
        assert(dst@ =~= blurred(src@, width as int, height as int) + old(dst)@.skip(
            width * height,
        ));
        assert(scratch@.skip(width as int) =~= old(scratch)@.skip(width as int));
    }
    true
}

/// A uniform image is unchanged by the blur.
pub proof fn uniform_is_unchanged(src: Seq<u8>, w: int, h: int, c: u8)
    requires
        0 < w,
        0 < h,
        w * h <= src.len(),
        forall|i: int| 0 <= i < w * h ==> #[trigger] src[i] == c,
    ensures
        blurred(src, w, h) == src.take(w * h),
{
    assert forall|i: int| 0 <= i < w * h implies #[trigger] blurred_at(src, w, h, i) == c by {
        crate::grid::lemma_split(i, w, h);
        let y = i / w;
        let x = i % w;
        assert forall|yy: int, xx: int| 0 <= yy < h && 0 <= xx < w implies #[trigger] src[yy * w + xx]
            == c by {
            lemma_row_major(yy, xx, w, h);
        }
        assert(forall|xx: int| 0 <= xx < w ==> #[trigger] col_sum(src, w, h, y, xx) == 5 * c);
    }
    assert(blurred(src, w, h) =~= src.take(w * h));
}

} // verus!
