//! Fixed-ratio downsamplers: [`downscale_65`] (6:5, two taps per axis) and
//! [`downscale_4x4`] (4x4 block mean). Integer arithmetic, truncating.

use vstd::prelude::*;

use crate::grid::{lemma_row_major, lemma_split};
use crate::words::{pack4, unpack4};

pub mod mean;

verus! {

/// Weights for the first (earlier) sample of each output phase.
pub const W1: [u16; 5] = [107, 85, 64, 43, 21];

/// Weights for the second (later) sample; `W2[k] == W1[4 - k]`.
pub const W2: [u16; 5] = [21, 43, 64, 85, 107];

/// Per-lane taps of the horizontal pass for the first sample; the tail lanes are zero.
pub const HW1: [u16; 8] = [107, 85, 64, 43, 21, 0, 0, 0];

/// Per-lane taps of the horizontal pass for the second sample.
pub const HW2: [u16; 8] = [21, 43, 64, 85, 107, 0, 0, 0];

/// The weight of the first sample in output phase `k`.
pub open spec fn weight1(k: int) -> int {
    if k == 0 {
        107
    } else if k == 1 {
        85
    } else if k == 2 {
        64
    } else if k == 3 {
        43
    } else {
        21
    }
}

/// The weight of the second sample: both weights of a phase sum to 128.
pub open spec fn weight2(k: int) -> int {
    128 - weight1(k)
}

/// Two-tap weighted average of output phase `k`.
pub open spec fn blend(k: int, a: u8, b: u8) -> u8 {
    ((weight1(k) * a + weight2(k) * b) / 128) as u8
}

/// Output size for one axis of the fixed 6:5 ratio.
pub open spec fn size_65(n: int) -> int {
    5 * (n / 6)
}

/// The horizontally scaled pixel with row-major index `i` in rows of `dw`.
pub open spec fn hpass_at(src: Seq<u8>, sw: int, dw: int, i: int) -> u8 {
    let s = (i / dw) * sw + 6 * (i % dw / 5) + i % dw % 5;
    blend(i % dw % 5, src[s], src[s + 1])
}

/// `src` scaled 6:5 horizontally, all `sh` rows.
pub open spec fn hpassed(src: Seq<u8>, sw: int, sh: int) -> Seq<u8> {
    Seq::new((size_65(sw) * sh) as nat, |i: int| hpass_at(src, sw, size_65(sw), i))
}

/// The vertically scaled pixel with row-major index `i` in rows of `dw`.
pub open spec fn vpass_at(tmp: Seq<u8>, dw: int, i: int) -> u8 {
    let r = 6 * (i / dw / 5) + i / dw % 5;
    blend(i / dw % 5, tmp[r * dw + i % dw], tmp[(r + 1) * dw + i % dw])
}

/// `src` (`sw` x `sh`) scaled 6:5 along both axes, horizontally first.
pub open spec fn downscaled_65(src: Seq<u8>, sw: int, sh: int) -> Seq<u8> {
    Seq::new(
        (size_65(sw) * size_65(sh)) as nat,
        |i: int| vpass_at(hpassed(src, sw, sh), size_65(sw), i),
    )
}

/// True when vector kernels are compiled in. There are none: the library scales the same way on every
/// target.
pub fn downscale65_simd_available() -> (r: bool)
    ensures
        !r,
{
    false
}

/// True once a vector kernel has run. There are none to run.
pub fn downscale65_simd_used() -> (r: bool)
    ensures
        !r,
{
    false
}

/// Output size for one axis of the fixed 6:5 ratio: `5 * (n / 6)`.
pub fn downscale_65_size(n: usize) -> (r: usize)
    ensures
        r == size_65(n as int),
        r <= n,
{
    5 * (n / 6)
}

/// Two-tap weighted average of one output phase; the sum of products fits 16 bits.
pub fn phase(k: usize, a: u8, b: u8) -> (r: u8)
    requires
        k < 5,
    ensures
        r == blend(k as int, a, b),
{
    let wa: u16 = W1[k];
    let wb: u16 = W2[k];
    assert(wa == weight1(k as int) && wb == weight2(k as int));
    assert(wa * a <= wa * 255) by (nonlinear_arith)
        requires
            a <= 255,
    ;
    assert(wb * b <= wb * 255) by (nonlinear_arith)
        requires
            b <= 255,
    ;
    let s: u16 = wa * a as u16 + wb * b as u16;
    assert(s >> 7 == s / 128) by (bit_vector);
    (s >> 7) as u8
}

/// True when both 16-byte blocks under an unaligned window at `ptr` stay inside `[start, end)`.
pub fn win_ok(ptr: usize, start: usize, end: usize) -> (r: bool)
    ensures
        r == (start <= ptr - ptr % 16 && ptr - ptr % 16 + 32 <= end),
{
    let a: usize = ptr - ptr % 16;
    a >= start && end >= 32 && a <= end - 32
}

/// One lane of a window pair.
pub open spec fn pair_lane(src: Seq<u8>, a: int, b: int, wa: Seq<u16>, wb: Seq<u16>, j: int) -> u8 {
    ((wa[j] * src[a + j] + wb[j] * src[b + j]) / 128 % 256) as u8
}

/// One window pair: the eight bytes at `a` and at `b` weighted lane by lane with `wa` and `wb`,
/// summed and divided by 128, packed into two little-endian words.
pub fn simd_pair8(src: &[u8], a: usize, b: usize, wa: &[u16; 8], wb: &[u16; 8]) -> (words: [u32; 2])
    requires
        a + 8 <= src.len(),
        b + 8 <= src.len(),
    ensures
        forall|j: int|
            0 <= j < 8 ==> #[trigger] crate::words::word_byte(words@[j / 4], j % 4) == pair_lane(
                src@,
                a as int,
                b as int,
                wa@,
                wb@,
                j,
            ),
{
    let mut bytes: [u8; 8] = [0; 8];
    for j in 0..8usize
        invariant
            a + 8 <= src.len(),
            b + 8 <= src.len(),
            forall|k: int|
                0 <= k < j ==> #[trigger] bytes@[k] == pair_lane(
                    src@,
                    a as int,
                    b as int,
                    wa@,
                    wb@,
                    k,
                ),
    {
        let w0: u32 = wa[j] as u32;
        let w1: u32 = wb[j] as u32;
        let p0: u32 = src[a + j] as u32;
        let p1: u32 = src[b + j] as u32;
        assert(0 <= w0 * p0 <= 65535 * 255) by (nonlinear_arith)
            requires
                w0 <= 65535,
                p0 <= 255,
        ;
        assert(0 <= w1 * p1 <= 65535 * 255) by (nonlinear_arith)
            requires
                w1 <= 65535,
                p1 <= 255,
        ;
        let s: u32 = w0 * p0 + w1 * p1;
        bytes[j] = (s / 128 % 256) as u8;
    }
    let words: [u32; 2] = [
        pack4(bytes[0], bytes[1], bytes[2], bytes[3]),
        pack4(bytes[4], bytes[5], bytes[6], bytes[7]),
    ];
    proof {
        assert forall|j: int| 0 <= j < 8 implies #[trigger] crate::words::word_byte(
            words@[j / 4],
            j % 4,
        ) == pair_lane(src@, a as int, b as int, wa@, wb@, j) by {
            assert(crate::words::word_byte(words@[j / 4], j % 4) == bytes@[j]);
        }
    }
    words
}

/// A row-major index in rows of `5 * n` names one phase of one group.
proof fn lemma_group(y: int, g: int, k: int, dw: int, h: int)
    requires
        0 <= y < h,
        0 <= g,
        0 <= k < 5,
        5 * g + k < dw,
    ensures
        (y * dw + 5 * g + k) / dw == y,
        (y * dw + 5 * g + k) % dw / 5 == g,
        (y * dw + 5 * g + k) % dw % 5 == k,
        0 <= y * dw,
        y * dw + dw <= dw * h,
        (y + 1) * dw == y * dw + dw,
{
    lemma_row_major(y, 5 * g + k, dw, h);
}

/// The bytes that one group of the horizontal pass reads lie in its row.
proof fn lemma_group_source(y: int, g: int, sw: int, sh: int)
    requires
        0 <= y < sh,
        0 <= g < sw / 6,
    ensures
        0 <= y * sw,
        y * sw + 6 * g + 6 <= sw * sh,
{
    lemma_row_major(y, 0, sw, sh);
}

/// Horizontal pass from `src` to `tmp`: each group of six pixels becomes five. A group runs as one
/// window pair where the windows and the eight-byte store stay in bounds, and phase by phase
/// otherwise.
fn hpass(src: &[u8], sw: usize, sh: usize, dw: usize, tmp: &mut [u8])
    requires
        dw == size_65(sw as int),
        0 < dw,
        sw * sh <= src.len(),
        dw * sh <= old(tmp).len(),
    ensures
        final(tmp)@ == hpassed(src@, sw as int, sh as int) + old(tmp)@.skip(dw * sh),
{
    let groups: usize = dw / 5;
    let n: usize = src.len();
    assert(0 * dw == 0);
    for y in 0..sh
        invariant
            dw == size_65(sw as int),
            groups == sw / 6,
            n == src.len(),
            0 < dw,
            sw * sh <= src.len(),
            dw * sh <= tmp.len(),
            tmp@.len() == old(tmp)@.len(),
            forall|i: int|
                0 <= i < tmp@.len() ==> #[trigger] tmp@[i] == if i < y * dw {
                    hpass_at(src@, sw as int, dw as int, i)
                } else {
                    old(tmp)@[i]
                },
    {
        proof {
            lemma_row_major(y as int, 0, dw as int, sh as int);
        }
        let t: usize = y * dw;
        for g in 0..groups
            invariant
                y < sh,
                t == y * dw,
                dw == size_65(sw as int),
                groups == sw / 6,
                n == src.len(),
                0 < dw,
                sw * sh <= src.len(),
                t + dw <= dw * sh <= tmp.len(),
                tmp@.len() == old(tmp)@.len(),
                forall|i: int|
                    0 <= i < t + 5 * g ==> #[trigger] tmp@[i] == hpass_at(
                        src@,
                        sw as int,
                        dw as int,
                        i,
                    ),
                forall|i: int| t + dw <= i < tmp@.len() ==> #[trigger] tmp@[i] == old(tmp)@[i],
        {
            proof {
                lemma_group_source(y as int, g as int, sw as int, sh as int);
                lemma_group(y as int, g as int, 0, dw as int, sh as int);
                lemma_group(y as int, g as int, 1, dw as int, sh as int);
                lemma_group(y as int, g as int, 2, dw as int, sh as int);
                lemma_group(y as int, g as int, 3, dw as int, sh as int);
                lemma_group(y as int, g as int, 4, dw as int, sh as int);
            }
            let i: usize = y * sw + 6 * g;
            let o: usize = t + 5 * g;
            let ghost before = tmp@;
            if dw - 5 * g >= 8 && win_ok(i, 0, n) && win_ok(i + 1, 0, n) {
                let words: [u32; 2] = simd_pair8(src, i, i + 1, &HW1, &HW2);
                crate::blur::store8(tmp, o, words);
                proof {
                    assert forall|q: int| 0 <= q < t + 5 * (g + 1) implies #[trigger] tmp@[q]
                        == hpass_at(src@, sw as int, dw as int, q) by {
                        if q >= t + 5 * g {
                            let k = q - o;
                            lemma_group(y as int, g as int, k, dw as int, sh as int);
                            assert(crate::words::word_byte(words@[k / 4], k % 4) == pair_lane(
                                src@,
                                i as int,
                                i + 1,
                                HW1@,
                                HW2@,
                                k,
                            ));
                            assert(HW1@[k] == weight1(k) && HW2@[k] == weight2(k));
                            assert(tmp@[q] == blend(k, src@[i + k], src@[i + k + 1])) by {
                                lemma_blend_byte(k, src@[i + k], src@[i + 1 + k]);
                            }
                        } else {
                            assert(tmp@[q] == before[q]);
                        }
                    }
                    assert forall|q: int| t + dw <= q < tmp@.len() implies #[trigger] tmp@[q]
                        == old(tmp)@[q] by {
                        assert(tmp@[q] == before[q]);
                    }
                }
            } else {
                let p0: u8 = phase(0, src[i], src[i + 1]);
                let p1: u8 = phase(1, src[i + 1], src[i + 2]);
                let p2: u8 = phase(2, src[i + 2], src[i + 3]);
                let p3: u8 = phase(3, src[i + 3], src[i + 4]);
                let p4: u8 = phase(4, src[i + 4], src[i + 5]);
                tmp[o] = p0;
                tmp[o + 1] = p1;
                tmp[o + 2] = p2;
                tmp[o + 3] = p3;
                tmp[o + 4] = p4;
            }
        }
    }
    proof {
        assert(sh * dw == dw * sh) by (nonlinear_arith);
        assert(tmp@ =~= hpassed(src@, sw as int, sh as int) + old(tmp)@.skip(dw * sh));
    }
}

/// A blend of two bytes is a byte.
proof fn lemma_blend_byte(k: int, a: u8, b: u8)
    requires
        0 <= k < 5,
    ensures
        0 <= (weight1(k) * a + weight2(k) * b) / 128 <= 255,
{
    let wa = weight1(k);
    assert(0 <= wa * a <= wa * 255) by (nonlinear_arith)
        requires
            0 <= a <= 255,
            0 <= wa,
    ;
    let wb = weight2(k);
    assert(0 <= wb * b <= wb * 255) by (nonlinear_arith)
        requires
            0 <= b <= 255,
            0 <= wb,
    ;
}

/// A row-major index in rows of `dw` names one column of one phase of one block.
proof fn lemma_block(b: int, k: int, x: int, dw: int, dh: int)
    requires
        0 <= b,
        0 <= k < 5,
        0 <= x < dw,
        5 * b + k < dh,
    ensures
        ((5 * b + k) * dw + x) / dw / 5 == b,
        ((5 * b + k) * dw + x) / dw % 5 == k,
        ((5 * b + k) * dw + x) % dw == x,
        0 <= (5 * b + k) * dw,
        (5 * b + k) * dw + dw <= dw * dh,
        (5 * b + k + 1) * dw == (5 * b + k) * dw + dw,
{
    lemma_row_major(5 * b + k, x, dw, dh);
}

/// Vertical pass from `tmp` to `dst`: each block of six rows becomes five. Runs of eight columns
/// go as one window pair where the windows stay in bounds, and column by column otherwise.
fn vpass(tmp: &[u8], sh: usize, dw: usize, dh: usize, dst: &mut [u8])
    requires
        0 < dw,
        dh == size_65(sh as int),
        dw * sh <= tmp.len(),
        dw * dh <= old(dst).len(),
    ensures
        final(dst)@.len() == old(dst)@.len(),
        forall|i: int|
            0 <= i < old(dst)@.len() ==> #[trigger] final(dst)@[i] == if i < dw * dh {
                vpass_at(tmp@, dw as int, i)
            } else {
                old(dst)@[i]
            },
{
    let n: usize = tmp.len();
    assert(0 * dw == 0);
    for r in 0..dh
        invariant
            0 < dw,
            n == tmp.len(),
            dh == size_65(sh as int),
            dw * sh <= tmp.len(),
            dw * dh <= dst.len(),
            dst@.len() == old(dst)@.len(),
            forall|i: int|
                0 <= i < dst@.len() ==> #[trigger] dst@[i] == if i < r * dw {
                    vpass_at(tmp@, dw as int, i)
                } else {
                    old(dst)@[i]
                },
    {
        let b: usize = r / 5;
        let k: usize = r % 5;
        proof {
            lemma_block(b as int, k as int, 0, dw as int, dh as int);
            lemma_row_major(6 * b + k, 0, dw as int, sh as int);
            lemma_row_major(6 * b + k + 1, 0, dw as int, sh as int);
        }
        let r0: usize = (6 * b + k) * dw;
        let r1: usize = r0 + dw;
        let d: usize = r * dw;
        let wa: [u16; 8] = [W1[k]; 8];
        let wb: [u16; 8] = [W2[k]; 8];
        let mut x: usize = 0;
        while dw - x >= 8
            invariant
                x <= dw,
                k < 5,
                r == 5 * b + k,
                r < dh,
                n == tmp.len(),
                d == r * dw,
                r0 == (6 * b + k) * dw,
                r1 == (6 * b + k + 1) * dw,
                r1 == r0 + dw,
                r1 + dw <= tmp.len(),
                d + dw <= dw * dh <= dst.len(),
                dst@.len() == old(dst)@.len(),
                forall|j: int| 0 <= j < 8 ==> #[trigger] wa@[j] == weight1(k as int),
                forall|j: int| 0 <= j < 8 ==> #[trigger] wb@[j] == weight2(k as int),
                forall|i: int|
                    0 <= i < dst@.len() ==> #[trigger] dst@[i] == if i < d + x {
                        vpass_at(tmp@, dw as int, i)
                    } else {
                        old(dst)@[i]
                    },
            decreases dw - x,
        {
            if win_ok(r0 + x, 0, n) && win_ok(r1 + x, 0, n) {
                let words: [u32; 2] = simd_pair8(tmp, r0 + x, r1 + x, &wa, &wb);
                let ghost before = dst@;
                crate::blur::store8(dst, d + x, words);
                proof {
                    assert forall|i: int| 0 <= i < dst@.len() implies #[trigger] dst@[i] == if i < d
                        + x + 8 {
                        vpass_at(tmp@, dw as int, i)
                    } else {
                        old(dst)@[i]
                    } by {
                        if d + x <= i < d + x + 8 {
                            let j = i - d - x;
                            lemma_block(b as int, k as int, x + j, dw as int, dh as int);
                            assert(crate::words::word_byte(words@[j / 4], j % 4) == pair_lane(
                                tmp@,
                                r0 + x,
                                r1 + x,
                                wa@,
                                wb@,
                                j,
                            ));
                            assert(wa@[j] == weight1(k as int) && wb@[j] == weight2(k as int));
                            lemma_blend_byte(k as int, tmp@[r0 + x + j], tmp@[r1 + x + j]);
                        } else {
                            assert(dst@[i] == before[i]);
                        }
                    }
                }
            } else {
                for j in 0..8usize
                    invariant
                        x + 8 <= dw,
                        k < 5,
                        r == 5 * b + k,
                        r < dh,
                        d == r * dw,
                        r0 == (6 * b + k) * dw,
                        r1 == (6 * b + k + 1) * dw,
                        r1 == r0 + dw,
                        r1 + dw <= tmp.len(),
                        d + dw <= dw * dh <= dst.len(),
                        dst@.len() == old(dst)@.len(),
                        forall|i: int|
                            0 <= i < dst@.len() ==> #[trigger] dst@[i] == if i < d + x + j {
                                vpass_at(tmp@, dw as int, i)
                            } else {
                                old(dst)@[i]
                            },
                {
                    proof {
                        lemma_block(b as int, k as int, x + j, dw as int, dh as int);
                    }
                    let p: u8 = phase(k, tmp[r0 + x + j], tmp[r1 + x + j]);
                    dst[d + x + j] = p;
                }
            }
            x = x + 8;
        }
        while x < dw
            invariant
                x <= dw,
                k < 5,
                r == 5 * b + k,
                r < dh,
                d == r * dw,
                r0 == (6 * b + k) * dw,
                r1 == (6 * b + k + 1) * dw,
                r1 == r0 + dw,
                r1 + dw <= tmp.len(),
                d + dw <= dw * dh <= dst.len(),
                dst@.len() == old(dst)@.len(),
                forall|i: int|
                    0 <= i < dst@.len() ==> #[trigger] dst@[i] == if i < d + x {
                        vpass_at(tmp@, dw as int, i)
                    } else {
                        old(dst)@[i]
                    },
            decreases dw - x,
        {
            proof {
                lemma_block(b as int, k as int, x as int, dw as int, dh as int);
            }
            let p: u8 = phase(k, tmp[r0 + x], tmp[r1 + x]);
            dst[d + x] = p;
            x = x + 1;
        }
    }
    assert(dh * dw == dw * dh) by (nonlinear_arith);
}

/// The vertical pass reads only rows that the horizontal pass wrote.
proof fn lemma_vpass_reads(tmp: Seq<u8>, htmp: Seq<u8>, sh: int, dw: int, i: int)
    requires
        0 < dw,
        0 <= sh,
        htmp.len() == dw * sh,
        dw * sh <= tmp.len(),
        tmp.take(dw * sh) == htmp,
        0 <= i < dw * size_65(sh),
    ensures
        vpass_at(tmp, dw, i) == vpass_at(htmp, dw, i),
{
    lemma_split(i, dw, size_65(sh));
    let r = 6 * (i / dw / 5) + i / dw % 5;
    lemma_row_major(r, i % dw, dw, sh);
    lemma_row_major(r + 1, i % dw, dw, sh);
    assert(tmp.take(dw * sh)[r * dw + i % dw] == tmp[r * dw + i % dw]);
    assert(tmp.take(dw * sh)[(r + 1) * dw + i % dw] == tmp[(r + 1) * dw + i % dw]);
}

/// Scaled sizes do not exceed the source sizes.
pub proof fn lemma_size_65_area(sw: int, sh: int)
    requires
        0 <= sw,
        0 <= sh,
    ensures
        0 <= size_65(sw) <= sw,
        0 <= size_65(sh) <= sh,
        0 <= size_65(sw) * sh <= sw * sh,
        0 <= size_65(sw) * size_65(sh) <= size_65(sw) * sh,
{
    let dw = size_65(sw);
    let dh = size_65(sh);
    assert(0 <= dw * sh <= sw * sh) by (nonlinear_arith)
        requires
            0 <= dw <= sw,
            0 <= sh,
    ;
    assert(0 <= dw * dh <= dw * sh) by (nonlinear_arith)
        requires
            0 <= dh <= sh,
            0 <= dw,
    ;
}

/// 6:5 downsample of `src` (`sw` x `sh`) into `dst`, both sizes by the fixed ratio; `tmp` takes the
/// horizontally scaled image. Returns false, and changes nothing, on a zero size or on a buffer
/// that is too short. An axis shorter than six pixels gives an empty output.
pub fn downscale_65(src: &[u8], sw: usize, sh: usize, tmp: &mut [u8], dst: &mut [u8]) -> (ok: bool)
    requires
        sw * sh <= usize::MAX,
    ensures
        ok == (sw > 0 && sh > 0 && src@.len() >= sw * sh && old(tmp)@.len() >= size_65(sw as int)
            * sh && old(dst)@.len() >= size_65(sw as int) * size_65(sh as int)),
        !ok ==> final(tmp)@ == old(tmp)@ && final(dst)@ == old(dst)@,
        ok ==> final(tmp)@ == hpassed(src@, sw as int, sh as int) + old(tmp)@.skip(
            size_65(sw as int) * sh,
        ),
        ok ==> final(dst)@ == downscaled_65(src@, sw as int, sh as int) + old(dst)@.skip(
            size_65(sw as int) * size_65(sh as int),
        ),
{
    let dw: usize = downscale_65_size(sw);
    let dh: usize = downscale_65_size(sh);
    proof {
        lemma_size_65_area(sw as int, sh as int);
    }
    if sw == 0 || sh == 0 || src.len() < sw * sh || tmp.len() < dw * sh || dst.len() < dw * dh {
        return false;
    }
    if dw > 0 {
        hpass(src, sw, sh, dw, tmp);
        vpass(tmp, sh, dw, dh, dst);
        proof {
            let htmp = hpassed(src@, sw as int, sh as int);
            assert(tmp@.take(dw * sh) =~= htmp);
            assert forall|i: int| 0 <= i < dw * dh implies vpass_at(tmp@, dw as int, i) == #[trigger] vpass_at(
                htmp,
                dw as int,
                i,
            ) by {
                lemma_vpass_reads(tmp@, htmp, sh as int, dw as int, i);
            }
        }
    } else {
        proof {
            assert(0 * sh == 0 && 0 * dh == 0);
            assert(tmp@ =~= hpassed(src@, sw as int, sh as int) + old(tmp)@.skip(0));
        }
    }
    proof {
        assert(dst@ =~= downscaled_65(src@, sw as int, sh as int) + old(dst)@.skip(dw * dh));
    }
    true
}

/// A constant image keeps its value under the 6:5 downsample.
pub proof fn constant_is_preserved(src: Seq<u8>, sw: int, sh: int, c: u8)
    requires
        0 < sw,
        0 < sh,
        sw * sh <= src.len(),
        forall|i: int| 0 <= i < sw * sh ==> #[trigger] src[i] == c,
    ensures
        downscaled_65(src, sw, sh).len() == size_65(sw) * size_65(sh),
        forall|i: int|
            0 <= i < size_65(sw) * size_65(sh) ==> #[trigger] downscaled_65(src, sw, sh)[i] == c,
{
    let dw = size_65(sw);
    let dh = size_65(sh);
    let htmp = hpassed(src, sw, sh);
    lemma_size_65_area(sw, sh);
    assert forall|k: int| 0 <= k < 5 implies #[trigger] blend(k, c, c) == c by {
        let wa = weight1(k);
        assert(wa * c + (128 - wa) * c == 128 * c) by (nonlinear_arith);
    }
    assert forall|i: int| 0 <= i < dw * sh implies #[trigger] htmp[i] == c by {
        assert(0 < dw) by (nonlinear_arith)
            requires
                0 <= i < dw * sh,
                0 <= dw,
        ;
        lemma_split(i, dw, sh);
        let y = i / dw;
        let g = i % dw / 5;
        let k = i % dw % 5;
        lemma_group_source(y, g, sw, sh);
        assert(src[y * sw + 6 * g + k] == c);
        assert(src[y * sw + 6 * g + k + 1] == c);
        assert(blend(k, c, c) == c);
    }
    assert forall|i: int| 0 <= i < dw * dh implies #[trigger] downscaled_65(src, sw, sh)[i] == c by {
        assert(0 < dw) by (nonlinear_arith)
            requires
                0 <= i < dw * dh,
                0 <= dw,
        ;
        lemma_split(i, dw, dh);
        let r = 6 * (i / dw / 5) + i / dw % 5;
        lemma_row_major(r, i % dw, dw, sh);
        lemma_row_major(r + 1, i % dw, dw, sh);
        assert(htmp[r * dw + i % dw] == c);
        assert(htmp[(r + 1) * dw + i % dw] == c);
        assert(blend(i / dw % 5, c, c) == c);
    }
}

/// Sum of four neighbouring pixels from row-major index `i`.
pub open spec fn run4(src: Seq<u8>, i: int) -> int {
    src[i] + src[i + 1] + src[i + 2] + src[i + 3]
}

/// Sum of the 4x4 block at output position (`y`, `x`).
pub open spec fn block_sum4(src: Seq<u8>, sw: int, y: int, x: int) -> int {
    let i = 4 * y * sw + 4 * x;
    run4(src, i) + run4(src, i + sw) + run4(src, i + 2 * sw) + run4(src, i + 3 * sw)
}

/// The block mean with row-major output index `i` in rows of `dw`, truncated.
pub open spec fn area_at(src: Seq<u8>, sw: int, dw: int, i: int) -> u8 {
    (block_sum4(src, sw, i / dw, i % dw) / 16) as u8
}

/// `src` (`sw` x `sh`) as 4x4 block means.
pub open spec fn downscaled_4x4(src: Seq<u8>, sw: int, sh: int) -> Seq<u8> {
    Seq::new(((sw / 4) * (sh / 4)) as nat, |i: int| area_at(src, sw, sw / 4, i))
}

/// Output size for one axis of the fixed 4:1 ratio: `n / 4`.
pub fn downscale_4x4_size(n: usize) -> (r: usize)
    ensures
        r == n / 4,
{
    n / 4
}

/// The bytes of one 4x4 block lie inside the image.
proof fn lemma_block4(sw: int, sh: int, y: int, x: int)
    requires
        0 <= y < sh / 4,
        0 <= x < sw / 4,
    ensures
        0 <= 4 * y * sw + 4 * x,
        4 * y * sw + 4 * x + 3 * sw + 4 <= sw * sh,
        0 <= 4 * y * sw,
{
    lemma_row_major(4 * y, 4 * x, sw, sh);
    lemma_row_major(4 * y + 3, 4 * x + 3, sw, sh);
    assert((4 * y + 3) * sw == 4 * y * sw + 3 * sw) by (nonlinear_arith);
}

/// Sum of the four pixels from index `i`.
fn sum_run4(src: &[u8], i: usize) -> (s: u32)
    requires
        i + 4 <= src.len(),
    ensures
        s == run4(src@, i as int),
        s <= 1020,
{
    src[i] as u32 + src[i + 1] as u32 + src[i + 2] as u32 + src[i + 3] as u32
}

/// One 4x4 block mean at output (`y`, `x`).
pub fn block_mean4(src: &[u8], sw: usize, sh: usize, y: usize, x: usize) -> (r: u8)
    requires
        y < sh / 4,
        x < sw / 4,
        sw * sh <= src.len(),
    ensures
        r == block_sum4(src@, sw as int, y as int, x as int) / 16,
{
    proof {
        lemma_block4(sw as int, sh as int, y as int, x as int);
    }
    let i: usize = 4 * y * sw + 4 * x;
    let s: u32 = sum_run4(src, i) + sum_run4(src, i + sw) + sum_run4(src, i + 2 * sw) + sum_run4(
        src,
        i + 3 * sw,
    );
    assert(s >> 4 == s / 16) by (bit_vector);
    (s >> 4) as u8
}

/// Four block means from one window of sixteen columns, packed into a little-endian word.
pub fn simd_block4(src: &[u8], sw: usize, sh: usize, y: usize, x: usize) -> (w: u32)
    requires
        y < sh / 4,
        x + 4 <= sw / 4,
        sw * sh <= src.len(),
    ensures
        forall|k: int|
            0 <= k < 4 ==> #[trigger] crate::words::word_byte(w, k) == block_sum4(
                src@,
                sw as int,
                y as int,
                x + k,
            ) / 16,
{
    pack4(
        block_mean4(src, sw, sh, y, x),
        block_mean4(src, sw, sh, y, x + 1),
        block_mean4(src, sw, sh, y, x + 2),
        block_mean4(src, sw, sh, y, x + 3),
    )
}

/// Writes the four bytes of a packed word to `dst[x..x + 4]`.
fn store4(dst: &mut [u8], x: usize, w: u32)
    requires
        x + 4 <= old(dst).len(),
    ensures
        final(dst)@.len() == old(dst)@.len(),
        forall|k: int|
            0 <= k < old(dst)@.len() ==> #[trigger] final(dst)@[k] == if x <= k < x + 4 {
                crate::words::word_byte(w, k - x)
            } else {
                old(dst)@[k]
            },
{
    let b: [u8; 4] = unpack4(w);
    dst[x] = b[0];
    dst[x + 1] = b[1];
    dst[x + 2] = b[2];
    dst[x + 3] = b[3];
}

/// 4x4 block means of `src` (`sw` x `sh`) into `dst`, truncating; trailing partial rows and columns
/// are not read. Returns false, and changes nothing, on a zero size or on a buffer that is too
/// short. An axis shorter than four pixels gives an empty output.
pub fn downscale_4x4(src: &[u8], sw: usize, sh: usize, dst: &mut [u8]) -> (ok: bool)
    requires
        sw * sh <= usize::MAX,
    ensures
        ok == (sw > 0 && sh > 0 && src@.len() >= sw * sh && old(dst)@.len() >= (sw / 4) * (sh / 4)),
        !ok ==> final(dst)@ == old(dst)@,
        ok ==> final(dst)@ == downscaled_4x4(src@, sw as int, sh as int) + old(dst)@.skip(
            (sw / 4) * (sh / 4),
        ),
{
    let dw: usize = downscale_4x4_size(sw);
    let dh: usize = downscale_4x4_size(sh);
    assert(dw * dh <= sw * sh) by (nonlinear_arith)
        requires
            0 <= dw <= sw,
            0 <= dh <= sh,
    ;
    if sw == 0 || sh == 0 || src.len() < sw * sh || dst.len() < dw * dh {
        return false;
    }
    let end: usize = src.len();
    assert(0 * dw == 0);
    for y in 0..dh
        invariant
            dw == sw / 4,
            dh == sh / 4,
            end == src.len(),
            sw * sh <= src.len(),
            dw * dh <= dst.len(),
            dst@.len() == old(dst)@.len(),
            forall|i: int|
                0 <= i < dst@.len() ==> #[trigger] dst@[i] == if i < y * dw {
                    area_at(src@, sw as int, dw as int, i)
                } else {
                    old(dst)@[i]
                },
    {
        let mut x: usize = 0;
        let out: usize;
        if dw > 0 {
            proof {
                lemma_row_major(y as int, 0, dw as int, dh as int);
            }
            out = y * dw;
        } else {
            proof {
                assert(y * 0 == 0 && (y + 1) * 0 == 0);
            }
            out = 0;
        }
        // A block of four outputs runs while the two aligned 16-byte blocks under its window stay
        // inside the source.
        let mut fits: bool = true;
        while fits && dw - x >= 4
            invariant
                x <= dw,
                y < dh,
                out == y * dw,
                dw == sw / 4,
                dh == sh / 4,
                end == src.len(),
                sw * sh <= src.len(),
                out + dw <= dw * dh <= dst.len(),
                dst@.len() == old(dst)@.len(),
                forall|i: int|
                    0 <= i < dst@.len() ==> #[trigger] dst@[i] == if i < out + x {
                        area_at(src@, sw as int, dw as int, i)
                    } else {
                        old(dst)@[i]
                    },
            decreases dw - x, fits as int,
        {
            proof {
                lemma_block4(sw as int, sh as int, y as int, x as int);
            }
            let p: usize = 4 * y * sw + 4 * x;
            let p3: usize = p + 3 * sw;
            let a3: usize = p3 - p3 % 16;
            if end < 32 || a3 > end - 32 {
                fits = false;
            } else {
                let w: u32 = simd_block4(src, sw, sh, y, x);
                store4(dst, out + x, w);
                proof {
                    assert forall|i: int| out + x <= i < out + x + 4 implies #[trigger] dst@[i]
                        == area_at(src@, sw as int, dw as int, i) by {
                        lemma_row_major(y as int, i - out, dw as int, dh as int);
                        assert(crate::words::word_byte(w, i - out - x) == block_sum4(
                            src@,
                            sw as int,
                            y as int,
                            x + (i - out - x),
                        ) / 16);
                    }
                }
                x = x + 4;
            }
        }
        while x < dw
            invariant
                x <= dw,
                y < dh,
                out == y * dw,
                dw == sw / 4,
                dh == sh / 4,
                sw * sh <= src.len(),
                out + dw <= dw * dh <= dst.len(),
                dst@.len() == old(dst)@.len(),
                forall|i: int|
                    0 <= i < dst@.len() ==> #[trigger] dst@[i] == if i < out + x {
                        area_at(src@, sw as int, dw as int, i)
                    } else {
                        old(dst)@[i]
                    },
            decreases dw - x,
        {
            proof {
                lemma_row_major(y as int, x as int, dw as int, dh as int);
            }
            let v: u8 = block_mean4(src, sw, sh, y, x);
            dst[out + x] = v;
            x = x + 1;
        }
    }
    proof {
        assert(dh * dw == dw * dh) by (nonlinear_arith);
        assert(dst@ =~= downscaled_4x4(src@, sw as int, sh as int) + old(dst)@.skip(dw * dh));
    }
    true
}

} // verus!
