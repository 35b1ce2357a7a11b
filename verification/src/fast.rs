//! FAST-12 corners over a raw grayscale buffer: a pixel is a corner where twelve contiguous pixels
//! of the sixteen-pixel circle of radius three are all brighter than the centre plus a threshold,
//! or all darker than the centre minus it. Detection, score and non-max suppression.

use vstd::prelude::*;

use crate::grid::lemma_row_major;
use crate::store::{least, lemma_stored_push, lemma_stored_take, stored};

pub mod circle;
pub mod ee;

verus! {

/// Detected corner (image coordinates, top-left origin).
#[derive(Copy, Clone, Debug, PartialEq, Eq, Structural)]
pub struct Corner {
    pub x: usize,
    pub y: usize,
}

/// Horizontal offsets of the circle, clockwise in image coordinates from the bottom.
pub const CIRCLE_DX: [isize; 16] = [0, 1, 2, 3, 3, 3, 2, 1, 0, -1, -2, -3, -3, -3, -2, -1];

/// Vertical offsets of the circle.
pub const CIRCLE_DY: [isize; 16] = [3, 3, 2, 1, 0, -1, -2, -3, -3, -3, -2, -1, 0, 1, 2, 3];

/// Index offset of circle pixel `k` in an image with row pitch `stride`.
pub open spec fn circle_offset(stride: int, k: int) -> int {
    CIRCLE_DX@[k] + CIRCLE_DY@[k] * stride
}

/// Circle pixel `k`, counted around the circle, of the pixel with index `c`.
pub open spec fn ring(im: Seq<u8>, stride: int, c: int, k: int) -> int {
    im[c + circle_offset(stride, k % 16)] as int
}

/// Circle pixel `k` is brighter than `t`, or darker than it.
pub open spec fn passes(im: Seq<u8>, stride: int, c: int, k: int, bright: bool, t: int) -> bool {
    if bright {
        ring(im, stride, c, k) > t
    } else {
        ring(im, stride, c, k) < t
    }
}

/// The twelve circle pixels from `r` on all pass.
pub open spec fn run12(im: Seq<u8>, stride: int, c: int, r: int, bright: bool, t: int) -> bool {
    forall|j: int| r <= j < r + 12 ==> #[trigger] passes(im, stride, c, j, bright, t)
}

/// Some twelve contiguous circle pixels all pass.
pub open spec fn has_run(im: Seq<u8>, stride: int, c: int, bright: bool, t: int) -> bool {
    exists|r: int| 0 <= r < 16 && #[trigger] run12(im, stride, c, r, bright, t)
}

/// The FAST-12 rule at index `c` with threshold `b`.
pub open spec fn is_corner(im: Seq<u8>, stride: int, c: int, b: int) -> bool {
    has_run(im, stride, c, true, im[c] + b) || has_run(im, stride, c, false, im[c] - b)
}

/// The whole circle around index `c` lies inside a buffer of `len` bytes.
pub open spec fn ring_inside(len: int, stride: int, c: int) -> bool {
    &&& 1 <= stride
    &&& 3 * stride + 1 <= c
    &&& c + 3 * stride + 1 < len
}

/// The offset table of an image with row pitch `stride`.
pub open spec fn is_offsets(off: Seq<isize>, stride: int) -> bool {
    &&& off.len() == 16
    &&& forall|k: int| 0 <= k < 16 ==> #[trigger] off[k] == circle_offset(stride, k)
}

/// Bounds of the offsets.
proof fn lemma_offset_bound(stride: int, k: int)
    requires
        1 <= stride,
        0 <= k < 16,
    ensures
        -(3 * stride + 1) <= circle_offset(stride, k) <= 3 * stride + 1,
{
    let dy = CIRCLE_DY@[k] as int;
    assert(-3 <= dy <= 3);
    assert(dy == -3 || dy == -2 || dy == -1 || dy == 0 || dy == 1 || dy == 2 || dy == 3);
}

/// Index offsets of the sixteen circle pixels for one row pitch.
pub fn circle_offsets(stride: usize) -> (off: [isize; 16])
    requires
        3 * stride + 1 <= isize::MAX,
    ensures
        is_offsets(off@, stride as int),
{
    let mut off: [isize; 16] = [0; 16];
    let s: isize = stride as isize;
    for k in 0..16usize
        invariant
            s == stride,
            3 * stride + 1 <= isize::MAX,
            forall|j: int| 0 <= j < k ==> #[trigger] off@[j] == circle_offset(stride as int, j),
    {
        let dx: isize = CIRCLE_DX[k];
        let dy: isize = CIRCLE_DY[k];
        assert(-3 <= dx <= 3 && -3 <= dy <= 3);
        assert(-3 * s <= dy * s <= 3 * s) by (nonlinear_arith)
            requires
                -3 <= dy <= 3,
                0 <= s,
        ;
        proof {
            if stride >= 1 {
                lemma_offset_bound(stride as int, k as int);
            }
        }
        off[k] = dx + dy * s;
    }
    off
}

/// Value of circle pixel `k` (`k < 16`) around index `c`.
fn ring_value(im: &[u8], c: usize, off: &[isize; 16], Ghost(stride): Ghost<int>, k: usize) -> (v: u8)
    requires
        ring_inside(im.len() as int, stride, c as int),
        is_offsets(off@, stride),
        k < 16,
    ensures
        v == ring(im@, stride, c as int, k as int),
{
    proof {
        lemma_offset_bound(stride, k as int);
    }
    let o: isize = off[k];
    if o >= 0 {
        im[c + o as usize]
    } else {
        im[c - (-o) as usize]
    }
}

/// True where some twelve contiguous circle pixels around `c` are brighter (or darker) than `t`.
fn has_run12(
    im: &[u8],
    c: usize,
    off: &[isize; 16],
    Ghost(stride): Ghost<int>,
    bright: bool,
    t: i64,
) -> (r: bool)
    requires
        ring_inside(im.len() as int, stride, c as int),
        is_offsets(off@, stride),
    ensures
        r == has_run(im@, stride, c as int, bright, t as int),
{
    let mut run: usize = 0;
    for k in 0..27usize
        invariant
            ring_inside(im.len() as int, stride, c as int),
            is_offsets(off@, stride),
            run <= k,
            run < 12,
            forall|j: int|
                k - run <= j < k ==> #[trigger] passes(im@, stride, c as int, j, bright, t as int),
            run < k ==> !passes(im@, stride, c as int, k - run - 1, bright, t as int),
            forall|r: int|
                0 <= r && r + 12 <= k ==> !#[trigger] run12(
                    im@,
                    stride,
                    c as int,
                    r,
                    bright,
                    t as int,
                ),
    {
        let kk: usize = if k < 16 {
            k
        } else {
            k - 16
        };
        let v: u8 = ring_value(im, c, off, Ghost(stride), kk);
        assert(kk as int % 16 == k as int % 16);
        let ok: bool = if bright {
            v as i64 > t
        } else {
            (v as i64) < t
        };
        assert(ok == passes(im@, stride, c as int, k as int, bright, t as int));
        if ok {
            run = run + 1;
            if run == 12 {
                proof {
                    let r = k - 11;
                    assert(run12(im@, stride, c as int, r, bright, t as int));
                    if r >= 16 {
                        assert(false);
                    }
                }
                return true;
            }
        } else {
            run = 0;
        }
        proof {
            let r = k + 1 - 12;
            if r >= 0 {
                let f = k + 1 - run - 1;
                assert(r <= f < r + 12);
                assert(!passes(im@, stride, c as int, f, bright, t as int));
                assert(!run12(im@, stride, c as int, r, bright, t as int));
            }
        }
    }
    false
}

/// The FAST-12 rule at index `c`, whose value is `v`, with threshold `b`.
pub(crate) fn corner_at(im: &[u8], c: usize, off: &[isize; 16], Ghost(stride): Ghost<int>, v: u8, b: i32) -> (r:
    bool)
    requires
        ring_inside(im.len() as int, stride, c as int),
        is_offsets(off@, stride),
        v == im@[c as int],
    ensures
        r == is_corner(im@, stride, c as int, b as int),
{
    has_run12(im, c, off, Ghost(stride), true, v as i64 + b as i64) || has_run12(
        im,
        c,
        off,
        Ghost(stride),
        false,
        v as i64 - b as i64,
    )
}

/// A corner at one threshold is a corner at every smaller one.
pub proof fn corner_is_monotone(im: Seq<u8>, stride: int, c: int, b0: int, b1: int)
    requires
        b0 <= b1,
        is_corner(im, stride, c, b1),
    ensures
        is_corner(im, stride, c, b0),
{
    if has_run(im, stride, c, true, im[c] + b1) {
        let r = choose|r: int| 0 <= r < 16 && #[trigger] run12(im, stride, c, r, true, im[c] + b1);
        assert forall|j: int| r <= j < r + 12 implies #[trigger] passes(
            im,
            stride,
            c,
            j,
            true,
            im[c] + b0,
        ) by {
            assert(passes(im, stride, c, j, true, im[c] + b1));
        }
        assert(run12(im, stride, c, r, true, im[c] + b0));
    } else {
        let r = choose|r: int| 0 <= r < 16 && #[trigger] run12(im, stride, c, r, false, im[c] - b1);
        assert forall|j: int| r <= j < r + 12 implies #[trigger] passes(
            im,
            stride,
            c,
            j,
            false,
            im[c] - b0,
        ) by {
            assert(passes(im, stride, c, j, false, im[c] - b1));
        }
        assert(run12(im, stride, c, r, false, im[c] - b0));
    }
}

/// No pixel is a corner at a threshold of 255 or more.
pub proof fn no_corner_above_255(im: Seq<u8>, stride: int, c: int, b: int)
    requires
        b >= 255,
    ensures
        !is_corner(im, stride, c, b),
{
    if has_run(im, stride, c, true, im[c] + b) {
        let r = choose|r: int| 0 <= r < 16 && #[trigger] run12(im, stride, c, r, true, im[c] + b);
        assert(passes(im, stride, c, r, true, im[c] + b));
    }
    if has_run(im, stride, c, false, im[c] - b) {
        let r = choose|r: int| 0 <= r < 16 && #[trigger] run12(im, stride, c, r, false, im[c] - b);
        assert(passes(im, stride, c, r, false, im[c] - b));
    }
}

/// The scan covers an image of this size at all.
pub open spec fn scannable(w: int, h: int, stride: int) -> bool {
    w >= 7 && h >= 7 && stride >= w
}

/// Position `p` of the interior scan, row by row from (3, 3).
pub open spec fn scan_pos(w: int, p: int) -> (int, int) {
    (3 + p / (w - 6), 3 + p % (w - 6))
}

/// The corners among the first `p` positions of the interior scan, in scan order.
pub open spec fn corners_upto(im: Seq<u8>, w: int, stride: int, b: int, p: int) -> Seq<Corner>
    decreases p,
{
    if p <= 0 {
        seq![]
    } else {
        let (y, x) = scan_pos(w, p - 1);
        let before = corners_upto(im, w, stride, b, p - 1);
        if is_corner(im, stride, y * stride + x, b) {
            before.push(Corner { x: x as usize, y: y as usize })
        } else {
            before
        }
    }
}

/// All corners of the image, in scan order.
pub open spec fn corners_of(im: Seq<u8>, w: int, h: int, stride: int, b: int) -> Seq<Corner> {
    if scannable(w, h, stride) {
        corners_upto(im, w, stride, b, (w - 6) * (h - 6))
    } else {
        seq![]
    }
}

/// The buffer is long enough for a scan of this size.
pub open spec fn image_fits(len: int, w: int, h: int, stride: int) -> bool {
    scannable(w, h, stride) ==> len >= (h - 1) * stride + w
}

/// Scan position `p` as a row and a column.
pub(crate) proof fn lemma_scan(im_len: int, w: int, h: int, stride: int, y: int, x: int)
    requires
        scannable(w, h, stride),
        im_len >= (h - 1) * stride + w,
        3 <= y < h - 3,
        3 <= x < w - 3,
    ensures
        scan_pos(w, (y - 3) * (w - 6) + (x - 3)) == (y, x),
        0 <= (y - 3) * (w - 6) + (x - 3) < (w - 6) * (h - 6),
        ring_inside(im_len, stride, y * stride + x),
        y * stride + stride == (y + 1) * stride,
        0 <= y * stride,
{
    lemma_row_major(y - 3, x - 3, w - 6, h - 6);
    assert(3 * stride <= y * stride) by (nonlinear_arith)
        requires
            3 <= y,
            0 <= stride,
    ;
    assert(y * stride + 3 * stride <= (h - 1) * stride) by (nonlinear_arith)
        requires
            y + 3 <= h - 1,
            0 <= stride,
    ;
    assert(y * stride + stride == (y + 1) * stride) by (nonlinear_arith);
}

/// The list never grows by more than one per position, and a longer scan extends it.
pub(crate) proof fn lemma_corners_len(im: Seq<u8>, w: int, stride: int, b: int, p: int)
    requires
        0 <= p,
    ensures
        corners_upto(im, w, stride, b, p).len() <= p,
    decreases p,
{
    if p > 0 {
        lemma_corners_len(im, w, stride, b, p - 1);
    }
}

/// Sizes of a scan that fits in memory.
pub(crate) proof fn lemma_sizes(len: usize, w: usize, h: usize, stride: usize)
    requires
        scannable(w as int, h as int, stride as int),
        image_fits(len as int, w as int, h as int, stride as int),
    ensures
        3 * stride + 3 <= isize::MAX,
        0 <= (w - 6) * (h - 6) <= len,
        h * stride <= len + stride,
{
    assert(6 * stride <= (h - 1) * stride) by (nonlinear_arith)
        requires
            6 <= h - 1,
            0 <= stride,
    ;
    assert(0 <= (w - 6) * (h - 6) <= (h - 1) * stride) by (nonlinear_arith)
        requires
            0 <= w - 6 <= stride,
            0 <= h - 6 <= h - 1,
    ;
    assert(h * stride == (h - 1) * stride + stride) by (nonlinear_arith);
}

/// FAST-12 corners of `im` (row pitch `stride`), row by row, for `x` in `3..w - 3` and `y` in
/// `3..h - 3`. Returns the total corner count; `out` takes the first corners that it has room for.
/// An image below 7x7, or a row pitch below the width, has none.
pub fn fast12_detect(
    im: &[u8],
    w: usize,
    h: usize,
    stride: usize,
    b: i32,
    out: &mut [Corner],
) -> (n: usize)
    requires
        image_fits(im.len() as int, w as int, h as int, stride as int),
    ensures
        n == corners_of(im@, w as int, h as int, stride as int, b as int).len(),
        final(out)@ == stored(
            old(out)@,
            corners_of(im@, w as int, h as int, stride as int, b as int),
        ),
{
    if w < 7 || h < 7 || stride < w {
        assert(out@ =~= stored(
            old(out)@,
            corners_of(im@, w as int, h as int, stride as int, b as int),
        ));
        return 0;
    }
    proof {
        lemma_sizes(im.len(), w, h, stride);
    }
    let off: [isize; 16] = circle_offsets(stride);
    let mut n: usize = 0;
    proof {
        assert(0 * (w - 6) == 0);
        assert(out@ =~= stored(old(out)@, seq![]));
    }
    for y in 3..h - 3
        invariant
            scannable(w as int, h as int, stride as int),
            im.len() >= (h - 1) * stride + w,
            (w - 6) * (h - 6) <= im.len(),
            is_offsets(off@, stride as int),
            out@.len() == old(out)@.len(),
            n == corners_upto(im@, w as int, stride as int, b as int, (y - 3) * (w - 6)).len(),
            out@ == stored(
                old(out)@,
                corners_upto(im@, w as int, stride as int, b as int, (y - 3) * (w - 6)),
            ),
    {
        for x in 3..w - 3
            invariant
                3 <= y < h - 3,
                scannable(w as int, h as int, stride as int),
                im.len() >= (h - 1) * stride + w,
                (w - 6) * (h - 6) <= im.len(),
                is_offsets(off@, stride as int),
                out@.len() == old(out)@.len(),
                n == corners_upto(
                    im@,
                    w as int,
                    stride as int,
                    b as int,
                    (y - 3) * (w - 6) + (x - 3),
                ).len(),
                out@ == stored(
                    old(out)@,
                    corners_upto(
                        im@,
                        w as int,
                        stride as int,
                        b as int,
                        (y - 3) * (w - 6) + (x - 3),
                    ),
                ),
        {
            let ghost p = (y - 3) * (w - 6) + (x - 3);
            let ghost before = corners_upto(im@, w as int, stride as int, b as int, p);
            proof {
                lemma_scan(im.len() as int, w as int, h as int, stride as int, y as int, x as int);
                lemma_corners_len(im@, w as int, stride as int, b as int, p);
                lemma_stored_push(old(out)@, before, Corner { x, y });
                assert(p + 1 == (y - 3) * (w - 6) + (x + 1 - 3));
            }
            let c: usize = y * stride + x;
            let v: u8 = im[c];
            if corner_at(im, c, &off, Ghost(stride as int), v, b) {
                if n < out.len() {
                    out[n] = Corner { x, y };
                }
                n = n + 1;
            }
        }
        proof {
            assert((y - 3) * (w - 6) + (w - 6) == (y + 1 - 3) * (w - 6)) by (nonlinear_arith);
        }
    }
    assert((h - 3 - 3) * (w - 6) == (w - 6) * (h - 6)) by (nonlinear_arith);
    n
}

/// The largest threshold in `bstart..=b` at which the pixel is a corner, or `bstart`.
pub open spec fn score_from(im: Seq<u8>, stride: int, c: int, bstart: int, b: int) -> int
    decreases b - bstart,
{
    if b <= bstart {
        bstart
    } else if is_corner(im, stride, c, b) {
        b
    } else {
        score_from(im, stride, c, bstart, b - 1)
    }
}

/// The score of the pixel with index `c`: the largest threshold from `bstart` to 255 at which it is
/// still a corner, and `bstart` where there is none.
pub open spec fn score(im: Seq<u8>, stride: int, c: int, bstart: int) -> int {
    score_from(im, stride, c, bstart, 255)
}

/// A threshold above which there is no corner is the score.
proof fn lemma_score(im: Seq<u8>, stride: int, c: int, bstart: int, r: int, b: int)
    requires
        bstart <= r <= b,
        r == bstart || is_corner(im, stride, c, r),
        forall|t: int| r < t <= b ==> !#[trigger] is_corner(im, stride, c, t),
    ensures
        score_from(im, stride, c, bstart, b) == r,
    decreases b - r,
{
    if b > r {
        lemma_score(im, stride, c, bstart, r, b - 1);
    }
}

/// Score of one pixel by binary search over `bstart..=255`.
fn corner_score(im: &[u8], c: usize, off: &[isize; 16], Ghost(stride): Ghost<int>, bstart: i32) -> (r:
    i32)
    requires
        ring_inside(im.len() as int, stride, c as int),
        is_offsets(off@, stride),
        bstart <= 255,
    ensures
        r == score(im@, stride, c as int, bstart as int),
{
    let v: u8 = im[c];
    let mut bmin: i64 = bstart as i64;
    let mut bmax: i64 = 255;
    proof {
        no_corner_above_255(im@, stride, c as int, 255);
    }
    let mut go: bool = true;
    while go
        invariant
            ring_inside(im.len() as int, stride, c as int),
            is_offsets(off@, stride),
            v == im@[c as int],
            bstart <= bmin <= bmax <= 255,
            bmin == bstart || is_corner(im@, stride, c as int, bmin as int),
            !is_corner(im@, stride, c as int, bmax as int),
            !go ==> bmin >= bmax - 1,
            go && bmin >= bmax - 1 ==> bmin == bstart && bmax == 255,
        decreases bmax - bmin, go as int,
    {
        let b: i64 = bmin + (bmax - bmin) / 2;
        if corner_at(im, c, off, Ghost(stride), v, b as i32) {
            bmin = b;
        } else {
            bmax = b;
        }
        if bmin == bmax - 1 || bmin == bmax {
            go = false;
        }
    }
    proof {
        assert forall|t: int| bmin < t <= 255 implies !#[trigger] is_corner(
            im@,
            stride,
            c as int,
            t,
        ) by {
            if is_corner(im@, stride, c as int, t) {
                corner_is_monotone(im@, stride, c as int, bmax as int, t);
            }
        }
        lemma_score(im@, stride, c as int, bstart as int, bmin as int, 255);
    }
    bmin as i32
}

/// Index of a corner's pixel.
pub open spec fn corner_index(stride: int, c: Corner) -> int {
    c.y * stride + c.x
}

/// The scores of a corner list.
pub open spec fn scores_of(im: Seq<u8>, stride: int, corners: Seq<Corner>, b: int) -> Seq<i32> {
    Seq::new(
        corners.len(),
        |i: int| score(im, stride, corner_index(stride, corners[i]), b) as i32,
    )
}

/// Scores a corner list, one score each, as far as both slices reach; returns how many. `b` is the
/// threshold at which the corners were detected.
pub fn fast12_score(
    im: &[u8],
    stride: usize,
    corners: &[Corner],
    b: i32,
    scores: &mut [i32],
) -> (n: usize)
    requires
        corners.len() > 0 && old(scores).len() > 0 ==> b <= 255,
        forall|i: int|
            0 <= i < corners.len() && i < old(scores).len() ==> ring_inside(
                im.len() as int,
                stride as int,
                #[trigger] corner_index(stride as int, corners@[i]),
            ),
    ensures
        n == if corners@.len() <= old(scores)@.len() {
            corners@.len()
        } else {
            old(scores)@.len()
        },
        final(scores)@ == stored(
            old(scores)@,
            scores_of(im@, stride as int, corners@, b as int),
        ),
{
    let n: usize = if corners.len() <= scores.len() {
        corners.len()
    } else {
        scores.len()
    };
    if n == 0 {
        assert(scores@ =~= stored(
            old(scores)@,
            scores_of(im@, stride as int, corners@, b as int),
        ));
        return 0;
    }
    assert(ring_inside(im.len() as int, stride as int, corner_index(stride as int, corners@[0])));
    let off: [isize; 16] = circle_offsets(stride);
    for i in 0..n
        invariant
            n <= corners.len(),
            n <= scores.len(),
            n == corners.len() || n == scores.len(),
            b <= 255,
            is_offsets(off@, stride as int),
            scores@.len() == old(scores)@.len(),
            forall|k: int|
                0 <= k < n ==> ring_inside(
                    im.len() as int,
                    stride as int,
                    #[trigger] corner_index(stride as int, corners@[k]),
                ),
            forall|k: int|
                0 <= k < i ==> #[trigger] scores@[k] == score(
                    im@,
                    stride as int,
                    corner_index(stride as int, corners@[k]),
                    b as int,
                ),
            forall|k: int| i <= k < scores@.len() ==> #[trigger] scores@[k] == old(scores)@[k],
    {
        let c: Corner = corners[i];
        assert(ring_inside(
            im.len() as int,
            stride as int,
            corner_index(stride as int, corners@[i as int]),
        ));
        assert(0 <= c.y * stride <= c.y * stride + c.x) by (nonlinear_arith)
            requires
                0 <= c.y,
                0 <= c.x,
                0 <= stride,
        ;
        let ci: usize = c.y * stride + c.x;
        let s: i32 = corner_score(im, ci, &off, Ghost(stride as int), b);
        scores[i] = s;
    }
    assert(scores@ =~= stored(
        old(scores)@,
        scores_of(im@, stride as int, corners@, b as int),
    ));
    n
}

/// `a` comes before `b` in raster order.
pub open spec fn raster_before(a: Corner, b: Corner) -> bool {
    a.y < b.y || (a.y == b.y && a.x < b.x)
}

/// A corner list in strict raster order, as the detector emits it.
pub open spec fn raster_ordered(corners: Seq<Corner>) -> bool {
    forall|i: int, j: int|
        0 <= i < j < corners.len() ==> raster_before(#[trigger] corners[i], #[trigger] corners[j])
}

/// Corner `j` lies in the 3x3 neighbourhood of corner `i` and scores at least as much.
pub open spec fn beats(corners: Seq<Corner>, scores: Seq<i32>, j: int, i: int) -> bool {
    &&& j != i
    &&& -1 <= corners[j].x - corners[i].x <= 1
    &&& -1 <= corners[j].y - corners[i].y <= 1
    &&& scores[j] >= scores[i]
}

/// No other corner beats corner `i`.
pub open spec fn survives(corners: Seq<Corner>, scores: Seq<i32>, i: int) -> bool {
    forall|j: int| 0 <= j < corners.len() ==> !#[trigger] beats(corners, scores, j, i)
}

/// The survivors among the first `n` corners.
pub open spec fn survivors_upto(corners: Seq<Corner>, scores: Seq<i32>, n: int) -> Seq<Corner>
    decreases n,
{
    if n <= 0 {
        seq![]
    } else {
        let before = survivors_upto(corners, scores, n - 1);
        if survives(corners, scores, n - 1) {
            before.push(corners[n - 1])
        } else {
            before
        }
    }
}

/// The corners that no neighbour suppresses, in order.
pub open spec fn survivors(corners: Seq<Corner>, scores: Seq<i32>) -> Seq<Corner> {
    survivors_upto(corners, scores, corners.len() as int)
}

/// Entry `y` of a row index over the first `n` corners: the first corner on row `y`, or
/// `usize::MAX` where the row has none.
pub open spec fn is_row_start(corners: Seq<Corner>, n: int, y: int, r: usize) -> bool {
    if r == usize::MAX {
        forall|i: int| 0 <= i < n ==> (#[trigger] corners[i]).y != y
    } else {
        &&& r < n
        &&& corners[r as int].y == y
        &&& forall|i: int| 0 <= i < r ==> (#[trigger] corners[i]).y < y
    }
}

/// The row index of a corner list: rows up to that of the last corner.
pub open spec fn is_row_index(corners: Seq<Corner>, rowidx: Seq<usize>) -> bool {
    forall|y: int|
        0 <= y <= corners[corners.len() - 1].y ==> is_row_start(
            corners,
            corners.len() as int,
            y,
            #[trigger] rowidx[y],
        )
}

/// Suppression has work to do: the list is not empty, each corner has a score, and the row index
/// reaches the row of the last corner.
pub open spec fn suppressible(corners: Seq<Corner>, scores: int, rows: int) -> bool {
    &&& corners.len() > 0
    &&& scores >= corners.len()
    &&& rows > corners[corners.len() - 1].y
}

/// What suppression leaves in the row index.
pub open spec fn rows_after(
    corners: Seq<Corner>,
    scores: int,
    before: Seq<usize>,
    after: Seq<usize>,
) -> bool {
    if suppressible(corners, scores, before.len() as int) {
        &&& after.len() == before.len()
        &&& is_row_index(corners, after)
        &&& forall|y: int|
            corners[corners.len() - 1].y < y < before.len() ==> #[trigger] after[y] == before[y]
    } else {
        after == before
    }
}

/// Fills the row index of a raster-ordered corner list.
fn index_rows(corners: &[Corner], rowidx: &mut [usize])
    requires
        0 < corners.len(),
        raster_ordered(corners@),
        corners@[corners.len() - 1].y < old(rowidx).len(),
    ensures
        final(rowidx)@.len() == old(rowidx)@.len(),
        is_row_index(corners@, final(rowidx)@),
        forall|y: int|
            corners@[corners.len() - 1].y < y < old(rowidx)@.len() ==> #[trigger] final(rowidx)@[y]
                == old(rowidx)@[y],
{
    let sz: usize = corners.len();
    let last_row: usize = corners[sz - 1].y;
    for r in 0..last_row + 1
        invariant
            last_row < rowidx.len(),
            rowidx@.len() == old(rowidx)@.len(),
            forall|y: int| 0 <= y < r ==> #[trigger] rowidx@[y] == usize::MAX,
            forall|y: int| r <= y < rowidx@.len() ==> #[trigger] rowidx@[y] == old(rowidx)@[y],
    {
        rowidx[r] = usize::MAX;
    }
    for i in 0..sz
        invariant
            sz == corners.len(),
            last_row == corners@[sz - 1].y,
            last_row < rowidx.len(),
            raster_ordered(corners@),
            rowidx@.len() == old(rowidx)@.len(),
            forall|y: int|
                0 <= y <= last_row ==> is_row_start(corners@, i as int, y, #[trigger] rowidx@[y]),
            forall|y: int|
                last_row < y < rowidx@.len() ==> #[trigger] rowidx@[y] == old(rowidx)@[y],
    {
        let c: Corner = corners[i];
        proof {
            if i < sz - 1 {
                assert(raster_before(corners@[i as int], corners@[sz - 1]));
            }
            if i > 0 {
                assert(raster_before(corners@[i - 1], corners@[i as int]));
            }
        }
        let ghost before = rowidx@;
        if i == 0 || corners[i - 1].y != c.y {
            rowidx[c.y] = i;
        }
        proof {
            assert forall|y: int| 0 <= y <= last_row implies is_row_start(
                corners@,
                i + 1,
                y,
                #[trigger] rowidx@[y],
            ) by {
                assert(is_row_start(corners@, i as int, y, before[y]));
                if y == c.y {
                    if i == 0 || corners@[i - 1].y != c.y {
                        assert forall|k: int| 0 <= k < i implies (#[trigger] corners@[k]).y < y by {
                            if k < i - 1 {
                                assert(raster_before(corners@[k], corners@[i - 1]));
                            }
                        }
                    } else {
                        assert(corners@[i - 1].y == y);
                    }
                }
            }
        }
    }
}

/// Looks for a corner on the row above corner `i` that beats it. `cursor` is where the search left
/// off; `start` is the first corner of the row above.
fn beaten_above(corners: &[Corner], scores: &[i32], i: usize, start: usize, cursor: usize) -> (res: (
    bool,
    usize,
))
    requires
        i < corners.len() <= scores.len(),
        raster_ordered(corners@),
        0 < corners@[i as int].y,
        is_row_start(corners@, corners.len() as int, corners@[i as int].y - 1, start),
        start != usize::MAX,
        cursor <= i,
        above_done(corners@, i as int, cursor as int),
    ensures
        res.1 <= i,
        above_done(corners@, i as int, res.1 as int),
        res.0 == exists|j: int|
            0 <= j < corners.len() && #[trigger] corners@[j].y == corners@[i as int].y - 1 && beats(
                corners@,
                scores@,
                j,
                i as int,
            ),
{
    let pos: Corner = corners[i];
    let score: i32 = scores[i];
    let px: usize = pos.x;
    let mut p: usize = cursor;
    proof {
        if start > i {
            assert(raster_before(corners@[i as int], corners@[start as int]));
        }
    }
    if corners[p].y < pos.y - 1 {
        p = start;
    }
    while corners[p].y < pos.y && corners[p].x < px && px - corners[p].x > 1
        invariant
            i < corners.len() <= scores.len(),
            raster_ordered(corners@),
            pos == corners@[i as int],
            px == pos.x,
            0 < pos.y,
            p <= i,
            pos.y - 1 <= corners@[p as int].y,
            above_done(corners@, i as int, p as int),
        decreases i - p,
    {
        proof {
            assert(p < i);
            assert(raster_before(corners@[p as int], corners@[p + 1]));
        }
        p = p + 1;
    }
    let mut j: usize = p;
    while corners[j].y < pos.y && (corners[j].x <= px || corners[j].x - px <= 1)
        invariant
            i < corners.len() <= scores.len(),
            raster_ordered(corners@),
            pos == corners@[i as int],
            score == scores@[i as int],
            px == pos.x,
            0 < pos.y,
            p <= j <= i,
            pos.y - 1 <= corners@[p as int].y,
            corners@[p as int].y < pos.y ==> corners@[p as int].x + 1 >= px,
            above_done(corners@, i as int, p as int),
            forall|t: int| p <= t < j ==> (#[trigger] scores@[t]) < score,
        decreases i - j,
    {
        proof {
            if p < j {
                assert(raster_before(corners@[p as int], corners@[j as int]));
            }
            if j < i {
                assert(raster_before(corners@[j as int], corners@[i as int]));
            }
        }
        if scores[j] >= score {
            proof {
                assert(corners@[j as int].y == pos.y - 1);
                assert(beats(corners@, scores@, j as int, i as int));
            }
            return (true, p);
        }
        proof {
            assert(j < i);
        }
        j = j + 1;
    }
    proof {
        assert forall|t: int|
            0 <= t < corners.len() && #[trigger] corners@[t].y == pos.y - 1 implies !beats(
            corners@,
            scores@,
            t,
            i as int,
        ) by {
            if t < p {
            } else if t < j {
                assert(scores@[t] < score);
            } else {
                if t > j {
                    assert(raster_before(corners@[j as int], corners@[t]));
                }
            }
        }
    }
    (false, p)
}

/// Every corner before the cursor lies above the row of corner `i`, and those on the row right
/// above it lie left of its neighbourhood.
pub open spec fn above_done(corners: Seq<Corner>, i: int, cursor: int) -> bool {
    forall|t: int|
        0 <= t < cursor ==> {
            &&& (#[trigger] corners[t]).y < corners[i].y
            &&& corners[t].y + 1 == corners[i].y ==> corners[t].x + 1 < corners[i].x
        }
}

/// Every corner before the cursor lies at most one row below corner `i`, and those on the row right
/// below it lie left of its neighbourhood.
pub open spec fn below_done(corners: Seq<Corner>, i: int, cursor: int) -> bool {
    forall|t: int|
        0 <= t < cursor ==> {
            &&& (#[trigger] corners[t]).y <= corners[i].y + 1
            &&& corners[t].y == corners[i].y + 1 ==> corners[t].x + 1 < corners[i].x
        }
}

/// Looks for a corner on the row below corner `i` that beats it. `cursor` is where the search left
/// off; `start` is the first corner of the row below.
fn beaten_below(corners: &[Corner], scores: &[i32], i: usize, start: usize, cursor: usize) -> (res: (
    bool,
    usize,
))
    requires
        i < corners.len() <= scores.len(),
        raster_ordered(corners@),
        corners@[i as int].y < usize::MAX,
        is_row_start(corners@, corners.len() as int, corners@[i as int].y + 1, start),
        start != usize::MAX,
        cursor < corners.len(),
        below_done(corners@, i as int, cursor as int),
    ensures
        res.1 <= corners.len(),
        below_done(corners@, i as int, res.1 as int),
        res.0 == exists|j: int|
            0 <= j < corners.len() && #[trigger] corners@[j].y == corners@[i as int].y + 1 && beats(
                corners@,
                scores@,
                j,
                i as int,
            ),
{
    let sz: usize = corners.len();
    let pos: Corner = corners[i];
    let score: i32 = scores[i];
    let px: usize = pos.x;
    let below: usize = pos.y + 1;
    let mut p: usize = cursor;
    if corners[p].y < below {
        p = start;
    }
    while p < sz && corners[p].y == below && corners[p].x < px && px - corners[p].x > 1
        invariant
            sz == corners.len(),
            i < corners.len() <= scores.len(),
            raster_ordered(corners@),
            pos == corners@[i as int],
            px == pos.x,
            below == pos.y + 1,
            p <= sz,
            p < sz ==> below <= corners@[p as int].y,
            below_done(corners@, i as int, p as int),
        decreases sz - p,
    {
        proof {
            if p + 1 < sz {
                assert(raster_before(corners@[p as int], corners@[p + 1]));
            }
        }
        p = p + 1;
    }
    let mut j: usize = p;
    while j < sz && corners[j].y == below && (corners[j].x <= px || corners[j].x - px <= 1)
        invariant
            sz == corners.len(),
            i < corners.len() <= scores.len(),
            raster_ordered(corners@),
            pos == corners@[i as int],
            score == scores@[i as int],
            px == pos.x,
            below == pos.y + 1,
            p <= j <= sz,
            p < sz ==> below <= corners@[p as int].y,
            p < sz && corners@[p as int].y == below ==> corners@[p as int].x + 1 >= px,
            below_done(corners@, i as int, p as int),
            forall|t: int| p <= t < j ==> (#[trigger] scores@[t]) < score,
        decreases sz - j,
    {
        proof {
            if p < j {
                assert(raster_before(corners@[p as int], corners@[j as int]));
            }
        }
        if scores[j] >= score {
            proof {
                assert(corners@[j as int].y == pos.y + 1);
                assert(beats(corners@, scores@, j as int, i as int));
            }
            return (true, p);
        }
        j = j + 1;
    }
    proof {
        assert forall|t: int|
            0 <= t < corners.len() && #[trigger] corners@[t].y == pos.y + 1 implies !beats(
            corners@,
            scores@,
            t,
            i as int,
        ) by {
            if t < p {
            } else if t < j {
                assert(scores@[t] < score);
            } else {
                if p < t {
                    assert(raster_before(corners@[p as int], corners@[t]));
                }
                if t > j {
                    assert(raster_before(corners@[j as int], corners@[t]));
                }
                if p < j && j < sz {
                    assert(raster_before(corners@[p as int], corners@[j as int]));
                }
            }
        }
    }
    (false, p)
}

/// Non-max suppression of a raster-ordered corner list: a corner dies to any corner in its 3x3
/// neighbourhood of at least its own score. Returns how many survive; `out` takes the first
/// survivors that it has room for. Returns 0 for an empty list, fewer scores than corners, or a
/// `rowidx` that does not reach the row of the last corner.
pub fn nonmax_suppression(
    corners: &[Corner],
    scores: &[i32],
    rowidx: &mut [usize],
    out: &mut [Corner],
) -> (n: usize)
    requires
        suppressible(corners@, scores@.len() as int, old(rowidx)@.len() as int) ==> raster_ordered(
            corners@,
        ),
    ensures
        rows_after(corners@, scores@.len() as int, old(rowidx)@, final(rowidx)@),
        suppressible(corners@, scores@.len() as int, old(rowidx)@.len() as int) ==> {
            &&& n == survivors(corners@, scores@).len()
            &&& final(out)@ == stored(old(out)@, survivors(corners@, scores@))
        },
        !suppressible(corners@, scores@.len() as int, old(rowidx)@.len() as int) ==> {
            &&& n == 0
            &&& final(out)@ == old(out)@
        },
{
    let sz: usize = corners.len();
    if sz == 0 || scores.len() < sz {
        return 0;
    }
    let last_row: usize = corners[sz - 1].y;
    if rowidx.len() <= last_row {
        return 0;
    }
    index_rows(corners, rowidx);
    let mut point_above: usize = 0;
    let mut point_below: usize = 0;
    let mut n: usize = 0;
    assert(out@ =~= stored(old(out)@, seq![]));
    for i in 0..sz
        invariant
            sz == corners.len(),
            0 < sz <= scores.len(),
            last_row == corners@[sz - 1].y,
            last_row < rowidx.len(),
            raster_ordered(corners@),
            is_row_index(corners@, rowidx@),
            point_above <= i,
            i < sz ==> above_done(corners@, i as int, point_above as int),
            point_below <= sz,
            i < sz ==> below_done(corners@, i as int, point_below as int),
            n <= i,
            n == survivors_upto(corners@, scores@, i as int).len(),
            out@.len() == old(out)@.len(),
            out@ == stored(old(out)@, survivors_upto(corners@, scores@, i as int)),
    {
        let score: i32 = scores[i];
        let pos: Corner = corners[i];
        let mut dead: bool = false;
        proof {
            if i < sz - 1 {
                assert(raster_before(corners@[i as int], corners@[sz - 1]));
            }
        }
        if i > 0 {
            let l: Corner = corners[i - 1];
            assert(raster_before(corners@[i - 1], corners@[i as int]));
            if l.y == pos.y && l.x == pos.x - 1 && scores[i - 1] >= score {
                dead = true;
                assert(beats(corners@, scores@, i - 1, i as int));
            }
        }
        if !dead && i + 1 < sz {
            let r: Corner = corners[i + 1];
            assert(raster_before(corners@[i as int], corners@[i + 1]));
            if r.y == pos.y && r.x - 1 == pos.x && scores[i + 1] >= score {
                dead = true;
                assert(beats(corners@, scores@, i + 1, i as int));
            }
        }
        let ghost same_row_clear = !dead;
        if !dead && pos.y != 0 && rowidx[pos.y - 1] != usize::MAX {
            let start: usize = rowidx[pos.y - 1];
            assert(is_row_start(corners@, sz as int, pos.y - 1, rowidx@[pos.y - 1]));
            let (hit, cursor): (bool, usize) = beaten_above(corners, scores, i, start, point_above);
            point_above = cursor;
            if hit {
                dead = true;
            }
        }
        let ghost above_clear = !dead;
        if !dead && pos.y != last_row && rowidx[pos.y + 1] != usize::MAX && point_below < sz {
            let start: usize = rowidx[pos.y + 1];
            assert(is_row_start(corners@, sz as int, pos.y + 1, rowidx@[pos.y + 1]));
            let (hit, cursor): (bool, usize) = beaten_below(corners, scores, i, start, point_below);
            point_below = cursor;
            if hit {
                dead = true;
            }
        }
        proof {
            if !dead {
                assert forall|j: int| 0 <= j < corners.len() implies !#[trigger] beats(
                    corners@,
                    scores@,
                    j,
                    i as int,
                ) by {
                    let cj = corners@[j];
                    if j != i {
                        if cj.y == pos.y {
                            if j < i - 1 {
                                assert(raster_before(corners@[j], corners@[i - 1]));
                                assert(raster_before(corners@[i - 1], corners@[i as int]));
                            } else if j > i + 1 {
                                assert(raster_before(corners@[i + 1], corners@[j]));
                                assert(raster_before(corners@[i as int], corners@[i + 1]));
                            }
                        } else if cj.y == pos.y - 1 {
                            assert(is_row_start(corners@, sz as int, pos.y - 1, rowidx@[pos.y - 1]));
                            assert(corners@[j].y == pos.y - 1);
                        } else if cj.y == pos.y + 1 {
                            if j < sz - 1 {
                                assert(raster_before(corners@[j], corners@[sz - 1]));
                            }
                            assert(is_row_start(corners@, sz as int, pos.y + 1, rowidx@[pos.y + 1]));
                            assert(corners@[j].y == pos.y + 1);
                        }
                    }
                }
                assert(survives(corners@, scores@, i as int));
            } else {
                assert(!survives(corners@, scores@, i as int));
            }
            lemma_stored_push(
                old(out)@,
                survivors_upto(corners@, scores@, i as int),
                corners@[i as int],
            );
            if i + 1 < sz {
                assert(raster_before(corners@[i as int], corners@[i + 1]));
            }
        }
        if !dead {
            if n < out.len() {
                out[n] = pos;
            }
            n = n + 1;
        }
    }
    n
}

/// Scan position of a corner.
pub open spec fn pos_of(w: int, c: Corner) -> int {
    (c.y - 3) * (w - 6) + (c.x - 3)
}

/// A corner that lies inside the scanned interior.
pub open spec fn interior(w: int, h: int, c: Corner) -> bool {
    3 <= c.y < h - 3 && 3 <= c.x < w - 3
}

/// Scan order is raster order.
proof fn lemma_pos_order(w: int, h: int, a: Corner, b: Corner)
    requires
        interior(w, h, a),
        interior(w, h, b),
        pos_of(w, a) < pos_of(w, b),
    ensures
        raster_before(a, b),
{
    if a.y > b.y {
        assert((a.y - 3) * (w - 6) >= (b.y - 3) * (w - 6) + (w - 6)) by (nonlinear_arith)
            requires
                a.y - 3 >= b.y - 3 + 1,
                0 <= w - 6,
        ;
    }
}

/// What the scan lists lies in the interior, meets the corner rule and comes in scan order.
proof fn lemma_corners_upto(im: Seq<u8>, w: usize, h: usize, stride: int, b: int, p: int)
    requires
        scannable(w as int, h as int, stride),
        0 <= p <= (w - 6) * (h - 6),
    ensures
        forall|i: int|
            0 <= i < corners_upto(im, w as int, stride, b, p).len() ==> {
                let c = #[trigger] corners_upto(im, w as int, stride, b, p)[i];
                &&& interior(w as int, h as int, c)
                &&& pos_of(w as int, c) < p
                &&& is_corner(im, stride, corner_index(stride, c), b)
            },
        raster_ordered(corners_upto(im, w as int, stride, b, p)),
    decreases p,
{
    if p > 0 {
        lemma_corners_upto(im, w, h, stride, b, p - 1);
        crate::grid::lemma_split(p - 1, w - 6, h - 6);
        let list = corners_upto(im, w as int, stride, b, p);
        let before = corners_upto(im, w as int, stride, b, p - 1);
        let (y, x) = scan_pos(w as int, p - 1);
        if is_corner(im, stride, y * stride + x, b) {
            let c = Corner { x: x as usize, y: y as usize };
            assert(interior(w as int, h as int, c));
            assert(pos_of(w as int, c) == p - 1);
            assert forall|i: int, j: int| 0 <= i < j < list.len() implies raster_before(
                #[trigger] list[i],
                #[trigger] list[j],
            ) by {
                if j == before.len() {
                    assert(before[i] == list[i]);
                    lemma_pos_order(w as int, h as int, list[i], list[j]);
                } else {
                    assert(before[i] == list[i] && before[j] == list[j]);
                }
            }
            assert forall|i: int| 0 <= i < list.len() implies {
                let c = #[trigger] list[i];
                &&& interior(w as int, h as int, c)
                &&& pos_of(w as int, c) < p
                &&& is_corner(im, stride, corner_index(stride, c), b)
            } by {
                if i < before.len() {
                    assert(before[i] == list[i]);
                }
            }
        }
    }
}

/// Every corner inside the interior that meets the rule is listed.
proof fn lemma_corners_complete(im: Seq<u8>, w: usize, h: usize, stride: int, b: int, p: int, c: Corner)
    requires
        scannable(w as int, h as int, stride),
        0 <= p <= (w - 6) * (h - 6),
        interior(w as int, h as int, c),
        pos_of(w as int, c) < p,
        is_corner(im, stride, corner_index(stride, c), b),
    ensures
        corners_upto(im, w as int, stride, b, p).contains(c),
    decreases p,
{
    lemma_row_major(c.y - 3, c.x - 3, w - 6, h - 6);
    let list = corners_upto(im, w as int, stride, b, p);
    if pos_of(w as int, c) == p - 1 {
        assert(list[list.len() - 1] == c);
    } else {
        lemma_corners_complete(im, w, h, stride, b, p - 1, c);
        let before = corners_upto(im, w as int, stride, b, p - 1);
        let i = choose|i: int| 0 <= i < before.len() && before[i] == c;
        assert(list[i] == c);
    }
}

/// The detector lists exactly the interior pixels that meet the FAST-12 rule, in raster order.
pub proof fn detect_is_exact(im: Seq<u8>, w: usize, h: usize, stride: int, b: int, c: Corner)
    requires
        scannable(w as int, h as int, stride),
    ensures
        corners_of(im, w as int, h as int, stride, b).contains(c) <==> (interior(
            w as int,
            h as int,
            c,
        ) && is_corner(im, stride, corner_index(stride, c), b)),
        raster_ordered(corners_of(im, w as int, h as int, stride, b)),
{
    let n = (w - 6) * (h - 6);
    assert(0 <= n) by (nonlinear_arith)
        requires
            n == (w - 6) * (h - 6),
            0 <= w - 6,
            0 <= h - 6,
    ;
    let list = corners_of(im, w as int, h as int, stride, b);
    lemma_corners_upto(im, w, h, stride, b, n);
    if interior(w as int, h as int, c) && is_corner(im, stride, corner_index(stride, c), b) {
        lemma_row_major(c.y - 3, c.x - 3, w - 6, h - 6);
        lemma_corners_complete(im, w, h, stride, b, n, c);
    }
    if list.contains(c) {
        let i = choose|i: int| 0 <= i < list.len() && list[i] == c;
        assert(list[i] == c);
    }
}

/// The circle of a listed corner lies inside the image, and its threshold is below 255.
pub(crate) proof fn lemma_listed(
    len: usize,
    im: Seq<u8>,
    w: usize,
    h: usize,
    stride: usize,
    b: int,
    i: int,
)
    requires
        scannable(w as int, h as int, stride as int),
        image_fits(len as int, w as int, h as int, stride as int),
        0 <= i < corners_of(im, w as int, h as int, stride as int, b).len(),
    ensures
        ring_inside(
            len as int,
            stride as int,
            corner_index(stride as int, corners_of(im, w as int, h as int, stride as int, b)[i]),
        ),
        interior(
            w as int,
            h as int,
            corners_of(im, w as int, h as int, stride as int, b)[i],
        ),
        b < 255,
{
    lemma_sizes(len, w, h, stride);
    lemma_corners_upto(im, w, h, stride as int, b, (w - 6) * (h - 6));
    let c = corners_of(im, w as int, h as int, stride as int, b)[i];
    lemma_scan(len as int, w as int, h as int, stride as int, c.y as int, c.x as int);
    if b >= 255 {
        no_corner_above_255(im, stride as int, corner_index(stride as int, c), b);
    }
}

/// Survivors come from the list, in its order.
pub proof fn lemma_survivors(corners: Seq<Corner>, scores: Seq<i32>, n: int)
    requires
        0 <= n <= corners.len(),
        raster_ordered(corners),
    ensures
        survivors_upto(corners, scores, n).len() <= n,
        raster_ordered(survivors_upto(corners, scores, n)),
        forall|i: int|
            0 <= i < survivors_upto(corners, scores, n).len() ==> exists|j: int|
                0 <= j < n && #[trigger] corners[j] == #[trigger] survivors_upto(
                    corners,
                    scores,
                    n,
                )[i] && survives(corners, scores, j),
    decreases n,
{
    if n > 0 {
        lemma_survivors(corners, scores, n - 1);
        let list = survivors_upto(corners, scores, n);
        let before = survivors_upto(corners, scores, n - 1);
        assert forall|i: int| 0 <= i < list.len() implies exists|j: int|
            0 <= j < n && #[trigger] corners[j] == #[trigger] list[i] && survives(corners, scores, j) by {
            if i < before.len() {
                assert(before[i] == list[i]);
                let j = choose|j: int|
                    0 <= j < n - 1 && #[trigger] corners[j] == before[i] && survives(
                        corners,
                        scores,
                        j,
                    );
                assert(corners[j] == list[i]);
            } else {
                assert(corners[n - 1] == list[i]);
            }
        }
        assert forall|i: int, j: int| 0 <= i < j < list.len() implies raster_before(
            #[trigger] list[i],
            #[trigger] list[j],
        ) by {
            assert(before[i] == list[i]);
            if j < before.len() {
                assert(before[j] == list[j]);
            } else {
                let k = choose|k: int|
                    0 <= k < n - 1 && #[trigger] corners[k] == before[i] && survives(
                        corners,
                        scores,
                        k,
                    );
                assert(raster_before(corners[k], corners[n - 1]));
            }
        }
    }
}

/// Two different survivors are never neighbours.
pub proof fn survivors_are_apart(corners: Seq<Corner>, scores: Seq<i32>, a: int, b: int)
    requires
        raster_ordered(corners),
        0 <= a < survivors(corners, scores).len(),
        0 <= b < survivors(corners, scores).len(),
        a != b,
    ensures
        ({
            let p = survivors(corners, scores)[a];
            let q = survivors(corners, scores)[b];
            !(-1 <= p.x - q.x <= 1 && -1 <= p.y - q.y <= 1)
        }),
{
    let list = survivors(corners, scores);
    lemma_survivors(corners, scores, corners.len() as int);
    let i = choose|i: int|
        0 <= i < corners.len() && #[trigger] corners[i] == list[a] && survives(corners, scores, i);
    let j = choose|j: int|
        0 <= j < corners.len() && #[trigger] corners[j] == list[b] && survives(corners, scores, j);
    if a < b {
        assert(raster_before(list[a], list[b]));
    } else {
        assert(raster_before(list[b], list[a]));
    }
    assert(!beats(corners, scores, i, j));
    assert(!beats(corners, scores, j, i));
}

/// The raw corners that suppression sees: as many as fit both scratch buffers.
pub open spec fn raw_seen(
    im: Seq<u8>,
    w: int,
    h: int,
    stride: int,
    b: int,
    cap: int,
) -> Seq<Corner> {
    let raw = corners_of(im, w, h, stride, b);
    raw.take(if raw.len() <= cap {
        raw.len() as int
    } else {
        cap
    })
}

/// The survivors of detection, scoring and suppression with scratch for `cap` raw corners and a
/// row index of `rows` entries.
pub open spec fn nonmax_of(
    im: Seq<u8>,
    w: int,
    h: int,
    stride: int,
    b: int,
    cap: int,
    rows: int,
) -> Seq<Corner> {
    let raw = raw_seen(im, w, h, stride, b, cap);
    if raw.len() == 0 || rows <= raw[raw.len() - 1].y {
        seq![]
    } else {
        survivors(raw, scores_of(im, stride, raw, b))
    }
}

/// Scores the raw corners that a detector left in `corners`, as far as `corners` and `scores` reach;
/// returns how many.
pub(crate) fn score_raw(
    im: &[u8],
    w: usize,
    h: usize,
    stride: usize,
    b: i32,
    nraw: usize,
    corners: &[Corner],
    scores: &mut [i32],
) -> (n: usize)
    requires
        scannable(w as int, h as int, stride as int),
        image_fits(im.len() as int, w as int, h as int, stride as int),
        nraw == corners_of(im@, w as int, h as int, stride as int, b as int).len(),
        nraw > 0,
        corners@.take(least(nraw as int, corners@.len() as int)) == corners_of(
            im@,
            w as int,
            h as int,
            stride as int,
            b as int,
        ).take(least(nraw as int, corners@.len() as int)),
    ensures
        n == least(least(nraw as int, corners@.len() as int), old(scores)@.len() as int),
        corners@.take(n as int) == raw_seen(
            im@,
            w as int,
            h as int,
            stride as int,
            b as int,
            least(corners@.len() as int, old(scores)@.len() as int),
        ),
        final(scores)@.take(n as int) == scores_of(
            im@,
            stride as int,
            corners@.take(n as int),
            b as int,
        ),
        final(scores)@ == stored(
            old(scores)@,
            scores_of(
                im@,
                stride as int,
                raw_seen(
                    im@,
                    w as int,
                    h as int,
                    stride as int,
                    b as int,
                    corners@.len() as int,
                ),
                b as int,
            ),
        ),
{
    let ghost raw = corners_of(im@, w as int, h as int, stride as int, b as int);
    let have: usize = if nraw <= corners.len() {
        nraw
    } else {
        corners.len()
    };
    let seen: &[Corner] = vstd::slice::slice_subrange(corners, 0, have);
    proof {
        assert(seen@ =~= raw.take(have as int));
        assert forall|i: int| 0 <= i < seen.len() && i < scores.len() implies ring_inside(
            im.len() as int,
            stride as int,
            #[trigger] corner_index(stride as int, seen@[i]),
        ) by {
            assert(seen@[i] == raw[i]);
            lemma_listed(im.len(), im@, w, h, stride, b as int, i);
        }
        lemma_listed(im.len(), im@, w, h, stride, b as int, 0);
    }
    let n: usize = fast12_score(im, stride, seen, b, scores);
    proof {
        let full = scores_of(im@, stride as int, seen@, b as int);
        lemma_stored_take(old(scores)@, full, n as int);
        assert forall|i: int| 0 <= i < n implies corners@[i] == raw[i] by {
            assert(seen@[i] == raw.take(have as int)[i]);
        }
        assert(corners@.take(n as int) =~= raw_seen(
            im@,
            w as int,
            h as int,
            stride as int,
            b as int,
            least(corners@.len() as int, old(scores)@.len() as int),
        ));
        assert(scores@.take(n as int) =~= scores_of(
            im@,
            stride as int,
            corners@.take(n as int),
            b as int,
        ));
    }
    n
}

/// Suppresses the non-maxima among the first `n` raw corners, which are scored.
pub(crate) fn suppress_raw(
    im: &[u8],
    w: usize,
    h: usize,
    stride: usize,
    b: i32,
    Ghost(cap): Ghost<int>,
    n: usize,
    corners: &[Corner],
    scores: &[i32],
    rowidx: &mut [usize],
    out: &mut [Corner],
) -> (m: usize)
    requires
        scannable(w as int, h as int, stride as int),
        image_fits(im.len() as int, w as int, h as int, stride as int),
        cap >= 0,
        n <= corners.len(),
        n <= scores.len(),
        corners@.take(n as int) == raw_seen(
            im@,
            w as int,
            h as int,
            stride as int,
            b as int,
            cap,
        ),
        scores@.take(n as int) == scores_of(im@, stride as int, corners@.take(n as int), b as int),
    ensures
        ({
            let list = nonmax_of(
                im@,
                w as int,
                h as int,
                stride as int,
                b as int,
                cap,
                old(rowidx)@.len() as int,
            );
            &&& m == list.len()
            &&& final(out)@ == stored(old(out)@, list)
        }),
        rows_after(corners@.take(n as int), n as int, old(rowidx)@, final(rowidx)@),
{
    let kept: &[Corner] = vstd::slice::slice_subrange(corners, 0, n);
    let kept_scores: &[i32] = vstd::slice::slice_subrange(scores, 0, n);
    proof {
        let raw = corners_of(im@, w as int, h as int, stride as int, b as int);
        assert(kept@ =~= corners@.take(n as int));
        assert(kept_scores@ =~= scores@.take(n as int));
        lemma_sizes(im.len(), w, h, stride);
        lemma_corners_upto(im@, w, h, stride as int, b as int, (w - 6) * (h - 6));
        assert forall|i: int, j: int| 0 <= i < j < kept@.len() implies raster_before(
            #[trigger] kept@[i],
            #[trigger] kept@[j],
        ) by {
            assert(kept@[i] == raw[i] && kept@[j] == raw[j]);
        }
        assert(stored(out@, seq![]) =~= out@);
    }
    nonmax_suppression(kept, kept_scores, rowidx, out)
}

/// Scores the raw corners that a detector left in `corners` and suppresses the non-maxima: the
/// common second half of both detectors.
pub(crate) fn score_and_suppress(
    im: &[u8],
    w: usize,
    h: usize,
    stride: usize,
    b: i32,
    nraw: usize,
    corners: &[Corner],
    scores: &mut [i32],
    rowidx: &mut [usize],
    out: &mut [Corner],
) -> (n: usize)
    requires
        scannable(w as int, h as int, stride as int),
        image_fits(im.len() as int, w as int, h as int, stride as int),
        nraw == corners_of(im@, w as int, h as int, stride as int, b as int).len(),
        nraw > 0,
        corners@.take(least(nraw as int, corners@.len() as int)) == corners_of(
            im@,
            w as int,
            h as int,
            stride as int,
            b as int,
        ).take(least(nraw as int, corners@.len() as int)),
    ensures
        ({
            let list = nonmax_of(
                im@,
                w as int,
                h as int,
                stride as int,
                b as int,
                least(corners@.len() as int, old(scores)@.len() as int),
                old(rowidx)@.len() as int,
            );
            &&& n == list.len()
            &&& final(out)@ == stored(old(out)@, list)
        }),
        final(scores)@ == stored(
            old(scores)@,
            scores_of(
                im@,
                stride as int,
                raw_seen(
                    im@,
                    w as int,
                    h as int,
                    stride as int,
                    b as int,
                    corners@.len() as int,
                ),
                b as int,
            ),
        ),
        rows_after(
            raw_seen(
                im@,
                w as int,
                h as int,
                stride as int,
                b as int,
                least(corners@.len() as int, old(scores)@.len() as int),
            ),
            old(scores)@.len() as int,
            old(rowidx)@,
            final(rowidx)@,
        ),
{
    let n: usize = score_raw(im, w, h, stride, b, nraw, corners, scores);
    suppress_raw(
        im,
        w,
        h,
        stride,
        b,
        Ghost(least(corners@.len() as int, scores@.len() as int)),
        n,
        corners,
        scores,
        rowidx,
        out,
    )
}

/// One of the four buffers is empty.
pub open spec fn any_empty(
    corners: Seq<Corner>,
    scores: Seq<i32>,
    rowidx: Seq<usize>,
    out: Seq<Corner>,
) -> bool {
    corners.len() == 0 || scores.len() == 0 || rowidx.len() == 0 || out.len() == 0
}

/// Detection, scoring and suppression in one call: returns the survivor count, and `out` takes the
/// first survivors that it has room for. `corners` has to fit the whole raw list for exact
/// suppression. Returns 0, and changes nothing, where a buffer is empty.
pub fn fast12_detect_nonmax(
    im: &[u8],
    w: usize,
    h: usize,
    stride: usize,
    b: i32,
    corners: &mut [Corner],
    scores: &mut [i32],
    rowidx: &mut [usize],
    out: &mut [Corner],
) -> (n: usize)
    requires
        !any_empty(old(corners)@, old(scores)@, old(rowidx)@, old(out)@) ==> image_fits(
            im.len() as int,
            w as int,
            h as int,
            stride as int,
        ),
    ensures
        any_empty(old(corners)@, old(scores)@, old(rowidx)@, old(out)@) ==> {
            &&& n == 0
            &&& final(corners)@ == old(corners)@
            &&& final(scores)@ == old(scores)@
            &&& final(rowidx)@ == old(rowidx)@
            &&& final(out)@ == old(out)@
        },
        !any_empty(old(corners)@, old(scores)@, old(rowidx)@, old(out)@) ==> {
            let raw = corners_of(im@, w as int, h as int, stride as int, b as int);
            let fit = raw_seen(
                im@,
                w as int,
                h as int,
                stride as int,
                b as int,
                old(corners)@.len() as int,
            );
            let cap = least(old(corners)@.len() as int, old(scores)@.len() as int);
            let list = nonmax_of(
                im@,
                w as int,
                h as int,
                stride as int,
                b as int,
                cap,
                old(rowidx)@.len() as int,
            );
            &&& n == list.len()
            &&& final(out)@ == stored(old(out)@, list)
            &&& final(corners)@ == stored(old(corners)@, raw)
            &&& final(scores)@ == stored(
                old(scores)@,
                scores_of(im@, stride as int, fit, b as int),
            )
            &&& rows_after(
                raw_seen(im@, w as int, h as int, stride as int, b as int, cap),
                old(scores)@.len() as int,
                old(rowidx)@,
                final(rowidx)@,
            )
        },
{
    if corners.is_empty() || scores.is_empty() || rowidx.is_empty() || out.is_empty() {
        return 0;
    }
    let nraw: usize = fast12_detect(im, w, h, stride, b, corners);
    if nraw == 0 {
        proof {
            assert(stored(out@, seq![]) =~= out@);
            let fit = raw_seen(
                im@,
                w as int,
                h as int,
                stride as int,
                b as int,
                corners@.len() as int,
            );
            assert(stored(scores@, scores_of(im@, stride as int, fit, b as int)) =~= scores@);
        }
        return 0;
    }
    proof {
        let raw = corners_of(im@, w as int, h as int, stride as int, b as int);
        lemma_stored_take(old(corners)@, raw, least(nraw as int, corners@.len() as int));
    }
    score_and_suppress(im, w, h, stride, b, nraw, corners, scores, rowidx, out)
}

} // verus!
