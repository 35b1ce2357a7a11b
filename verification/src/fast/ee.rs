//! FAST-12 in groups of sixteen pixels: a lane is a candidate where three of the four cardinal
//! circle pixels are brighter, or darker, than the centre by the threshold; each candidate is then
//! confirmed with the full rule. The corner set is that of the pixel-by-pixel detector.

use vstd::prelude::*;

use crate::fast::{
    any_empty, circle_offset, circle_offsets, corner_at, corners_of, corners_upto, fast12_detect,
    has_run, image_fits, is_corner, is_offsets, lemma_corners_len, lemma_scan, lemma_sizes,
    nonmax_of, passes, raw_seen, ring, rows_after, run12, scannable, score_and_suppress,
    scores_of, Corner,
};
use crate::store::{least, lemma_stored_push, lemma_stored_take, stored};
use crate::words::{pack4, unpack4};

verus! {

/// At least three of four.
pub open spec fn three_of(a: bool, b: bool, c: bool, d: bool) -> bool {
    (a && b && c) || (b && c && d) || (c && d && a) || (d && a && b)
}

/// The cardinal heuristic: three of the four cardinal values are above `c + b`, or three are below
/// `c - b`.
pub open spec fn candidate(c: int, p0: int, p4: int, p8: int, p12: int, b: int) -> bool {
    three_of(p0 > c + b, p4 > c + b, p8 > c + b, p12 > c + b) || three_of(
        p0 < c - b,
        p4 < c - b,
        p8 < c - b,
        p12 < c - b,
    )
}

/// One lane of a group, whose five windows start at the given indices.
pub open spec fn lane_candidate(
    im: Seq<u8>,
    a_c: int,
    a_p0: int,
    a_p4: int,
    a_p8: int,
    a_p12: int,
    b: int,
    lane: int,
) -> bool {
    candidate(
        im[a_c + lane] as int,
        im[a_p0 + lane] as int,
        im[a_p4 + lane] as int,
        im[a_p8 + lane] as int,
        im[a_p12 + lane] as int,
        b,
    )
}

/// Candidates of one group of sixteen lanes as four words, one byte per lane: 0xFF for a candidate,
/// 0 otherwise. The bounds saturate at 0 and 255.
pub fn group_words(
    im: &[u8],
    a_c: usize,
    a_p0: usize,
    a_p4: usize,
    a_p8: usize,
    a_p12: usize,
    b: u8,
) -> (words: [u32; 4])
    requires
        a_c + 16 <= im.len(),
        a_p0 + 16 <= im.len(),
        a_p4 + 16 <= im.len(),
        a_p8 + 16 <= im.len(),
        a_p12 + 16 <= im.len(),
    ensures
        forall|lane: int|
            0 <= lane < 16 ==> #[trigger] crate::words::word_byte(words@[lane / 4], lane % 4) == if lane_candidate(
                im@,
                a_c as int,
                a_p0 as int,
                a_p4 as int,
                a_p8 as int,
                a_p12 as int,
                b as int,
                lane,
            ) {
                255u8
            } else {
                0u8
            },
{
    let mut bytes: [u8; 16] = [0; 16];
    for lane in 0..16usize
        invariant
            a_c + 16 <= im.len(),
            a_p0 + 16 <= im.len(),
            a_p4 + 16 <= im.len(),
            a_p8 + 16 <= im.len(),
            a_p12 + 16 <= im.len(),
            forall|k: int|
                0 <= k < lane ==> #[trigger] bytes@[k] == if lane_candidate(
                    im@,
                    a_c as int,
                    a_p0 as int,
                    a_p4 as int,
                    a_p8 as int,
                    a_p12 as int,
                    b as int,
                    k,
                ) {
                    255u8
                } else {
                    0u8
                },
    {
        let c: i32 = im[a_c + lane] as i32;
        let bb: i32 = b as i32;
        let cb: i32 = if c + bb > 255 {
            255
        } else {
            c + bb
        };
        let c_b: i32 = if c - bb < 0 {
            0
        } else {
            c - bb
        };
        let p0: i32 = im[a_p0 + lane] as i32;
        let p4: i32 = im[a_p4 + lane] as i32;
        let p8: i32 = im[a_p8 + lane] as i32;
        let p12: i32 = im[a_p12 + lane] as i32;
        let (l0, l1, l2, l3): (bool, bool, bool, bool) = (p0 > cb, p4 > cb, p8 > cb, p12 > cb);
        let (d0, d1, d2, d3): (bool, bool, bool, bool) = (p0 < c_b, p4 < c_b, p8 < c_b, p12 < c_b);
        let light: bool = (l0 && l1 && l2) || (l1 && l2 && l3) || (l2 && l3 && l0) || (l3 && l0 && l1);
        let dark: bool = (d0 && d1 && d2) || (d1 && d2 && d3) || (d2 && d3 && d0) || (d3 && d0 && d1);
        bytes[lane] = if light || dark {
            255
        } else {
            0
        };
    }
    let words: [u32; 4] = [
        pack4(bytes[0], bytes[1], bytes[2], bytes[3]),
        pack4(bytes[4], bytes[5], bytes[6], bytes[7]),
        pack4(bytes[8], bytes[9], bytes[10], bytes[11]),
        pack4(bytes[12], bytes[13], bytes[14], bytes[15]),
    ];
    proof {
        assert forall|lane: int| 0 <= lane < 16 implies #[trigger] crate::words::word_byte(
            words@[lane / 4],
            lane % 4,
        ) == if lane_candidate(
            im@,
            a_c as int,
            a_p0 as int,
            a_p4 as int,
            a_p8 as int,
            a_p12 as int,
            b as int,
            lane,
        ) {
            255u8
        } else {
            0u8
        } by {
            assert(crate::words::word_byte(words@[lane / 4], lane % 4) == bytes@[lane]);
        }
    }
    words
}

/// Any twelve contiguous circle pixels take in three of the four cardinal ones.
proof fn lemma_run_has_cardinals(im: Seq<u8>, stride: int, c: int, bright: bool, t: int)
    requires
        has_run(im, stride, c, bright, t),
    ensures
        three_of(
            passes(im, stride, c, 0, bright, t),
            passes(im, stride, c, 4, bright, t),
            passes(im, stride, c, 8, bright, t),
            passes(im, stride, c, 12, bright, t),
        ),
{
    let r = choose|r: int| 0 <= r < 16 && #[trigger] run12(im, stride, c, r, bright, t);
    let q = (r + 3) / 4 * 4;
    assert(passes(im, stride, c, q, bright, t));
    assert(passes(im, stride, c, q + 4, bright, t));
    assert(passes(im, stride, c, q + 8, bright, t));
    assert(q == 0 || q == 4 || q == 8 || q == 12 || q == 16);
    assert(ring(im, stride, c, 16) == ring(im, stride, c, 0));
    assert(ring(im, stride, c, 20) == ring(im, stride, c, 4));
    assert(ring(im, stride, c, 24) == ring(im, stride, c, 8));
}

/// Every corner is a candidate: the heuristic loses none.
pub proof fn corner_is_candidate(im: Seq<u8>, stride: int, c: int, b: int)
    requires
        is_corner(im, stride, c, b),
    ensures
        candidate(
            im[c] as int,
            im[c + 3 * stride] as int,
            im[c + 3] as int,
            im[c - 3 * stride] as int,
            im[c - 3] as int,
            b,
        ),
{
    assert(circle_offset(stride, 0) == 3 * stride);
    assert(circle_offset(stride, 4) == 3) by {
        assert(0 * stride == 0);
    }
    assert(circle_offset(stride, 8) == -3 * stride);
    assert(circle_offset(stride, 12) == -3) by {
        assert(0 * stride == 0);
    }
    if has_run(im, stride, c, true, im[c] + b) {
        lemma_run_has_cardinals(im, stride, c, true, im[c] + b);
    } else {
        lemma_run_has_cardinals(im, stride, c, false, im[c] - b);
    }
}

/// Scan position reached when row `y` is done up to column `x`.
pub open spec fn done_upto(w: int, y: int, x: int) -> int {
    (y - 3) * (w - 6) + if x <= 3 {
        0
    } else if x >= w - 3 {
        w - 6
    } else {
        x - 3
    }
}

/// FAST-12 corners of `im`, sixteen pixels at a time: the contract and the corners of
/// [`fast12_detect`]. Rows `3..h - 4` run in groups, their right edge and the last row pixel by
/// pixel. A threshold outside `1..=127`, or a row pitch below 16, goes to [`fast12_detect`].
pub fn fast12_detect_ee(
    im: &[u8],
    w: usize,
    h: usize,
    stride: usize,
    b: i32,
    out: &mut [Corner],
) -> (n: usize)
    requires
        image_fits(im.len() as int, w as int, h as int, stride as int),
    ensures
        n == corners_of(im@, w as int, h as int, stride as int, b as int).len(),
        final(out)@ == stored(
            old(out)@,
            corners_of(im@, w as int, h as int, stride as int, b as int),
        ),
{
    if w < 7 || h < 7 || stride < w {
        assert(out@ =~= stored(
            old(out)@,
            corners_of(im@, w as int, h as int, stride as int, b as int),
        ));
        return 0;
    }
    if b < 1 || b > 127 || stride < 16 {
        return fast12_detect(im, w, h, stride, b, out);
    }
    proof {
        lemma_sizes(im.len(), w, h, stride);
    }
    let off: [isize; 16] = circle_offsets(stride);
    let b_byte: u8 = b as u8;
    let mut n: usize = 0;
    proof {
        assert(0 * (w - 6) == 0);
        assert(out@ =~= stored(old(out)@, seq![]));
    }
    for y in 3..h - 4
        invariant
            scannable(w as int, h as int, stride as int),
            im.len() >= (h - 1) * stride + w,
            (w - 6) * (h - 6) <= im.len(),
            1 <= b <= 127,
            b_byte == b,
            is_offsets(off@, stride as int),
            out@.len() == old(out)@.len(),
            n == corners_upto(im@, w as int, stride as int, b as int, (y - 3) * (w - 6)).len(),
            out@ == stored(
                old(out)@,
                corners_upto(im@, w as int, stride as int, b as int, (y - 3) * (w - 6)),
            ),
    {
        proof {
            lemma_scan(im.len() as int, w as int, h as int, stride as int, y as int, 3);
            assert(y * stride + 4 * stride <= (h - 1) * stride) by (nonlinear_arith)
                requires
                    y + 4 <= h - 1,
                    0 <= stride,
            ;
            assert(3 * stride <= y * stride) by (nonlinear_arith)
                requires
                    3 <= y,
                    0 <= stride,
            ;
        }
        let row: usize = y * stride;
        let mut x: usize = 0;
        while w - x >= 16
            invariant
                3 <= y < h - 4,
                x <= w,
                row == y * stride,
                3 * stride <= row,
                row + 4 * stride + w <= im.len(),
                scannable(w as int, h as int, stride as int),
                im.len() >= (h - 1) * stride + w,
                (w - 6) * (h - 6) <= im.len(),
                1 <= b <= 127,
                b_byte == b,
                is_offsets(off@, stride as int),
                out@.len() == old(out)@.len(),
                n == corners_upto(
                    im@,
                    w as int,
                    stride as int,
                    b as int,
                    done_upto(w as int, y as int, x as int),
                ).len(),
                out@ == stored(
                    old(out)@,
                    corners_upto(
                        im@,
                        w as int,
                        stride as int,
                        b as int,
                        done_upto(w as int, y as int, x as int),
                    ),
                ),
            decreases w - x,
        {
            let c: usize = row + x;
            let words: [u32; 4] = group_words(
                im,
                c,
                c + 3 * stride,
                c + 3,
                c - 3 * stride,
                c - 3,
                b_byte,
            );
            for lane in 0..16usize
                invariant
                    3 <= y < h - 4,
                    x + 16 <= w,
                    row == y * stride,
                    c == row + x,
                    3 * stride <= row,
                    row + 4 * stride + w <= im.len(),
                    scannable(w as int, h as int, stride as int),
                    im.len() >= (h - 1) * stride + w,
                    (w - 6) * (h - 6) <= im.len(),
                    1 <= b <= 127,
                    is_offsets(off@, stride as int),
                    forall|k: int|
                        0 <= k < 16 ==> #[trigger] crate::words::word_byte(words@[k / 4], k % 4)
                            == if lane_candidate(
                            im@,
                            c as int,
                            c + 3 * stride,
                            c + 3,
                            c - 3 * stride,
                            c - 3,
                            b as int,
                            k,
                        ) {
                            255u8
                        } else {
                            0u8
                        },
                    out@.len() == old(out)@.len(),
                    n == corners_upto(
                        im@,
                        w as int,
                        stride as int,
                        b as int,
                        done_upto(w as int, y as int, x + lane),
                    ).len(),
                    out@ == stored(
                        old(out)@,
                        corners_upto(
                            im@,
                            w as int,
                            stride as int,
                            b as int,
                            done_upto(w as int, y as int, x + lane),
                        ),
                    ),
            {
                let xl: usize = x + lane;
                let word: [u8; 4] = unpack4(words[lane / 4]);
                let mark: u8 = word[lane % 4];
                assert(mark == crate::words::word_byte(words@[lane as int / 4], lane as int % 4));
                if 3 <= xl && xl <= w - 4 {
                    let ghost p = done_upto(w as int, y as int, xl as int);
                    let ghost before = corners_upto(im@, w as int, stride as int, b as int, p);
                    proof {
                        lemma_scan(
                            im.len() as int,
                            w as int,
                            h as int,
                            stride as int,
                            y as int,
                            xl as int,
                        );
                        lemma_corners_len(im@, w as int, stride as int, b as int, p);
                        lemma_stored_push(old(out)@, before, Corner { x: xl, y });
                        assert(p + 1 == done_upto(w as int, y as int, xl + 1));
                        if is_corner(im@, stride as int, row + xl, b as int) {
                            corner_is_candidate(im@, stride as int, row + xl, b as int);
                            assert(lane_candidate(
                                im@,
                                c as int,
                                c + 3 * stride,
                                c + 3,
                                c - 3 * stride,
                                c - 3,
                                b as int,
                                lane as int,
                            ));
                        }
                    }
                    if mark != 0 {
                        let ci: usize = row + xl;
                        let v: u8 = im[ci];
                        if corner_at(im, ci, &off, Ghost(stride as int), v, b) {
                            if n < out.len() {
                                out[n] = Corner { x: xl, y };
                            }
                            n = n + 1;
                        }
                    }
                }
            }
            x = x + 16;
        }
        let mut xl: usize = if x < 3 {
            3
        } else {
            x
        };
        while xl <= w - 4
            invariant
                3 <= y < h - 4,
                3 <= xl <= w,
                row == y * stride,
                scannable(w as int, h as int, stride as int),
                im.len() >= (h - 1) * stride + w,
                (w - 6) * (h - 6) <= im.len(),
                is_offsets(off@, stride as int),
                out@.len() == old(out)@.len(),
                n == corners_upto(
                    im@,
                    w as int,
                    stride as int,
                    b as int,
                    done_upto(w as int, y as int, xl as int),
                ).len(),
                out@ == stored(
                    old(out)@,
                    corners_upto(
                        im@,
                        w as int,
                        stride as int,
                        b as int,
                        done_upto(w as int, y as int, xl as int),
                    ),
                ),
            decreases w - xl,
        {
            let ghost p = done_upto(w as int, y as int, xl as int);
            let ghost before = corners_upto(im@, w as int, stride as int, b as int, p);
            proof {
                lemma_scan(im.len() as int, w as int, h as int, stride as int, y as int, xl as int);
                lemma_corners_len(im@, w as int, stride as int, b as int, p);
                lemma_stored_push(old(out)@, before, Corner { x: xl, y });
                assert(p + 1 == done_upto(w as int, y as int, xl + 1));
            }
            let ci: usize = row + xl;
            let v: u8 = im[ci];
            if corner_at(im, ci, &off, Ghost(stride as int), v, b) {
                if n < out.len() {
                    out[n] = Corner { x: xl, y };
                }
                n = n + 1;
            }
            xl = xl + 1;
        }
        proof {
            assert((y - 3) * (w - 6) + (w - 6) == (y + 1 - 3) * (w - 6)) by (nonlinear_arith);
        }
    }
    let y: usize = h - 4;
    proof {
        lemma_scan(im.len() as int, w as int, h as int, stride as int, y as int, 3);
        assert(y * stride <= (h - 1) * stride) by (nonlinear_arith)
            requires
                y <= h - 1,
                0 <= stride,
        ;
    }
    let row: usize = y * stride;
    for x in 3..w - 3
        invariant
            y == h - 4,
            row == y * stride,
            scannable(w as int, h as int, stride as int),
            im.len() >= (h - 1) * stride + w,
            (w - 6) * (h - 6) <= im.len(),
            is_offsets(off@, stride as int),
            out@.len() == old(out)@.len(),
            n == corners_upto(
                im@,
                w as int,
                stride as int,
                b as int,
                done_upto(w as int, y as int, x as int),
            ).len(),
            out@ == stored(
                old(out)@,
                corners_upto(
                    im@,
                    w as int,
                    stride as int,
                    b as int,
                    done_upto(w as int, y as int, x as int),
                ),
            ),
    {
        let ghost p = done_upto(w as int, y as int, x as int);
        let ghost before = corners_upto(im@, w as int, stride as int, b as int, p);
        proof {
            lemma_scan(im.len() as int, w as int, h as int, stride as int, y as int, x as int);
            lemma_corners_len(im@, w as int, stride as int, b as int, p);
            lemma_stored_push(old(out)@, before, Corner { x, y });
            assert(p + 1 == done_upto(w as int, y as int, x + 1));
        }
        let ci: usize = row + x;
        let v: u8 = im[ci];
        if corner_at(im, ci, &off, Ghost(stride as int), v, b) {
            if n < out.len() {
                out[n] = Corner { x, y };
            }
            n = n + 1;
        }
    }
    assert((h - 4 - 3) * (w - 6) + (w - 6) == (w - 6) * (h - 6)) by (nonlinear_arith);
    n
}

/// Detection in groups, scoring and suppression in one call: the contract and the survivors of
/// [`crate::fast::fast12_detect_nonmax`].
pub fn fast12_detect_nonmax_ee(
    im: &[u8],
    w: usize,
    h: usize,
    stride: usize,
    b: i32,
    corners: &mut [Corner],
    scores: &mut [i32],
    rowidx: &mut [usize],
    out: &mut [Corner],
) -> (n: usize)
    requires
        !any_empty(old(corners)@, old(scores)@, old(rowidx)@, old(out)@) ==> image_fits(
            im.len() as int,
            w as int,
            h as int,
            stride as int,
        ),
    ensures
        any_empty(old(corners)@, old(scores)@, old(rowidx)@, old(out)@) ==> {
            &&& n == 0
            &&& final(corners)@ == old(corners)@
            &&& final(scores)@ == old(scores)@
            &&& final(rowidx)@ == old(rowidx)@
            &&& final(out)@ == old(out)@
        },
        !any_empty(old(corners)@, old(scores)@, old(rowidx)@, old(out)@) ==> {
            let raw = corners_of(im@, w as int, h as int, stride as int, b as int);
            let fit = raw_seen(
                im@,
                w as int,
                h as int,
                stride as int,
                b as int,
                old(corners)@.len() as int,
            );
            let cap = least(old(corners)@.len() as int, old(scores)@.len() as int);
            let list = nonmax_of(
                im@,
                w as int,
                h as int,
                stride as int,
                b as int,
                cap,
                old(rowidx)@.len() as int,
            );
            &&& n == list.len()
            &&& final(out)@ == stored(old(out)@, list)
            &&& final(corners)@ == stored(old(corners)@, raw)
            &&& final(scores)@ == stored(
                old(scores)@,
                scores_of(im@, stride as int, fit, b as int),
            )
            &&& rows_after(
                raw_seen(im@, w as int, h as int, stride as int, b as int, cap),
                old(scores)@.len() as int,
                old(rowidx)@,
                final(rowidx)@,
            )
        },
{
    if corners.is_empty() || scores.is_empty() || rowidx.is_empty() || out.is_empty() {
        return 0;
    }
    let nraw: usize = fast12_detect_ee(im, w, h, stride, b, corners);
    if nraw == 0 {
        proof {
            assert(stored(out@, seq![]) =~= out@);
            let fit = raw_seen(
                im@,
                w as int,
                h as int,
                stride as int,
                b as int,
                corners@.len() as int,
            );
            assert(stored(scores@, scores_of(im@, stride as int, fit, b as int)) =~= scores@);
        }
        return 0;
    }
    proof {
        let raw = corners_of(im@, w as int, h as int, stride as int, b as int);
        lemma_stored_take(old(corners)@, raw, least(nraw as int, corners@.len() as int));
    }
    score_and_suppress(im, w, h, stride, b, nraw, corners, scores, rowidx, out)
}

} // verus!
