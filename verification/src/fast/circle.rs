//! The circle of the corner rule, and what a corner and its score are.

use vstd::prelude::*;

use crate::fast::{
    corner_is_monotone, has_run, is_corner, no_corner_above_255, passes, ring, run12, score,
    score_from, survives, survivors, survivors_upto, Corner, CIRCLE_DX, CIRCLE_DY,
};

verus! {

/// The circle is round: its pixels lie about three pixels from the centre, each lies opposite to the one
/// eight further on, and neighbours on it are neighbours in the image.
pub proof fn circle_is_round(k: int)
    requires
        0 <= k < 16,
    ensures
        ({
            let x = CIRCLE_DX@[k] as int;
            let y = CIRCLE_DY@[k] as int;
            let x8 = CIRCLE_DX@[(k + 8) % 16] as int;
            let y8 = CIRCLE_DY@[(k + 8) % 16] as int;
            let x1 = CIRCLE_DX@[(k + 1) % 16] as int;
            let y1 = CIRCLE_DY@[(k + 1) % 16] as int;
            &&& 8 <= x * x + y * y <= 10
            &&& x8 == -x && y8 == -y
            &&& -1 <= x1 - x <= 1 && -1 <= y1 - y <= 1
            &&& x1 != x || y1 != y
        }),
{
    assert(k == 0 || k == 1 || k == 2 || k == 3 || k == 4 || k == 5 || k == 6 || k == 7 || k == 8
        || k == 9 || k == 10 || k == 11 || k == 12 || k == 13 || k == 14 || k == 15);
    let x = CIRCLE_DX@[k] as int;
    let y = CIRCLE_DY@[k] as int;
    if x < 0 {
        assert(x == -1 || x == -2 || x == -3);
    }
    assert(x == -3 || x == -2 || x == -1 || x == 0 || x == 1 || x == 2 || x == 3);
    assert(y == -3 || y == -2 || y == -1 || y == 0 || y == 1 || y == 2 || y == 3);
}

/// The negative of an image.
pub open spec fn inverted(im: Seq<u8>) -> Seq<u8> {
    Seq::new(im.len(), |i: int| (255 - im[i]) as u8)
}

/// An image and its negative have the same corners: bright and dark circles count alike.
pub proof fn negative_keeps_corners(im: Seq<u8>, stride: int, c: int, b: int)
    requires
        0 <= c < im.len(),
        forall|k: int| 0 <= c + #[trigger] crate::fast::circle_offset(stride, k % 16) < im.len(),
    ensures
        is_corner(inverted(im), stride, c, b) == is_corner(im, stride, c, b),
{
    let n = inverted(im);
    lemma_negative_run(im, stride, c, true, false, im[c] + b);
    lemma_negative_run(im, stride, c, false, true, im[c] - b);
    assert(n[c] - b == 255 - (im[c] + b));
    assert(n[c] + b == 255 - (im[c] - b));
}

proof fn lemma_negative_run(im: Seq<u8>, stride: int, c: int, bright: bool, dark: bool, t: int)
    requires
        dark == !bright,
        forall|k: int| 0 <= c + #[trigger] crate::fast::circle_offset(stride, k % 16) < im.len(),
    ensures
        has_run(inverted(im), stride, c, dark, 255 - t) == has_run(im, stride, c, bright, t),
{
    let n = inverted(im);
    assert forall|k: int| #[trigger] passes(n, stride, c, k, dark, 255 - t) == passes(
        im,
        stride,
        c,
        k,
        bright,
        t,
    ) by {
        assert(0 <= c + crate::fast::circle_offset(stride, k % 16) < im.len());
        assert(ring(n, stride, c, k) == 255 - ring(im, stride, c, k));
    }
    assert forall|r: int| #[trigger] run12(n, stride, c, r, dark, 255 - t) == run12(
        im,
        stride,
        c,
        r,
        bright,
        t,
    ) by {
        if run12(n, stride, c, r, dark, 255 - t) {
            assert forall|j: int| r <= j < r + 12 implies #[trigger] passes(
                im,
                stride,
                c,
                j,
                bright,
                t,
            ) by {
                assert(passes(n, stride, c, j, dark, 255 - t));
            }
        }
        if run12(im, stride, c, r, bright, t) {
            assert forall|j: int| r <= j < r + 12 implies #[trigger] passes(
                n,
                stride,
                c,
                j,
                dark,
                255 - t,
            ) by {
                assert(passes(im, stride, c, j, bright, t));
            }
        }
    }
    if has_run(n, stride, c, dark, 255 - t) {
        let r = choose|r: int| 0 <= r < 16 && #[trigger] run12(n, stride, c, r, dark, 255 - t);
        assert(run12(im, stride, c, r, bright, t));
    }
    if has_run(im, stride, c, bright, t) {
        let r = choose|r: int| 0 <= r < 16 && #[trigger] run12(im, stride, c, r, bright, t);
        assert(run12(n, stride, c, r, dark, 255 - t));
    }
}

/// The score of a pixel is where it stops being a corner: up to its score it is one, above it is not.
/// It is the threshold itself where the pixel is no corner beyond that.
pub proof fn score_is_largest_threshold(im: Seq<u8>, stride: int, c: int, b: int, t: int)
    requires
        b <= 255,
        b < t,
    ensures
        b <= score(im, stride, c, b) <= 255,
        is_corner(im, stride, c, t) <==> t <= score(im, stride, c, b),
{
    lemma_score_from(im, stride, c, b, 255);
    let s = score(im, stride, c, b);
    if t > 255 {
        no_corner_above_255(im, stride, c, t);
    } else if t <= s {
        corner_is_monotone(im, stride, c, t, s);
    }
}

proof fn lemma_score_from(im: Seq<u8>, stride: int, c: int, b: int, top: int)
    requires
        b <= top,
    ensures
        b <= score_from(im, stride, c, b, top) <= top,
        score_from(im, stride, c, b, top) > b ==> is_corner(
            im,
            stride,
            c,
            score_from(im, stride, c, b, top),
        ),
        forall|t: int|
            score_from(im, stride, c, b, top) < t <= top ==> !#[trigger] is_corner(
                im,
                stride,
                c,
                t,
            ),
    decreases top - b,
{
    if top > b && !is_corner(im, stride, c, top) {
        lemma_score_from(im, stride, c, b, top - 1);
    }
}

proof fn lemma_kept(corners: Seq<Corner>, scores: Seq<i32>, n: int, i: int)
    requires
        0 <= i < n <= corners.len(),
        survives(corners, scores, i),
    ensures
        survivors_upto(corners, scores, n).contains(corners[i]),
    decreases n,
{
    let now = survivors_upto(corners, scores, n);
    if i < n - 1 {
        lemma_kept(corners, scores, n - 1, i);
        let before = survivors_upto(corners, scores, n - 1);
        let k = choose|k: int| 0 <= k < before.len() && before[k] == corners[i];
        assert(now[k] == corners[i]);
    } else {
        assert(now[now.len() - 1] == corners[i]);
    }
}

/// A corner that scores more than every other corner next to it survives the suppression.
pub proof fn local_maxima_survive(corners: Seq<Corner>, scores: Seq<i32>, i: int)
    requires
        0 <= i < corners.len(),
        forall|j: int|
            0 <= j < corners.len() && j != i && -1 <= (#[trigger] corners[j]).x - corners[i].x <= 1
                && -1 <= corners[j].y - corners[i].y <= 1 ==> scores[j] < scores[i],
    ensures
        survivors(corners, scores).contains(corners[i]),
{
    assert(survives(corners, scores, i));
    lemma_kept(corners, scores, corners.len() as int, i);
}

} // verus!
