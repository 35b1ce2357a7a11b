//! What orientation and sampling are for: the patch is turned to the direction of its intensity
//! centroid, and every comparison reads the pattern turned by that direction.

use vstd::prelude::*;

use crate::binary32::{
    difference, half_even, less, mag, mag_is_increasing, nearest_even, nearest_int, one_units,
    product, quotient, sum, Binary32,
};
use crate::rbrief::pattern::{lemma_pattern, pattern};
use crate::rbrief::{
    darker, descriptor_bits_are_comparisons, descriptor_of, direction, half_width, interior,
    lemma_brighter_moments, lemma_moments, moment01, moment10, orientation, row_moment, row_sum,
    sample_index, turned_x, turned_y, FLAT_BITS, HALF_PATCH,
};
use crate::sqrt::{root, root_is_square_root, HALF_BITS, ONE_BITS};
use crate::value::{
    difference_value, huge, lemma_relative, lemma_scale, lemma_value, near, product_value,
    quotient_value, rabs, small_int_value, step, sum_value, tiny, value, values_compare, eps,
};

verus! {

/// `s` and `c` are sine and cosine of the direction of (`m10`, `m01`), up to one part in a hundred
/// thousand of their squares: the same signs, and squares in the proportion of the squares. Without a
/// direction they are 0 and 1.
pub open spec fn points_along(s: Binary32, c: Binary32, m01: int, m10: int) -> bool {
    let a = m01 as real;
    let b = m10 as real;
    let h = a * a + b * b;
    let x = value(s);
    let y = value(c);
    &&& s.finite() && c.finite()
    &&& m01 == 0 && m10 == 0 ==> x == 0real && y == 1real
    &&& m01 != 0 || m10 != 0 ==> {
        &&& x * a >= 0real && y * b >= 0real
        &&& near(x * x * h, a * a, a * a / 100000real)
        &&& near(y * y * h, b * b, b * b / 100000real)
        &&& near(x * x + y * y, 1real, 1real / 100000real)
        &&& near(x * b, y * a, (rabs(a) + rabs(b)) / 1000000real)
    }
}

/// The quotient of a coordinate by the length, in real numbers.
proof fn lemma_share_real(a: real, h: real, x: real, r: real, s: real)
    requires
        h > 0real,
        r > 0real,
        near(x, h, h / 2000000real),
        near(r * r, x, x / 500000real),
        near(s, a / r, rabs(a / r) * step()),
    ensures
        s * a >= 0real,
        near(s * s * h, a * a, a * a / 100000real),
        near(s * r, a, rabs(a) * step()),
{
    let q = a / r;
    assert(q * r == a) by (nonlinear_arith)
        requires
            q == a / r,
            r > 0real,
    ;
    let d = s - q;
    let k = step();
    let qa = rabs(q);
    assert(8388608real * (qa * k) == qa) by (nonlinear_arith)
        requires
            k == 1real / 8388608real,
    ;
    assert(s * q >= 0real) by (nonlinear_arith)
        requires
            -qa <= 8388608real * (s - q) <= qa,
            qa == rabs(q),
    ;
    assert(s * a >= 0real) by (nonlinear_arith)
        requires
            s * q >= 0real,
            q * r == a,
            r > 0real,
    ;
    let ss = s * s;
    let qq = q * q;
    assert(-3real * qq <= 8388608real * (ss - qq) <= 3real * qq) by (nonlinear_arith)
        requires
            ss == s * s,
            qq == q * q,
            -qa <= 8388608real * (s - q) <= qa,
            qa == rabs(q),
    ;
    let rr = r * r;
    let aa = a * a;
    assert(qq * rr == aa) by (nonlinear_arith)
        requires
            qq == q * q,
            rr == r * r,
            aa == a * a,
            q * r == a,
    ;
    assert(qq >= 0real) by (nonlinear_arith)
        requires
            qq == q * q,
    ;
    assert(-3real * h <= 1000000real * (rr - h) <= 3real * h);
    let qh = qq * h;
    assert(-4real * aa <= 1000000real * (qh - aa) <= 4real * aa) by (nonlinear_arith)
        requires
            qh == qq * h,
            qq * rr == aa,
            -3real * h <= 1000000real * (rr - h) <= 3real * h,
            qq >= 0real,
            h > 0real,
    ;
    let sh = ss * h;
    assert(-3real * qh <= 8388608real * (sh - qh) <= 3real * qh) by (nonlinear_arith)
        requires
            sh == ss * h,
            qh == qq * h,
            -3real * qq <= 8388608real * (ss - qq) <= 3real * qq,
            h > 0real,
    ;
    assert(aa >= 0real) by (nonlinear_arith)
        requires
            aa == a * a,
    ;
    assert(s * s * h == sh);
    let ar = rabs(a);
    assert(qa * r == ar) by (nonlinear_arith)
        requires
            q * r == a,
            qa == rabs(q),
            ar == rabs(a),
            r > 0real,
    ;
    let sr = s * r;
    assert(-ar <= 8388608real * (sr - a) <= ar) by (nonlinear_arith)
        requires
            sr == s * r,
            q * r == a,
            qa * r == ar,
            -qa <= 8388608real * (s - q) <= qa,
            r > 0real,
    ;
    assert(8388608real * (ar * k) == ar) by (nonlinear_arith)
        requires
            k == 1real / 8388608real,
    ;
}

/// Both quotients together.
proof fn lemma_unit_real(a: real, b: real, h: real, r: real, s: real, c: real)
    requires
        h == a * a + b * b,
        h >= 1real,
        r > 0real,
        4real * (r * r) >= h,
        near(s * s * h, a * a, a * a / 100000real),
        near(c * c * h, b * b, b * b / 100000real),
        near(s * r, a, rabs(a) * step()),
        near(c * r, b, rabs(b) * step()),
    ensures
        near(s * s + c * c, 1real, 1real / 100000real),
        near(s * b, c * a, (rabs(a) + rabs(b)) / 1000000real),
{
    let n = s * s + c * c;
    let nh = n * h;
    let e = h / 100000real;
    assert(nh == s * s * h + c * c * h) by (nonlinear_arith)
        requires
            nh == n * h,
            n == s * s + c * c,
    ;
    assert(-1real <= 100000real * (n - 1real) <= 1real) by (nonlinear_arith)
        requires
            nh == n * h,
            -h <= 100000real * (nh - h) <= h,
            h >= 1real,
    ;
    let k = step();
    let p = rabs(a);
    let q = rabs(b);
    let z = s * b - c * a;
    let f = s * r - a;
    let g = c * r - b;
    assert(8388608real * (p * k) == p && 8388608real * (q * k) == q) by (nonlinear_arith)
        requires
            k == 1real / 8388608real,
    ;
    assert(z * r == f * b - g * a) by (nonlinear_arith)
        requires
            z == s * b - c * a,
            f == s * r - a,
            g == c * r - b,
    ;
    let zr = rabs(z);
    let pq = p * q;
    assert(8388608real * (zr * r) <= 2real * pq) by (nonlinear_arith)
        requires
            z * r == f * b - g * a,
            zr == rabs(z),
            -p <= 8388608real * f <= p,
            -q <= 8388608real * g <= q,
            p == rabs(a),
            q == rabs(b),
            pq == p * q,
            r > 0real,
    ;
    let m = p + q;
    assert(m * m <= 2real * h && 4real * pq <= m * m) by (nonlinear_arith)
        requires
            m == p + q,
            h == a * a + b * b,
            p == rabs(a),
            q == rabs(b),
            pq == p * q,
    ;
    assert(3real * r >= m) by (nonlinear_arith)
        requires
            m * m <= 2real * h,
            4real * (r * r) >= h,
            r > 0real,
            m >= 0real,
    ;
    assert(8388608real * zr <= 2real * m) by (nonlinear_arith)
        requires
            8388608real * (zr * r) <= 2real * pq,
            4real * pq <= m * m,
            3real * r >= m,
            m > 0real,
            r > 0real,
            zr >= 0real,
    ;
}

/// The square of a small integer as a number.
proof fn lemma_square_value(v: int)
    requires
        -0x40_0000 < v < 0x40_0000,
    ensures
        ({
            let f = nearest_int(v);
            let p = product(f, f);
            let a = v as real;
            &&& f.finite() && value(f) == a
            &&& p.finite()
            &&& near(value(p), a * a, a * a * step())
            &&& 0real <= a * a <= 17592186044416real
            &&& v != 0 ==> a * a >= 1real
        }),
{
    small_int_value(v);
    let f = nearest_int(v);
    let a = v as real;
    let aa = a * a;
    assert(0real <= aa <= 17592186044416real) by (nonlinear_arith)
        requires
            aa == a * a,
            -4194304real <= a <= 4194304real,
    ;
    product_value(f, f);
    if v == 0 {
        assert(aa == 0real) by (nonlinear_arith)
            requires
                aa == a * a,
                a == 0real,
        ;
        assert(aa * step() == 0real) by (nonlinear_arith)
            requires
                aa == 0real,
        ;
    } else {
        assert(aa >= 1real) by (nonlinear_arith)
            requires
                aa == a * a,
                a >= 1real || a <= -1real,
        ;
        lemma_relative(value(product(f, f)), aa);
    }
}

proof fn lemma_half_value()
    ensures
        value(Binary32 { bits: HALF_BITS }) == 1real / 2real,
        value(Binary32 { bits: ONE_BITS }) == 1real,
        value(Binary32 { bits: 0 }) == 0real,
{
    crate::sqrt::lemma_units();
    lemma_scale();
    let h = Binary32 { bits: HALF_BITS };
    let o = Binary32 { bits: ONE_BITS };
    lemma_value(h);
    lemma_value(o);
    lemma_value(Binary32 { bits: 0 });
    let ur = one_units() as real;
    let x = value(h);
    let y = value(o);
    assert(x == 1real / 2real && y == 1real) by (nonlinear_arith)
        requires
            2real * (x * ur) == ur,
            y * ur == ur,
            ur > 0real,
    ;
}

/// Sine and cosine point along the centroid.
pub proof fn direction_points_along(m01: int, m10: int)
    requires
        -0x40_0000 < m01 < 0x40_0000,
        -0x40_0000 < m10 < 0x40_0000,
    ensures
        points_along(direction(m01, m10).0, direction(m01, m10).1, m01, m10),
{
    lemma_half_value();
    lemma_scale();
    lemma_square_value(m01);
    lemma_square_value(m10);
    let fa = nearest_int(m01);
    let fb = nearest_int(m10);
    let a = m01 as real;
    let b = m10 as real;
    let aa = a * a;
    let bb = b * b;
    let pa = product(fa, fa);
    let pb = product(fb, fb);
    let h = aa + bb;
    assert(8388608real * (aa * step()) == aa && 8388608real * (bb * step()) == bb)
        by (nonlinear_arith)
        requires
            step() == 1real / 8388608real,
    ;
    sum_value(pa, pb);
    let xf = sum(pa, pb);
    let x = value(xf);
    let r = root(xf);
    let flat = Binary32 { bits: FLAT_BITS };
    let hf = Binary32 { bits: HALF_BITS };
    let t = value(pa) + value(pb);
    if m01 == 0 && m10 == 0 {
        assert(a * a == 0real) by (nonlinear_arith)
            requires
                a == 0real,
        ;
        assert(b * b == 0real) by (nonlinear_arith)
            requires
                b == 0real,
        ;
        assert(0real * eps() == 0real) by (nonlinear_arith);
        assert(near(x, 0real, tiny()));
        lemma_value(xf);
        let ur = one_units() as real;
        assert(-1real < x * ur < 1real) by (nonlinear_arith)
            requires
                near(x, 0real, tiny()),
                tiny() * (2real * ur) == 1real,
                ur > 0real,
        ;
        assert(xf.units() == 0);
        assert(r == Binary32 { bits: 0 });
        assert(!less(flat, r)) by {
            lemma_value(flat);
            values_compare(flat, r);
        }
    } else {
        assert(h >= 1real);
        lemma_relative(x, t);
        assert(8388608real * (t * step()) == t) by (nonlinear_arith)
            requires
                step() == 1real / 8388608real,
        ;
        assert(near(x, h, h / 2000000real));
        root_is_square_root(xf);
        let vr = value(r);
        let rr = vr * vr;
        assert(4real * rr >= h);
        assert(2real * vr >= 1real) by (nonlinear_arith)
            requires
                rr == vr * vr,
                4real * rr >= 1real,
                vr > 0real,
        ;
        assert(less(flat, r)) by {
            mag_is_increasing(FLAT_BITS as int, HALF_BITS as int);
            values_compare(flat, hf);
            values_compare(flat, r);
        }
        lemma_quotient_small(fa, r, a);
        lemma_quotient_small(fb, r, b);
        let s = value(quotient(fa, r));
        let c = value(quotient(fb, r));
        lemma_share_real(a, h, x, vr, s);
        lemma_share_real(b, h, x, vr, c);
        lemma_unit_real(a, b, h, vr, s, c);
    }
}

/// The quotient of a small integer by a length of at least 1/2.
proof fn lemma_quotient_small(f: Binary32, r: Binary32, a: real)
    requires
        f.finite(),
        r.finite(),
        value(f) == a,
        a == 0real || rabs(a) >= 1real,
        rabs(a) <= 4194304real,
        2real * value(r) >= 1real,
        value(r) * value(r) <= 70368744177664real,
    ensures
        quotient(f, r).finite(),
        near(value(quotient(f, r)), a / value(r), rabs(a / value(r)) * step()),
{
    let r0 = value(r);
    let q = a / r0;
    assert(q * r0 == a) by (nonlinear_arith)
        requires
            q == a / r0,
            2real * r0 >= 1real,
    ;
    assert(rabs(q) <= 8388608real) by (nonlinear_arith)
        requires
            q * r0 == a,
            2real * r0 >= 1real,
            rabs(a) <= 4194304real,
    ;
    quotient_value(f, r);
    if a == 0real {
        assert(q == 0real) by (nonlinear_arith)
            requires
                q * r0 == a,
                a == 0real,
                2real * r0 >= 1real,
        ;
        assert(rabs(q) * step() == 0real) by (nonlinear_arith)
            requires
                q == 0real,
        ;
    } else {
        assert(rabs(q) * huge() >= 1real) by (nonlinear_arith)
            requires
                q * r0 == a,
                rabs(a) >= 1real,
                r0 * r0 <= 70368744177664real,
                2real * r0 >= 1real,
                huge() >= 70368744177664real,
        ;
        lemma_relative(value(quotient(f, r)), q);
    }
}

/// The orientation of a patch points along its centroid: sine and cosine are to each other as the
/// vertical and the horizontal moment, whatever the image.
pub proof fn orientation_points_along(im: Seq<u8>, w: int, c: int)
    ensures
        points_along(
            orientation(im, w, c).0,
            orientation(im, w, c).1,
            moment01(im, w, c, HALF_PATCH as int),
            moment10(im, w, c, HALF_PATCH as int),
        ),
{
    lemma_moments(im, w, c, 15);
    direction_points_along(moment01(im, w, c, 15), moment10(im, w, c, 15));
}

/// The pixel `du` columns and `dv` rows from the centre lies in the orientation window.
pub open spec fn in_window(du: int, dv: int) -> bool {
    let v = if dv < 0 {
        -dv
    } else {
        dv
    };
    v <= 15 && -half_width(v) <= du <= half_width(v)
}

proof fn lemma_row_moved(im: Seq<u8>, base: int, d: int, k: int, i: int, p: u8)
    requires
        0 <= i < im.len(),
        0 <= base - d,
        base + k <= im.len(),
        -d <= k,
    ensures
        ({
            let hit = base - d <= i < base + k;
            let by = p - im[i];
            let j = im.update(i, p);
            &&& row_sum(j, base, d, k) == row_sum(im, base, d, k) + if hit {
                by
            } else {
                0
            }
            &&& row_moment(j, base, d, k) == row_moment(im, base, d, k) + if hit {
                (i - base) * by
            } else {
                0
            }
        }),
    decreases k + d,
{
    if k + d > 0 {
        lemma_row_moved(im, base, d, k - 1, i, p);
        let j = im.update(i, p);
        let at = base + k - 1;
        if at == i {
            let q = im[i] as int;
            assert((k - 1) * p == (k - 1) * q + (k - 1) * (p - q)) by (nonlinear_arith);
        } else {
            assert(j[at] == im[at]);
        }
    }
}

/// A row of the window is changed by a pixel exactly where the pixel stands in it.
proof fn lemma_window_moved(
    im: Seq<u8>,
    w: int,
    h: int,
    x: int,
    row: int,
    d: int,
    px: int,
    py: int,
    p: u8,
)
    requires
        w * h <= im.len(),
        0 <= d <= 15,
        15 <= x,
        x + 15 < w,
        0 <= row < h,
        0 <= px < w,
        0 <= py < h,
    ensures
        ({
            let i = py * w + px;
            let base = row * w + x;
            let hit = py == row && -d <= px - x <= d;
            let by = p - im[i];
            let j = im.update(i, p);
            &&& 0 <= i < im.len()
            &&& row_sum(j, base, d, d + 1) == row_sum(im, base, d, d + 1) + if hit {
                by
            } else {
                0
            }
            &&& row_moment(j, base, d, d + 1) == row_moment(im, base, d, d + 1) + if hit {
                (px - x) * by
            } else {
                0
            }
        }),
{
    let i = py * w + px;
    let base = row * w + x;
    assert(0 <= row * w && row * w + w <= w * h && 0 <= py * w && py * w + w <= w * h)
        by (nonlinear_arith)
        requires
            0 <= row,
            row + 1 <= h,
            0 <= py,
            py + 1 <= h,
            0 <= w,
    ;
    lemma_row_moved(im, base, d, d + 1, i, p);
    if py < row {
        assert(py * w + w <= row * w) by (nonlinear_arith)
            requires
                py + 1 <= row,
                0 <= w,
        ;
    } else if py > row {
        assert(row * w + w <= py * w) by (nonlinear_arith)
            requires
                row + 1 <= py,
                0 <= w,
        ;
    }
}

proof fn lemma_moments_moved(
    im: Seq<u8>,
    w: int,
    h: int,
    x: int,
    y: int,
    px: int,
    py: int,
    p: u8,
    v: int,
)
    requires
        w * h <= im.len(),
        interior(w, h, x, y),
        0 <= px < w,
        0 <= py < h,
        0 <= v <= 15,
    ensures
        ({
            let i = py * w + px;
            let c = y * w + x;
            let hit = in_window(px - x, py - y) && -v <= py - y <= v;
            let by = p - im[i];
            let j = im.update(i, p);
            &&& moment10(j, w, c, v) == moment10(im, w, c, v) + if hit {
                (px - x) * by
            } else {
                0
            }
            &&& moment01(j, w, c, v) == moment01(im, w, c, v) + if hit {
                (py - y) * by
            } else {
                0
            }
        }),
    decreases v,
{
    let c = y * w + x;
    let i = py * w + px;
    let by = p - im[i];
    let j = im.update(i, p);
    let d = half_width(v);
    if v == 0 {
        lemma_window_moved(im, w, h, x, y, 15, px, py, p);
        if py == y {
            assert((py - y) * by == 0) by (nonlinear_arith)
                requires
                    py == y,
            ;
        }
    } else {
        lemma_moments_moved(im, w, h, x, y, px, py, p, v - 1);
        lemma_window_moved(im, w, h, x, y + v, d, px, py, p);
        lemma_window_moved(im, w, h, x, y - v, d, px, py, p);
        assert(y * w + x + v * w == (y + v) * w + x) by (nonlinear_arith);
        assert(y * w + x - v * w == (y - v) * w + x) by (nonlinear_arith);
        let a = row_sum(im, c + v * w, d, d + 1) - row_sum(im, c - v * w, d, d + 1);
        let b = row_sum(j, c + v * w, d, d + 1) - row_sum(j, c - v * w, d, d + 1);
        assert(v * b == v * a + v * (b - a)) by (nonlinear_arith);
        if b - a == 0 {
            assert(v * (b - a) == 0) by (nonlinear_arith)
                requires
                    b - a == 0,
            ;
        }
        if py - y == -v {
            assert(v * (b - a) == (py - y) * (-(b - a))) by (nonlinear_arith)
                requires
                    py - y == -v,
            ;
            assert(-(b - a) == by || b - a == 0);
        }
    }
}

/// The moments are those of the intensity: brightening one pixel of the window by some amount moves
/// them by that amount times the pixel's offset from the centre, and a pixel outside the window does
/// not move them. Where all pixels are 0 both are 0.
pub proof fn pixels_move_the_centroid(
    im: Seq<u8>,
    w: int,
    h: int,
    x: int,
    y: int,
    px: int,
    py: int,
    p: u8,
)
    requires
        w * h <= im.len(),
        interior(w, h, x, y),
        0 <= px < w,
        0 <= py < h,
    ensures
        ({
            let c = y * w + x;
            let j = im.update(py * w + px, p);
            let by = if in_window(px - x, py - y) {
                p - im[py * w + px]
            } else {
                0
            };
            &&& moment10(j, w, c, HALF_PATCH as int) == moment10(im, w, c, HALF_PATCH as int) + (px
                - x) * by
            &&& moment01(j, w, c, HALF_PATCH as int) == moment01(im, w, c, HALF_PATCH as int) + (py
                - y) * by
        }),
{
    lemma_moments_moved(im, w, h, x, y, px, py, p, 15);
    assert((px - x) * 0 == 0 && (py - y) * 0 == 0);
}

/// A flat patch has no centroid offset.
pub proof fn flat_centroid_is_centred(im: Seq<u8>, w: int, h: int, x: int, y: int, g: u8)
    requires
        w * h <= im.len(),
        interior(w, h, x, y),
        forall|i: int| 0 <= i < w * h ==> #[trigger] im[i] == g,
    ensures
        moment10(im, w, y * w + x, HALF_PATCH as int) == 0,
        moment01(im, w, y * w + x, HALF_PATCH as int) == 0,
{
    let black = Seq::new(im.len(), |i: int| 0u8);
    lemma_brighter_moments(black, im, w, h, x, y, 15, g as int);
    lemma_black(black, w, h, x, y, 15);
}

proof fn lemma_black_row(im: Seq<u8>, base: int, d: int, k: int)
    requires
        forall|i: int| base - d <= i < base + k ==> #[trigger] im[i] == 0,
    ensures
        row_sum(im, base, d, k) == 0,
        row_moment(im, base, d, k) == 0,
    decreases k + d,
{
    if k + d > 0 {
        lemma_black_row(im, base, d, k - 1);
        assert(im[base + k - 1] == 0);
        assert((k - 1) * 0 == 0);
    }
}

proof fn lemma_black(im: Seq<u8>, w: int, h: int, x: int, y: int, v: int)
    requires
        w * h <= im.len(),
        interior(w, h, x, y),
        forall|i: int| 0 <= i < im.len() ==> #[trigger] im[i] == 0,
        0 <= v <= 15,
    ensures
        moment10(im, w, y * w + x, v) == 0,
        moment01(im, w, y * w + x, v) == 0,
    decreases v,
{
    let c = y * w + x;
    let d = half_width(v);
    assert(0 <= (y - v) * w && (y + v) * w + w <= w * h) by (nonlinear_arith)
        requires
            0 <= y - v,
            y + v + 1 <= h,
            0 <= w,
    ;
    assert(c + v * w == (y + v) * w + x) by (nonlinear_arith)
        requires
            c == y * w + x,
    ;
    assert(c - v * w == (y - v) * w + x) by (nonlinear_arith)
        requires
            c == y * w + x,
    ;
    if v == 0 {
        lemma_black_row(im, c, 15, 16);
    } else {
        lemma_black(im, w, h, x, y, v - 1);
        assert((y - v) * w <= (y + v) * w) by (nonlinear_arith)
            requires
                v >= 0,
                w >= 0,
        ;
        lemma_black_row(im, c + v * w, d, d + 1);
        lemma_black_row(im, c - v * w, d, d + 1);
        assert(v * 0 == 0);
    }
}

/// The integer nearest to a number is at most a half away.
pub proof fn half_even_is_nearest(x: Binary32)
    requires
        x.finite(),
    ensures
        near(half_even(x) as real, value(x), 1real / 2real),
{
    lemma_scale();
    lemma_value(x);
    let u = one_units();
    let m = mag(x.low());
    let n = nearest_even(m, u);
    vstd::arithmetic::div_mod::lemma_fundamental_div_mod(m, u);
    let whole = m / u;
    let rest = m % u;
    assert(n * u == u * whole + if n == whole {
        0
    } else {
        u
    }) by (nonlinear_arith)
        requires
            n == whole || n == whole + 1,
    ;
    assert(-u <= 2 * (n * u - m) <= u);
    let ur = u as real;
    let nr = n as real;
    let a = rabs(value(x));
    assert((n * u) as real == nr * ur) by (nonlinear_arith)
        requires
            nr == n as real,
            ur == u as real,
    ;
    assert(near(nr, a, 1real / 2real)) by (nonlinear_arith)
        requires
            -ur <= 2real * (nr * ur - a * ur) <= ur,
            ur > 0real,
    ;
}

/// A turned pattern coordinate: `p * i` plus `q * j` up to a thousandth, rounded to a whole pixel.
proof fn lemma_turned_value(p: Binary32, i: int, q: Binary32, j: int)
    requires
        p.finite(),
        q.finite(),
        rabs(value(p)) <= 2real,
        rabs(value(q)) <= 2real,
        -13 <= i <= 13,
        -13 <= j <= 13,
    ensures
        ({
            let a = product(p, nearest_int(i));
            let b = product(q, nearest_int(j));
            let x = value(p) * i as real;
            let y = value(q) * j as real;
            &&& near(half_even(sum(a, b)) as real, x + y, 501real / 1000real)
            &&& near(half_even(difference(a, b)) as real, x - y, 501real / 1000real)
        }),
{
    lemma_scale();
    small_int_value(i);
    small_int_value(j);
    let x = value(p) * i as real;
    let y = value(q) * j as real;
    let ir = i as real;
    let jr = j as real;
    assert(rabs(x) <= 26real) by (nonlinear_arith)
        requires
            x == value(p) * ir,
            rabs(value(p)) <= 2real,
            -13real <= ir <= 13real,
    ;
    assert(rabs(y) <= 26real) by (nonlinear_arith)
        requires
            y == value(q) * jr,
            rabs(value(q)) <= 2real,
            -13real <= jr <= 13real,
    ;
    product_value(p, nearest_int(i));
    product_value(q, nearest_int(j));
    let a = product(p, nearest_int(i));
    let b = product(q, nearest_int(j));
    let t = tiny();
    assert(t <= 1real / 1000000real) by (nonlinear_arith)
        requires
            t * huge() * 1099511627776real <= 1real,
            t > 0real,
            huge() >= 1real,
    ;
    let va = value(a);
    let vb = value(b);
    assert(16777216real * (rabs(x) * eps()) == rabs(x) && 16777216real * (rabs(y) * eps())
        == rabs(y)) by (nonlinear_arith)
        requires
            eps() == 1real / 16777216real,
    ;
    sum_value(a, b);
    difference_value(a, b);
    assert(16777216real * (rabs(va + vb) * eps()) == rabs(va + vb) && 16777216real * (rabs(va - vb)
        * eps()) == rabs(va - vb)) by (nonlinear_arith)
        requires
            eps() == 1real / 16777216real,
    ;
    half_even_is_nearest(sum(a, b));
    half_even_is_nearest(difference(a, b));
}

/// Offsets (`ox`, `oy`) are the pattern point (`dx`, `dy`) turned by the angle with the given sine and
/// cosine, to the nearest pixel.
pub open spec fn turned_to(ox: int, oy: int, dx: int, dy: int, s: real, c: real) -> bool {
    &&& near(ox as real, c * dx as real - s * dy as real, 501real / 1000real)
    &&& near(oy as real, s * dx as real + c * dy as real, 501real / 1000real)
}

proof fn lemma_point_turned(s: Binary32, c: Binary32, m01: int, m10: int, p: int) -> (o: (int, int))
    requires
        points_along(s, c, m01, m10),
        0 <= p < 512,
    ensures
        turned_to(o.0, o.1, pattern(2 * p), pattern(2 * p + 1), value(s), value(c)),
        forall|w: int, x: int, y: int|
            #![trigger sample_index(w, x, y, s, c, p)]
            sample_index(w, x, y, s, c, p) == (y + o.1) * w + x + o.0,
{
    let dx = pattern(2 * p);
    let dy = pattern(2 * p + 1);
    lemma_pattern(2 * p);
    lemma_pattern(2 * p + 1);
    let a = value(s);
    let b = value(c);
    assert(rabs(a) <= 2real && rabs(b) <= 2real) by {
        if m01 != 0 || m10 != 0 {
            assert(rabs(a) <= 2real && rabs(b) <= 2real) by (nonlinear_arith)
                requires
                    near(a * a + b * b, 1real, 1real / 100000real),
            ;
        }
    }
    lemma_turned_value(c, dx, s, dy);
    lemma_turned_value(s, dx, c, dy);
    let ox = half_even(turned_x(s, c, dx, dy));
    let oy = half_even(turned_y(s, c, dx, dy));
    (ox, oy)
}

/// Bit `k` of word `i` of the descriptor of an interior keypoint compares two pixels: those of pattern
/// points `2 * n` and `2 * n + 1` for `n = 32 * i + k`, turned by the direction of the centroid around
/// the keypoint.
pub proof fn descriptor_compares_turned_pairs(
    im: Seq<u8>,
    w: int,
    h: int,
    x: int,
    y: int,
    i: int,
    k: int,
) -> (r: (Binary32, Binary32, (int, int), (int, int)))
    requires
        interior(w, h, x, y),
        0 <= i < 8,
        0 <= k < 32,
    ensures
        ({
            let n = 32 * i + k;
            let c = y * w + x;
            let (sin, cos, a, b) = r;
            &&& points_along(
                sin,
                cos,
                moment01(im, w, c, HALF_PATCH as int),
                moment10(im, w, c, HALF_PATCH as int),
            )
            &&& turned_to(a.0, a.1, pattern(4 * n), pattern(4 * n + 1), value(sin), value(cos))
            &&& turned_to(b.0, b.1, pattern(4 * n + 2), pattern(4 * n + 3), value(sin), value(cos))
            &&& (descriptor_of(im, w, h, x, y)[i] as int / vstd::arithmetic::power2::pow2(
                k as nat,
            ) as int) % 2 == 1 <==> im[(y + a.1) * w + (x + a.0)] < im[(y + b.1) * w + (x + b.0)]
        }),
{
    let n = 32 * i + k;
    let c = y * w + x;
    orientation_points_along(im, w, c);
    let (sin, cos) = orientation(im, w, c);
    let m01 = moment01(im, w, c, 15);
    let m10 = moment10(im, w, c, 15);
    let a = lemma_point_turned(sin, cos, m01, m10, 2 * n);
    let b = lemma_point_turned(sin, cos, m01, m10, 2 * n + 1);
    descriptor_bits_are_comparisons(im, w, x, y, sin, cos, i, k);
    assert(darker(im, w, x, y, sin, cos, n) == (im[sample_index(w, x, y, sin, cos, 2 * n)]
        < im[sample_index(w, x, y, sin, cos, 2 * n + 1)]));
    (sin, cos, a, b)
}

} // verus!
