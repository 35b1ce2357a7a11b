//! Rotation-aware BRIEF: orientation by the intensity centroid, then 256 learned pixel comparisons
//! rotated to it. The image is to be blurred first. An all-zero descriptor marks a keypoint too near
//! the border, or a flat patch, and is never matched.

use vstd::prelude::*;

use crate::binary32::{
    difference, from_i32, half_even, is_less, less, lrint_half_even, mag, nearest_int, one_units,
    product, product_error, quotient, quotient_error, small_int_is_exact, sum, sum_error, Binary32,
    TWO_31_BITS,
};
use crate::matcher::{zero, Descriptor};
use crate::rbrief::orientation::{orientation_points_along, points_along};
use crate::rbrief::pattern::{lemma_pattern, pattern, pattern_pair};
use crate::sqrt::{root, root_is_large_enough, sqrt32, ONE_BITS};

pub mod orientation;
pub mod pattern;

pub use crate::rbrief::pattern::ORB_PATTERN;

verus! {

/// Half-width of the border in which keypoints are rejected: the reach of the rotated pattern.
pub const HALF_BOUNDARY: usize = 20;

/// Radius of the circular orientation window.
pub const HALF_PATCH: i32 = 15;

/// Half-widths of the orientation window, by distance from the centre row.
pub const U_MAX: [i32; 16] = [15, 15, 15, 15, 14, 14, 14, 13, 13, 12, 11, 10, 9, 8, 6, 3];

/// Encoding of the number nearest to 10^-6: a centroid no longer than this has no direction.
pub const FLAT_BITS: u32 = 0x3586_37BD;

/// Sum of the pixels `base + u` for `-d <= u < k`.
pub open spec fn row_sum(im: Seq<u8>, base: int, d: int, k: int) -> int
    decreases k + d,
{
    if k + d <= 0 {
        0
    } else {
        row_sum(im, base, d, k - 1) + im[base + k - 1]
    }
}

/// Sum of `u` times the pixel `base + u` for `-d <= u < k`.
pub open spec fn row_moment(im: Seq<u8>, base: int, d: int, k: int) -> int
    decreases k + d,
{
    if k + d <= 0 {
        0
    } else {
        row_moment(im, base, d, k - 1) + (k - 1) * im[base + k - 1]
    }
}

/// Half-width of the window `v` rows from the centre.
pub open spec fn half_width(v: int) -> int {
    U_MAX@[v] as int
}

/// Horizontal moment of the rows up to distance `v` around pixel index `c`, in rows of `w`.
pub open spec fn moment10(im: Seq<u8>, w: int, c: int, v: int) -> int
    decreases v,
{
    let d = half_width(v);
    if v <= 0 {
        row_moment(im, c, HALF_PATCH as int, HALF_PATCH + 1)
    } else {
        moment10(im, w, c, v - 1) + row_moment(im, c + v * w, d, d + 1) + row_moment(
            im,
            c - v * w,
            d,
            d + 1,
        )
    }
}

/// Vertical moment of the rows up to distance `v` around pixel index `c`, in rows of `w`.
pub open spec fn moment01(im: Seq<u8>, w: int, c: int, v: int) -> int
    decreases v,
{
    let d = half_width(v);
    if v <= 0 {
        0
    } else {
        moment01(im, w, c, v - 1) + v * (row_sum(im, c + v * w, d, d + 1) - row_sum(
            im,
            c - v * w,
            d,
            d + 1,
        ))
    }
}

/// Sine and cosine of the direction of a centroid; a centroid without direction gives no rotation.
pub open spec fn direction(m01: int, m10: int) -> (Binary32, Binary32) {
    let a = nearest_int(m01);
    let b = nearest_int(m10);
    let r = root(sum(product(a, a), product(b, b)));
    if less(Binary32 { bits: FLAT_BITS }, r) {
        (quotient(a, r), quotient(b, r))
    } else {
        (Binary32 { bits: 0 }, Binary32 { bits: ONE_BITS })
    }
}

/// Sine and cosine of the orientation of the patch around pixel index `c`.
pub open spec fn orientation(im: Seq<u8>, w: int, c: int) -> (Binary32, Binary32) {
    direction(
        moment01(im, w, c, HALF_PATCH as int),
        moment10(im, w, c, HALF_PATCH as int),
    )
}

/// The keypoint is far enough from the border.
pub open spec fn interior(w: int, h: int, x: int, y: int) -> bool {
    &&& HALF_BOUNDARY <= x && x + HALF_BOUNDARY < w
    &&& HALF_BOUNDARY <= y && y + HALF_BOUNDARY < h
}

/// Horizontal offset of a rotated pattern point, before rounding.
pub open spec fn turned_x(sin: Binary32, cos: Binary32, dx: int, dy: int) -> Binary32 {
    difference(product(cos, nearest_int(dx)), product(sin, nearest_int(dy)))
}

/// Vertical offset of a rotated pattern point, before rounding.
pub open spec fn turned_y(sin: Binary32, cos: Binary32, dx: int, dy: int) -> Binary32 {
    sum(product(sin, nearest_int(dx)), product(cos, nearest_int(dy)))
}

/// Row-major index of the pixel that pattern point `p` (0 to 511) samples around (`x`, `y`).
pub open spec fn sample_index(w: int, x: int, y: int, sin: Binary32, cos: Binary32, p: int) -> int {
    let dx = pattern(2 * p);
    let dy = pattern(2 * p + 1);
    (y + half_even(turned_y(sin, cos, dx, dy))) * w + x + half_even(turned_x(sin, cos, dx, dy))
}

/// Pattern point `p` (0 to 511) samples a pixel inside an image of `len` pixels in rows of `w`.
pub open spec fn sample_inside(
    len: int,
    w: int,
    x: int,
    y: int,
    sin: Binary32,
    cos: Binary32,
    p: int,
) -> bool {
    let tx = turned_x(sin, cos, pattern(2 * p), pattern(2 * p + 1));
    let ty = turned_y(sin, cos, pattern(2 * p), pattern(2 * p + 1));
    &&& tx.low() < TWO_31_BITS
    &&& ty.low() < TWO_31_BITS
    &&& 0 <= x + half_even(tx) <= i32::MAX
    &&& 0 <= y + half_even(ty) <= i32::MAX
    &&& sample_index(w, x, y, sin, cos, p) < len
}

/// All pattern points sample pixels inside the image.
pub open spec fn samples_inside(
    len: int,
    w: int,
    x: int,
    y: int,
    sin: Binary32,
    cos: Binary32,
) -> bool {
    forall|p: int| 0 <= p < 512 ==> #[trigger] sample_inside(len, w, x, y, sin, cos, p)
}

/// Comparison `idx`: the first point of the pair is darker than the second.
pub open spec fn darker(
    im: Seq<u8>,
    w: int,
    x: int,
    y: int,
    sin: Binary32,
    cos: Binary32,
    idx: int,
) -> bool {
    im[sample_index(w, x, y, sin, cos, 2 * idx)] < im[sample_index(w, x, y, sin, cos, 2 * idx + 1)]
}

/// The number whose binary digits `0..n` are the flags `base..base + n`.
pub open spec fn packed(flags: spec_fn(int) -> bool, base: int, n: int) -> int
    decreases n,
{
    if n <= 0 {
        0
    } else {
        packed(flags, base, n - 1) + if flags(base + n - 1) {
            vstd::arithmetic::power2::pow2((n - 1) as nat) as int
        } else {
            0
        }
    }
}

/// The descriptor at (`x`, `y`) for an orientation: comparison `i * 32 + k` is bit `k` of word `i`.
pub open spec fn described(
    im: Seq<u8>,
    w: int,
    x: int,
    y: int,
    sin: Binary32,
    cos: Binary32,
) -> Seq<u32> {
    Seq::new(
        8,
        |i: int| packed(|idx: int| darker(im, w, x, y, sin, cos, idx), 32 * i, 32) as u32,
    )
}

/// The descriptor at (`x`, `y`): eight zero words near the border.
pub open spec fn descriptor_of(im: Seq<u8>, w: int, h: int, x: int, y: int) -> Seq<u32> {
    if interior(w, h, x, y) {
        let (sin, cos) = orientation(im, w, y * w + x);
        described(im, w, x, y, sin, cos)
    } else {
        seq![0u32, 0, 0, 0, 0, 0, 0, 0]
    }
}

proof fn lemma_row(im: Seq<u8>, base: int, d: int, k: int)
    requires
        0 <= d <= 15,
        -d <= k <= d + 1,
    ensures
        0 <= row_sum(im, base, d, k) <= 255 * (k + d),
        -3825 * (k + d) <= row_moment(im, base, d, k) <= 3825 * (k + d),
    decreases k + d,
{
    if k + d > 0 {
        lemma_row(im, base, d, k - 1);
        let u = k - 1;
        let v = im[base + k - 1] as int;
        assert(-3825 <= u * v <= 3825) by (nonlinear_arith)
            requires
                -15 <= u <= 15,
                0 <= v <= 255,
        ;
    }
}

proof fn lemma_half_width(v: int)
    requires
        0 <= v <= 15,
    ensures
        3 <= half_width(v) <= 15,
{
}

pub(crate) proof fn lemma_moments(im: Seq<u8>, w: int, c: int, v: int)
    requires
        0 <= v <= 15,
    ensures
        -118575 * (2 * v + 1) <= moment10(im, w, c, v) <= 118575 * (2 * v + 1),
        -118575 * v <= moment01(im, w, c, v) <= 118575 * v,
    decreases v,
{
    lemma_half_width(v);
    let d = half_width(v);
    if v == 0 {
        lemma_row(im, c, 15, 16);
    } else {
        lemma_moments(im, w, c, v - 1);
        lemma_row(im, c + v * w, d, d + 1);
        lemma_row(im, c - v * w, d, d + 1);
        let s = row_sum(im, c + v * w, d, d + 1) - row_sum(im, c - v * w, d, d + 1);
        assert(-118575 <= v * s <= 118575) by (nonlinear_arith)
            requires
                1 <= v <= 15,
                -7905 <= s <= 7905,
        ;
    }
}

/// Horizontal and vertical moment of one pair of rows: `v` below and `v` above the centre.
fn row_pair(im: &[u8], w: usize, c: usize, v: usize, d: i32) -> (r: (i32, i32))
    requires
        1 <= v <= 15,
        0 <= d <= 15,
        v * w + 15 <= c,
        c + v * w + 15 < im.len(),
    ensures
        r.0 == row_moment(im@, c + v * w, d as int, d + 1) + row_moment(
            im@,
            c - v * w,
            d as int,
            d + 1,
        ),
        r.1 == row_sum(im@, c + v * w, d as int, d + 1) - row_sum(
            im@,
            c - v * w,
            d as int,
            d + 1,
        ),
{
    let row: usize = v * w;
    let mut moment: i32 = 0;
    let mut total: i32 = 0;
    let below: usize = c + row - d as usize;
    let above: usize = c - row - d as usize;
    for j in 0..2 * d + 1
        invariant
            0 <= d <= 15,
            row == v * w,
            row + 15 <= c,
            c + row + 15 < im.len(),
            below == c + row - d,
            above == c - row - d,
            moment == row_moment(im@, c + row, d as int, j - d) + row_moment(
                im@,
                c - row,
                d as int,
                j - d,
            ),
            total == row_sum(im@, c + row, d as int, j - d) - row_sum(
                im@,
                c - row,
                d as int,
                j - d,
            ),
    {
        let u: i32 = j - d;
        let val_plus: i32 = im[below + j as usize] as i32;
        let val_minus: i32 = im[above + j as usize] as i32;
        proof {
            lemma_row(im@, c + row, d as int, j - d);
            lemma_row(im@, c - row, d as int, j - d);
            assert(-7650 <= u * (val_plus + val_minus) <= 7650) by (nonlinear_arith)
                requires
                    -15 <= u <= 15,
                    0 <= val_plus + val_minus <= 510,
            ;
            vstd::arithmetic::mul::lemma_mul_is_distributive_add(
                u as int,
                val_plus as int,
                val_minus as int,
            );
            assert(row_moment(im@, c + row, d as int, j + 1 - d) == row_moment(
                im@,
                c + row,
                d as int,
                j - d,
            ) + u * val_plus);
            assert(row_moment(im@, c - row, d as int, j + 1 - d) == row_moment(
                im@,
                c - row,
                d as int,
                j - d,
            ) + u * val_minus);
        }
        total = total + (val_plus - val_minus);
        moment = moment + u * (val_plus + val_minus);
    }
    (moment, total)
}

/// Sine and cosine of the patch orientation around pixel index `c`.
pub fn ic_angle(im: &[u8], w: usize, c: usize) -> (r: (Binary32, Binary32))
    requires
        15 * w + 15 <= c,
        c + 15 * w + 15 < im.len(),
    ensures
        r == orientation(im@, w as int, c as int),
        points_along(
            r.0,
            r.1,
            moment01(im@, w as int, c as int, HALF_PATCH as int),
            moment10(im@, w as int, c as int, HALF_PATCH as int),
        ),
{
    proof {
        orientation_points_along(im@, w as int, c as int);
    }
    let mut m01: i32 = 0;
    let mut m10: i32 = 0;
    let first: usize = c - 15;
    for j in 0..31i32
        invariant
            first == c - 15,
            c >= 15,
            c + 15 < im.len(),
            m10 == row_moment(im@, c as int, 15, j - 15),
    {
        let u: i32 = j - 15;
        let val: i32 = im[first + j as usize] as i32;
        proof {
            lemma_row(im@, c as int, 15, j - 15);
            assert(-3825 <= u * val <= 3825) by (nonlinear_arith)
                requires
                    -15 <= u <= 15,
                    0 <= val <= 255,
            ;
        }
        m10 = m10 + u * val;
    }
    for v in 1..16usize
        invariant
            15 * w + 15 <= c,
            c + 15 * w + 15 < im.len(),
            m10 == moment10(im@, w as int, c as int, v - 1),
            m01 == moment01(im@, w as int, c as int, v - 1),
    {
        proof {
            lemma_half_width(v as int);
            lemma_moments(im@, w as int, c as int, v - 1);
            lemma_moments(im@, w as int, c as int, v as int);
            assert(v * w <= 15 * w) by (nonlinear_arith)
                requires
                    v <= 15,
            ;
        }
        let d: i32 = U_MAX[v];
        let (moment, total): (i32, i32) = row_pair(im, w, c, v, d);
        proof {
            lemma_row(im@, c + v * w, d as int, d + 1);
            lemma_row(im@, c - v * w, d as int, d + 1);
            assert(-118575 <= v * total <= 118575) by (nonlinear_arith)
                requires
                    1 <= v <= 15,
                    -7905 <= total <= 7905,
            ;
        }
        m10 = m10 + moment;
        m01 = m01 + v as i32 * total;
    }
    let a: Binary32 = from_i32(m01);
    let b: Binary32 = from_i32(m10);
    let length: Binary32 = sqrt32(a.times(a).plus(b.times(b)));
    if is_less(Binary32 { bits: FLAT_BITS }, length) {
        (a.over(length), b.over(length))
    } else {
        (Binary32 { bits: 0 }, Binary32 { bits: ONE_BITS })
    }
}

/// The square of a small integer as a number: exact up to one part in a thousand, and 0 for 0.
proof fn lemma_square(v: int)
    requires
        -0x40_0000 < v < 0x40_0000,
    ensures
        ({
            let p = product(nearest_int(v), nearest_int(v));
            let u = one_units();
            &&& p.finite()
            &&& !p.negative()
            &&& 999 * ((v * v) * u) <= 1000 * mag(p.low())
            &&& 1000 * mag(p.low()) <= 1001 * ((v * v) * u)
        }),
{
    let u = one_units();
    lemma_large_units();
    small_int_is_exact(v);
    let f = nearest_int(v);
    let m = mag(f.low());
    let a = if v < 0 {
        -v
    } else {
        v
    };
    assert(m == a * u) by (nonlinear_arith)
        requires
            v < 0 ==> -m == v * u && a == -v,
            v >= 0 ==> m == v * u && a == v,
    ;
    let sq = v * v;
    assert(0 <= sq < 0x1000_0000_0000) by (nonlinear_arith)
        requires
            -0x40_0000 < v < 0x40_0000,
            sq == v * v,
    ;
    assert(m * m == (sq * u) * u) by (nonlinear_arith)
        requires
            m == a * u,
            v < 0 ==> a == -v,
            v >= 0 ==> a == v,
            sq == v * v,
    ;
    let z = sq * u;
    let big = vstd::arithmetic::power2::pow2(276) as int;
    assert(z * u < big * u) by (nonlinear_arith)
        requires
            z == sq * u,
            sq < 0x1000_0000_0000,
            big >= 0x1000_0000_0000 * u,
            u > 0,
    ;
    product_error(f, f);
    let p = mag(product(f, f).low());
    lemma_divide(p, z, u);
    assert(z == 0 || z >= u) by (nonlinear_arith)
        requires
            z == sq * u,
            sq >= 0,
            u > 0,
    ;
}

/// Cancels the scale of a product's rounding error.
proof fn lemma_divide(p: int, z: int, u: int)
    requires
        u > 0,
        0x100_0000 * (p * u - z * u) <= z * u + 0x80_0000 * u,
        0x100_0000 * (z * u - p * u) <= z * u + 0x80_0000 * u,
    ensures
        0x100_0000 * (p - z) <= z + 0x80_0000,
        0x100_0000 * (z - p) <= z + 0x80_0000,
{
    assert(0x100_0000 * (p - z) <= z + 0x80_0000 && 0x100_0000 * (z - p) <= z + 0x80_0000)
        by (nonlinear_arith)
        requires
            u > 0,
            0x100_0000 * (p * u - z * u) <= z * u + 0x80_0000 * u,
            0x100_0000 * (z * u - p * u) <= z * u + 0x80_0000 * u,
    ;
}

proof fn lemma_large_units()
    ensures
        one_units() >= 0x1_0000_0000_0000_0000_0000_0000_0000,
        vstd::arithmetic::power2::pow2(276) >= 0x1000_0000_0000_0000_0000 * one_units(),
        mag(ONE_BITS as int) == one_units(),
        mag(TWO_31_BITS as int) == 0x8000_0000 * one_units(),
        mag(0) == 0,
{
    vstd::arithmetic::power2::lemma2_to64();
    vstd::arithmetic::power2::lemma2_to64_rest();
    vstd::arithmetic::power2::lemma_pow2_adds(64, 48);
    vstd::arithmetic::power2::lemma_pow2_strictly_increases(112, 149);
    vstd::arithmetic::power2::lemma_pow2_strictly_increases(112, 127);
    vstd::arithmetic::power2::lemma_pow2_adds(127, 149);
    vstd::arithmetic::power2::lemma_pow2_adds(23, 126);
    vstd::arithmetic::power2::lemma_pow2_adds(23, 157);
    vstd::arithmetic::power2::lemma_pow2_adds(31, 149);
    assert(0x1_0000_0000_0000_0000int * 0x1_0000_0000_0000int
        == 0x1_0000_0000_0000_0000_0000_0000_0000int);
    let u = one_units();
    let t = vstd::arithmetic::power2::pow2(127) as int;
    assert(t * u >= 0x1000_0000_0000_0000_0000 * u) by (nonlinear_arith)
        requires
            t >= 0x1000_0000_0000_0000_0000,
            u > 0,
    ;
}

/// The bound on sine and cosine, over plain integers: `x` is the squared length, `r` its root, and `s`
/// and `c` are the two quotients by it.
proof fn lemma_unit_bound(a: int, b: int, x: int, r: int, s: int, c: int, u: int)
    requires
        u > 0,
        a >= 0,
        b >= 0,
        r > 0,
        998 * ((a * a + b * b) * u) <= 1000 * x,
        990 * (x * u) <= 1000 * (r * r),
        1000 * (s * r) <= 1001 * (a * (u * u)),
        1000 * (c * r) <= 1001 * (b * (u * u)),
        s >= 0,
        c >= 0,
        a * a + b * b > 0,
    ensures
        2 * (s + c) <= 3 * u,
{
    let g = s + c;
    let k = a + b;
    let q = a * a + b * b;
    if 2 * g > 3 * u {
        assert(1000 * (g * r) <= 1001 * (k * (u * u))) by (nonlinear_arith)
            requires
                1000 * (s * r) <= 1001 * (a * (u * u)),
                1000 * (c * r) <= 1001 * (b * (u * u)),
                g == s + c,
                k == a + b,
        ;
        assert(3 * u * r < 2 * (g * r)) by (nonlinear_arith)
            requires
                2 * g > 3 * u,
                r > 0,
        ;
        assert(3000 * r < 2002 * (k * u)) by (nonlinear_arith)
            requires
                3 * u * r < 2 * (g * r),
                1000 * (g * r) <= 1001 * (k * (u * u)),
                u > 0,
        ;
        let ku = k * u;
        assert(9000000 * (r * r) < 4008004 * (ku * ku)) by (nonlinear_arith)
            requires
                3000 * r < 2002 * ku,
                r > 0,
        ;
        assert(k * k <= 2 * q) by (nonlinear_arith)
            requires
                k == a + b,
                q == a * a + b * b,
        ;
        let uu = u * u;
        assert(ku * ku <= 2 * (q * uu)) by (nonlinear_arith)
            requires
                ku == k * u,
                k * k <= 2 * q,
                uu == u * u,
                u > 0,
        ;
        assert(998 * (q * uu) <= 1000 * (x * u)) by (nonlinear_arith)
            requires
                998 * (q * u) <= 1000 * x,
                uu == u * u,
                u > 0,
        ;
        assert(q * uu > 0) by (nonlinear_arith)
            requires
                q > 0,
                uu == u * u,
                u > 0,
        ;
    }
}

/// Sine and cosine of a direction are finite, and together at most 3/2 in magnitude.
pub proof fn direction_is_bounded(m01: int, m10: int)
    requires
        -0x40_0000 < m01 < 0x40_0000,
        -0x40_0000 < m10 < 0x40_0000,
    ensures
        direction(m01, m10).0.finite(),
        direction(m01, m10).1.finite(),
        2 * (mag(direction(m01, m10).0.low()) + mag(direction(m01, m10).1.low())) <= 3
            * one_units(),
{
    let u = one_units();
    lemma_large_units();
    let fa = nearest_int(m01);
    let fb = nearest_int(m10);
    small_int_is_exact(m01);
    small_int_is_exact(m10);
    lemma_square(m01);
    lemma_square(m10);
    let pa = product(fa, fa);
    let pb = product(fb, fb);
    let qa = (m01 * m01) * u;
    let qb = (m10 * m10) * u;
    let q = m01 * m01 + m10 * m10;
    assert(q * u == qa + qb) by (nonlinear_arith)
        requires
            qa == (m01 * m01) * u,
            qb == (m10 * m10) * u,
            q == m01 * m01 + m10 * m10,
    ;
    assert(0 <= q < 0x2000_0000_0000 && 0 <= m01 * m01 && 0 <= m10 * m10 && (q == 0 ==> m01 == 0
        && m10 == 0)) by (nonlinear_arith)
        requires
            q == m01 * m01 + m10 * m10,
            -0x40_0000 < m01 < 0x40_0000,
            -0x40_0000 < m10 < 0x40_0000,
    ;
    assert(0 <= qa && 0 <= qb && qa + qb < 0x2000_0000_0000 * u && (q > 0 ==> qa + qb >= u))
        by (nonlinear_arith)
        requires
            qa == (m01 * m01) * u,
            qb == (m10 * m10) * u,
            0 <= m01 * m01,
            0 <= m10 * m10,
            q * u == qa + qb,
            0 <= q < 0x2000_0000_0000,
            u > 0,
    ;
    sum_error(pa, pb);
    let xf = sum(pa, pb);
    let x = mag(xf.low());
    let r = root(xf);
    if q == 0 {
        // No direction: the length is 0.
        assert(pa.units() == 0 && pb.units() == 0);
        assert(xf.units() == 0);
        assert(r == (Binary32 { bits: 0 }));
        assert(!less(Binary32 { bits: FLAT_BITS }, r)) by {
            crate::binary32::mag_is_increasing(0, FLAT_BITS as int);
        }
    } else {
        assert(xf.units() == x);
        assert(2 * x >= u && x <= 0x1_0000_0000_0000 * u);
        root_is_large_enough(xf);
        if less(Binary32 { bits: FLAT_BITS }, r) {
            let rm = mag(r.low());
            let a = lemma_share(m01, r);
            let b = lemma_share(m10, r);
            assert(a * a + b * b == q) by (nonlinear_arith)
                requires
                    a == m01 || a == -m01,
                    b == m10 || b == -m10,
                    q == m01 * m01 + m10 * m10,
            ;
            assert(998 * (q * u) <= 1000 * x);
            lemma_unit_bound(
                a,
                b,
                x,
                rm,
                mag(quotient(fa, r).low()),
                mag(quotient(fb, r).low()),
                u,
            );
        }
    }
}

/// The quotient of a small integer by a root.
proof fn lemma_share(v: int, r: Binary32) -> (a: int)
    requires
        -0x40_0000 < v < 0x40_0000,
        r.finite(),
        !r.negative(),
        r.low() > 0,
        one_units() <= 2 * mag(r.low()),
        mag(r.low()) <= 0x1000_0000_0000_0000 * one_units(),
    ensures
        a >= 0,
        a == v || a == -v,
        quotient(nearest_int(v), r).finite(),
        mag(quotient(nearest_int(v), r).low()) >= 0,
        1000 * (mag(quotient(nearest_int(v), r).low()) * mag(r.low())) <= 1001 * (a * (one_units()
            * one_units())),
{
    let u = one_units();
    lemma_large_units();
    small_int_is_exact(v);
    let f = nearest_int(v);
    let m = mag(f.low());
    let d = mag(r.low());
    let a = if v < 0 {
        -v
    } else {
        v
    };
    assert(m == a * u) by (nonlinear_arith)
        requires
            v < 0 ==> -m == v * u && a == -v,
            v >= 0 ==> m == v * u && a == v,
    ;
    let big = vstd::arithmetic::power2::pow2(276) as int;
    assert(m * u < big * d) by (nonlinear_arith)
        requires
            m == a * u,
            0 <= a < 0x40_0000,
            u <= 2 * d,
            big >= 0x1000_0000_0000_0000_0000 * u,
            u > 0,
    ;
    quotient_error(f, r);
    let s = mag(quotient(f, r).low());
    if quotient(f, r).low() > 0 {
        crate::binary32::mag_is_increasing(0, quotient(f, r).low());
    }
    let sd = s * d;
    let uu = u * u;
    assert(m * u == a * uu) by (nonlinear_arith)
        requires
            m == a * u,
            uu == u * u,
    ;
    if a == 0 {
        assert(a * uu == 0);
        assert(s == 0) by (nonlinear_arith)
            requires
                0x100_0000 * (s * d) <= 0x80_0000 * d,
                s >= 0,
                d > 0,
        ;
        assert(s * d == 0) by (nonlinear_arith)
            requires
                s == 0,
        ;
    } else {
        assert(0x80_0000 * (0x10000 * d) <= a * uu) by (nonlinear_arith)
            requires
                d <= 0x1000_0000_0000_0000 * u,
                uu == u * u,
                u >= 0x1_0000_0000_0000_0000_0000_0000_0000,
                a >= 1,
        ;
    }
    a
}

/// The product of a sine or cosine with a pattern coordinate.
proof fn lemma_reach(f: Binary32, v: int)
    requires
        f.finite(),
        2 * mag(f.low()) <= 3 * one_units(),
        -13 <= v <= 13,
    ensures
        product(f, nearest_int(v)).finite(),
        1000 * mag(product(f, nearest_int(v)).low()) <= 13013 * mag(f.low()) + 1000,
        mag(f.low()) >= 0,
        mag(product(f, nearest_int(v)).low()) >= 0,
{
    let u = one_units();
    lemma_large_units();
    small_int_is_exact(v);
    let g = nearest_int(v);
    let m = mag(f.low());
    let a = if v < 0 {
        -v
    } else {
        v
    };
    let gm = mag(g.low());
    assert(gm == a * u) by (nonlinear_arith)
        requires
            v < 0 ==> -gm == v * u && a == -v,
            v >= 0 ==> gm == v * u && a == v,
    ;
    if f.low() > 0 {
        crate::binary32::mag_is_increasing(0, f.low());
    }
    let z = a * m;
    assert(m * gm == z * u) by (nonlinear_arith)
        requires
            gm == a * u,
            z == a * m,
    ;
    assert(0 <= z <= 13 * m) by (nonlinear_arith)
        requires
            z == a * m,
            0 <= a <= 13,
            m >= 0,
    ;
    let big = vstd::arithmetic::power2::pow2(276) as int;
    assert(z * u < big * u) by (nonlinear_arith)
        requires
            z < big,
            u > 0,
    ;
    product_error(f, g);
    let r = product(f, g);
    if r.low() > 0 {
        crate::binary32::mag_is_increasing(0, r.low());
    }
    lemma_divide(mag(r.low()), z, u);
}

/// A sum of two reaches rounds to an offset of at most 20 pixels.
proof fn lemma_offset(a: Binary32, b: Binary32, s: int, c: int)
    requires
        a.finite(),
        b.finite(),
        s >= 0,
        c >= 0,
        2 * (s + c) <= 3 * one_units(),
        1000 * mag(a.low()) <= 13013 * s + 1000,
        1000 * mag(b.low()) <= 13013 * c + 1000,
        mag(a.low()) >= 0,
        mag(b.low()) >= 0,
    ensures
        sum(a, b).low() < TWO_31_BITS,
        -20 <= half_even(sum(a, b)) <= 20,
{
    let u = one_units();
    lemma_large_units();
    sum_error(a, b);
    let r = sum(a, b);
    let m = mag(r.low());
    if r.low() > 0 {
        crate::binary32::mag_is_increasing(0, r.low());
    }
    assert(1000 * m <= 20400 * u);
    if r.low() >= TWO_31_BITS {
        if r.low() > TWO_31_BITS {
            crate::binary32::mag_is_increasing(TWO_31_BITS as int, r.low());
        }
    }
    let whole = m / u;
    let rest = m % u;
    vstd::arithmetic::div_mod::lemma_fundamental_div_mod(m, u);
    assert(whole * u == u * whole) by (nonlinear_arith);
    assert(0 <= whole <= 20) by (nonlinear_arith)
        requires
            m == u * whole + rest,
            0 <= rest < u,
            0 <= m,
            1000 * m <= 20400 * u,
            u > 0,
    ;
    if whole == 20 {
        assert(u * whole == 20 * u) by (nonlinear_arith)
            requires
                whole == 20,
        ;
    }
}

/// A bounded direction moves no pattern point by more than 20 pixels: its horizontal offset.
proof fn lemma_turned_x(sin: Binary32, cos: Binary32, dx: int, dy: int)
    requires
        sin.finite(),
        cos.finite(),
        2 * (mag(sin.low()) + mag(cos.low())) <= 3 * one_units(),
        mag(sin.low()) >= 0,
        mag(cos.low()) >= 0,
        -13 <= dx <= 13,
        -13 <= dy <= 13,
    ensures
        turned_x(sin, cos, dx, dy).low() < TWO_31_BITS,
        -20 <= half_even(turned_x(sin, cos, dx, dy)) <= 20,
{
    lemma_reach(sin, dy);
    lemma_reach(cos, dx);
    lemma_offset(
        product(cos, nearest_int(dx)),
        crate::binary32::opposite(product(sin, nearest_int(dy))),
        mag(cos.low()),
        mag(sin.low()),
    );
}

/// A bounded direction moves no pattern point by more than 20 pixels: its vertical offset.
proof fn lemma_turned_y(sin: Binary32, cos: Binary32, dx: int, dy: int)
    requires
        sin.finite(),
        cos.finite(),
        2 * (mag(sin.low()) + mag(cos.low())) <= 3 * one_units(),
        mag(sin.low()) >= 0,
        mag(cos.low()) >= 0,
        -13 <= dx <= 13,
        -13 <= dy <= 13,
    ensures
        turned_y(sin, cos, dx, dy).low() < TWO_31_BITS,
        -20 <= half_even(turned_y(sin, cos, dx, dy)) <= 20,
{
    lemma_reach(sin, dx);
    lemma_reach(cos, dy);
    lemma_offset(
        product(sin, nearest_int(dx)),
        product(cos, nearest_int(dy)),
        mag(sin.low()),
        mag(cos.low()),
    );
}

/// For the orientation of a patch, every rotated pattern point stays within 20 pixels.
proof fn lemma_turned(m01: int, m10: int, dx: int, dy: int)
    requires
        -0x40_0000 < m01 < 0x40_0000,
        -0x40_0000 < m10 < 0x40_0000,
        -13 <= dx <= 13,
        -13 <= dy <= 13,
    ensures
        ({
            let (sin, cos) = direction(m01, m10);
            &&& turned_x(sin, cos, dx, dy).low() < TWO_31_BITS
            &&& turned_y(sin, cos, dx, dy).low() < TWO_31_BITS
            &&& -20 <= half_even(turned_x(sin, cos, dx, dy)) <= 20
            &&& -20 <= half_even(turned_y(sin, cos, dx, dy)) <= 20
        }),
{
    let (sin, cos) = direction(m01, m10);
    direction_is_bounded(m01, m10);
    if sin.low() > 0 {
        crate::binary32::mag_is_increasing(0, sin.low());
    }
    if cos.low() > 0 {
        crate::binary32::mag_is_increasing(0, cos.low());
    }
    lemma_turned_x(sin, cos, dx, dy);
    lemma_turned_y(sin, cos, dx, dy);
}

/// Orientation at an interior keypoint keeps all samples inside the first `w * h` pixels.
proof fn lemma_samples_inside(im: Seq<u8>, w: int, h: int, x: int, y: int)
    requires
        interior(w, h, x, y),
        x <= i32::MAX - 20,
        y <= i32::MAX - 20,
    ensures
        samples_inside(
            w * h,
            w,
            x,
            y,
            orientation(im, w, y * w + x).0,
            orientation(im, w, y * w + x).1,
        ),
{
    let c = y * w + x;
    let m01 = moment01(im, w, c, HALF_PATCH as int);
    let m10 = moment10(im, w, c, HALF_PATCH as int);
    lemma_moments(im, w, c, 15);
    let (sin, cos) = direction(m01, m10);
    assert forall|p: int| 0 <= p < 512 implies #[trigger] sample_inside(
        w * h,
        w,
        x,
        y,
        sin,
        cos,
        p,
    ) by {
        let dx = pattern(2 * p);
        let dy = pattern(2 * p + 1);
        lemma_pattern(2 * p);
        lemma_pattern(2 * p + 1);
        lemma_turned(m01, m10, dx, dy);
        let ax = x + half_even(turned_x(sin, cos, dx, dy));
        let ay = y + half_even(turned_y(sin, cos, dx, dy));
        assert(ay * w + ax < w * h) by (nonlinear_arith)
            requires
                0 <= ax < w,
                ay + 1 <= h,
        ;
    }
}

/// Orientation at an interior keypoint keeps all samples inside the image.
pub proof fn orientation_keeps_samples_inside(im: Seq<u8>, w: int, h: int, x: int, y: int)
    requires
        interior(w, h, x, y),
        w * h <= im.len(),
        x <= i32::MAX - 20,
        y <= i32::MAX - 20,
    ensures
        samples_inside(
            im.len() as int,
            w,
            x,
            y,
            orientation(im, w, y * w + x).0,
            orientation(im, w, y * w + x).1,
        ),
{
    lemma_samples_inside(im, w, h, x, y);
    let (sin, cos) = orientation(im, w, y * w + x);
    assert forall|p: int| 0 <= p < 512 implies #[trigger] sample_inside(
        im.len() as int,
        w,
        x,
        y,
        sin,
        cos,
        p,
    ) by {
        assert(sample_inside(w * h, w, x, y, sin, cos, p));
    }
}

/// Orientation at (`x`, `y`) of a `w` by `h` image; `None` in the border band.
pub fn rbrief_angle(im: &[u8], w: usize, h: usize, x: usize, y: usize) -> (r: Option<
    (Binary32, Binary32),
>)
    requires
        interior(w as int, h as int, x as int, y as int) ==> w * h <= im.len(),
    ensures
        r is Some <==> interior(w as int, h as int, x as int, y as int),
        r matches Some(angle) ==> angle == orientation(im@, w as int, y * w + x),
        r matches Some(angle) ==> points_along(
            angle.0,
            angle.1,
            moment01(im@, w as int, y * w + x, HALF_PATCH as int),
            moment10(im@, w as int, y * w + x, HALF_PATCH as int),
        ),
{
    let ok: bool = x >= HALF_BOUNDARY && y >= HALF_BOUNDARY && w > HALF_BOUNDARY && x < w
        - HALF_BOUNDARY && h > HALF_BOUNDARY && y < h - HALF_BOUNDARY;
    if !ok {
        return None;
    }
    proof {
        assert((y + 20) * w + x < w * h) by (nonlinear_arith)
            requires
                x < w,
                y + 21 <= h,
        ;
        assert(20 * w <= y * w) by (nonlinear_arith)
            requires
                20 <= y,
        ;
        assert((y + 20) * w == y * w + 20 * w) by (nonlinear_arith);
    }
    Some(ic_angle(im, w, y * w + x))
}

/// Row-major index of the pixel that a pattern point samples.
fn rotate(
    w: usize,
    x: usize,
    y: usize,
    sin: Binary32,
    cos: Binary32,
    dx: i32,
    dy: i32,
    Ghost(p): Ghost<int>,
    Ghost(len): Ghost<int>,
) -> (i: usize)
    requires
        x <= i32::MAX,
        y <= i32::MAX,
        len <= usize::MAX,
        dx == pattern(2 * p),
        dy == pattern(2 * p + 1),
        sample_inside(len, w as int, x as int, y as int, sin, cos, p),
    ensures
        i == sample_index(w as int, x as int, y as int, sin, cos, p),
{
    let fx: Binary32 = from_i32(dx);
    let fy: Binary32 = from_i32(dy);
    let ox: i32 = lrint_half_even(cos.times(fx).minus(sin.times(fy)));
    let oy: i32 = lrint_half_even(sin.times(fx).plus(cos.times(fy)));
    let ax: usize = (ox as i64 + x as i64) as usize;
    let ay: usize = (oy as i64 + y as i64) as usize;
    assert(0 <= ay * w) by (nonlinear_arith);
    ay * w + ax
}

/// The 256 comparisons rotated to an orientation, written to all words of `desc`.
pub fn rbrief_samples(
    im: &[u8],
    w: usize,
    x: usize,
    y: usize,
    sin_theta: Binary32,
    cos_theta: Binary32,
    desc: &mut Descriptor,
)
    requires
        x <= i32::MAX,
        y <= i32::MAX,
        samples_inside(im.len() as int, w as int, x as int, y as int, sin_theta, cos_theta),
    ensures
        final(desc)@ == described(im@, w as int, x as int, y as int, sin_theta, cos_theta),
{
    let ghost flags = |idx: int|
        darker(im@, w as int, x as int, y as int, sin_theta, cos_theta, idx);
    for i in 0..8usize
        invariant
            x <= i32::MAX,
            y <= i32::MAX,
            samples_inside(im.len() as int, w as int, x as int, y as int, sin_theta, cos_theta),
            flags == (|idx: int|
                darker(im@, w as int, x as int, y as int, sin_theta, cos_theta, idx)),
            desc@.len() == 8,
            forall|k: int| 0 <= k < i ==> #[trigger] desc@[k] == packed(flags, 32 * k, 32) as u32,
    {
        let mut d: u64 = 0;
        let mut bit: u64 = 1;
        proof {
            vstd::arithmetic::power2::lemma2_to64();
        }
        for k in 0..32usize
            invariant
                x <= i32::MAX,
                y <= i32::MAX,
                i < 8,
                samples_inside(
                    im.len() as int,
                    w as int,
                    x as int,
                    y as int,
                    sin_theta,
                    cos_theta,
                ),
                flags == (|idx: int|
                    darker(im@, w as int, x as int, y as int, sin_theta, cos_theta, idx)),
                bit == vstd::arithmetic::power2::pow2(k as nat),
                d == packed(flags, 32 * i, k as int),
                d < bit,
                bit <= 0x1_0000_0000,
        {
            let ghost idx = 32 * i + k;
            let (px, py, qx, qy): (i32, i32, i32, i32) = pattern_pair(i * 32 + k);
            assert(sample_inside(
                im.len() as int,
                w as int,
                x as int,
                y as int,
                sin_theta,
                cos_theta,
                2 * idx,
            ));
            assert(sample_inside(
                im.len() as int,
                w as int,
                x as int,
                y as int,
                sin_theta,
                cos_theta,
                2 * idx + 1,
            ));
            let a: usize = rotate(
                w,
                x,
                y,
                sin_theta,
                cos_theta,
                px,
                py,
                Ghost(2 * idx),
                Ghost(im.len() as int),
            );
            let b: usize = rotate(
                w,
                x,
                y,
                sin_theta,
                cos_theta,
                qx,
                qy,
                Ghost(2 * idx + 1),
                Ghost(im.len() as int),
            );
            proof {
                vstd::arithmetic::power2::lemma_pow2_unfold((k + 1) as nat);
                vstd::arithmetic::power2::lemma2_to64();
                if k < 31 {
                    vstd::arithmetic::power2::lemma_pow2_strictly_increases((k + 1) as nat, 32);
                }
                assert(flags(idx) == (im@[a as int] < im@[b as int]));
            }
            if im[a] < im[b] {
                d = d + bit;
            }
            bit = bit * 2;
        }
        desc[i] = d as u32;
    }
    assert(desc@ =~= described(im@, w as int, x as int, y as int, sin_theta, cos_theta));
}

/// The descriptor at (`x`, `y`) of a blurred `w` by `h` image. In the border band it is all zero and
/// the result is false.
pub fn rbrief_descriptor(
    im: &[u8],
    w: usize,
    h: usize,
    x: usize,
    y: usize,
    desc: &mut Descriptor,
) -> (ok: bool)
    requires
        interior(w as int, h as int, x as int, y as int) ==> {
            &&& w * h <= im.len()
            &&& x <= i32::MAX - 20
            &&& y <= i32::MAX - 20
        },
    ensures
        ok == interior(w as int, h as int, x as int, y as int),
        final(desc)@ == descriptor_of(im@, w as int, h as int, x as int, y as int),
{
    *desc = [0; 8];
    assert(desc@ =~= seq![0u32, 0, 0, 0, 0, 0, 0, 0]);
    match rbrief_angle(im, w, h, x, y) {
        Some((sin_theta, cos_theta)) => {
            proof {
                orientation_keeps_samples_inside(
                    im@,
                    w as int,
                    h as int,
                    x as int,
                    y as int,
                );
            }
            rbrief_samples(im, w, x, y, sin_theta, cos_theta, desc);
            true
        },
        None => false,
    }
}

proof fn lemma_packed(flags: spec_fn(int) -> bool, base: int, n: int)
    requires
        0 <= n,
    ensures
        0 <= packed(flags, base, n) < vstd::arithmetic::power2::pow2(n as nat),
    decreases n,
{
    vstd::arithmetic::power2::lemma2_to64();
    if n > 0 {
        lemma_packed(flags, base, n - 1);
        vstd::arithmetic::power2::lemma_pow2_unfold(n as nat);
    }
}

proof fn lemma_packed_bit(flags: spec_fn(int) -> bool, base: int, n: int, k: int)
    requires
        0 <= k < n,
    ensures
        (packed(flags, base, n) / vstd::arithmetic::power2::pow2(k as nat) as int) % 2 == 1
            <==> flags(base + k),
    decreases n,
{
    let low = packed(flags, base, n - 1);
    let p = vstd::arithmetic::power2::pow2(k as nat) as int;
    lemma_packed(flags, base, n - 1);
    vstd::arithmetic::power2::lemma_pow2_pos(k as nat);
    if k == n - 1 {
        if flags(base + k) {
            vstd::arithmetic::div_mod::lemma_fundamental_div_mod_converse(low + p, p, 1, low);
        } else {
            vstd::arithmetic::div_mod::lemma_fundamental_div_mod_converse(low, p, 0, low);
        }
    } else {
        lemma_packed_bit(flags, base, n - 1, k);
        if flags(base + n - 1) {
            let t = vstd::arithmetic::power2::pow2((n - 2 - k) as nat) as int;
            vstd::arithmetic::power2::lemma_pow2_adds((k + 1) as nat, (n - 2 - k) as nat);
            vstd::arithmetic::power2::lemma_pow2_unfold((k + 1) as nat);
            let top = vstd::arithmetic::power2::pow2((n - 1) as nat) as int;
            assert(top == p * (2 * t)) by (nonlinear_arith)
                requires
                    top == (2 * p) * t,
            ;
            vstd::arithmetic::div_mod::lemma_hoist_over_denominator(low, 2 * t, p as nat);
            assert((2 * t) * p == p * (2 * t)) by (nonlinear_arith);
        }
    }
}

/// Bit `k` of word `i` of a descriptor is comparison `i * 32 + k`.
pub proof fn descriptor_bits_are_comparisons(
    im: Seq<u8>,
    w: int,
    x: int,
    y: int,
    sin: Binary32,
    cos: Binary32,
    i: int,
    k: int,
)
    requires
        0 <= i < 8,
        0 <= k < 32,
    ensures
        (described(im, w, x, y, sin, cos)[i] as int / vstd::arithmetic::power2::pow2(k as nat) as int)
            % 2 == 1 <==> darker(im, w, x, y, sin, cos, 32 * i + k),
{
    let flags = |idx: int| darker(im, w, x, y, sin, cos, idx);
    lemma_packed(flags, 32 * i, 32);
    vstd::arithmetic::power2::lemma2_to64();
    lemma_packed_bit(flags, 32 * i, 32, k);
    assert(flags(32 * i + k) == darker(im, w, x, y, sin, cos, 32 * i + k));
}

proof fn lemma_packed_none(flags: spec_fn(int) -> bool, base: int, n: int)
    requires
        forall|idx: int| base <= idx < base + n ==> !#[trigger] flags(idx),
    ensures
        packed(flags, base, n) == 0,
    decreases n,
{
    if n > 0 {
        lemma_packed_none(flags, base, n - 1);
    }
}

/// A keypoint in the border band has the zero descriptor.
pub proof fn border_descriptor_is_zero(im: Seq<u8>, w: int, h: int, x: int, y: int)
    requires
        !interior(w, h, x, y),
    ensures
        zero(descriptor_of(im, w, h, x, y)),
{
}

/// A flat image has zero descriptors everywhere: no pixel is darker than another.
pub proof fn flat_descriptor_is_zero(im: Seq<u8>, w: int, h: int, x: int, y: int, v: u8)
    requires
        forall|i: int| 0 <= i < im.len() ==> #[trigger] im[i] == v,
        interior(w, h, x, y) ==> w * h <= im.len() && x <= i32::MAX - 20 && y <= i32::MAX - 20,
    ensures
        zero(descriptor_of(im, w, h, x, y)),
{
    if interior(w, h, x, y) {
        orientation_keeps_samples_inside(im, w, h, x, y);
        let (sin, cos) = orientation(im, w, y * w + x);
        let flags = |idx: int| darker(im, w, x, y, sin, cos, idx);
        assert forall|i: int| 0 <= i < 8 implies #[trigger] descriptor_of(im, w, h, x, y)[i]
            == 0 by {
            assert forall|idx: int| 32 * i <= idx < 32 * i + 32 implies !#[trigger] flags(idx) by {
                let len = im.len() as int;
                assert(sample_inside(len, w, x, y, sin, cos, 2 * idx));
                assert(sample_inside(len, w, x, y, sin, cos, 2 * idx + 1));
                lemma_index_nonnegative(len, w, x, y, sin, cos, 2 * idx);
                lemma_index_nonnegative(len, w, x, y, sin, cos, 2 * idx + 1);
            }
            lemma_packed_none(flags, 32 * i, 32);
        }
    }
}

proof fn lemma_index_nonnegative(
    len: int,
    w: int,
    x: int,
    y: int,
    sin: Binary32,
    cos: Binary32,
    p: int,
)
    requires
        w >= 0,
        sample_inside(len, w, x, y, sin, cos, p),
    ensures
        0 <= sample_index(w, x, y, sin, cos, p) < len,
{
    let ay = y + half_even(turned_y(sin, cos, pattern(2 * p), pattern(2 * p + 1)));
    assert(ay * w >= 0) by (nonlinear_arith)
        requires
            ay >= 0,
            w >= 0,
    ;
}

/// The first `w * h` pixels of `b` are those of `a`, each brighter by `c`.
pub open spec fn brighter(a: Seq<u8>, b: Seq<u8>, w: int, h: int, c: int) -> bool {
    forall|i: int| 0 <= i < w * h ==> #[trigger] b[i] == a[i] + c
}

proof fn lemma_brighter_row(a: Seq<u8>, b: Seq<u8>, base: int, d: int, k: int, c: int)
    requires
        0 <= d,
        -d <= k,
        forall|i: int| base - d <= i < base + k ==> #[trigger] b[i] == a[i] + c,
    ensures
        row_sum(b, base, d, k) == row_sum(a, base, d, k) + c * (k + d),
        2 * row_moment(b, base, d, k) == 2 * row_moment(a, base, d, k) + c * ((k - 1 - d) * (k
            + d)),
    decreases k + d,
{
    if k + d > 0 {
        lemma_brighter_row(a, b, base, d, k - 1, c);
        let p = a[base + k - 1] as int;
        assert(b[base + k - 1] == p + c);
        assert(c * (k + d) == c * (k - 1 + d) + c) by (nonlinear_arith);
        assert((k - 1) * (p + c) == (k - 1) * p + (k - 1) * c) by (nonlinear_arith);
        assert(c * ((k - 1 - d) * (k + d)) == c * ((k - 2 - d) * (k - 1 + d)) + 2 * ((k - 1) * c))
            by (nonlinear_arith);
    } else {
        assert(k + d == 0);
        assert(c * 0 == 0 && c * ((k - 1 - d) * 0) == 0) by (nonlinear_arith);
    }
}

/// A whole row of the window: its sum grows by the number of pixels, its moment not at all.
proof fn lemma_brighter_window(
    a: Seq<u8>,
    b: Seq<u8>,
    w: int,
    h: int,
    x: int,
    row: int,
    d: int,
    c: int,
)
    requires
        brighter(a, b, w, h, c),
        0 <= d <= 15,
        15 <= x,
        x + 15 < w,
        0 <= row < h,
    ensures
        row_sum(b, row * w + x, d, d + 1) == row_sum(a, row * w + x, d, d + 1) + c * (2 * d + 1),
        row_moment(b, row * w + x, d, d + 1) == row_moment(a, row * w + x, d, d + 1),
{
    let base = row * w + x;
    assert(0 <= row * w && row * w + w <= w * h) by (nonlinear_arith)
        requires
            0 <= row,
            row + 1 <= h,
            0 <= w,
    ;
    assert forall|i: int| base - d <= i < base + d + 1 implies #[trigger] b[i] == a[i] + c by {}
    lemma_brighter_row(a, b, base, d, d + 1, c);
    assert(c * (0 * (2 * d + 1)) == 0) by (nonlinear_arith);
}

pub(crate) proof fn lemma_brighter_moments(
    a: Seq<u8>,
    b: Seq<u8>,
    w: int,
    h: int,
    x: int,
    y: int,
    v: int,
    c: int,
)
    requires
        brighter(a, b, w, h, c),
        interior(w, h, x, y),
        0 <= v <= 15,
    ensures
        moment10(b, w, y * w + x, v) == moment10(a, w, y * w + x, v),
        moment01(b, w, y * w + x, v) == moment01(a, w, y * w + x, v),
    decreases v,
{
    lemma_half_width(v);
    let d = half_width(v);
    if v == 0 {
        lemma_brighter_window(a, b, w, h, x, y, 15, c);
    } else {
        lemma_brighter_moments(a, b, w, h, x, y, v - 1, c);
        lemma_brighter_window(a, b, w, h, x, y + v, d, c);
        lemma_brighter_window(a, b, w, h, x, y - v, d, c);
        assert(y * w + x + v * w == (y + v) * w + x) by (nonlinear_arith);
        assert(y * w + x - v * w == (y - v) * w + x) by (nonlinear_arith);
    }
}

proof fn lemma_packed_same(
    f: spec_fn(int) -> bool,
    g: spec_fn(int) -> bool,
    base: int,
    n: int,
)
    requires
        forall|idx: int| base <= idx < base + n ==> #[trigger] f(idx) == g(idx),
    ensures
        packed(f, base, n) == packed(g, base, n),
    decreases n,
{
    if n > 0 {
        assert(f(base + n - 1) == g(base + n - 1));
        lemma_packed_same(f, g, base, n - 1);
    }
}

/// A uniform brightness offset changes neither the orientation nor the descriptor.
pub proof fn offset_keeps_descriptor(
    a: Seq<u8>,
    b: Seq<u8>,
    w: int,
    h: int,
    x: int,
    y: int,
    c: int,
)
    requires
        brighter(a, b, w, h, c),
        interior(w, h, x, y) ==> w * h <= a.len() && w * h <= b.len() && x <= i32::MAX - 20 && y
            <= i32::MAX - 20,
    ensures
        interior(w, h, x, y) ==> orientation(b, w, y * w + x) == orientation(a, w, y * w + x),
        descriptor_of(b, w, h, x, y) == descriptor_of(a, w, h, x, y),
{
    if interior(w, h, x, y) {
        lemma_brighter_moments(a, b, w, h, x, y, 15, c);
        lemma_samples_inside(a, w, h, x, y);
        let (sin, cos) = orientation(a, w, y * w + x);
        let f = |idx: int| darker(b, w, x, y, sin, cos, idx);
        let g = |idx: int| darker(a, w, x, y, sin, cos, idx);
        let db = described(b, w, x, y, sin, cos);
        let da = described(a, w, x, y, sin, cos);
        assert forall|i: int| 0 <= i < 8 implies #[trigger] db[i] == da[i] by {
            assert forall|idx: int| 32 * i <= idx < 32 * i + 32 implies #[trigger] f(idx) == g(
                idx,
            ) by {
                let n = w * h;
                assert(sample_inside(n, w, x, y, sin, cos, 2 * idx));
                assert(sample_inside(n, w, x, y, sin, cos, 2 * idx + 1));
                lemma_index_nonnegative(n, w, x, y, sin, cos, 2 * idx);
                lemma_index_nonnegative(n, w, x, y, sin, cos, 2 * idx + 1);
                let p = sample_index(w, x, y, sin, cos, 2 * idx);
                let q = sample_index(w, x, y, sin, cos, 2 * idx + 1);
                assert(b[p] == a[p] + c && b[q] == a[q] + c);
            }
            lemma_packed_same(f, g, 32 * i, 32);
        }
        assert(db =~= da);
    }
}

} // verus!
