//! What the rotation by a rotation vector is: a turn about the vector by its length.

use vstd::arithmetic::power2::{lemma2_to64, lemma_pow2_adds, pow2};
use vstd::prelude::*;

use crate::binary32::{difference, mag, one_units, product, quotient, sum, Binary32};
use crate::linalg::exact::{
    dot_is_inner_product, exact_dot, finite3, lemma_eps, lemma_tiny, product_is_matrix_product,
};
use crate::linalg::{dot, matrix_product, num, Vec3};
use crate::pose::{
    limited, rodrigues, rotation, skew, ONE_TWENTY_BITS, QUARTER_BITS, SEVEN_TWENTY_BITS, SIX_BITS,
    TWENTY_FOUR_BITS,
};
use crate::sqrt::{HALF_BITS, ONE_BITS};
use crate::value::{
    difference_value, lemma_mul_bounds, lemma_mul_le, lemma_opposite, lemma_scale, lemma_value,
    near, product_value, quotient_value, rabs, sum_value, value, values_compare,
};

verus! {

/// The sine of an angle over the angle, by the square of the angle: the first terms of the series.
pub open spec fn sine_factor(t: real) -> real {
    1real - t / 6real + (t * t) / 120real
}

/// One less the cosine of an angle, over the square of the angle: the first terms of the series.
pub open spec fn cosine_factor(t: real) -> real {
    1real / 2real - t / 24real + (t * t) / 720real
}

/// Entry of the turn about `(a, b, c)` on the diagonal, at the first coordinate.
pub open spec fn turn_kept(a: real, b: real, c: real) -> real {
    1real - cosine_factor(a * a + b * b + c * c) * (b * b + c * c)
}

/// Entry of the turn about `(a, b, c)` from the second coordinate to the first.
pub open spec fn turn_back(a: real, b: real, c: real) -> real {
    cosine_factor(a * a + b * b + c * c) * (a * b) - sine_factor(a * a + b * b + c * c) * c
}

/// Entry of the turn about `(a, b, c)` from the first coordinate to the second.
pub open spec fn turn_forth(a: real, b: real, c: real) -> real {
    cosine_factor(a * a + b * b + c * c) * (a * b) + sine_factor(a * a + b * b + c * c) * c
}

/// A small integer that is held exactly: fraction `m`, exponent `k`.
proof fn lemma_constant(bits: u32, m: int, k: nat, v: int)
    requires
        k < 20,
        bits as int == (127 + k) * 8388608 + m - 8388608,
        8388608 <= m < 16777216,
        m * pow2(k) == v * 8388608,
    ensures
        num(bits).finite(),
        value(num(bits)) == v as real,
{
    lemma_scale();
    lemma2_to64();
    lemma_pow2_adds(23, 126);
    lemma_pow2_adds(k, 126);
    let p = pow2(126) as int;
    assert(pow2(23) == 8388608);
    assert(bits as int % 8388608 == m - 8388608 && bits as int / 8388608 == 127 + k);
    assert(mag(bits as int) == m * pow2((126 + k) as nat));
    assert(m * (pow2(k) * p) == (m * pow2(k)) * p) by (nonlinear_arith);
    assert(v * 8388608 * p == v * (8388608 * p)) by (nonlinear_arith);
    assert(mag(bits as int) == v * one_units());
    lemma_value(num(bits));
    let x = value(num(bits));
    let u = one_units();
    let ur = u as real;
    assert((v * u) as real == (v as real) * ur) by (nonlinear_arith)
        requires
            ur == u as real,
    ;
    assert(x == v as real) by (nonlinear_arith)
        requires
            x * ur == (v as real) * ur,
            ur > 0real,
    ;
}

proof fn lemma_constants()
    ensures
        num(0).finite() && value(num(0)) == 0real,
        num(HALF_BITS).finite() && value(num(HALF_BITS)) == 1real / 2real,
        num(ONE_BITS).finite() && value(num(ONE_BITS)) == 1real,
        num(SIX_BITS).finite() && value(num(SIX_BITS)) == 6real,
        num(TWENTY_FOUR_BITS).finite() && value(num(TWENTY_FOUR_BITS)) == 24real,
        num(ONE_TWENTY_BITS).finite() && value(num(ONE_TWENTY_BITS)) == 120real,
        num(SEVEN_TWENTY_BITS).finite() && value(num(SEVEN_TWENTY_BITS)) == 720real,
{
    lemma2_to64();
    lemma_scale();
    crate::sqrt::lemma_units();
    lemma_value(num(0));
    lemma_value(num(HALF_BITS));
    let x = value(num(HALF_BITS));
    let ur = one_units() as real;
    assert(x == 1real / 2real) by (nonlinear_arith)
        requires
            2real * (x * ur) == ur,
            ur > 0real,
    ;
    lemma_constant(ONE_BITS, 8388608, 0, 1);
    lemma_constant(SIX_BITS, 12582912, 2, 6);
    lemma_constant(TWENTY_FOUR_BITS, 12582912, 4, 24);
    lemma_constant(ONE_TWENTY_BITS, 15728640, 6, 120);
    lemma_constant(SEVEN_TWENTY_BITS, 11796480, 9, 720);
}

/// A short series `base - t / d + t^2 / e` in single precision.
proof fn lemma_series(
    base: Binary32,
    t2: Binary32,
    t4: Binary32,
    d: Binary32,
    e: Binary32,
    t: real,
    dv: real,
    ev: real,
)
    requires
        base.finite() && t2.finite() && t4.finite() && d.finite() && e.finite(),
        0real <= value(base) <= 1real,
        value(d) == dv,
        value(e) == ev,
        6real <= dv <= 1000real,
        6real <= ev <= 1000real,
        0real <= t <= 26real / 100real,
        near(value(t2), t, 1real / 200000real),
        near(value(t4), t * t, 1real / 100000real),
    ensures
        ({
            let s = sum(difference(base, quotient(t2, d)), quotient(t4, e));
            &&& s.finite()
            &&& near(value(s), value(base) - t / dv + (t * t) / ev, 1real / 200000real)
        }),
{
    lemma_tiny();
    lemma_mul_bounds(t, 26real / 100real, t, 26real / 100real);
    let tt = t * t;
    lemma_quotient_near(t2, d, t, dv);
    lemma_quotient_near(t4, e, tt, ev);
    let p = quotient(t2, d);
    let q = quotient(t4, e);
    let x = value(base) - value(p);
    difference_value(base, p);
    lemma_eps(rabs(x));
    let f = difference(base, p);
    let y = value(f) + value(q);
    sum_value(f, q);
    lemma_eps(rabs(y));
}

/// A quotient of a small number by a constant of at least six.
proof fn lemma_quotient_near(x: Binary32, d: Binary32, t: real, dv: real)
    requires
        x.finite() && d.finite(),
        value(d) == dv,
        6real <= dv <= 1000real,
        -(1real / 2real) <= t <= 1real / 2real,
        near(value(x), t, 1real / 100000real),
    ensures
        quotient(x, d).finite(),
        near(value(quotient(x, d)), t / dv, 19real / 10000000real),
        -(1real / 10real) <= t / dv <= 1real / 10real,
{
    lemma_tiny();
    let xv = value(x);
    let a = xv / dv;
    let b = t / dv;
    assert(a * dv == xv && b * dv == t) by (nonlinear_arith)
        requires
            a == xv / dv,
            b == t / dv,
            dv >= 6real,
    ;
    let g = a - b;
    assert(g * dv == xv - t) by (nonlinear_arith)
        requires
            g == a - b,
            a * dv == xv,
            b * dv == t,
    ;
    lemma_small_quotient(g, dv, 1real / 100000real);
    lemma_small_quotient(b, dv, 1real / 2real);
    quotient_value(x, d);
    lemma_eps(rabs(a));
}

/// What is at most `r` when taken six times or more is at most `r / 6`.
proof fn lemma_small_quotient(g: real, dv: real, r: real)
    requires
        6real <= dv,
        -r <= g * dv <= r,
    ensures
        -r <= 6real * g <= r,
{
    if g > 0real {
        lemma_mul_le(6real, dv, g);
        assert(dv * g == g * dv) by (nonlinear_arith);
    }
    if g < 0real {
        lemma_mul_le(6real, dv, -g);
        assert(dv * (-g) == -(g * dv)) by (nonlinear_arith);
    }
}

/// One entry in single precision.
proof fn lemma_entry(
    unit: Binary32,
    sa: Binary32,
    x: Binary32,
    ca: Binary32,
    y: Binary32,
    s: real,
    c: real,
    ye: real,
)
    requires
        unit.finite() && sa.finite() && x.finite() && ca.finite() && y.finite(),
        0real <= value(unit) <= 1real,
        rabs(value(x)) <= 52real / 100real,
        -(3real / 10real) <= ye <= 3real / 10real,
        near(value(y), ye, 1real / 1000000real),
        9real / 10real <= s <= 1real,
        4real / 10real <= c <= 1real / 2real,
        near(value(sa), s, 1real / 200000real),
        near(value(ca), c, 1real / 200000real),
    ensures
        rodrigues(unit, sa, x, ca, y).finite(),
        near(
            value(rodrigues(unit, sa, x, ca, y)),
            value(unit) + s * value(x) + c * ye,
            1real / 100000real,
        ),
{
    lemma_tiny();
    let xv = value(x);
    let yv = value(y);
    let g = value(sa) - s;
    let sx = value(sa) * xv;
    lemma_mul_bounds(g, 1real / 200000real, xv, 52real / 100real);
    assert(sx == s * xv + g * xv) by (nonlinear_arith)
        requires
            sx == value(sa) * xv,
            g == value(sa) - s,
    ;
    lemma_mul_bounds(s, 1real, xv, 52real / 100real);
    product_value(sa, x);
    lemma_eps(rabs(sx));
    let h = value(ca) - c;
    let k = yv - ye;
    let cy = value(ca) * yv;
    lemma_mul_bounds(h, 1real / 200000real, yv, 31real / 100real);
    lemma_mul_bounds(c, 1real / 2real, k, 1real / 1000000real);
    lemma_mul_bounds(c, 1real / 2real, ye, 3real / 10real);
    assert(cy == c * ye + c * k + h * yv) by (nonlinear_arith)
        requires
            cy == value(ca) * yv,
            h == value(ca) - c,
            k == yv - ye,
    ;
    product_value(ca, y);
    lemma_eps(rabs(cy));
    let p = product(sa, x);
    let q = product(ca, y);
    let a = value(unit) + value(p);
    sum_value(unit, p);
    lemma_eps(rabs(a));
    let f = sum(unit, p);
    let b = value(f) + value(q);
    sum_value(f, q);
    lemma_eps(rabs(b));
}

/// The factors in range.
proof fn lemma_factors(t: real)
    requires
        0real <= t <= 26real / 100real,
    ensures
        9real / 10real <= sine_factor(t) <= 1real,
        4real / 10real <= cosine_factor(t) <= 1real / 2real,
{
    lemma_mul_le(t, 26real / 100real, t);
    lemma_mul_le(0real, t, t);
    assert(0real * t == 0real) by (nonlinear_arith);
}

/// Products with signs and zeros.
proof fn lemma_signs(p: real, q: real)
    ensures
        (-p) * q == -(p * q),
        p * (-q) == -(p * q),
        (-p) * (-q) == p * q,
        0real * p == 0real,
        p * 0real == 0real,
        0real * 0real == 0real,
        p * q == q * p,
{
    assert((-p) * q == -(p * q)) by (nonlinear_arith);
    assert(p * (-q) == -(p * q)) by (nonlinear_arith);
    assert((-p) * (-q) == p * q) by (nonlinear_arith);
    assert(0real * p == 0real) by (nonlinear_arith);
    assert(p * 0real == 0real) by (nonlinear_arith);
    assert(p * q == q * p) by (nonlinear_arith);
}

/// The quarter.
proof fn lemma_quarter()
    ensures
        num(QUARTER_BITS).finite(),
        value(num(QUARTER_BITS)) == 1real / 4real,
{
    lemma_scale();
    lemma2_to64();
    lemma_pow2_adds(23, 126);
    lemma_pow2_adds(2, 124);
    let p = pow2(124) as int;
    assert(pow2(23) == 8388608 && pow2(2) == 4);
    assert(QUARTER_BITS as int % 8388608 == 0 && QUARTER_BITS as int / 8388608 == 125);
    assert(mag(QUARTER_BITS as int) == 8388608 * p);
    assert(one_units() == 4 * mag(QUARTER_BITS as int));
    lemma_value(num(QUARTER_BITS));
    let x = value(num(QUARTER_BITS));
    let ur = one_units() as real;
    assert(x == 1real / 4real) by (nonlinear_arith)
        requires
            4real * (x * ur) == ur,
            ur > 0real,
    ;
}

/// Entries of a vector are no longer than the vector.
proof fn lemma_part(a: real, t: real)
    requires
        a * a <= t,
        t <= 26real / 100real,
    ensures
        -(51real / 100real) <= a <= 51real / 100real,
{
    if a > 51real / 100real {
        lemma_mul_le(51real / 100real, a, a);
    }
    if a < -(51real / 100real) {
        lemma_mul_le(51real / 100real, -a, -a);
        assert((-a) * (-a) == a * a) by (nonlinear_arith);
    }
}

/// A product of two entries of a short vector.
proof fn lemma_pair(a: real, b: real, t: real)
    requires
        a * a + b * b <= t,
        t <= 26real / 100real,
    ensures
        -(13real / 100real) <= a * b <= 13real / 100real,
{
    assert(a * a + b * b - 2real * (a * b) >= 0real) by {
        assert((a - b) * (a - b) >= 0real) by (nonlinear_arith);
        assert((a - b) * (a - b) == a * a + b * b - 2real * (a * b)) by (nonlinear_arith);
    }
    assert(a * a + b * b + 2real * (a * b) >= 0real) by {
        assert((a + b) * (a + b) >= 0real) by (nonlinear_arith);
        assert((a + b) * (a + b) == a * a + b * b + 2real * (a * b)) by (nonlinear_arith);
    }
}

/// The entries of the turn at the pair of coordinates `i` and the next one, in turn.
pub open spec fn turns_about(r: crate::linalg::Mat3, w: Vec3, i: int) -> bool {
    let j = (i + 1) % 3;
    let k = (i + 2) % 3;
    let a = value(w[i]);
    let b = value(w[j]);
    let c = value(w[k]);
    &&& r[i][i].finite() && r[i][j].finite() && r[j][i].finite()
    &&& near(value(r[i][i]), turn_kept(a, b, c), 1real / 100000real)
    &&& near(value(r[i][j]), turn_back(a, b, c), 1real / 100000real)
    &&& near(value(r[j][i]), turn_forth(a, b, c), 1real / 100000real)
}

/// The rotation by a vector no longer than the root of 1/5 turns about that vector, by its length: the
/// entries are those of the turn, up to 1/100000.
pub proof fn rotation_turns_about_its_vector(w: Vec3, i: int)
    requires
        finite3(w),
        exact_dot(w, w) <= 1real / 5real,
        0 <= i < 3,
    ensures
        turns_about(rotation(w), w, i),
{
    lemma_tiny();
    lemma_constants();
    lemma_quarter();
    let a = value(w[0]);
    let b = value(w[1]);
    let c = value(w[2]);
    let t = exact_dot(w, w);
    lemma_signs(a, a);
    lemma_signs(b, b);
    lemma_signs(c, c);
    lemma_signs(a, b);
    lemma_signs(b, c);
    lemma_signs(c, a);
    assert(a * a >= 0real) by (nonlinear_arith);
    assert(b * b >= 0real) by (nonlinear_arith);
    assert(c * c >= 0real) by (nonlinear_arith);
    lemma_part(a, t);
    lemma_part(b, t);
    lemma_part(c, t);
    lemma_pair(a, b, t);
    lemma_pair(b, c, t);
    lemma_pair(c, a, t);
    lemma_eps(t);
    dot_is_inner_product(w, w);
    let t2 = dot(w, w);
    values_compare(num(QUARTER_BITS), t2);
    assert(limited(w) == (w, t2));
    // The factors.
    let tv = value(t2);
    let g = tv - t;
    lemma_mul_bounds(g, 1real / 1000000real, tv + t, 1real);
    assert(g * (tv + t) == tv * tv - t * t) by (nonlinear_arith)
        requires
            g == tv - t,
    ;
    lemma_mul_bounds(t, 1real / 5real, t, 1real / 5real);
    product_value(t2, t2);
    lemma_eps(rabs(tv * tv));
    let t4 = product(t2, t2);
    lemma_series(num(ONE_BITS), t2, t4, num(SIX_BITS), num(ONE_TWENTY_BITS), t, 6real, 120real);
    lemma_series(
        num(HALF_BITS),
        t2,
        t4,
        num(TWENTY_FOUR_BITS),
        num(SEVEN_TWENTY_BITS),
        t,
        24real,
        720real,
    );
    lemma_factors(t);
    let s = sine_factor(t);
    let f = cosine_factor(t);
    let sa = sum(
        difference(num(ONE_BITS), quotient(t2, num(SIX_BITS))),
        quotient(t4, num(ONE_TWENTY_BITS)),
    );
    let ca = sum(
        difference(num(HALF_BITS), quotient(t2, num(TWENTY_FOUR_BITS))),
        quotient(t4, num(SEVEN_TWENTY_BITS)),
    );
    // The entries.
    lemma_opposite(w[0]);
    lemma_opposite(w[1]);
    lemma_opposite(w[2]);
    let x = skew(w);
    let y = matrix_product(x, x);
    let one = num(ONE_BITS);
    let o = num(0);
    lemma_signs(s, a);
    lemma_signs(s, b);
    lemma_signs(s, c);
    if i == 0 {
        product_is_matrix_product(x, x, 0, 0);
        product_is_matrix_product(x, x, 0, 1);
        product_is_matrix_product(x, x, 1, 0);
        lemma_eps(b * b + c * c);
        lemma_eps(rabs(a * b));
        assert(near(value(y[0][0]), -(b * b + c * c), 1real / 1000000real));
        assert(near(value(y[0][1]), a * b, 1real / 1000000real));
        assert(near(value(y[1][0]), a * b, 1real / 1000000real));
        lemma_entry(one, sa, x[0][0], ca, y[0][0], s, f, -(b * b + c * c));
        lemma_entry(o, sa, x[0][1], ca, y[0][1], s, f, a * b);
        lemma_entry(o, sa, x[1][0], ca, y[1][0], s, f, a * b);
        lemma_signs(f, b * b + c * c);
        assert(a * a + b * b + c * c == t);
        assert(s * 0real == 0real) by (nonlinear_arith);
    } else if i == 1 {
        product_is_matrix_product(x, x, 1, 1);
        product_is_matrix_product(x, x, 1, 2);
        product_is_matrix_product(x, x, 2, 1);
        lemma_eps(c * c + a * a);
        lemma_eps(rabs(b * c));
        assert(near(value(y[1][1]), -(c * c + a * a), 1real / 1000000real));
        assert(near(value(y[1][2]), b * c, 1real / 1000000real));
        assert(near(value(y[2][1]), b * c, 1real / 1000000real));
        lemma_entry(one, sa, x[1][1], ca, y[1][1], s, f, -(c * c + a * a));
        lemma_entry(o, sa, x[1][2], ca, y[1][2], s, f, b * c);
        lemma_entry(o, sa, x[2][1], ca, y[2][1], s, f, b * c);
        lemma_signs(f, c * c + a * a);
        assert(b * b + c * c + a * a == t);
        assert(s * 0real == 0real) by (nonlinear_arith);
    } else {
        product_is_matrix_product(x, x, 2, 2);
        product_is_matrix_product(x, x, 2, 0);
        product_is_matrix_product(x, x, 0, 2);
        lemma_eps(a * a + b * b);
        lemma_eps(rabs(c * a));
        assert(near(value(y[2][2]), -(a * a + b * b), 1real / 1000000real));
        assert(near(value(y[2][0]), c * a, 1real / 1000000real));
        assert(near(value(y[0][2]), c * a, 1real / 1000000real));
        lemma_entry(one, sa, x[2][2], ca, y[2][2], s, f, -(a * a + b * b));
        lemma_entry(o, sa, x[2][0], ca, y[2][0], s, f, c * a);
        lemma_entry(o, sa, x[0][2], ca, y[0][2], s, f, c * a);
        lemma_signs(f, a * a + b * b);
        assert(c * c + a * a + b * b == t);
        assert(s * 0real == 0real) by (nonlinear_arith);
    }
}

/// A turn keeps its axis: the vector that it turns about is mapped to itself.
pub proof fn turn_keeps_its_axis(a: real, b: real, c: real)
    ensures
        turn_kept(a, b, c) * a + turn_back(a, b, c) * b + turn_forth(c, a, b) * c == a,
{
    let t = a * a + b * b + c * c;
    let s = sine_factor(t);
    let f = cosine_factor(t);
    assert(c * c + a * a + b * b == t);
    let p = b * b + c * c;
    let ab = a * b;
    let ca = c * a;
    assert((1real - f * p) * a == a - (f * p) * a) by (nonlinear_arith);
    assert((f * ab - s * c) * b == (f * ab) * b - (s * c) * b) by (nonlinear_arith);
    assert((f * ca + s * b) * c == (f * ca) * c + (s * b) * c) by (nonlinear_arith);
    assert((s * c) * b == (s * b) * c) by (nonlinear_arith);
    assert((f * ab) * b == (f * a) * (b * b)) by (nonlinear_arith)
        requires
            ab == a * b,
    ;
    assert((f * ca) * c == (f * a) * (c * c)) by (nonlinear_arith)
        requires
            ca == c * a,
    ;
    assert((f * p) * a == (f * a) * p) by (nonlinear_arith);
    assert((f * a) * p == (f * a) * (b * b) + (f * a) * (c * c)) by (nonlinear_arith)
        requires
            p == b * b + c * c,
    ;
}

} // verus!
