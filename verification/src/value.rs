//! Real values of single-precision numbers, and how far an operation may be from the exact result.

use vstd::arithmetic::power2::{lemma2_to64, lemma2_to64_rest, lemma_pow2_adds, lemma_pow2_pos, pow2};
use vstd::prelude::*;

use crate::binary32::{
    at_most, difference, less, mag, mag_is_increasing, magnitude, nearest_int, one_units, opposite,
    product, product_error, quotient, quotient_error, small_int_is_exact, sum, sum_error, Binary32,
    FRACTION,
};

verus! {

/// The real number that a finite number stands for.
pub open spec fn value(x: Binary32) -> real {
    x.units() as real / one_units() as real
}

/// The distance of a real number from zero.
pub open spec fn rabs(x: real) -> real {
    if x < 0real {
        -x
    } else {
        x
    }
}

/// `a` is at most `e` away from `b`.
pub open spec fn near(a: real, b: real, e: real) -> bool {
    -e <= a - b && a - b <= e
}

/// Relative rounding error: 2^-24.
pub open spec fn eps() -> real {
    1real / 16777216real
}

/// Absolute rounding error of the smallest numbers: 2^-150.
pub open spec fn tiny() -> real {
    1real / (2 * one_units()) as real
}

/// 2^100: results up to here stay finite.
pub open spec fn huge() -> real {
    1267650600228229401496703205376real
}

pub(crate) proof fn lemma_scale()
    ensures
        one_units() > 0,
        one_units() as real > 0real,
        (2 * one_units()) as real == 2real * one_units() as real,
        tiny() > 0real,
        tiny() * (2real * one_units() as real) == 1real,
        tiny() * huge() * 1099511627776real <= 1real,
        huge() * one_units() as real <= pow2(276) as real,
{
    lemma_pow2_pos(149);
    lemma2_to64();
    lemma2_to64_rest();
    lemma_pow2_adds(64, 36);
    lemma_pow2_adds(100, 49);
    lemma_pow2_adds(100, 149);
    lemma_pow2_adds(249, 27);
    lemma_pow2_pos(49);
    lemma_pow2_pos(27);
    lemma_pow2_pos(249);
    let u = one_units();
    let p = pow2(100) as int;
    assert(p == 0x10_0000_0000_0000_0000_0000_0000);
    assert(pow2(49) == 0x2_0000_0000_0000);
    assert(u == p * 0x2_0000_0000_0000);
    let t = tiny();
    let ur = u as real;
    assert(t * (2real * ur) == 1real && t > 0real) by (nonlinear_arith)
        requires
            t == 1real / (2real * ur),
            ur > 0real,
    ;
    assert(t * huge() * 1099511627776real <= 1real) by (nonlinear_arith)
        requires
            t * (2real * ur) == 1real,
            t > 0real,
            ur == huge() * 562949953421312real,
            huge() > 0real,
    ;
    let q = pow2(249) as int;
    let z = pow2(276) as int;
    assert(p * u <= z) by (nonlinear_arith)
        requires
            q == p * u,
            z == q * pow2(27),
            pow2(27) >= 1,
            q > 0,
    ;
    assert((p * u) as real == (p as real) * (u as real)) by (nonlinear_arith);
}

pub(crate) proof fn lemma_value(x: Binary32)
    ensures
        value(x) * one_units() as real == x.units() as real,
        !x.nan() && !x.negative() ==> value(x) >= 0real,
        !x.nan() && x.negative() ==> value(x) <= 0real,
        !x.nan() && x.low() == 0 ==> value(x) == 0real,
        !x.nan() && x.low() > 0 && !x.negative() ==> value(x) > 0real,
        !x.nan() && x.low() > 0 && x.negative() ==> value(x) < 0real,
        !x.nan() ==> mag(x.low()) as real == rabs(value(x)) * one_units() as real,
        !x.nan() ==> mag(x.low()) >= 0,
{
    lemma_scale();
    let v = value(x);
    let k = x.units() as real;
    let u = one_units() as real;
    assert(v * u == k) by (nonlinear_arith)
        requires
            v == k / u,
            u > 0real,
    ;
    if !x.nan() && x.low() > 0 {
        mag_is_increasing(0, x.low());
    }
    assert((k > 0real ==> v > 0real) && (k < 0real ==> v < 0real) && (k == 0real ==> v == 0real))
        by (nonlinear_arith)
        requires
            v * u == k,
            u > 0real,
    ;
    assert((-v) * u == -(v * u)) by (nonlinear_arith);
}

/// Two finite numbers compare as their values.
pub proof fn values_compare(a: Binary32, b: Binary32)
    requires
        !a.nan(),
        !b.nan(),
    ensures
        less(a, b) <==> value(a) < value(b),
        at_most(a, b) <==> value(a) <= value(b),
{
    lemma_scale();
    lemma_value(a);
    lemma_value(b);
    let x = value(a);
    let y = value(b);
    let u = one_units() as real;
    assert((x < y <==> x * u < y * u) && (x <= y <==> x * u <= y * u)) by (nonlinear_arith)
        requires
            u > 0real,
    ;
}

/// The product of two numbers is their exact product up to rounding.
pub proof fn product_value(a: Binary32, b: Binary32)
    requires
        a.finite(),
        b.finite(),
        rabs(value(a) * value(b)) < huge(),
    ensures
        product(a, b).finite(),
        near(
            value(product(a, b)),
            value(a) * value(b),
            rabs(value(a) * value(b)) * eps() + tiny(),
        ),
        value(a) * value(b) >= 0real ==> value(product(a, b)) >= 0real,
        value(a) * value(b) <= 0real ==> value(product(a, b)) <= 0real,
{
    lemma_scale();
    lemma_value(a);
    lemma_value(b);
    let u = one_units();
    let ur = u as real;
    let ma = mag(a.low());
    let mb = mag(b.low());
    let x = rabs(value(a));
    let y = rabs(value(b));
    let n = ma * mb;
    assert(n as real == (ma as real) * (mb as real)) by (nonlinear_arith)
        requires
            n == ma * mb,
    ;
    let nr = n as real;
    let xy = x * y;
    let w = ur;
    assert(nr == xy * (ur * ur)) by (nonlinear_arith)
        requires
            nr == (x * ur) * (y * ur),
            xy == x * y,
    ;
    let va = value(a);
    let vb = value(b);
    assert(xy == rabs(va * vb)) by (nonlinear_arith)
        requires
            xy == x * y,
            x == rabs(va),
            y == rabs(vb),
    ;
    let big = pow2(276) as int;
    assert(nr < (big as real) * ur) by (nonlinear_arith)
        requires
            nr == xy * (ur * ur),
            xy < huge(),
            huge() * ur <= big as real,
            ur > 0real,
    ;
    assert((big * u) as real == (big as real) * ur) by (nonlinear_arith)
        requires
            ur == u as real,
    ;
    product_error(a, b);
    let r = product(a, b);
    lemma_value(r);
    let m = mag(r.low());
    let mr = m as real;
    let s = rabs(value(r));
    let mw = (m * u) as real;
    assert(mw == s * (w * ur)) by (nonlinear_arith)
        requires
            mw == (m * u) as real,
            mr == m as real,
            ur == u as real,
            mr == s * ur,
            w == ur,
    ;
    lemma_cast(m * u, n, n, u);
    lemma_divided(mw, nr, nr, w, ur, s, xy);
    assert(0real * eps() == 0real) by (nonlinear_arith);
    let e = va * vb;
    assert(e > 0real ==> va != 0real && vb != 0real && (va > 0real) == (vb > 0real)) by (nonlinear_arith)
        requires
            e == va * vb,
    ;
    assert(e < 0real ==> va != 0real && vb != 0real && (va > 0real) != (vb > 0real)) by (nonlinear_arith)
        requires
            e == va * vb,
    ;
    if e == 0real {
        assert(s * ur < 1real) by (nonlinear_arith)
            requires
                s <= tiny(),
                tiny() * (2real * ur) == 1real,
                ur > 0real,
        ;
        assert(m == 0);
        assert(s == 0real) by (nonlinear_arith)
            requires
                s * ur == 0real,
                ur > 0real,
        ;
    }
}

proof fn lemma_cast(m: int, n: int, k: int, w: int)
    requires
        2 * FRACTION * (m - n) <= k + FRACTION * w,
        2 * FRACTION * (n - m) <= k + FRACTION * w,
    ensures
        16777216real * (m as real - n as real) <= k as real + 8388608real * w as real,
        16777216real * (n as real - m as real) <= k as real + 8388608real * w as real,
{
    assert(16777216 * (m - n) <= k + 8388608 * w);
    assert(16777216 * (n - m) <= k + 8388608 * w);
}

/// From an error in whole units to one in values.
proof fn lemma_divided(m: real, n: real, k: real, w: real, u: real, s: real, v: real)
    requires
        u > 0real,
        w > 0real,
        tiny() * (2real * u) == 1real,
        m == s * (w * u),
        n == v * (w * u),
        16777216real * (m - n) <= k + 8388608real * w,
        16777216real * (n - m) <= k + 8388608real * w,
        k == rabs(v) * (w * u),
    ensures
        near(s, v, rabs(v) * eps() + tiny()),
{
    let d = w * u;
    let t = tiny();
    let a = rabs(v);
    assert(d > 0real) by (nonlinear_arith)
        requires
            d == w * u,
            w > 0real,
            u > 0real,
    ;
    assert(w == 2real * (t * d)) by (nonlinear_arith)
        requires
            d == w * u,
            t * (2real * u) == 1real,
    ;
    assert(16777216real * (s - v) <= a + 16777216real * t) by (nonlinear_arith)
        requires
            d > 0real,
            m == s * d,
            n == v * d,
            k == a * d,
            w == 2real * (t * d),
            16777216real * (m - n) <= k + 8388608real * w,
    ;
    assert(16777216real * (v - s) <= a + 16777216real * t) by (nonlinear_arith)
        requires
            d > 0real,
            m == s * d,
            n == v * d,
            k == a * d,
            w == 2real * (t * d),
            16777216real * (n - m) <= k + 8388608real * w,
    ;
    assert(a * eps() * 16777216real == a) by (nonlinear_arith)
        requires
            eps() == 1real / 16777216real,
    ;
}

/// The quotient of two numbers is their exact quotient up to rounding.
pub proof fn quotient_value(a: Binary32, b: Binary32)
    requires
        a.finite(),
        b.finite(),
        value(b) != 0real,
        rabs(value(a) / value(b)) < huge(),
    ensures
        quotient(a, b).finite(),
        near(
            value(quotient(a, b)),
            value(a) / value(b),
            rabs(value(a) / value(b)) * eps() + tiny(),
        ),
        value(a) / value(b) >= 0real ==> value(quotient(a, b)) >= 0real,
        value(a) / value(b) <= 0real ==> value(quotient(a, b)) <= 0real,
{
    lemma_scale();
    lemma_value(a);
    lemma_value(b);
    let u = one_units();
    let ur = u as real;
    let ma = mag(a.low());
    let mb = mag(b.low());
    let va = value(a);
    let vb = value(b);
    let x = rabs(va);
    let y = rabs(vb);
    let v = x / y;
    let e = va / vb;
    assert(v * y == x && e * vb == va) by (nonlinear_arith)
        requires
            v == x / y,
            e == va / vb,
            y > 0real,
            vb != 0real,
    ;
    assert(v == rabs(e)) by (nonlinear_arith)
        requires
            v * y == x,
            e * vb == va,
            x == rabs(va),
            y == rabs(vb),
            y > 0real,
    ;
    assert(e > 0real ==> va != 0real && (va > 0real) == (vb > 0real)) by (nonlinear_arith)
        requires
            e * vb == va,
            vb != 0real,
    ;
    assert(e < 0real ==> va != 0real && (va > 0real) != (vb > 0real)) by (nonlinear_arith)
        requires
            e * vb == va,
            vb != 0real,
    ;
    let n = ma * u;
    let nr = n as real;
    let w = mb as real;
    assert(nr == (ma as real) * ur) by (nonlinear_arith)
        requires
            n == ma * u,
            nr == n as real,
            ur == u as real,
    ;
    assert(nr == v * (w * ur)) by (nonlinear_arith)
        requires
            nr == (x * ur) * ur,
            w == y * ur,
            v * y == x,
    ;
    let big = pow2(276) as int;
    let br = big as real;
    assert(w > 0real) by (nonlinear_arith)
        requires
            w == y * ur,
            y > 0real,
            ur > 0real,
    ;
    assert(nr < br * w) by (nonlinear_arith)
        requires
            nr == v * (w * ur),
            v < huge(),
            huge() * ur <= br,
            ur > 0real,
            w > 0real,
    ;
    assert((big * mb) as real == br * w) by (nonlinear_arith)
        requires
            br == big as real,
            w == mb as real,
    ;
    quotient_error(a, b);
    let r = quotient(a, b);
    lemma_value(r);
    let m = mag(r.low());
    let s = rabs(value(r));
    let mw = (m * mb) as real;
    assert(mw == s * (w * ur)) by (nonlinear_arith)
        requires
            mw == (m * mb) as real,
            m as real == s * ur,
            w == mb as real,
    ;
    lemma_cast(m * mb, n, n, mb);
    lemma_divided(mw, nr, nr, w, ur, s, v);
    assert(0real * eps() == 0real) by (nonlinear_arith);
    assert(e == 0real ==> va == 0real) by (nonlinear_arith)
        requires
            e * vb == va,
    ;
    if va == 0real {
        assert(e == 0real) by (nonlinear_arith)
            requires
                e * vb == va,
                va == 0real,
                vb != 0real,
        ;
        assert(s * ur < 1real) by (nonlinear_arith)
            requires
                s <= tiny(),
                tiny() * (2real * ur) == 1real,
                ur > 0real,
        ;
        assert(m == 0);
        assert(s == 0real) by (nonlinear_arith)
            requires
                s * ur == 0real,
                ur > 0real,
        ;
    }
}

/// The sum of two numbers is their exact sum up to rounding.
pub proof fn sum_value(a: Binary32, b: Binary32)
    requires
        a.finite(),
        b.finite(),
        rabs(value(a) + value(b)) < huge(),
    ensures
        sum(a, b).finite(),
        near(
            value(sum(a, b)),
            value(a) + value(b),
            rabs(value(a) + value(b)) * eps() + tiny(),
        ),
{
    lemma_scale();
    lemma_value(a);
    lemma_value(b);
    let ur = one_units() as real;
    let v = value(a) + value(b);
    let t = a.units() + b.units();
    let tr = t as real;
    assert(tr == v * (1real * ur)) by (nonlinear_arith)
        requires
            tr == value(a) * ur + value(b) * ur,
            v == value(a) + value(b),
    ;
    let br = pow2(276) as real;
    assert(-br < tr && tr < br) by (nonlinear_arith)
        requires
            tr == v * (1real * ur),
            -huge() < v,
            v < huge(),
            huge() * ur <= br,
            ur > 0real,
    ;
    sum_error(a, b);
    let r = sum(a, b);
    lemma_value(r);
    let k = (vstd::math::abs(t) as int) as real;
    assert(k == rabs(v) * (1real * ur)) by (nonlinear_arith)
        requires
            tr == v * (1real * ur),
            k == rabs(tr),
            ur > 0real,
    ;
    lemma_cast(r.units(), t, vstd::math::abs(t) as int, 1);
    lemma_divided(r.units() as real, tr, k, 1real, ur, value(r), v);
}

/// The difference of two numbers is their exact difference up to rounding.
pub proof fn difference_value(a: Binary32, b: Binary32)
    requires
        a.finite(),
        b.finite(),
        rabs(value(a) - value(b)) < huge(),
    ensures
        difference(a, b).finite(),
        near(
            value(difference(a, b)),
            value(a) - value(b),
            rabs(value(a) - value(b)) * eps() + tiny(),
        ),
{
    lemma_opposite(b);
    sum_value(a, opposite(b));
}

pub(crate) proof fn lemma_opposite(b: Binary32)
    requires
        b.finite(),
    ensures
        opposite(b).finite(),
        value(opposite(b)) == -value(b),
        magnitude(b).finite(),
        value(magnitude(b)) == rabs(value(b)),
{
    lemma_scale();
    lemma_value(b);
    lemma_value(opposite(b));
    lemma_value(magnitude(b));
    let u = one_units() as real;
    let x = value(b);
    let y = value(opposite(b));
    let z = value(magnitude(b));
    assert(y == -x && z == rabs(x)) by (nonlinear_arith)
        requires
            u > 0real,
            y * u == -(x * u),
            z * u == rabs(x) * u,
    ;
}

/// Integers of less than 25 bits are held exactly.
pub proof fn small_int_value(v: int)
    requires
        -16777216 < v < 16777216,
    ensures
        nearest_int(v).finite(),
        value(nearest_int(v)) == v as real,
{
    lemma_scale();
    small_int_is_exact(v);
    let f = nearest_int(v);
    lemma_value(f);
    let u = one_units();
    let ur = u as real;
    let x = value(f);
    assert((v * u) as real == (v as real) * ur) by (nonlinear_arith)
        requires
            ur == u as real,
    ;
    assert(x == v as real) by (nonlinear_arith)
        requires
            x * ur == (v as real) * ur,
            ur > 0real,
    ;
}

/// Twice the relative rounding error, 2^-23: what a result that is not tiny may be off by, relative to
/// itself.
pub open spec fn step() -> real {
    1real / 8388608real
}

/// A rounding error of a number of at least 2^-100 is relative.
pub(crate) proof fn lemma_relative(s: real, v: real)
    requires
        near(s, v, rabs(v) * eps() + tiny()),
        rabs(v) * huge() >= 1real,
    ensures
        near(s, v, rabs(v) * step()),
{
    lemma_scale();
    let a = rabs(v);
    let t = tiny();
    let h = huge();
    assert(t * 1099511627776real <= a) by (nonlinear_arith)
        requires
            t * h * 1099511627776real <= 1real,
            a * h >= 1real,
            h > 0real,
    ;
    assert(a * eps() * 16777216real == a && a * step() * 8388608real == a) by (nonlinear_arith)
        requires
            eps() == 1real / 16777216real,
            step() == 1real / 8388608real,
    ;
}

/// Multiplying by what is not negative keeps the order.
pub(crate) proof fn lemma_mul_le(a: real, b: real, c: real)
    requires
        a <= b,
        0real <= c,
    ensures
        a * c <= b * c,
{
    assert(a * c <= b * c) by (nonlinear_arith)
        requires
            a <= b,
            0real <= c,
    ;
}

/// The product of two bounded numbers is bounded.
pub(crate) proof fn lemma_mul_bounds(a: real, x: real, b: real, y: real)
    requires
        -x <= a <= x,
        -y <= b <= y,
    ensures
        -(x * y) <= a * b <= x * y,
{
    lemma_mul_le(b, y, x - a);
    lemma_mul_le(b, y, x + a);
    lemma_mul_le(-y, b, x - a);
    lemma_mul_le(-y, b, x + a);
    assert(b * (x - a) == b * x - b * a) by (nonlinear_arith);
    assert(b * (x + a) == b * x + b * a) by (nonlinear_arith);
    assert(y * (x - a) == y * x - y * a) by (nonlinear_arith);
    assert(y * (x + a) == y * x + y * a) by (nonlinear_arith);
    assert((-y) * (x - a) == -(y * x) + y * a) by (nonlinear_arith);
    assert((-y) * (x + a) == -(y * x) - y * a) by (nonlinear_arith);
    assert(a * b == b * a && x * y == y * x) by (nonlinear_arith);
}

} // verus!
