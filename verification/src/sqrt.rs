//! Square root of a single-precision number: a first guess from the encoding, then three Newton steps.

use vstd::arithmetic::power2::{
    lemma2_to64, lemma_pow2_adds, lemma_pow2_strictly_increases, lemma_pow2_unfold, pow2,
};
use vstd::prelude::*;

use crate::binary32::{
    mag, mag_is_increasing, one_units, product, product_error, quotient, quotient_error, sum,
    sum_error, Binary32, FRACTION, INF_BITS, SIGN_BIT,
};
use crate::value::{
    huge, lemma_relative, lemma_scale, lemma_value, near, product_value, quotient_value, step,
    sum_value, value,
};

verus! {

/// Encoding of 1.
pub const ONE_BITS: u32 = 0x3F80_0000;

/// Encoding of 1/2.
pub const HALF_BITS: u32 = 0x3F00_0000;

/// First guess: half the encoding, with the exponent centred.
pub open spec fn root_guess(x: Binary32) -> Binary32 {
    Binary32 { bits: (((x.bits + ONE_BITS) % 0x1_0000_0000) / 2) as u32 }
}

/// One Newton step toward the root of `x`.
pub open spec fn newton(x: Binary32, r: Binary32) -> Binary32 {
    product(Binary32 { bits: HALF_BITS }, sum(r, quotient(x, r)))
}

/// The approximate square root: 0 for zero and negative numbers, infinity for infinity.
pub open spec fn root(x: Binary32) -> Binary32 {
    if !x.nan() && x.units() <= 0 {
        Binary32 { bits: 0 }
    } else if x.inf() {
        x
    } else {
        newton(x, newton(x, newton(x, root_guess(x))))
    }
}

fn newton_step(x: Binary32, r: Binary32) -> (n: Binary32)
    ensures
        n == newton(x, r),
{
    let half: Binary32 = Binary32 { bits: HALF_BITS };
    half.times(r.plus(x.over(r)))
}

/// The approximate square root of `x`.
pub fn sqrt32(x: Binary32) -> (r: Binary32)
    ensures
        r == root(x),
{
    proof {
        lemma_sign(x);
    }
    if x.bits == 0 || (x.bits >= SIGN_BIT && x.bits <= SIGN_BIT + INF_BITS) {
        return Binary32 { bits: 0 };
    }
    if x.bits == INF_BITS {
        return x;
    }
    let raised: u64 = x.bits as u64 + ONE_BITS as u64;
    let guess: Binary32 = Binary32 { bits: ((raised % 0x1_0000_0000) / 2) as u32 };
    let r1: Binary32 = newton_step(x, guess);
    let r2: Binary32 = newton_step(x, r1);
    newton_step(x, r2)
}

/// A number is positive exactly where the sign is clear and the rest is not zero.
proof fn lemma_sign(x: Binary32)
    ensures
        !x.nan() ==> (x.units() <= 0 <==> x.low() == 0 || x.negative()),
        mag(0) == 0,
        !x.nan() && x.low() > 0 ==> mag(x.low()) > 0,
{
    if !x.nan() && x.low() > 0 {
        mag_is_increasing(0, x.low());
    }
}

/// What one Newton step keeps: `x` and `r` in units of `u`, with the rounding errors of the quotient
/// `q`, the sum `t` and the half `n`.
proof fn lemma_newton_bounds(x: int, r: int, q: int, t: int, n: int, u: int)
    requires
        u >= 0x1_0000_0000_0000_0000_0000_0000,
        u <= 2 * x,
        x <= 0x1_0000_0000_0000 * u,
        u <= 2 * r,
        r <= 0x1000_0000_0000_0000 * u,
        u % 2 == 0,
        q >= 0,
        0x100_0000 * (x * u - q * r) <= x * u + 0x80_0000 * r,
        0x100_0000 * (q * r - x * u) <= x * u + 0x80_0000 * r,
        0x100_0000 * (t - (r + q)) <= r + q + 0x80_0000,
        0x100_0000 * ((r + q) - t) <= r + q + 0x80_0000,
        0x100_0000 * (n * u - (u / 2) * t) <= (u / 2) * t + 0x80_0000 * u,
        0x100_0000 * ((u / 2) * t - n * u) <= (u / 2) * t + 0x80_0000 * u,
    ensures
        1000 * (n * n) >= 990 * (x * u),
        u <= 2 * n,
        n <= 0x1000_0000_0000_0000 * u,
{
    let w = q * r;
    let z = x * u;
    let k = r + q;
    assert(2 * z >= u * u) by (nonlinear_arith)
        requires
            z == x * u,
            2 * x >= u,
            u > 0,
    ;
    assert(u * u >= 0x1_0000_0000_0000_0000_0000_0000 * u) by (nonlinear_arith)
        requires
            u >= 0x1_0000_0000_0000_0000_0000_0000,
    ;
    assert(1000 * w >= 999 * z && 1000 * w <= 1001 * z);
    assert(1000 * t >= 999 * k && 1000 * t <= 1001 * k);
    let h = u / 2;
    assert(0x100_0000 * (2 * n - t) >= -(t + 0x100_0000) && 0x100_0000 * (2 * n - t) <= t
        + 0x100_0000) by (nonlinear_arith)
        requires
            u == 2 * h,
            h > 0,
            0x100_0000 * (n * u - h * t) <= h * t + 0x80_0000 * u,
            0x100_0000 * (h * t - n * u) <= h * t + 0x80_0000 * u,
    ;
    assert(2000 * n >= 999 * t && 2000 * n <= 1001 * t);
    assert(1000 * n >= 499 * k);
    assert(k * k >= 4 * w) by (nonlinear_arith)
        requires
            k == r + q,
            w == q * r,
    ;
    assert(1000000 * (n * n) >= 249001 * (k * k)) by (nonlinear_arith)
        requires
            1000 * n >= 499 * k,
            k >= 0,
    ;
    assert(1000 * (n * n) >= 990 * z);
    assert(u <= 2 * n) by {
        if 2 * n < u {
            assert(4 * (n * n) < u * u) by (nonlinear_arith)
                requires
                    2 * n < u,
                    n >= 0,
            ;
        }
    }
    assert(q <= 0x3_0000_0000_0000 * u) by {
        if q > 0x3_0000_0000_0000 * u {
            assert(2 * w >= 0x3_0000_0000_0000 * (u * u)) by (nonlinear_arith)
                requires
                    w == q * r,
                    q > 0x3_0000_0000_0000 * u,
                    2 * r >= u,
                    u > 0,
            ;
            assert(z <= 0x1_0000_0000_0000 * (u * u)) by (nonlinear_arith)
                requires
                    z == x * u,
                    x <= 0x1_0000_0000_0000 * u,
                    u > 0,
            ;
        }
    }
}

/// A number within the bounds that Newton steps keep: positive, between 1/2 and 2^60.
spec fn moderate(r: Binary32) -> bool {
    &&& !r.negative()
    &&& r.finite()
    &&& r.low() > 0
    &&& one_units() <= 2 * mag(r.low())
    &&& mag(r.low()) <= 0x1000_0000_0000_0000 * one_units()
}

proof fn lemma_newton(x: Binary32, r: Binary32)
    requires
        x.finite(),
        !x.negative(),
        one_units() <= 2 * mag(x.low()),
        mag(x.low()) <= 0x1_0000_0000_0000 * one_units(),
        moderate(r),
    ensures
        moderate(newton(x, r)),
        1000 * (mag(newton(x, r).low()) * mag(newton(x, r).low())) >= 990 * (mag(x.low())
            * one_units()),
{
    let u = one_units();
    let xm = mag(x.low());
    let rm = mag(r.low());
    lemma_units();
    lemma_pow2_adds(127, 149);
    let big = pow2(276) as int;
    assert(big == pow2(127) * u);
    lemma_sign(x);
    // The quotient.
    assert(xm * u < big * rm) by (nonlinear_arith)
        requires
            xm <= 0x1_0000_0000_0000 * u,
            u <= 2 * rm,
            big == pow2(127) * u,
            pow2(127) > 0x4_0000_0000_0000,
            u > 0,
    ;
    quotient_error(x, r);
    let qf = quotient(x, r);
    let q = mag(qf.low());
    lemma_sign(qf);
    assert(q * rm == rm * q) by (nonlinear_arith);
    // The sum.
    let w = q * rm;
    let z = xm * u;
    let uu = u * u;
    assert(0x100_0000 * (w - z) <= z + 0x80_0000 * rm);
    assert(q <= 0x10_0000_0000_0000 * u) by {
        if q > 0x10_0000_0000_0000 * u {
            assert(2 * (q * rm) >= 0x10_0000_0000_0000 * (u * u)) by (nonlinear_arith)
                requires
                    q > 0x10_0000_0000_0000 * u,
                    2 * rm >= u,
                    u > 0,
            ;
            assert(xm * u <= 0x1_0000_0000_0000 * (u * u)) by (nonlinear_arith)
                requires
                    xm <= 0x1_0000_0000_0000 * u,
                    u > 0,
            ;
            assert(rm <= u * u) by (nonlinear_arith)
                requires
                    rm <= 0x1000_0000_0000_0000 * u,
                    u >= 0x1000_0000_0000_0000,
            ;
            assert(u * u > 0) by (nonlinear_arith)
                requires
                    u > 0,
            ;
            assert(2 * w >= 0x10_0000_0000_0000 * uu);
            assert(z <= 0x1_0000_0000_0000 * uu);
            assert(rm <= uu);
            assert(w - z >= 0x1_0000_0000_0000 * uu);
        }
    }
    assert(rm + q < big) by (nonlinear_arith)
        requires
            rm <= 0x1000_0000_0000_0000 * u,
            q <= 0x10_0000_0000_0000 * u,
            big == pow2(127) * u,
            pow2(127) > 0x4000_0000_0000_0000,
            u > 0,
    ;
    sum_error(r, qf);
    let tf = sum(r, qf);
    let t = mag(tf.low());
    assert(tf.units() == t);
    // The half.
    let hf = Binary32 { bits: HALF_BITS };
    let h = mag(HALF_BITS as int);
    assert(h * t < big * u) by (nonlinear_arith)
        requires
            2 * h == u,
            0x100_0000 * (t - (rm + q)) <= rm + q + 0x80_0000,
            rm + q < 0x4000_0000_0000_0000 * u,
            big == pow2(127) * u,
            pow2(127) > 0x1_0000_0000_0000_0000_0000,
            u >= 0x80_0000,
            t >= 0,
    ;
    product_error(hf, tf);
    let nf = newton(x, r);
    let n = mag(nf.low());
    lemma_sign(nf);
    lemma_sign(tf);
    assert(h == u / 2);
    lemma_newton_bounds(xm, rm, q, t, n, u);
}

pub(crate) proof fn lemma_units()
    ensures
        one_units() >= 0x1_0000_0000_0000_0000_0000_0000_0000,
        one_units() % 2 == 0,
        2 * mag(HALF_BITS as int) == one_units(),
        mag(ONE_BITS as int) == one_units(),
        pow2(127) > 0x1_0000_0000_0000_0000_0000_0000,
{
    lemma2_to64();
    lemma_pow2_adds(64, 48);
    vstd::arithmetic::power2::lemma2_to64_rest();
    lemma_pow2_strictly_increases(112, 149);
    lemma_pow2_strictly_increases(112, 127);
    lemma_pow2_unfold(149);
    lemma_pow2_adds(23, 126);
    lemma_pow2_adds(23, 125);
    lemma_pow2_unfold(149);
    assert(0x1_0000_0000_0000_0000int * 0x1_0000_0000_0000int
        == 0x1_0000_0000_0000_0000_0000_0000_0000int);
}

/// Between 1/2 and 2^48 the approximate root is a positive number, between 1/2 and 2^60, whose square
/// is at least 99 percent of the number.
pub proof fn root_is_large_enough(x: Binary32)
    requires
        x.finite(),
        !x.negative(),
        one_units() <= 2 * mag(x.low()),
        mag(x.low()) <= 0x1_0000_0000_0000 * one_units(),
    ensures
        ({
            let r = root(x);
            &&& !r.negative()
            &&& r.finite()
            &&& r.low() > 0
            &&& one_units() <= 2 * mag(r.low())
            &&& mag(r.low()) <= 0x1000_0000_0000_0000 * one_units()
            &&& 1000 * (mag(r.low()) * mag(r.low())) >= 990 * (mag(x.low()) * one_units())
        }),
{
    lemma_units();
    lemma_sign(x);
    // The encoding of `x` lies between those of 1/2 and 2^48.
    assert(x.bits >= HALF_BITS) by {
        if x.bits < HALF_BITS {
            mag_is_increasing(x.low(), HALF_BITS as int);
        }
    }
    assert(x.bits <= 0x5780_0000) by {
        lemma_2_to_48();
        if x.bits > 0x5780_0000 {
            mag_is_increasing(0x5780_0000, x.low());
        }
    }
    let g = root_guess(x);
    assert(HALF_BITS < g.bits <= 0x4B80_0000);
    mag_is_increasing(HALF_BITS as int, g.bits as int);
    lemma_2_to_48();
    mag_is_increasing(g.bits as int, 0x5780_0000);
    lemma_newton(x, g);
    lemma_newton(x, newton(x, g));
    lemma_newton(x, newton(x, newton(x, g)));
}

proof fn lemma_2_to_48()
    ensures
        mag(0x5780_0000) == 0x1_0000_0000_0000 * one_units(),
{
    lemma2_to64();
    vstd::arithmetic::power2::lemma2_to64_rest();
    lemma_pow2_adds(23, 174);
    lemma_pow2_adds(48, 149);
}

/// The square of the first guess, in the whole parts of its encoding.
proof fn lemma_guess_parts(f: int, h: int, m: int, odd: bool)
    requires
        0 <= f < 8388608,
        2 * h <= f <= 2 * h + 1,
        odd ==> m == 8388608 + h,
        !odd ==> m == 12582912 + h,
    ensures
        odd ==> 99 * ((8388608 + f) * 8388608) <= 100 * (m * m) <= 113 * ((8388608 + f) * 8388608),
        !odd ==> 99 * ((8388608 + f) * 16777216) <= 100 * (m * m) <= 113 * ((8388608 + f)
            * 16777216),
{
    let n = m * m;
    if odd {
        let a = 16777216 + f;
        assert(a * a == 33554432 * (8388608 + f) + f * f) by (nonlinear_arith)
            requires
                a == 16777216 + f,
        ;
        assert(0 <= f * f <= 8388608 * f) by (nonlinear_arith)
            requires
                0 <= f < 8388608,
        ;
        assert(4 * n <= a * a && a * a <= 4 * n + 2 * a) by (nonlinear_arith)
            requires
                n == m * m,
                a - 1 <= 2 * m <= a,
                m > 0,
        ;
    } else {
        let a = 25165824 + f;
        let b = 8388608 - f;
        assert(a * a == 67108864 * (8388608 + f) + b * b) by (nonlinear_arith)
            requires
                a == 25165824 + f,
                b == 8388608 - f,
        ;
        assert(0 <= b * b <= 8388608 * b) by (nonlinear_arith)
            requires
                0 < b <= 8388608,
        ;
        assert(4 * n <= a * a && a * a <= 4 * n + 2 * a) by (nonlinear_arith)
            requires
                n == m * m,
                a - 1 <= 2 * m <= a,
                m > 0,
        ;
    }
}

/// The first guess is a positive number whose square is within 13 percent of `x`.
proof fn lemma_guess(x: Binary32)
    requires
        FRACTION <= x.bits < INF_BITS,
    ensures
        root_guess(x).finite(),
        value(root_guess(x)) > 0real,
        near(
            value(root_guess(x)) * value(root_guess(x)),
            value(x),
            value(x) * (13real / 100real),
        ),
{
    let k = x.bits as int;
    let big = FRACTION as int;
    let e = k / big;
    let f = k % big;
    let h = f / 2;
    let g = root_guess(x);
    let odd = e % 2 == 1;
    let j = if odd {
        (e + 127) / 2
    } else {
        (e + 126) / 2
    };
    let m = if odd {
        8388608 + h
    } else {
        12582912 + h
    };
    assert(g.bits == 8388608 * j + (m - 8388608));
    assert(g.bits as int / big == j && g.bits as int % big == m - 8388608);
    let p = pow2((j - 1) as nat) as int;
    let u = one_units();
    assert(mag(g.low()) == m * p);
    assert(mag(x.low()) == (8388608 + f) * pow2((e - 1) as nat));
    lemma_guess_parts(f, h, m, odd);
    lemma2_to64();
    let q = pow2((2 * j - 2) as nat) as int;
    lemma_pow2_adds((j - 1) as nat, (j - 1) as nat);
    assert(q == p * p);
    let t = pow2((e + 148) as nat) as int;
    lemma_pow2_adds((e - 1) as nat, 149);
    let c: int = if odd {
        8388608
    } else {
        16777216
    };
    if odd {
        lemma_pow2_adds((2 * j - 2) as nat, 23);
    } else {
        lemma_pow2_adds((2 * j - 2) as nat, 24);
    }
    assert(t == q * c);
    let gm = mag(g.low());
    let xm = mag(x.low());
    let d = (8388608 + f) * c;
    assert(xm * u == d * q) by (nonlinear_arith)
        requires
            xm == (8388608 + f) * pow2((e - 1) as nat),
            t == pow2((e - 1) as nat) * u,
            t == q * c,
            d == (8388608 + f) * c,
    ;
    assert(gm * gm == (m * m) * q) by (nonlinear_arith)
        requires
            gm == m * p,
            q == p * p,
    ;
    vstd::arithmetic::power2::lemma_pow2_pos((2 * j - 2) as nat);
    assert(99 * (xm * u) <= 100 * (gm * gm) <= 113 * (xm * u)) by (nonlinear_arith)
        requires
            xm * u == d * q,
            gm * gm == (m * m) * q,
            99 * d <= 100 * (m * m) <= 113 * d,
            q > 0,
    ;
    lemma_scale();
    lemma_value(x);
    lemma_value(g);
    let ur = u as real;
    let vg = value(g);
    let vx = value(x);
    assert((xm * u) as real == vx * (ur * ur)) by (nonlinear_arith)
        requires
            xm as real == vx * ur,
            ur == u as real,
    ;
    assert((gm * gm) as real == (vg * vg) * (ur * ur)) by (nonlinear_arith)
        requires
            gm as real == vg * ur,
    ;
    let uu = ur * ur;
    assert(uu > 0real) by (nonlinear_arith)
        requires
            uu == ur * ur,
            ur > 0real,
    ;
    let gg = vg * vg;
    assert(99real * vx <= 100real * gg && 100real * gg <= 113real * vx) by (nonlinear_arith)
        requires
            99real * (vx * uu) <= 100real * (gg * uu),
            100real * (gg * uu) <= 113real * (vx * uu),
            uu > 0real,
    ;
    assert(100real * (vx * (13real / 100real)) == 13real * vx) by (nonlinear_arith);
}

/// One Newton step in real numbers, with a rounding error in the quotient `q`, the sum `t` and the half
/// `n`: the relative error of the square is squared, up to rounding.
proof fn lemma_newton_real(x: real, r: real, q: real, t: real, n: real, rho: real)
    requires
        x > 0real,
        r > 0real,
        0real <= rho <= 1real / 4real,
        near(r * r, x, x * rho),
        near(q, x / r, (x / r) * step()),
        near(t, r + q, (r + q) * step()),
        near(n, t / 2real, (t / 2real) * step()),
    ensures
        n > 0real,
        near(n * n, x, x * (rho * rho / 3real + 1real / 524288real)),
{
    let p = x / r;
    assert(p * r == x && p > 0real) by (nonlinear_arith)
        requires
            p == x / r,
            r > 0real,
            x > 0real,
    ;
    let m = (r + p) / 2real;
    let w = (r - p) / 2real;
    assert(m * m == x + w * w) by (nonlinear_arith)
        requires
            m == (r + p) / 2real,
            w == (r - p) / 2real,
            p * r == x,
    ;
    let ww = w * w;
    let rr = r * r;
    let e = rr - x;
    assert(4real * (ww * rr) == e * e) by (nonlinear_arith)
        requires
            ww == w * w,
            w == (r - p) / 2real,
            p * r == x,
            rr == r * r,
            e == rr - x,
    ;
    let xr = x * rho;
    assert(e * e <= xr * xr) by (nonlinear_arith)
        requires
            -xr <= e <= xr,
    ;
    assert(4real * rr >= 3real * x) by (nonlinear_arith)
        requires
            rr - x >= -(x * rho),
            rho <= 1real / 4real,
            x > 0real,
    ;
    assert(ww >= 0real) by (nonlinear_arith)
        requires
            ww == w * w,
    ;
    let z = x * (rho * rho);
    assert(3real * ww <= z) by (nonlinear_arith)
        requires
            4real * (ww * rr) <= xr * xr,
            4real * rr >= 3real * x,
            xr == x * rho,
            z == x * (rho * rho),
            x > 0real,
            ww >= 0real,
    ;
    let s = step();
    let ps = p * s;
    assert(0real <= ps && 8388608real * ps == p) by (nonlinear_arith)
        requires
            ps == p * s,
            s == 1real / 8388608real,
            p > 0real,
    ;
    let k = r + q;
    assert(8388608real * ((r + q) * s) == k) by (nonlinear_arith)
        requires
            k == r + q,
            s == 1real / 8388608real,
    ;
    let th = t / 2real;
    assert(8388608real * (th * s) == th) by (nonlinear_arith)
        requires
            s == 1real / 8388608real,
    ;
    assert(-4real * m <= 8388608real * (n - m) <= 4real * m);
    assert(n > 0real);
    let d = n - m;
    let nn = n * n;
    let mm = m * m;
    assert(nn - mm == (2real * m + d) * d) by (nonlinear_arith)
        requires
            nn == n * n,
            mm == m * m,
            d == n - m,
    ;
    assert(-9real * mm <= 8388608real * (nn - mm) <= 9real * mm) by (nonlinear_arith)
        requires
            nn - mm == (2real * m + d) * d,
            mm == m * m,
            -4real * m <= 8388608real * d <= 4real * m,
            m > 0real,
    ;
    assert(z <= x) by (nonlinear_arith)
        requires
            z == x * (rho * rho),
            0real <= rho <= 1real / 4real,
            x > 0real,
    ;
    assert(x * (rho * rho / 3real + 1real / 524288real) == z / 3real + x / 524288real)
        by (nonlinear_arith)
        requires
            z == x * (rho * rho),
    ;
}

/// A positive number between 2^-80 and 2^80.
pub open spec fn midrange(x: real) -> bool {
    x * 1208925819614629174706176real >= 1real && x <= 1208925819614629174706176real
}

proof fn lemma_newton_value(x: Binary32, r: Binary32, rho: real)
    requires
        x.finite(),
        r.finite(),
        midrange(value(x)),
        value(r) > 0real,
        0real <= rho <= 1real / 4real,
        near(value(r) * value(r), value(x), value(x) * rho),
    ensures
        newton(x, r).finite(),
        value(newton(x, r)) > 0real,
        near(
            value(newton(x, r)) * value(newton(x, r)),
            value(x),
            value(x) * (rho * rho / 3real + 1real / 524288real),
        ),
{
    let vx = value(x);
    let vr = value(r);
    let c = 1208925819614629174706176real;
    let p = vx / vr;
    let rr = vr * vr;
    assert(p * vr == vx && p > 0real && vx > 0real) by (nonlinear_arith)
        requires
            p == vx / vr,
            vr > 0real,
            vx * c >= 1real,
            c == 1208925819614629174706176real,
    ;
    assert(3real * vx <= 4real * rr && 4real * rr <= 5real * vx) by (nonlinear_arith)
        requires
            near(rr, vx, vx * rho),
            0real <= rho <= 1real / 4real,
            vx > 0real,
    ;
    assert(vr <= c && vr * c * 2real >= 1real) by (nonlinear_arith)
        requires
            rr == vr * vr,
            3real * vx <= 4real * rr,
            4real * rr <= 5real * vx,
            vx <= c,
            vx * c >= 1real,
            c == 1208925819614629174706176real,
            vr > 0real,
    ;
    assert(3real * p <= 4real * vr && 4real * vr <= 5real * p) by (nonlinear_arith)
        requires
            p * vr == vx,
            rr == vr * vr,
            3real * vx <= 4real * rr,
            4real * rr <= 5real * vx,
            vr > 0real,
    ;
    assert(p * huge() >= 1real && p < huge());
    quotient_value(x, r);
    let qf = quotient(x, r);
    lemma_relative(value(qf), p);
    let q = value(qf);
    assert(8388608real * (p * step()) == p) by (nonlinear_arith)
        requires
            step() == 1real / 8388608real,
    ;
    sum_value(r, qf);
    let tf = sum(r, qf);
    lemma_relative(value(tf), vr + q);
    let t = value(tf);
    let k = vr + q;
    assert(8388608real * (k * step()) == k) by (nonlinear_arith)
        requires
            step() == 1real / 8388608real,
    ;
    let hf = Binary32 { bits: HALF_BITS };
    lemma_units();
    lemma_scale();
    lemma_value(hf);
    let ur = one_units() as real;
    let vh = value(hf);
    assert(vh == 1real / 2real) by (nonlinear_arith)
        requires
            2real * (vh * ur) == ur,
            ur > 0real,
    ;
    assert(vh * t == t / 2real) by (nonlinear_arith)
        requires
            vh == 1real / 2real,
    ;
    product_value(hf, tf);
    let nf = newton(x, r);
    lemma_relative(value(nf), t / 2real);
    lemma_newton_real(vx, vr, q, t, value(nf), rho);
}

/// The approximate root is a square root: between 2^-80 and 2^80 it is a positive number whose square
/// is the number up to one part in 500000.
pub proof fn root_is_square_root(x: Binary32)
    requires
        x.finite(),
        midrange(value(x)),
    ensures
        root(x).finite(),
        value(root(x)) > 0real,
        near(value(root(x)) * value(root(x)), value(x), value(x) / 500000real),
{
    lemma_scale();
    lemma_value(x);
    lemma_sign(x);
    let vx = value(x);
    let c = 1208925819614629174706176real;
    assert(vx > 0real) by (nonlinear_arith)
        requires
            vx * c >= 1real,
            c == 1208925819614629174706176real,
    ;
    assert(!x.negative());
    // The number is not subnormal.
    assert(x.bits >= FRACTION) by {
        if x.bits < FRACTION {
            let ur = one_units() as real;
            assert(vx * ur < 8388608real);
            assert(false) by (nonlinear_arith)
                requires
                    vx * ur < 8388608real,
                    vx * c >= 1real,
                    c == 1208925819614629174706176real,
                    crate::value::tiny() * (2real * ur) == 1real,
                    crate::value::tiny() * huge() * 1099511627776real <= 1real,
                    crate::value::tiny() > 0real,
                    huge() == 1267650600228229401496703205376real,
            ;
        }
    }
    lemma_guess(x);
    let g = root_guess(x);
    let a = 13real / 100real;
    lemma_newton_value(x, g, a);
    let r1 = newton(x, g);
    let b = 1real / 150real;
    assert(vx * (a * a / 3real + 1real / 524288real) <= vx * b) by (nonlinear_arith)
        requires
            a == 13real / 100real,
            b == 1real / 150real,
            vx > 0real,
    ;
    lemma_newton_value(x, r1, b);
    let r2 = newton(x, r1);
    let d = 1real / 50000real;
    assert(vx * (b * b / 3real + 1real / 524288real) <= vx * d) by (nonlinear_arith)
        requires
            b == 1real / 150real,
            d == 1real / 50000real,
            vx > 0real,
    ;
    lemma_newton_value(x, r2, d);
    assert(vx * (d * d / 3real + 1real / 524288real) <= vx / 500000real) by (nonlinear_arith)
        requires
            d == 1real / 50000real,
            vx > 0real,
    ;
}

} // verus!
