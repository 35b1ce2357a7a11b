//! What undistortion is for: distorting its result gives back the pixel.

use vstd::arithmetic::power2::{lemma2_to64, lemma_pow2_adds, lemma_pow2_unfold, pow2};
use vstd::prelude::*;

use crate::binary32::{
    difference, less, mag, mag_is_increasing, magnitude, one_units, product, quotient, sum, Binary32,
};
use crate::linalg::num;
use crate::pose::{squares2, PICO_BITS, THREE_BITS};
use crate::ransac::newton::{
    in_region, lemma_exact_step_bulge, lemma_exact_step_shrink, lemma_region_step, residual,
};
use crate::ransac::{undistorted, undistorted_radius, Camera, TINY_BITS};
use crate::sqrt::{root, root_is_square_root, HALF_BITS, ONE_BITS};
use crate::value::{
    difference_value, eps, huge, lemma_mul_bounds, lemma_mul_le, lemma_opposite, lemma_scale,
    lemma_value, near, product_value, quotient_value, rabs, sum_value, tiny, value, values_compare,
};

verus! {

/// A rounding error of 2^-150 is negligible.
proof fn lemma_small()
    ensures
        0real < tiny(),
        1180591620717411303424real * (1180591620717411303424real * tiny()) <= 1real,
{
    lemma_scale();
    let t = tiny();
    let h = huge();
    assert(h == 1267650600228229401496703205376real);
    assert(t * h == h * t) by (nonlinear_arith);
    assert(t * h == t * 1267650600228229401496703205376real);
}

proof fn lemma_eps(a: real)
    ensures
        16777216real * (a * eps()) == a,
{
    assert(16777216real * (a * eps()) == a) by (nonlinear_arith)
        requires
            eps() == 1real / 16777216real,
    ;
}

/// The constants.
proof fn lemma_constants()
    ensures
        num(ONE_BITS).finite(),
        num(THREE_BITS).finite(),
        num(PICO_BITS).finite(),
        num(0).finite(),
        value(num(ONE_BITS)) == 1real,
        value(num(THREE_BITS)) == 3real,
        value(num(PICO_BITS)) <= 1real / 2real,
        value(num(0)) == 0real,
{
    lemma_scale();
    crate::sqrt::lemma_units();
    lemma2_to64();
    lemma_pow2_adds(23, 126);
    lemma_pow2_unfold(127);
    let p = pow2(126) as int;
    assert(pow2(23) == 8388608);
    assert(THREE_BITS as int % 8388608 == 4194304 && THREE_BITS as int / 8388608 == 128);
    assert(mag(THREE_BITS as int) == 12582912 * pow2(127));
    assert(mag(THREE_BITS as int) == 3 * one_units());
    mag_is_increasing(PICO_BITS as int, HALF_BITS as int);
    lemma_value(num(ONE_BITS));
    lemma_value(num(THREE_BITS));
    lemma_value(num(PICO_BITS));
    lemma_value(num(0));
    let ur = one_units() as real;
    let x = value(num(ONE_BITS));
    let y = value(num(THREE_BITS));
    let z = value(num(PICO_BITS));
    assert(x == 1real) by (nonlinear_arith)
        requires
            x * ur == ur,
            ur > 0real,
    ;
    assert(y == 3real) by (nonlinear_arith)
        requires
            y * ur == 3real * ur,
            ur > 0real,
    ;
    assert(z <= 1real / 2real) by (nonlinear_arith)
        requires
            2real * (z * ur) <= ur,
            ur > 0real,
    ;
}

/// The two factors of a step: `1 + a` and its derivative's `1 + 3 a`, where `a` is the coefficient times
/// the squared radius.
proof fn lemma_factors(k1: Binary32, r: Binary32, a: real)
    requires
        k1.finite(),
        r.finite(),
        -1048576real <= value(k1) <= 1048576real,
        0real < value(r) <= 8388608real,
        a == value(k1) * (value(r) * value(r)),
        -(105real / 100real) <= a <= 105real / 100real,
    ensures
        ({
            let one = num(ONE_BITS);
            let r2 = product(r, r);
            let s = sum(one, product(k1, r2));
            let fp = sum(one, product(product(num(THREE_BITS), k1), r2));
            &&& s.finite()
            &&& fp.finite()
            &&& near(value(s), 1real + a, 6real * eps())
            &&& near(value(fp), 1real + 3real * a, 16real * eps())
        }),
{
    lemma_constants();
    lemma_small();
    let one = num(ONE_BITS);
    let three = num(THREE_BITS);
    let k = value(k1);
    let x = value(r);
    let xx = x * x;
    lemma_mul_bounds(x, 8388608real, x, 8388608real);
    assert(xx >= 0real) by (nonlinear_arith)
        requires
            xx == x * x,
    ;
    product_value(r, r);
    lemma_eps(xx);
    let r2 = product(r, r);
    let y = value(r2);
    let gap = y - xx;
    let t = tiny();
    // The coefficient times the square.
    let ky = k * y;
    assert(ky == a + k * gap) by (nonlinear_arith)
        requires
            ky == k * y,
            a == k * xx,
            gap == y - xx,
    ;
    let g1 = xx * eps();
    assert(-(g1 + t) <= gap <= g1 + t);
    let ak = rabs(k);
    lemma_mul_bounds(k, ak, gap, g1 + t);
    let aa = rabs(a);
    assert(ak * (g1 + t) == ak * g1 + ak * t) by (nonlinear_arith);
    assert(16777216real * (ak * g1) == ak * xx) by (nonlinear_arith)
        requires
            16777216real * g1 == xx,
    ;
    assert(ak * xx == aa) by (nonlinear_arith)
        requires
            a == k * xx,
            xx >= 0real,
            ak == rabs(k),
            aa == rabs(a),
    ;
    lemma_mul_le(ak, 1048576real, t);
    assert(near(ky, a, 11real / 10real * eps()));
    product_value(k1, r2);
    let kr = product(k1, r2);
    lemma_eps(rabs(ky));
    assert(near(value(kr), a, 3real * eps()));
    let se = 1real + value(kr);
    sum_value(one, kr);
    lemma_eps(rabs(se));
    // Three times that.
    let k3 = 3real * k;
    product_value(three, k1);
    lemma_eps(rabs(k3));
    let t3 = product(three, k1);
    let v3 = value(t3);
    let gap3 = v3 - k3;
    let g3 = rabs(k3) * eps();
    assert(-(g3 + t) <= gap3 <= g3 + t);
    lemma_mul_bounds(gap3, g3 + t, y, y);
    assert((g3 + t) * y == g3 * y + t * y) by (nonlinear_arith);
    let ak3 = rabs(k3);
    assert(16777216real * (g3 * y) == ak3 * y) by (nonlinear_arith)
        requires
            16777216real * g3 == ak3,
    ;
    let aky = rabs(ky);
    assert(ak3 * y == 3real * aky) by (nonlinear_arith)
        requires
            ky == k * y,
            y >= 0real,
            k3 == 3real * k,
            ak3 == rabs(k3),
            aky == rabs(ky),
    ;
    lemma_mul_le(y, 140737488355328real, t);
    assert(t * y == y * t) by (nonlinear_arith);
    let ty = v3 * y;
    assert(ty == 3real * ky + gap3 * y) by (nonlinear_arith)
        requires
            ty == v3 * y,
            gap3 == v3 - k3,
            k3 == 3real * k,
            ky == k * y,
    ;
    assert(near(ty, 3real * a, 7real * eps()));
    product_value(t3, r2);
    lemma_eps(rabs(ty));
    let tr = product(t3, r2);
    assert(near(value(tr), 3real * a, 11real * eps()));
    let fe = 1real + value(tr);
    sum_value(one, tr);
    lemma_eps(rabs(fe));
}

/// The radius after one step.
spec fn stepped(k1: Binary32, rd: Binary32, r: Binary32) -> Binary32 {
    let one = num(ONE_BITS);
    let r2 = product(r, r);
    let fp = sum(one, product(product(num(THREE_BITS), k1), r2));
    difference(r, quotient(difference(product(r, sum(one, product(k1, r2))), rd), fp))
}

/// The divisor of one step.
spec fn slope(k1: Binary32, r: Binary32) -> Binary32 {
    sum(num(ONE_BITS), product(product(num(THREE_BITS), k1), product(r, r)))
}

/// The numerator of a step: the residual times the distorted radius `y`, up to 12 units of rounding.
proof fn lemma_numerator(r: Binary32, rd: Binary32, s: Binary32, rho: real, a: real)
    requires
        r.finite() && rd.finite() && s.finite(),
        1real / 34359738368real <= value(rd) <= 4194304real,
        6real / 10real <= rho <= 12real / 10real,
        value(r) == rho * value(rd),
        -(15real / 100real) <= a <= 105real / 100real,
        near(value(s), 1real + a, 6real * eps()),
        -(2real / 10real) <= rho * (1real + a) - 1real <= 11real / 10real,
    ensures
        ({
            let n = difference(product(r, s), rd);
            let e = rho * (1real + a) - 1real;
            let y = value(rd);
            &&& n.finite()
            &&& near(value(n), e * y, 12real * (y * eps()))
        }),
{
    lemma_small();
    let y = value(rd);
    let x = value(r);
    let sv = value(s);
    let gap = sv - (1real + a);
    let e = rho * (1real + a) - 1real;
    let ye = y * eps();
    let t = tiny();
    lemma_eps(y);
    lemma_mul_le(rho, 12real / 10real, y);
    lemma_mul_le(0real, rho, y);
    assert(0real * y == 0real) by (nonlinear_arith);
    lemma_mul_bounds(gap, 6real * eps(), x, x);
    let xs = x * sv;
    let xe = x * eps();
    lemma_eps(x);
    assert((6real * eps()) * x == 6real * xe) by (nonlinear_arith)
        requires
            xe == x * eps(),
    ;
    assert(xs == x * (1real + a) + gap * x) by (nonlinear_arith)
        requires
            xs == x * sv,
            gap == sv - (1real + a),
    ;
    let ra = rho * (1real + a);
    assert(x * (1real + a) == ra * y) by (nonlinear_arith)
        requires
            x == rho * y,
            ra == rho * (1real + a),
    ;
    assert(ra * y == e * y + y) by (nonlinear_arith)
        requires
            e == ra - 1real,
    ;
    lemma_mul_le(e, 11real / 10real, y);
    lemma_mul_le(-(2real / 10real), e, y);
    assert(-(2real / 10real) * y == -(2real / 10real * y)) by (nonlinear_arith);
    assert(0real <= xs <= 10000000real);
    product_value(r, s);
    lemma_eps(xs);
    let p = product(r, s);
    let d = value(p) - y;
    assert(near(value(p), ra * y, 9real * ye + 2real * ye));
    difference_value(p, rd);
    lemma_eps(rabs(d));
}

/// The length of a step: the exact one times the distorted radius `y`, up to 60 units of rounding.
proof fn lemma_length(n: Binary32, fp: Binary32, y: real, e: real, g: real, d: real)
    requires
        n.finite() && fp.finite(),
        1real / 34359738368real <= y <= 4194304real,
        near(value(n), e * y, 12real * (y * eps())),
        near(value(fp), g, 16real * eps()),
        56real / 100real <= g <= 42real / 10real,
        d * g == e,
        -(22real / 100real) <= d <= 101real / 100real,
    ensures
        quotient(n, fp).finite(),
        near(value(quotient(n, fp)), d * y, 60real * (y * eps())),
{
    lemma_small();
    let nv = value(n);
    let fv = value(fp);
    let ye = y * eps();
    lemma_eps(y);
    let x = nv / fv;
    assert(x * fv == nv) by (nonlinear_arith)
        requires
            x == nv / fv,
            fv > 0real,
    ;
    let f = fv - g;
    let df = d * f;
    lemma_mul_bounds(d, 101real / 100real, f, 16real * eps());
    let dy = d * y;
    assert(dy * fv == e * y + df * y) by (nonlinear_arith)
        requires
            dy == d * y,
            df == d * f,
            f == fv - g,
            d * g == e,
    ;
    let b = 1616real / 100real * eps();
    lemma_mul_bounds(df, b, y, y);
    assert(b * y == 1616real / 100real * ye) by (nonlinear_arith)
        requires
            b == 1616real / 100real * eps(),
            ye == y * eps(),
    ;
    let gap = x - dy;
    let lim = 29real * ye;
    assert(gap * fv == nv - dy * fv) by (nonlinear_arith)
        requires
            gap == x - dy,
            x * fv == nv,
    ;
    assert(-lim <= gap * fv <= lim);
    if gap > 54real * ye {
        lemma_mul_le(55real / 100real, fv, gap);
        assert(fv * gap == gap * fv) by (nonlinear_arith);
    }
    if gap < -(54real * ye) {
        lemma_mul_le(55real / 100real, fv, -gap);
        assert(fv * (-gap) == -(gap * fv)) by (nonlinear_arith);
    }
    assert(-(54real * ye) <= gap <= 54real * ye);
    lemma_mul_le(d, 101real / 100real, y);
    lemma_mul_le(-(22real / 100real), d, y);
    assert(-(22real / 100real) * y == -(22real / 100real * y)) by (nonlinear_arith);
    quotient_value(n, fp);
    lemma_eps(rabs(x));
}

/// One step in single precision: at most 2^-17 off the exact one, relative to the distorted radius.
/// Returns the exact step and the new radius, relative to the distorted one.
proof fn lemma_float_step(
    k1: Binary32,
    rd: Binary32,
    r: Binary32,
    q: real,
    rho: real,
    j: int,
    n: int,
) -> (dp: (real, real))
    requires
        k1.finite() && rd.finite() && r.finite(),
        -1048576real <= value(k1) <= 1048576real,
        1real / 34359738368real <= value(rd) <= 4194304real,
        q == value(k1) * (value(rd) * value(rd)),
        value(r) == rho * value(rd),
        0 <= j,
        1 <= n <= 8,
        in_region(q, rho, j, n),
    ensures
        slope(k1, r).finite(),
        1real / 2real < value(slope(k1, r)),
        stepped(k1, rd, r).finite(),
        dp.0 * (1real + 3real * (q * (rho * rho))) == residual(q, rho),
        value(stepped(k1, rd, r)) == dp.1 * value(rd),
        -(1real / 131072real) <= dp.1 - (rho - dp.0) <= 1real / 131072real,
{
    lemma_small();
    let k = value(k1);
    let y = value(rd);
    let x = value(r);
    let a = q * (rho * rho);
    let g = 1real + 3real * a;
    let e = residual(q, rho);
    let ye = y * eps();
    lemma_eps(y);
    lemma_mul_le(rho, 12real / 10real, y);
    lemma_mul_le(6real / 10real, rho, y);
    assert(a == k * (x * x)) by (nonlinear_arith)
        requires
            a == q * (rho * rho),
            q == k * (y * y),
            x == rho * y,
    ;
    lemma_slope_positive(q, rho, j, n);
    let d = e / g;
    assert(d * g == e) by (nonlinear_arith)
        requires
            d == e / g,
            g > 0real,
    ;
    if q >= 0real {
        lemma_exact_step_bulge(q, rho, d);
    } else {
        lemma_exact_step_shrink(q, rho, d);
    }
    lemma_factors(k1, r, a);
    let s = sum(num(ONE_BITS), product(k1, product(r, r)));
    let fp = slope(k1, r);
    lemma_numerator(r, rd, s, rho, a);
    let nm = difference(product(r, s), rd);
    lemma_length(nm, fp, y, e, g, d);
    let qo = quotient(nm, fp);
    let dy = d * y;
    lemma_mul_le(d, 101real / 100real, y);
    lemma_mul_le(-(22real / 100real), d, y);
    assert(-(22real / 100real) * y == -(22real / 100real * y)) by (nonlinear_arith);
    let ex = x - value(qo);
    difference_value(r, qo);
    lemma_eps(rabs(ex));
    let nx = stepped(k1, rd, r);
    let v = value(nx);
    assert(near(v, x - dy, 64real * ye));
    let p = v / y;
    assert(p * y == v) by (nonlinear_arith)
        requires
            p == v / y,
            y > 0real,
    ;
    let m = rho - d;
    assert(m * y == x - dy) by (nonlinear_arith)
        requires
            m == rho - d,
            x == rho * y,
            dy == d * y,
    ;
    let gap = p - m;
    assert(gap * y == v - (x - dy)) by (nonlinear_arith)
        requires
            gap == p - m,
            p * y == v,
            m * y == x - dy,
    ;
    let h = 1real / 131072real;
    if gap > h {
        lemma_mul_le(h, gap, y);
    }
    if gap < -h {
        lemma_mul_le(h, -gap, y);
        assert((-gap) * y == -(gap * y)) by (nonlinear_arith);
    }
    (d, p)
}

/// The derivative is positive in the region.
proof fn lemma_slope_positive(q: real, rho: real, j: int, n: int)
    requires
        0 <= n,
        in_region(q, rho, j, n),
    ensures
        56real / 100real <= 1real + 3real * (q * (rho * rho)),
{
    let rr = rho * rho;
    assert(rr >= 0real) by (nonlinear_arith)
        requires
            rr == rho * rho,
    ;
    if q >= 0real {
        lemma_mul_le(0real, q, rr);
        assert(0real * rr == 0real) by (nonlinear_arith);
    } else {
        lemma_mul_bounds(rho, 12real / 10real, rho, 12real / 10real);
        lemma_mul_le(-(101real / 1000real), q, rr);
        assert(-(101real / 1000real) * rr == -(101real / 1000real * rr)) by (nonlinear_arith);
    }
}

/// The steps that are left bring the residual down to 2^-14. Returns the radius they end at, relative to
/// the distorted one.
proof fn lemma_converges(
    k1: Binary32,
    rd: Binary32,
    r: Binary32,
    q: real,
    rho: real,
    j: int,
    n: int,
) -> (last: real)
    requires
        k1.finite() && rd.finite() && r.finite(),
        -1048576real <= value(k1) <= 1048576real,
        1real / 34359738368real <= value(rd) <= 4194304real,
        q == value(k1) * (value(rd) * value(rd)),
        value(r) == rho * value(rd),
        0 <= j,
        0 <= n <= 8,
        5 <= j + n,
        in_region(q, rho, j, n),
    ensures
        undistorted_radius(k1, rd, r, n).finite(),
        value(undistorted_radius(k1, rd, r, n)) == last * value(rd),
        6real / 10real <= last <= 12real / 10real,
        -(1real / 16384real) <= residual(q, last) <= 1real / 16384real,
    decreases n,
{
    if n == 0 {
        rho
    } else {
        let dp = lemma_float_step(k1, rd, r, q, rho, j, n);
        lemma_region_step(q, rho, j, n, dp.0, dp.1);
        lemma_constants();
        let fp = slope(k1, r);
        let next = stepped(k1, rd, r);
        lemma_opposite(fp);
        values_compare(magnitude(fp), num(PICO_BITS));
        let y = value(rd);
        lemma_mul_le(6real / 10real, dp.1, y);
        values_compare(num(0), next);
        lemma_converges(k1, rd, next, q, dp.1, j + 1, n - 1)
    }
}

/// The bound below which a radius is left alone lies between 2^-67 and 2^-66.
proof fn lemma_tiny_bits()
    ensures
        num(TINY_BITS).finite(),
        1real <= 147573952589676412928real * value(num(TINY_BITS)) <= 2real,
{
    lemma_scale();
    lemma2_to64();
    lemma_pow2_adds(23, 59);
    lemma_pow2_adds(23, 60);
    lemma_pow2_adds(82, 67);
    lemma_pow2_adds(64, 3);
    lemma_pow2_unfold(83);
    let p = pow2(82) as int;
    assert(pow2(23) == 8388608 && pow2(3) == 8);
    assert(pow2(64) == 0x1_0000_0000_0000_0000);
    assert(pow2(67) == 147573952589676412928);
    assert(mag(0x1E00_0000) == p) by {
        assert(0x1E00_0000int % 8388608 == 0 && 0x1E00_0000int / 8388608 == 60);
    }
    assert(mag(0x1E80_0000) == 2 * p) by {
        assert(0x1E80_0000int % 8388608 == 0 && 0x1E80_0000int / 8388608 == 61);
    }
    mag_is_increasing(0x1E00_0000, TINY_BITS as int);
    mag_is_increasing(TINY_BITS as int, 0x1E80_0000);
    lemma_value(num(TINY_BITS));
    let v = value(num(TINY_BITS));
    let ur = one_units() as real;
    let pr = p as real;
    let c = pow2(67) as int;
    assert(one_units() == p * c);
    let cr = c as real;
    assert(cr == 147573952589676412928real);
    assert((p * c) as real == cr * pr) by (nonlinear_arith)
        requires
            cr == c as real,
            pr == p as real,
    ;
    assert(ur == 147573952589676412928real * pr);
    let m = mag(TINY_BITS as int) as real;
    assert(v * ur == m);
    let w = 147573952589676412928real * v;
    assert(v * ur == w * pr) by (nonlinear_arith)
        requires
            ur == 147573952589676412928real * pr,
            w == 147573952589676412928real * v,
    ;
    assert(1real <= w && w <= 2real) by (nonlinear_arith)
        requires
            pr <= w * pr,
            w * pr <= 2real * pr,
            pr > 0real,
    ;
}

/// A normalized coordinate is computed to three units of rounding.
proof fn lemma_normalized(u: Binary32, c: Binary32, f: Binary32)
    requires
        u.finite() && c.finite() && f.finite(),
        rabs(value(u)) <= 524288real,
        rabs(value(c)) <= 524288real,
        1real <= value(f) <= 1048576real,
    ensures
        ({
            let exact = (value(u) - value(c)) / value(f);
            let x = quotient(difference(u, c), f);
            &&& x.finite()
            &&& near(value(x), exact, 3real * (rabs(exact) * eps()) + 3real * tiny())
            &&& rabs(exact) <= 1048576real
        }),
{
    lemma_small();
    let t = tiny();
    let num0 = value(u) - value(c);
    let fv = value(f);
    let exact = num0 / fv;
    assert(exact * fv == num0) by (nonlinear_arith)
        requires
            exact == num0 / fv,
            fv >= 1real,
    ;
    difference_value(u, c);
    let d = difference(u, c);
    let dv = value(d);
    let x = dv / fv;
    assert(x * fv == dv) by (nonlinear_arith)
        requires
            x == dv / fv,
            fv >= 1real,
    ;
    let ae = rabs(exact);
    let an = rabs(num0);
    assert(an == ae * fv) by (nonlinear_arith)
        requires
            exact * fv == num0,
            an == rabs(num0),
            ae == rabs(exact),
            fv >= 1real,
    ;
    lemma_mul_le(1real, fv, ae);
    assert(1real * ae == ae && fv * ae == ae * fv) by (nonlinear_arith);
    let b = ae * eps() + t;
    let ne = an * eps();
    assert(ne == (ae * eps()) * fv) by (nonlinear_arith)
        requires
            ne == an * eps(),
            an == ae * fv,
    ;
    assert(t <= t * fv) by (nonlinear_arith)
        requires
            t > 0real,
            fv >= 1real,
    ;
    assert(b * fv == (ae * eps()) * fv + t * fv) by (nonlinear_arith)
        requires
            b == ae * eps() + t,
    ;
    let gap = x - exact;
    assert(gap * fv == dv - num0) by (nonlinear_arith)
        requires
            gap == x - exact,
            x * fv == dv,
            exact * fv == num0,
    ;
    if gap > b {
        assert(gap * fv > b * fv) by (nonlinear_arith)
            requires
                gap > b,
                fv >= 1real,
        ;
    }
    if -gap > b {
        assert((-gap) * fv > b * fv) by (nonlinear_arith)
            requires
                -gap > b,
                fv >= 1real,
        ;
        assert((-gap) * fv == -(gap * fv)) by (nonlinear_arith);
    }
    lemma_eps(ae);
    assert(rabs(x) <= ae + b);
    quotient_value(d, f);
    lemma_eps(rabs(x));
}

/// The square of a number that is computed to five units of rounding.
proof fn lemma_near_square(x: real, x0: real)
    requires
        near(x, x0, 5real * (rabs(x0) * eps()) + 5real * tiny()),
        rabs(x0) <= 2097152real,
    ensures
        near(x * x, x0 * x0, 11real * ((x0 * x0) * eps()) + 33554432real * tiny()),
        x0 * x0 >= 0real,
{
    lemma_small();
    let t = tiny();
    let b = rabs(x0);
    let a = b * eps();
    let gap = x - x0;
    lemma_eps(b);
    let g = 5real * a + 5real * t;
    let h = 201real / 100real * b + 5real * t;
    lemma_mul_bounds(gap, g, x + x0, h);
    assert(gap * (x + x0) == x * x - x0 * x0) by (nonlinear_arith)
        requires
            gap == x - x0,
    ;
    let ab = a * b;
    let at = a * t;
    let tb = t * b;
    let tt = t * t;
    assert(g * h == 1005real / 100real * ab + 25real * at + 1005real / 100real * tb + 25real * tt)
        by (nonlinear_arith)
        requires
            g == 5real * a + 5real * t,
            h == 201real / 100real * b + 5real * t,
            ab == a * b,
            at == a * t,
            tb == t * b,
            tt == t * t,
    ;
    let xx = x0 * x0;
    assert(xx == b * b) by (nonlinear_arith)
        requires
            xx == x0 * x0,
            b == rabs(x0),
    ;
    assert(ab == xx * eps()) by (nonlinear_arith)
        requires
            ab == a * b,
            a == b * eps(),
            xx == b * b,
    ;
    assert(ab >= 0real && xx >= 0real) by (nonlinear_arith)
        requires
            ab == xx * eps(),
            xx == b * b,
            eps() == 1real / 16777216real,
    ;
    lemma_mul_le(a, 1real, t);
    lemma_mul_le(b, 2097152real, t);
    lemma_mul_le(t, 1real, t);
    assert(b * t == t * b && 1real * t == t) by (nonlinear_arith);
}

/// The sum of the squares of two numbers.
proof fn lemma_squares(a: Binary32, b: Binary32)
    requires
        a.finite() && b.finite(),
        rabs(value(a)) <= 2097152real,
        rabs(value(b)) <= 2097152real,
    ensures
        ({
            let s = value(a) * value(a) + value(b) * value(b);
            &&& squares2(a, b).finite()
            &&& near(value(squares2(a, b)), s, 3real * (s * eps()) + 4real * tiny())
            &&& 0real <= s <= 10000000000000real
        }),
{
    lemma_small();
    let x = value(a);
    let y = value(b);
    lemma_mul_bounds(x, 2097152real, x, 2097152real);
    lemma_mul_bounds(y, 2097152real, y, 2097152real);
    let xx = x * x;
    let yy = y * y;
    assert(xx >= 0real) by (nonlinear_arith)
        requires
            xx == x * x,
    ;
    assert(yy >= 0real) by (nonlinear_arith)
        requires
            yy == y * y,
    ;
    product_value(a, a);
    product_value(b, b);
    let pa = product(a, a);
    let pb = product(b, b);
    lemma_eps(xx);
    lemma_eps(yy);
    lemma_eps(xx + yy);
    let t = value(pa) + value(pb);
    sum_value(pa, pb);
    lemma_eps(rabs(t));
}

/// One component of what distorting the result gives.
proof fn lemma_component(x: real, x0: real, xu: real, rho: real, a: real, w: real)
    requires
        near(x, x0, 3real * (rabs(x0) * eps()) + 3real * tiny()),
        near(xu, rho * x, 3real * (rabs(x) * eps()) + tiny()),
        near(w, 1real + a, 1real / 140000real),
        -(15real / 100real) <= a <= 105real / 100real,
        6real / 10real <= rho <= 12real / 10real,
        -(1real / 16384real) <= rho * (1real + a) - 1real <= 1real / 16384real,
    ensures
        near(xu * w, x0, rabs(x0) / 10000real + 100real * tiny()),
{
    lemma_small();
    let t = tiny();
    let b = rabs(x);
    let e = rho * (1real + a) - 1real;
    let o = w - (1real + a);
    let rx = rho * x;
    let d = xu - rx;
    lemma_eps(b);
    lemma_eps(rabs(x0));
    let be = b * eps();
    assert(xu * w == rx * w + d * w) by (nonlinear_arith)
        requires
            d == xu - rx,
    ;
    let ra = rho * (1real + a);
    assert(rx * (1real + a) == ra * x) by (nonlinear_arith)
        requires
            rx == rho * x,
            ra == rho * (1real + a),
    ;
    assert(rx * w == rx * (1real + a) + rx * o) by (nonlinear_arith)
        requires
            o == w - (1real + a),
    ;
    assert(ra * x == x + e * x) by (nonlinear_arith)
        requires
            ra == 1real + e,
    ;
    lemma_mul_bounds(e, 1real / 16384real, x, b);
    lemma_mul_bounds(rho, 12real / 10real, x, b);
    lemma_mul_bounds(rx, 12real / 10real * b, o, 1real / 140000real);
    assert((12real / 10real * b) * (1real / 140000real) == 12real / 1400000real * b)
        by (nonlinear_arith);
    lemma_mul_bounds(d, 3real * be + t, w, 22real / 10real);
    assert((3real * be + t) * (22real / 10real) == 66real / 10real * be + 22real / 10real * t)
        by (nonlinear_arith);
}

/// A component of the result: the distorted one times the ratio of the radii.
proof fn lemma_scaled(xd: Binary32, s: Binary32, rho: real)
    requires
        xd.finite() && s.finite(),
        rabs(value(xd)) <= 1100000real,
        near(value(s), rho, 14real / 10real * eps()),
        6real / 10real <= rho <= 12real / 10real,
    ensures
        product(xd, s).finite(),
        near(value(product(xd, s)), rho * value(xd), 3real * (rabs(value(xd)) * eps()) + tiny()),
        near(
            value(product(xd, s)),
            rho * value(xd),
            5real * (rabs(rho * value(xd)) * eps()) + 5real * tiny(),
        ),
        rabs(rho * value(xd)) <= 2000000real,
{
    lemma_small();
    let x = value(xd);
    let sv = value(s);
    let b = rabs(x);
    let rx = rho * x;
    let g = sv - rho;
    let be = b * eps();
    lemma_eps(b);
    lemma_mul_bounds(g, 14real / 10real * eps(), x, b);
    assert((14real / 10real * eps()) * b == 14real / 10real * be) by (nonlinear_arith)
        requires
            be == b * eps(),
    ;
    let xs = x * sv;
    assert(xs == rx + g * x) by (nonlinear_arith)
        requires
            xs == x * sv,
            rx == rho * x,
            g == sv - rho,
    ;
    lemma_mul_bounds(rho, 12real / 10real, x, b);
    let ar = rabs(rx);
    assert(ar == rho * b) by (nonlinear_arith)
        requires
            ar == rabs(rx),
            rx == rho * x,
            b == rabs(x),
            rho > 0real,
    ;
    lemma_mul_le(6real / 10real, rho, b);
    lemma_eps(ar);
    product_value(xd, s);
    lemma_eps(rabs(xs));
}

/// What distorting by coefficient `k` makes of the point `(x, y)`: its coordinates are multiplied by
/// this.
pub open spec fn stretch(k: real, x: real, y: real) -> real {
    1real + k * (x * x + y * y)
}

/// Horizontal normalized coordinate of a pixel, exactly.
pub open spec fn normalized_x(cam: Camera, u: Binary32) -> real {
    (value(u) - value(cam.cx)) / value(cam.fx)
}

/// Vertical normalized coordinate of a pixel, exactly.
pub open spec fn normalized_y(cam: Camera, v: Binary32) -> real {
    (value(v) - value(cam.cy)) / value(cam.fy)
}

/// A camera and a pixel of ordinary size, where the distortion is moderate: at most a doubling of the
/// radius for a bulging lens, at most a tenth for a shrinking one.
pub open spec fn moderate(cam: Camera, u: Binary32, v: Binary32) -> bool {
    &&& u.finite() && v.finite() && cam.cx.finite() && cam.cy.finite()
    &&& cam.fx.finite() && cam.fy.finite() && cam.k1.finite()
    &&& rabs(value(u)) <= 524288real && rabs(value(v)) <= 524288real
    &&& rabs(value(cam.cx)) <= 524288real && rabs(value(cam.cy)) <= 524288real
    &&& 1real <= value(cam.fx) <= 1048576real
    &&& 1real <= value(cam.fy) <= 1048576real
    &&& rabs(value(cam.k1)) <= 1048576real
    &&& 9real / 10real <= stretch(value(cam.k1), normalized_x(cam, u), normalized_y(cam, v)) <= 2real
}

/// Distorting the point gives back the pixel: each coordinate up to 1/10000 of itself.
pub open spec fn distorts_back(cam: Camera, u: Binary32, v: Binary32, p: [Binary32; 2]) -> bool {
    let x = value(p[0]);
    let y = value(p[1]);
    let w = stretch(value(cam.k1), x, y);
    &&& p[0].finite() && p[1].finite()
    &&& near(
        x * w,
        normalized_x(cam, u),
        rabs(normalized_x(cam, u)) / 10000real + 100real * tiny(),
    )
    &&& near(
        y * w,
        normalized_y(cam, v),
        rabs(normalized_y(cam, v)) / 10000real + 100real * tiny(),
    )
}

/// A pixel next to the optical axis is left alone: there is no distortion to speak of.
proof fn lemma_centre(k: real, x: real, y: real, x0: real, y0: real, r2: real)
    requires
        rabs(k) <= 1048576real,
        near(x, x0, 3real * (rabs(x0) * eps()) + 3real * tiny()),
        near(y, y0, 3real * (rabs(y0) * eps()) + 3real * tiny()),
        near(r2, x * x + y * y, 3real * ((x * x + y * y) * eps()) + 4real * tiny()),
        147573952589676412928real * r2 <= 2real,
    ensures
        near(x * stretch(k, x, y), x0, rabs(x0) / 10000real + 100real * tiny()),
        near(y * stretch(k, x, y), y0, rabs(y0) / 10000real + 100real * tiny()),
{
    lemma_small();
    let s = x * x + y * y;
    assert(s >= 0real) by (nonlinear_arith)
        requires
            s == x * x + y * y,
    ;
    lemma_eps(s);
    assert(s <= 1real / 73000000000000000000real);
    lemma_mul_bounds(k, 1048576real, s, s);
    let ks = k * s;
    assert(-(1real / 1000000real) <= ks <= 1real / 1000000real);
    lemma_eps(rabs(x0));
    lemma_eps(rabs(y0));
    lemma_mul_bounds(x, rabs(x), ks, 1real / 1000000real);
    lemma_mul_bounds(y, rabs(y), ks, 1real / 1000000real);
    assert(x * (1real + ks) == x + x * ks) by (nonlinear_arith);
    assert(y * (1real + ks) == y + y * ks) by (nonlinear_arith);
}

/// The squared radii: the exact one, that of the computed coordinates, and the computed one.
proof fn lemma_radii(x: real, y: real, x0: real, y0: real, r2: real, dd: real)
    requires
        near(x, x0, 3real * (rabs(x0) * eps()) + 3real * tiny()),
        near(y, y0, 3real * (rabs(y0) * eps()) + 3real * tiny()),
        rabs(x0) <= 1048576real,
        rabs(y0) <= 1048576real,
        near(r2, x * x + y * y, 3real * ((x * x + y * y) * eps()) + 4real * tiny()),
        147573952589676412928real * r2 >= 1real,
        near(dd, r2, r2 / 500000real),
    ensures
        ({
            let s0 = x0 * x0 + y0 * y0;
            let s = x * x + y * y;
            &&& 150000000000000000000real * s0 >= 1real
            &&& near(s, s0, s0 / 1000000real)
            &&& near(dd, s0, s0 / 300000real)
            &&& near(dd, s, s0 / 250000real)
        }),
{
    lemma_small();
    lemma_eps(rabs(x0));
    lemma_eps(rabs(y0));
    lemma_near_square(x, x0);
    lemma_near_square(y, y0);
    let s0 = x0 * x0 + y0 * y0;
    let s = x * x + y * y;
    lemma_eps(x0 * x0);
    lemma_eps(y0 * y0);
    lemma_eps(s);
    assert(149000000000000000000real * s0 >= 1real);
}

/// The stretch of the result is that of the radius.
proof fn lemma_stretch(
    k: real,
    xu: real,
    yu: real,
    x: real,
    y: real,
    rho: real,
    dd: real,
    s0: real,
)
    requires
        rabs(k) <= 1048576real,
        near(xu, rho * x, 5real * (rabs(rho * x) * eps()) + 5real * tiny()),
        near(yu, rho * y, 5real * (rabs(rho * y) * eps()) + 5real * tiny()),
        rabs(rho * x) <= 2000000real,
        rabs(rho * y) <= 2000000real,
        6real / 10real <= rho <= 12real / 10real,
        s0 >= 0real,
        near(x * x + y * y, s0, s0 / 1000000real),
        near(dd, x * x + y * y, s0 / 250000real),
        rabs(k * s0) <= 1real,
    ensures
        near(stretch(k, xu, yu), 1real + (k * dd) * (rho * rho), 1real / 140000real),
{
    lemma_small();
    let t = tiny();
    let rx = rho * x;
    let ry = rho * y;
    lemma_near_square(xu, rx);
    lemma_near_square(yu, ry);
    lemma_eps(rx * rx);
    lemma_eps(ry * ry);
    let s = x * x + y * y;
    let rr = rho * rho;
    lemma_mul_bounds(rho, 12real / 10real, rho, 12real / 10real);
    assert(rr >= 0real) by (nonlinear_arith)
        requires
            rr == rho * rho,
    ;
    assert(rx * rx == rr * (x * x)) by (nonlinear_arith)
        requires
            rx == rho * x,
            rr == rho * rho,
    ;
    assert(ry * ry == rr * (y * y)) by (nonlinear_arith)
        requires
            ry == rho * y,
            rr == rho * rho,
    ;
    assert(rr * s == rr * (x * x) + rr * (y * y)) by (nonlinear_arith)
        requires
            s == x * x + y * y,
    ;
    let v = xu * xu + yu * yu;
    let rs = rr * s;
    let g1 = v - rs;
    let b1 = 11real / 16777216real * rs + 67108864real * t;
    assert(-b1 <= g1 <= b1);
    let g2 = s - dd;
    let ak = rabs(k);
    let b2 = s0 / 250000real;
    // In terms of the exact squared radius.
    lemma_mul_bounds(rr, 144real / 100real, s, 101real / 100real * s0);
    assert((144real / 100real) * (101real / 100real * s0) == 14544real / 10000real * s0)
        by (nonlinear_arith);
    lemma_mul_bounds(rr, 144real / 100real, g2, b2);
    let g = v - rr * dd;
    assert(rr * g2 == rs - rr * dd) by (nonlinear_arith)
        requires
            g2 == s - dd,
            rs == rr * s,
    ;
    let b = 68real / 10000000real * s0 + 67108864real * t;
    assert(144real / 100real * b2 == 144real / 25000000real * s0);
    assert(-b <= g <= b);
    lemma_mul_bounds(k, ak, g, b);
    assert(ak * b == 68real / 10000000real * (ak * s0) + 67108864real * (ak * t))
        by (nonlinear_arith)
        requires
            b == 68real / 10000000real * s0 + 67108864real * t,
    ;
    let ks = k * s0;
    assert(ak * s0 == rabs(ks)) by (nonlinear_arith)
        requires
            ak == rabs(k),
            ks == k * s0,
            s0 >= 0real,
    ;
    lemma_mul_le(ak, 1048576real, t);
    assert(k * v == (k * dd) * rr + k * g) by (nonlinear_arith)
        requires
            g == v - rr * dd,
    ;
}

/// Where the radius can be undistorted.
proof fn lemma_radius(d: real, k: real, s0: real)
    requires
        0real < d,
        150000000000000000000real * s0 >= 1real,
        s0 <= 3000000000000real,
        near(d * d, s0, s0 / 300000real),
        -(1real / 10real) <= k * s0 <= 1real,
    ensures
        1real / 34359738368real <= d <= 4194304real,
        ({
            let q = k * (d * d);
            &&& rabs(k * s0) <= 1real
            &&& q >= 0real ==> in_region(q, 1real, 0, 8)
            &&& q < 0real ==> in_region(q, 1real, 2, 8)
        }),
{
    let dd = d * d;
    let a = 1real / 34359738368real;
    if d < a {
        lemma_mul_bounds(d, a, d, a);
        assert(a * a <= 1real / 1000000000000000000000real) by (nonlinear_arith)
            requires
                a == 1real / 34359738368real,
        ;
        assert(false);
    }
    if d > 4194304real {
        lemma_mul_le(4194304real, d, d);
        assert(false);
    }
    let q = k * dd;
    let q0 = k * s0;
    let g = dd - s0;
    let b = s0 / 300000real;
    let ak = rabs(k);
    lemma_mul_bounds(k, ak, g, b);
    assert(q == q0 + k * g) by (nonlinear_arith)
        requires
            q == k * dd,
            q0 == k * s0,
            g == dd - s0,
    ;
    assert(ak * b == (ak * s0) / 300000real) by (nonlinear_arith)
        requires
            b == s0 / 300000real,
    ;
    assert(ak * s0 == rabs(q0)) by (nonlinear_arith)
        requires
            ak == rabs(k),
            q0 == k * s0,
            s0 >= 0real,
    ;
    assert(residual(q, 1real) == q) by {
        assert(1real * (1real + q * (1real * 1real)) - 1real == q) by (nonlinear_arith);
    }
    assert(8int as real == 8real);
}

/// Undistorting a pixel inverts the distortion: the point it gives, distorted again, is the pixel's
/// normalized position, for lenses of either sign.
pub proof fn undistortion_inverts_distortion(cam: Camera, u: Binary32, v: Binary32)
    requires
        moderate(cam, u, v),
    ensures
        distorts_back(cam, u, v, undistorted(cam, u, v)),
{
    lemma_small();
    let k = value(cam.k1);
    let x0 = normalized_x(cam, u);
    let y0 = normalized_y(cam, v);
    let s0 = x0 * x0 + y0 * y0;
    lemma_normalized(u, cam.cx, cam.fx);
    lemma_normalized(v, cam.cy, cam.fy);
    lemma_eps(rabs(x0));
    lemma_eps(rabs(y0));
    let xd = quotient(difference(u, cam.cx), cam.fx);
    let yd = quotient(difference(v, cam.cy), cam.fy);
    let x = value(xd);
    let y = value(yd);
    let rd2 = squares2(xd, yd);
    lemma_squares(xd, yd);
    lemma_tiny_bits();
    values_compare(rd2, num(TINY_BITS));
    if less(rd2, num(TINY_BITS)) {
        lemma_centre(k, x, y, x0, y0, value(rd2));
    } else {
        let s = x * x + y * y;
        lemma_eps(s);
        root_is_square_root(rd2);
        let rd = root(rd2);
        let d = value(rd);
        let dd = d * d;
        lemma_radii(x, y, x0, y0, value(rd2), dd);
        lemma_mul_bounds(x0, 1048576real, x0, 1048576real);
        lemma_mul_bounds(y0, 1048576real, y0, 1048576real);
        lemma_radius(d, k, s0);
        let q = k * dd;
        let rho = lemma_converges(
            cam.k1,
            rd,
            rd,
            q,
            1real,
            if q >= 0real {
                0
            } else {
                2
            },
            8,
        );
        let last = undistorted_radius(cam.k1, rd, rd, 8);
        let lv = value(last);
        assert(lv / d == rho) by (nonlinear_arith)
            requires
                lv == rho * d,
                d > 0real,
        ;
        quotient_value(last, rd);
        lemma_eps(rho);
        let sc = quotient(last, rd);
        lemma_scaled(xd, sc, rho);
        lemma_scaled(yd, sc, rho);
        let xu = value(product(xd, sc));
        let yu = value(product(yd, sc));
        lemma_stretch(k, xu, yu, x, y, rho, dd, s0);
        let a = q * (rho * rho);
        lemma_limits(q, rho);
        lemma_component(x, x0, xu, rho, a, stretch(k, xu, yu));
        lemma_component(y, y0, yu, rho, a, stretch(k, xu, yu));
    }
}

/// The size of the distortion at the root.
proof fn lemma_limits(q: real, rho: real)
    requires
        -(101real / 1000real) <= q <= 101real / 100real,
        6real / 10real <= rho <= 12real / 10real,
        -(1real / 16384real) <= residual(q, rho) <= 1real / 16384real,
    ensures
        -(15real / 100real) <= q * (rho * rho) <= 105real / 100real,
{
    let rr = rho * rho;
    let a = q * rr;
    lemma_mul_bounds(rho, 12real / 10real, rho, 12real / 10real);
    assert(rr >= 0real) by (nonlinear_arith)
        requires
            rr == rho * rho,
    ;
    lemma_mul_le(-(101real / 1000real), q, rr);
    assert(-(101real / 1000real) * rr == -(101real / 1000real * rr)) by (nonlinear_arith);
    if a > 105real / 100real {
        // The radius is then at most one half.
        lemma_mul_le(205real / 100real, 1real + a, rho);
        assert((1real + a) * rho == rho * (1real + a)) by (nonlinear_arith);
        assert(false);
    }
}

} // verus!
