//! Newton steps for the undistorted radius, on real numbers: how fast they approach the root.

use vstd::prelude::*;

use crate::value::{lemma_mul_bounds, lemma_mul_le};

verus! {

/// Residual of a radius, relative to the distorted one: `rho` is the ratio of both radii and `q` the
/// coefficient times the square of the distorted radius.
pub(crate) open spec fn residual(q: real, rho: real) -> real {
    rho * (1real + q * (rho * rho)) - 1real
}

proof fn lemma_dist(a: real, b: real, c: real)
    ensures
        a * (b + c) == a * b + a * c,
        a * (b - c) == a * b - a * c,
{
    assert(a * (b + c) == a * b + a * c) by (nonlinear_arith);
    assert(a * (b - c) == a * b - a * c) by (nonlinear_arith);
}

proof fn lemma_swap(a: real, b: real, c: real)
    ensures
        a * (b * c) == b * (a * c),
        a * (b * c) == (a * b) * c,
        a * b == b * a,
{
    assert(a * (b * c) == b * (a * c)) by (nonlinear_arith);
    assert(a * (b * c) == (a * b) * c) by (nonlinear_arith);
    assert(a * b == b * a) by (nonlinear_arith);
}

/// The residual after a step of `d`, in full.
proof fn lemma_stepped(q: real, rho: real, d: real)
    ensures
        residual(q, rho - d) == residual(q, rho) - d * (1real + 3real * (q * (rho * rho))) + (q
            * (3real * rho - d)) * (d * d),
{
    let m = rho - d;
    let rr = rho * rho;
    let rd = rho * d;
    let dd = d * d;
    let a = q * rr;
    let b = q * rd;
    let c = q * dd;
    // The square.
    lemma_dist(m, rho, d);
    lemma_dist(rho, rho, d);
    lemma_dist(d, rho, d);
    lemma_swap(m, rho, d);
    lemma_swap(rho, m, d);
    lemma_swap(d, m, d);
    lemma_swap(d, rho, d);
    assert(m * m == rr - 2real * rd + dd);
    // Times the coefficient.
    lemma_dist(q, rr - 2real * rd, dd);
    lemma_dist(q, rr, 2real * rd);
    lemma_swap(q, 2real, rd);
    let f = q * (m * m);
    assert(f == a - 2real * b + c);
    // Times the radius.
    lemma_dist(m, 1real, f);
    lemma_swap(m, f, 1real);
    lemma_swap(rho, f, 1real);
    lemma_swap(d, f, 1real);
    lemma_dist(f, rho, d);
    lemma_dist(rho, a - 2real * b, c);
    lemma_dist(rho, a, 2real * b);
    lemma_swap(rho, 2real, b);
    lemma_dist(d, a - 2real * b, c);
    lemma_dist(d, a, 2real * b);
    lemma_swap(d, 2real, b);
    assert(m * (1real + f) == rho + rho * a - 2real * (rho * b) + rho * c - d - d * a + 2real * (d
        * b) - d * c);
    // The same products in another order.
    lemma_swap(rho, q, rd);
    lemma_swap(d, q, rr);
    lemma_swap(rho, rho, d);
    lemma_swap(d, rho, rho);
    assert(rho * rd == d * rr);
    assert(rho * b == d * a);
    lemma_swap(d, q, rd);
    lemma_swap(rho, q, dd);
    lemma_swap(d, rho, d);
    assert(d * rd == rho * dd);
    assert(d * b == rho * c);
    // The claim.
    lemma_dist(rho, 1real, a);
    lemma_dist(d, 1real, 3real * a);
    lemma_swap(d, 3real, a);
    let k = 3real * rho - d;
    lemma_swap(q, k, dd);
    lemma_swap(c, k, 1real);
    lemma_dist(c, 3real * rho, d);
    lemma_swap(c, 3real, rho);
    lemma_swap(c, rho, 1real);
    lemma_swap(c, d, 1real);
}

proof fn lemma_square(a: real)
    ensures
        a * a >= 0real,
{
    assert(a * a >= 0real) by (nonlinear_arith);
}

proof fn lemma_zero(a: real)
    ensures
        0real * a == 0real,
        1real * a == a,
{
    assert(0real * a == 0real) by (nonlinear_arith);
    assert(1real * a == a) by (nonlinear_arith);
}

/// An exact Newton step, for a bulging lens.
pub(crate) proof fn lemma_exact_step_bulge(q: real, rho: real, d: real)
    requires
        0real <= q <= 101real / 100real,
        6real / 10real <= rho <= 101real / 100real,
        -(1real / 16384real) <= residual(q, rho) <= 101real / 100real,
        d * (1real + 3real * (q * (rho * rho))) == residual(q, rho),
    ensures
        0real <= residual(q, rho - d),
        100real * residual(q, rho - d) <= 45real * (residual(q, rho) * residual(q, rho)),
        1real <= 1real + 3real * (q * (rho * rho)) <= 41real / 10real,
        0real <= q * (rho * rho) <= 104real / 100real,
        -(1real / 16384real) <= d <= 101real / 100real,
        residual(q, rho) >= 0real ==> d >= 0real,
        residual(q, rho) < 0real ==> rho <= 1real,
{
    let w = q * rho;
    let a = q * (rho * rho);
    let g = 1real + 3real * a;
    let e = residual(q, rho);
    let n = residual(q, rho - d);
    lemma_swap(q, rho, rho);
    lemma_swap(w, rho, 1real);
    lemma_zero(rho);
    lemma_mul_le(0real, q, rho);
    lemma_mul_le(0real, w, rho);
    lemma_mul_le(6real / 10real, rho, w);
    lemma_mul_le(q, 101real / 100real, rho);
    assert(w <= 10202real / 10000real);
    lemma_mul_le(w, 10202real / 10000real, rho);
    assert(0real <= a <= 10305real / 10000real);
    assert(10real * a >= 6real * w);
    lemma_stepped(q, rho, d);
    let k = 3real * rho - d;
    let dd = d * d;
    let gg = g * g;
    let qk = q * k;
    assert(n == qk * dd);
    // The step.
    lemma_zero(d);
    lemma_zero(-d);
    lemma_swap(d, g, 1real);
    lemma_swap(-d, g, 1real);
    lemma_dist(g, 0real, d);
    lemma_zero(g);
    lemma_swap(g, 0real, 1real);
    assert(g * (-d) == -(d * g));
    if d > 0real {
        lemma_mul_le(1real, g, d);
    }
    if d < 0real {
        lemma_mul_le(1real, g, -d);
    }
    // The rest.
    lemma_dist(rho, 1real, a);
    lemma_swap(rho, 1real, 1real);
    lemma_mul_le(0real, a, rho);
    lemma_swap(rho, a, 1real);
    assert(e == rho + rho * a - 1real);
    lemma_swap(d, d, gg);
    lemma_swap(d, g, g);
    lemma_swap(g, d, g);
    lemma_swap(e, d, g);
    lemma_swap(d, e, g);
    assert(d * gg == e * g);
    assert(d * (d * gg) == e * (d * g));
    assert(dd * gg == e * e);
    lemma_square(d);
    lemma_square(a);
    lemma_square(1real - 3real * a);
    lemma_dist(1real - 3real * a, 1real, 3real * a);
    lemma_zero(1real - 3real * a);
    lemma_swap(1real - 3real * a, 1real, 1real);
    lemma_swap(1real - 3real * a, 3real * a, 1real);
    lemma_dist(3real * a, 1real, 3real * a);
    lemma_swap(3real * a, 3real, a);
    lemma_swap(3real, a, a);
    lemma_swap(3real * a, a, 1real);
    lemma_swap(a, 3real, a);
    let aa = a * a;
    assert((3real * a) * (3real * a) == 9real * aa);
    assert((1real - 3real * a) * (1real - 3real * a) == 1real - 6real * a + 9real * aa);
    lemma_dist(g, 1real, 3real * a);
    lemma_swap(g, 3real * a, 1real);
    lemma_swap(g, 1real, 1real);
    lemma_dist(3real * a, 1real, 3real * a);
    assert(gg == 1real + 6real * a + 9real * aa);
    assert(gg >= 12real * a && gg >= 1real);
    lemma_mul_le(0real, q, k);
    lemma_zero(k);
    lemma_mul_le(0real, qk, dd);
    lemma_zero(dd);
    lemma_dist(q, 3real * rho, d);
    lemma_swap(q, 3real, rho);
    lemma_swap(q, d, 1real);
    assert(qk == 3real * w - d * q);
    lemma_mul_le(-(1real / 16384real), d, q);
    assert((-(1real / 16384real)) * q == -(q / 16384real)) by (nonlinear_arith);
    assert(300real * w <= 500real * a);
    assert(100real * qk <= 45real * gg);
    lemma_mul_le(qk, 45real / 100real * gg, dd);
    lemma_swap(45real / 100real, gg, dd);
    lemma_swap(dd, gg, 1real);
}

/// An exact Newton step, for a shrinking lens.
pub(crate) proof fn lemma_exact_step_shrink(q: real, rho: real, d: real)
    requires
        -(101real / 1000real) <= q < 0real,
        85real / 100real <= rho <= 12real / 10real,
        residual(q, rho) <= 1real / 16384real,
        -residual(q, rho) <= 12real / 100real,
        d * (1real + 3real * (q * (rho * rho))) == residual(q, rho),
    ensures
        residual(q, rho - d) <= 0real,
        -(100real * residual(q, rho - d)) <= 130real * (residual(q, rho) * residual(q, rho)),
        56real / 100real <= 1real + 3real * (q * (rho * rho)) <= 1real,
        -(15real / 100real) <= q * (rho * rho) <= 0real,
        -(22real / 100real) <= d <= 1real / 9000real,
{
    let rr = rho * rho;
    let a = q * rr;
    let g = 1real + 3real * a;
    let e = residual(q, rho);
    let n = residual(q, rho - d);
    lemma_mul_bounds(rho, 12real / 10real, rho, 12real / 10real);
    lemma_square(rho);
    lemma_mul_le(-q, 101real / 1000real, rr);
    lemma_mul_le(0real, -q, rr);
    lemma_zero(rr);
    lemma_dist(rr, 0real, q);
    lemma_swap(rr, q, 1real);
    lemma_swap(rr, -q, 1real);
    lemma_swap(rr, 0real, 1real);
    assert((-q) * rr == -a);
    assert(56real / 100real <= g <= 1real);
    lemma_stepped(q, rho, d);
    let k = 3real * rho - d;
    let dd = d * d;
    let gg = g * g;
    let qk = q * k;
    assert(n == qk * dd);
    lemma_dist(g, 0real, d);
    lemma_zero(g);
    lemma_swap(g, 0real, 1real);
    lemma_swap(g, d, 1real);
    lemma_swap(g, -d, 1real);
    assert(g * (-d) == -e);
    if d > 0real {
        lemma_mul_le(56real / 100real, g, d);
    }
    if d < 0real {
        lemma_mul_le(56real / 100real, g, -d);
    }
    assert(-(22real / 100real) <= d <= 1real / 9000real);
    lemma_swap(d, d, gg);
    lemma_swap(d, g, g);
    lemma_swap(g, d, g);
    lemma_swap(e, d, g);
    lemma_swap(d, e, g);
    assert(d * gg == e * g);
    assert(d * (d * gg) == e * (d * g));
    assert(dd * gg == e * e);
    lemma_square(d);
    lemma_mul_le(56real / 100real, g, g);
    assert(1000real * gg >= 313real);
    lemma_mul_le(-q, 101real / 1000real, k);
    lemma_mul_le(0real, -q, k);
    lemma_zero(k);
    lemma_dist(k, 0real, q);
    lemma_swap(k, q, 1real);
    lemma_swap(k, -q, 1real);
    lemma_swap(k, 0real, 1real);
    assert((-q) * k == -qk);
    lemma_mul_le(-qk, 130real / 100real * gg, dd);
    lemma_mul_le(0real, -qk, dd);
    lemma_zero(dd);
    lemma_dist(dd, 0real, qk);
    lemma_swap(dd, qk, 1real);
    lemma_swap(dd, -qk, 1real);
    lemma_swap(dd, 0real, 1real);
    lemma_swap(130real / 100real, gg, dd);
    lemma_swap(dd, gg, 1real);
}

/// Moving the radius by 2^-17 moves the residual by less than 1/30000.
proof fn lemma_moved(q: real, m: real, p: real)
    requires
        -(1real / 131072real) <= p - m <= 1real / 131072real,
        ({
            ||| 0real <= q <= 101real / 100real && -(103real / 100real) <= m <= 103real / 100real
            ||| -(101real / 1000real) <= q < 0real && -(145real / 100real) <= m <= 145real / 100real
        }),
    ensures
        -(1real / 30000real) <= residual(q, p) - residual(q, m) <= 1real / 30000real,
{
    let d = m - p;
    let h = 1real / 131072real;
    assert(m - d == p);
    lemma_stepped(q, m, d);
    let mm = m * m;
    let a = q * mm;
    let qk = q * (3real * m - d);
    let dd = d * d;
    if q >= 0real {
        lemma_mul_bounds(m, 103real / 100real, m, 103real / 100real);
        lemma_mul_bounds(q, 101real / 100real, mm, 10609real / 10000real);
        lemma_mul_bounds(q, 101real / 100real, 3real * m - d, 4real);
    } else {
        lemma_mul_bounds(m, 145real / 100real, m, 145real / 100real);
        lemma_mul_bounds(q, 101real / 1000real, mm, 21025real / 10000real);
        lemma_mul_bounds(q, 101real / 1000real, 3real * m - d, 5real);
    }
    assert(-(108real / 100real) <= a <= 108real / 100real);
    assert(-5real <= qk <= 5real);
    lemma_mul_bounds(d, h, 1real + 3real * a, 424real / 100real);
    lemma_mul_bounds(d, h, d, h);
    lemma_mul_bounds(qk, 5real, dd, h * h);
    assert(h * h <= h / 100000real);
}

/// Bound on the residual after `j` steps; from five on it is 2^-14.
pub(crate) open spec fn bound(j: int) -> real {
    if j <= 0 {
        101real / 100real
    } else if j == 1 {
        1real / 2real
    } else if j == 2 {
        12real / 100real
    } else if j == 3 {
        2real / 100real
    } else if j == 4 {
        6real / 10000real
    } else {
        1real / 16384real
    }
}

/// Where the steps stay, with `n` of eight steps left, for a bulging and for a shrinking lens.
pub(crate) open spec fn in_region(q: real, rho: real, j: int, n: int) -> bool {
    let e = residual(q, rho);
    if q >= 0real {
        &&& q <= 101real / 100real
        &&& 6real / 10real <= rho <= 101real / 100real - n as real / 1000real
        &&& -(1real / 16384real) <= e <= bound(j)
    } else {
        &&& q >= -(101real / 1000real)
        &&& 85real / 100real <= rho <= 12real / 10real
        &&& e <= 1real / 16384real
        &&& -e <= bound(j)
        &&& -e <= 12real / 100real
    }
}

/// The square of a number between bounds.
proof fn lemma_square_bound(e: real, b: real)
    requires
        -b <= e <= b,
    ensures
        e * e <= b * b,
{
    lemma_mul_bounds(e, b, e, b);
}

/// A step that is at most 2^-17 off the exact one stays in the region and comes nearer.
pub(crate) proof fn lemma_region_step(q: real, rho: real, j: int, n: int, d: real, p: real)
    requires
        0 <= n <= 8,
        1 <= n,
        0 <= j,
        in_region(q, rho, j, n),
        d * (1real + 3real * (q * (rho * rho))) == residual(q, rho),
        -(1real / 131072real) <= p - (rho - d) <= 1real / 131072real,
    ensures
        in_region(q, p, j + 1, n - 1),
{
    let e = residual(q, rho);
    let m = rho - d;
    let r = residual(q, p);
    let pp = p * p;
    let b = bound(j);
    lemma_square(p);
    lemma_dist(p, 1real, q * pp);
    lemma_zero(p);
    lemma_swap(p, 1real, 1real);
    if q >= 0real {
        lemma_exact_step_bulge(q, rho, d);
        lemma_square_bound(e, b);
        lemma_moved(q, m, p);
        assert(45real * (b * b) + 100real / 30000real <= 100real * bound(j + 1)) by {
            if j == 0 {
                assert(b == 101real / 100real);
                assert(b * b == 10201real / 10000real) by (nonlinear_arith)
                    requires
                        b == 101real / 100real,
                ;
            } else if j == 1 {
                assert(b == 1real / 2real);
                assert(b * b == 1real / 4real) by (nonlinear_arith)
                    requires
                        b == 1real / 2real,
                ;
            } else if j == 2 {
                assert(b == 12real / 100real);
                assert(b * b == 144real / 10000real) by (nonlinear_arith)
                    requires
                        b == 12real / 100real,
                ;
            } else if j == 3 {
                assert(b == 2real / 100real);
                assert(b * b == 4real / 10000real) by (nonlinear_arith)
                    requires
                        b == 2real / 100real,
                ;
            } else if j == 4 {
                assert(b == 6real / 10000real);
                assert(b * b == 36real / 100000000real) by (nonlinear_arith)
                    requires
                        b == 6real / 10000real,
                ;
            } else {
                assert(b == 1real / 16384real);
                assert(b * b == 1real / 268435456real) by (nonlinear_arith)
                    requires
                        b == 1real / 16384real,
                ;
            }
        }
        assert(-(1real / 16384real) <= r <= bound(j + 1));
        if p < 6real / 10real {
            if p >= 0real {
                lemma_mul_bounds(p, 6real / 10real, p, 6real / 10real);
                lemma_mul_le(q, 101real / 100real, pp);
                let f = 1real + q * pp;
                assert(f <= 14real / 10real);
                lemma_mul_le(f, 14real / 10real, p);
                lemma_swap(p, f, 1real);
            } else {
                lemma_mul_le(0real, q, pp);
                lemma_zero(pp);
                let f = 1real + q * pp;
                lemma_mul_le(0real, f, -p);
                lemma_dist(f, 0real, p);
                lemma_zero(f);
                lemma_zero(-p);
                lemma_swap(f, 0real, 1real);
                lemma_swap(f, p, 1real);
                lemma_swap(f, -p, 1real);
            }
            assert(false);
        }
        if e >= 0real {
            assert(p <= rho + 1real / 131072real);
        } else {
            assert(p <= 1real + 1real / 16384real + 1real / 131072real);
        }
    } else {
        lemma_exact_step_shrink(q, rho, d);
        lemma_square_bound(e, 12real / 100real);
        let c = if b <= 12real / 100real {
            b
        } else {
            12real / 100real
        };
        lemma_square_bound(e, c);
        lemma_moved(q, m, p);
        assert(130real * (c * c) + 100real / 30000real <= 100real * bound(j + 1)) by {
            if j <= 2 {
                assert(c == 12real / 100real);
                assert(c * c == 144real / 10000real) by (nonlinear_arith)
                    requires
                        c == 12real / 100real,
                ;
            } else if j == 3 {
                assert(c == 2real / 100real);
                assert(c * c == 4real / 10000real) by (nonlinear_arith)
                    requires
                        c == 2real / 100real,
                ;
            } else if j == 4 {
                assert(c == 6real / 10000real);
                assert(c * c == 36real / 100000000real) by (nonlinear_arith)
                    requires
                        c == 6real / 10000real,
                ;
            } else {
                assert(c == 1real / 16384real);
                assert(c * c == 1real / 268435456real) by (nonlinear_arith)
                    requires
                        c == 1real / 16384real,
                ;
            }
        }
        assert(130real * (c * c) + 100real / 30000real <= 12real);
        assert(r <= 1real / 30000real && -r <= bound(j + 1) && -r <= 12real / 100real);
        let x = -(q * pp);
        lemma_mul_le(-q, 101real / 1000real, pp);
        lemma_mul_le(0real, -q, pp);
        lemma_zero(pp);
        lemma_dist(pp, 0real, q);
        lemma_swap(pp, q, 1real);
        lemma_swap(pp, -q, 1real);
        lemma_swap(pp, 0real, 1real);
        assert((-q) * pp == x);
        assert(0real <= x <= 101real / 1000real * pp);
        let f = 1real + q * pp;
        lemma_swap(p, f, 1real);
        assert(5real / 10real <= p <= 144real / 100real);
        lemma_mul_le(f, 1real, p);
        assert(p >= 85real / 100real);
        if p > 12real / 10real {
            if p <= 125real / 100real {
                lemma_mul_bounds(p, 125real / 100real, p, 125real / 100real);
                assert(f >= 84real / 100real);
                lemma_mul_le(84real / 100real, f, p);
            } else if p <= 135real / 100real {
                lemma_mul_bounds(p, 135real / 100real, p, 135real / 100real);
                assert(f >= 81real / 100real);
                lemma_mul_le(81real / 100real, f, p);
            } else {
                lemma_mul_bounds(p, 144real / 100real, p, 144real / 100real);
                assert(f >= 79real / 100real);
                lemma_mul_le(79real / 100real, f, p);
            }
            assert(false);
        }
    }
}

} // verus!
