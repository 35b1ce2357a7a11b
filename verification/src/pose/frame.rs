//! What the pose of a projection matrix is: a rigid frame.

use vstd::arithmetic::power2::{lemma2_to64, lemma_pow2_adds, lemma_pow2_unfold, pow2};
use vstd::prelude::*;

use crate::binary32::{difference, mag, magnitude, one_units, product, quotient, Binary32};
use crate::linalg::exact::{
    cross_is_vector_product, dot_is_inner_product, dot_size, exact_dot, finite3, lemma_eps,
    lemma_tiny, length_is_euclidean,
};
use crate::linalg::{column, cross, dot, length, num, Vec3};
use crate::pose::{
    left_block, nearly_parallel, pose_from, pose_with, reduced, reversed, scaled_down, two_axes,
    Pose, PARALLEL_BITS,
};
use crate::value::{
    difference_value, eps, lemma_mul_bounds, lemma_mul_le, lemma_opposite, lemma_scale, lemma_value,
    near, product_value, quotient_value, rabs, value, values_compare,
};

verus! {

proof fn lemma_square(a: real)
    ensures
        a * a >= 0real,
{
    assert(a * a >= 0real) by (nonlinear_arith);
}

/// What squares to at most `b` squared.
proof fn lemma_root_bound(o: real, b: real)
    requires
        o * o <= b * b,
        0real <= b,
    ensures
        -b <= o <= b,
{
    if o > b {
        assert(o * o > b * b) by (nonlinear_arith)
            requires
                o > b,
                b >= 0real,
        ;
    }
    if o < -b {
        assert(o * o > b * b) by (nonlinear_arith)
            requires
                -o > b,
                b >= 0real,
        ;
    }
}

/// One entry divided by a length.
proof fn lemma_share(v: Binary32, n: Binary32) -> (x: real)
    requires
        v.finite() && n.finite(),
        0real < value(n),
        value(v) * value(v) <= 101real / 100real * (value(n) * value(n)),
    ensures
        x * value(n) == value(v),
        -(102real / 100real) <= x <= 102real / 100real,
        quotient(v, n).finite(),
        near(value(quotient(v, n)), x, 2real * eps()),
{
    lemma_tiny();
    let a = value(v);
    let d = value(n);
    let x = a / d;
    assert(x * d == a) by (nonlinear_arith)
        requires
            x == a / d,
            d > 0real,
    ;
    let lim = 102real / 100real * d;
    assert(lim * lim == 10404real / 10000real * (d * d)) by (nonlinear_arith)
        requires
            lim == 102real / 100real * d,
    ;
    lemma_square(d);
    lemma_root_bound(a, lim);
    if x > 102real / 100real {
        assert(x * d > 102real / 100real * d) by (nonlinear_arith)
            requires
                x > 102real / 100real,
                d > 0real,
        ;
    }
    if x < -(102real / 100real) {
        assert(x * d < -(102real / 100real) * d) by (nonlinear_arith)
            requires
                x < -(102real / 100real),
                d > 0real,
        ;
        assert(-(102real / 100real) * d == -(102real / 100real * d)) by (nonlinear_arith);
    }
    quotient_value(v, n);
    lemma_eps(rabs(x));
    x
}

/// The square of a number that is a little off.
proof fn lemma_square_near(q: real, x: real)
    requires
        near(q, x, 2real * eps()),
        -(102real / 100real) <= x <= 102real / 100real,
    ensures
        near(q * q, x * x, 5real * eps()),
{
    let g = q - x;
    lemma_mul_bounds(g, 2real * eps(), q + x, 205real / 100real);
    assert(g * (q + x) == q * q - x * x) by (nonlinear_arith)
        requires
            g == q - x,
    ;
    assert((2real * eps()) * (205real / 100real) == 41real / 10real * eps()) by (nonlinear_arith);
}

/// A vector of length one, up to 1/100000 of the square.
pub open spec fn unit(v: Vec3) -> bool {
    &&& finite3(v)
    &&& near(exact_dot(v, v), 1real, 1real / 100000real)
}

/// The entries of a unit vector.
proof fn lemma_unit_entries(v: Vec3)
    requires
        unit(v),
    ensures
        rabs(value(v[0])) <= 101real / 100real,
        rabs(value(v[1])) <= 101real / 100real,
        rabs(value(v[2])) <= 101real / 100real,
{
    let a = value(v[0]);
    let b = value(v[1]);
    let c = value(v[2]);
    lemma_square(a);
    lemma_square(b);
    lemma_square(c);
    let l = 101real / 100real;
    assert(l * l == 10201real / 10000real) by (nonlinear_arith)
        requires
            l == 101real / 100real,
    ;
    lemma_root_bound(a, l);
    lemma_root_bound(b, l);
    lemma_root_bound(c, l);
}

/// A vector divided by its length: the entries times the length are the vector's, and it has length
/// one. Returns the exact entries.
proof fn lemma_unit(v: Vec3, n: Binary32) -> (x: (real, real, real))
    requires
        finite3(v),
        n.finite(),
        0real < value(n),
        exact_dot(v, v) > 0real,
        near(value(n) * value(n), exact_dot(v, v), exact_dot(v, v) / 400000real),
    ensures
        unit(scaled_down(v, n)),
        x.0 * value(n) == value(v[0]),
        x.1 * value(n) == value(v[1]),
        x.2 * value(n) == value(v[2]),
        near(value(scaled_down(v, n)[0]), x.0, 2real * eps()),
        near(value(scaled_down(v, n)[1]), x.1, 2real * eps()),
        near(value(scaled_down(v, n)[2]), x.2, 2real * eps()),
{
    let a = value(v[0]);
    let b = value(v[1]);
    let c = value(v[2]);
    let d = value(n);
    let s = exact_dot(v, v);
    let dd = d * d;
    lemma_square(a);
    lemma_square(b);
    lemma_square(c);
    let x = lemma_share(v[0], n);
    let y = lemma_share(v[1], n);
    let z = lemma_share(v[2], n);
    let q = scaled_down(v, n);
    lemma_square_near(value(q[0]), x);
    lemma_square_near(value(q[1]), y);
    lemma_square_near(value(q[2]), z);
    let e = x * x + y * y + z * z;
    assert(a * a == (x * x) * dd) by (nonlinear_arith)
        requires
            x * d == a,
            dd == d * d,
    ;
    assert(b * b == (y * y) * dd) by (nonlinear_arith)
        requires
            y * d == b,
            dd == d * d,
    ;
    assert(c * c == (z * z) * dd) by (nonlinear_arith)
        requires
            z * d == c,
            dd == d * d,
    ;
    let xx = x * x;
    let yy = y * y;
    let zz = z * z;
    assert(e * dd == xx * dd + yy * dd + zz * dd) by (nonlinear_arith)
        requires
            e == xx + yy + zz,
    ;
    assert(e * dd == s);
    let hi = 1000003real / 1000000real;
    let lo = 999997real / 1000000real;
    if e > hi {
        lemma_mul_le(hi, e, dd);
        assert(false);
    }
    if e < lo {
        lemma_mul_le(e, lo, dd);
        assert(false);
    }
    (x, y, z)
}

/// The opposite of a unit vector.
proof fn lemma_reversed(v: Vec3)
    requires
        finite3(v),
    ensures
        finite3(reversed(v)),
        value(reversed(v)[0]) == -value(v[0]),
        value(reversed(v)[1]) == -value(v[1]),
        value(reversed(v)[2]) == -value(v[2]),
        exact_dot(reversed(v), reversed(v)) == exact_dot(v, v),
{
    lemma_opposite(v[0]);
    lemma_opposite(v[1]);
    lemma_opposite(v[2]);
    let a = value(v[0]);
    let b = value(v[1]);
    let c = value(v[2]);
    assert((-a) * (-a) == a * a) by (nonlinear_arith);
    assert((-b) * (-b) == b * b) by (nonlinear_arith);
    assert((-c) * (-c) == c * c) by (nonlinear_arith);
}

/// The opposites of two vectors have the same inner product.
proof fn lemma_reversed_dot(u: Vec3, v: Vec3)
    requires
        finite3(u),
        finite3(v),
    ensures
        exact_dot(reversed(u), reversed(v)) == exact_dot(u, v),
{
    lemma_reversed(u);
    lemma_reversed(v);
    let a = value(u[0]);
    let b = value(u[1]);
    let c = value(u[2]);
    let d = value(v[0]);
    let e = value(v[1]);
    let f = value(v[2]);
    assert((-a) * (-d) == a * d) by (nonlinear_arith);
    assert((-b) * (-e) == b * e) by (nonlinear_arith);
    assert((-c) * (-f) == c * f) by (nonlinear_arith);
}

/// The inner product of two unit vectors is computed to 1/1000000.
proof fn lemma_unit_dot(u: Vec3, v: Vec3)
    requires
        unit(u),
        unit(v),
    ensures
        dot(u, v).finite(),
        near(value(dot(u, v)), exact_dot(u, v), 1real / 1000000real),
        -(31real / 10real) <= exact_dot(u, v) <= 31real / 10real,
{
    lemma_tiny();
    lemma_unit_entries(u);
    lemma_unit_entries(v);
    let l = 101real / 100real;
    lemma_mul_bounds(value(u[0]), l, value(v[0]), l);
    lemma_mul_bounds(value(u[1]), l, value(v[1]), l);
    lemma_mul_bounds(value(u[2]), l, value(v[2]), l);
    assert(l * l == 10201real / 10000real) by (nonlinear_arith)
        requires
            l == 101real / 100real,
    ;
    dot_is_inner_product(u, v);
    lemma_eps(dot_size(u, v));
}

/// One entry of a vector less a multiple of another one.
proof fn lemma_reduced_entry(v: Binary32, k: Binary32, e: Binary32, ke: real)
    requires
        v.finite() && k.finite() && e.finite(),
        rabs(value(v)) <= 101real / 100real,
        rabs(value(e)) <= 101real / 100real,
        -(31real / 10real) <= ke <= 31real / 10real,
        near(value(k), ke, 1real / 1000000real),
    ensures
        difference(v, product(k, e)).finite(),
        near(
            value(difference(v, product(k, e))),
            value(v) - ke * value(e),
            2real / 1000000real,
        ),
        rabs(value(v) - ke * value(e)) <= 5real,
{
    lemma_tiny();
    let x = value(k) * value(e);
    let g = value(k) - ke;
    let ev = value(e);
    lemma_mul_bounds(g, 1real / 1000000real, ev, 101real / 100real);
    lemma_mul_bounds(ke, 31real / 10real, ev, 101real / 100real);
    assert(x == ke * ev + g * ev) by (nonlinear_arith)
        requires
            x == value(k) * ev,
            g == value(k) - ke,
    ;
    product_value(k, e);
    lemma_eps(rabs(x));
    let p = product(k, e);
    let d = value(v) - value(p);
    difference_value(v, p);
    lemma_eps(rabs(d));
}

/// The terms of one entry of the reduced vector.
proof fn lemma_terms(e: real, v: real, k: real)
    ensures
        e * (v - k * e) == e * v - k * (e * e),
        (v - k * e) * (v - k * e) == v * v - 2real * (k * (e * v)) + (k * k) * (e * e),
{
    let ke = k * e;
    assert(e * (v - ke) == e * v - e * ke) by (nonlinear_arith);
    assert(e * ke == k * (e * e)) by (nonlinear_arith)
        requires
            ke == k * e,
    ;
    assert((v - ke) * (v - ke) == v * v - 2real * (ke * v) + ke * ke) by (nonlinear_arith);
    assert(ke * v == k * (e * v)) by (nonlinear_arith)
        requires
            ke == k * e,
    ;
    assert(ke * ke == (k * k) * (e * e)) by (nonlinear_arith)
        requires
            ke == k * e,
    ;
}

/// A product with a number that is a little off.
proof fn lemma_times_near(e: real, w: real, x: real)
    requires
        -(101real / 100real) <= e <= 101real / 100real,
        near(w, x, 2real / 1000000real),
        -5real <= x <= 5real,
    ensures
        near(e * w, e * x, 21real / 10000000real),
        near(w * w, x * x, 21real / 1000000real),
{
    let g = w - x;
    lemma_mul_bounds(e, 101real / 100real, g, 2real / 1000000real);
    assert(e * w == e * x + e * g) by (nonlinear_arith)
        requires
            g == w - x,
    ;
    lemma_mul_bounds(g, 2real / 1000000real, w + x, 101real / 10real);
    assert(g * (w + x) == w * w - x * x) by (nonlinear_arith)
        requires
            g == w - x,
    ;
}

/// The second axis made orthogonal to the first one.
proof fn lemma_orthogonal(e0: Vec3, v1: Vec3)
    requires
        unit(e0),
        unit(v1),
        -(951real / 1000real) <= exact_dot(e0, v1) <= 951real / 1000real,
    ensures
        ({
            let w = reduced(v1, dot(e0, v1), e0);
            &&& finite3(w)
            &&& near(exact_dot(e0, w), 0real, 2real / 100000real)
            &&& 9real / 100real <= exact_dot(w, w) <= 11real / 10real
        }),
{
    lemma_unit_entries(e0);
    lemma_unit_entries(v1);
    lemma_unit_dot(e0, v1);
    let k = exact_dot(e0, v1);
    let f = dot(e0, v1);
    let w = reduced(v1, f, e0);
    lemma_reduced_entry(v1[0], f, e0[0], k);
    lemma_reduced_entry(v1[1], f, e0[1], k);
    lemma_reduced_entry(v1[2], f, e0[2], k);
    let a = value(e0[0]);
    let b = value(e0[1]);
    let c = value(e0[2]);
    let x = value(v1[0]) - k * a;
    let y = value(v1[1]) - k * b;
    let z = value(v1[2]) - k * c;
    lemma_times_near(a, value(w[0]), x);
    lemma_times_near(b, value(w[1]), y);
    lemma_times_near(c, value(w[2]), z);
    lemma_terms(a, value(v1[0]), k);
    lemma_terms(b, value(v1[1]), k);
    lemma_terms(c, value(v1[2]), k);
    let s = exact_dot(e0, e0);
    let aa = a * a;
    let bb = b * b;
    let cc = c * c;
    assert(k * s == k * aa + k * bb + k * cc) by (nonlinear_arith)
        requires
            s == aa + bb + cc,
    ;
    let d = 1real - s;
    lemma_mul_bounds(k, 951real / 1000real, d, 1real / 100000real);
    assert(k * d == k - k * s) by (nonlinear_arith)
        requires
            d == 1real - s,
    ;
    let kk = k * k;
    lemma_mul_bounds(k, 951real / 1000real, k, 951real / 1000real);
    lemma_square(k);
    assert(kk * s == kk * aa + kk * bb + kk * cc) by (nonlinear_arith)
        requires
            s == aa + bb + cc,
    ;
    let p = a * value(v1[0]);
    let q = b * value(v1[1]);
    let r = c * value(v1[2]);
    let m = p + q + r;
    assert(k * m == k * p + k * q + k * r) by (nonlinear_arith)
        requires
            m == p + q + r,
    ;
    assert(m == k);
    lemma_mul_le(s, 100001real / 100000real, kk);
    lemma_mul_le(99999real / 100000real, s, kk);
    assert(s * kk == kk * s) by (nonlinear_arith);
}

/// Below the bound on parallel directions.
proof fn lemma_not_parallel(u: Vec3, v: Vec3)
    requires
        unit(u),
        unit(v),
        !nearly_parallel(u, v),
    ensures
        -(951real / 1000real) <= exact_dot(u, v) <= 951real / 1000real,
{
    lemma_unit_dot(u, v);
    let d = dot(u, v);
    lemma_opposite(d);
    lemma_parallel_bits();
    values_compare(num(PARALLEL_BITS), magnitude(d));
}

proof fn lemma_parallel_bits()
    ensures
        num(PARALLEL_BITS).finite(),
        value(num(PARALLEL_BITS)) <= 9501real / 10000real,
{
    lemma_scale();
    lemma2_to64();
    lemma_pow2_adds(23, 126);
    lemma_pow2_unfold(126);
    let p = pow2(125) as int;
    assert(pow2(23) == 8388608);
    assert(PARALLEL_BITS as int % 8388608 == 7549747 && PARALLEL_BITS as int / 8388608 == 126);
    assert(mag(PARALLEL_BITS as int) == 15938355 * p);
    assert(one_units() == 16777216 * p);
    lemma_value(num(PARALLEL_BITS));
    let x = value(num(PARALLEL_BITS));
    let ur = one_units() as real;
    let pr = p as real;
    assert(ur == 16777216real * pr);
    let y = 16777216real * x;
    assert(x * (16777216real * pr) == (16777216real * x) * pr) by (nonlinear_arith);
    assert(y == 15938355real) by (nonlinear_arith)
        requires
            y * pr == 15938355real * pr,
            pr > 0real,
    ;
}

/// The axes of a pose: two unit vectors at right angles, and their vector product.
pub open spec fn rigid(x: Pose) -> bool {
    let c0 = column(x.r, 0);
    let c1 = column(x.r, 1);
    &&& unit(c0)
    &&& unit(c1)
    &&& near(exact_dot(c0, c1), 0real, 1real / 10000real)
    &&& column(x.r, 2) == cross(c0, c1)
    &&& forall|i: int|
        0 <= i < 3 ==> {
            let j = (i + 1) % 3;
            let k = (i + 2) % 3;
            near(
                value(#[trigger] x.r[i][2]),
                value(x.r[j][0]) * value(x.r[k][1]) - value(x.r[k][0]) * value(x.r[j][1]),
                1real / 1000000real,
            )
        }
}

/// The column of the matrix is neither vanishing nor huge.
pub open spec fn ordinary_column(v: Vec3) -> bool {
    &&& finite3(v)
    &&& 1real <= 1152921504606846976real * exact_dot(v, v)
    &&& exact_dot(v, v) <= 1152921504606846976real
}

/// Two axes and their vector product are a rigid frame.
proof fn lemma_rigid(e0: Vec3, w1: Vec3, t: Vec3)
    requires
        unit(e0),
        finite3(w1),
        near(exact_dot(e0, w1), 0real, 2real / 100000real),
        9real / 100real <= exact_dot(w1, w1) <= 11real / 10real,
    ensures
        rigid(pose_with(e0, scaled_down(w1, length(w1)), t)),
{
    length_is_euclidean(w1);
    let n = length(w1);
    let d = value(n);
    let s = lemma_unit(w1, n);
    let e1 = scaled_down(w1, n);
    let x = pose_with(e0, e1, t);
    assert(column(x.r, 0)@ =~= e0@);
    assert(column(x.r, 1)@ =~= e1@);
    lemma_unit_entries(e0);
    lemma_unit_entries(e1);
    // Right angles.
    let a = value(e0[0]);
    let b = value(e0[1]);
    let c = value(e0[2]);
    let f = a * s.0 + b * s.1 + c * s.2;
    lemma_scaled_terms(a, s.0, b, s.1, c, s.2, d);
    if d < 29real / 100real {
        lemma_mul_bounds(d, 29real / 100real, d, 29real / 100real);
        assert(false);
    }
    if f > 7real / 100000real {
        lemma_mul_le(29real / 100real, d, f);
        assert(d * f == f * d) by (nonlinear_arith);
        assert(false);
    }
    if f < -(7real / 100000real) {
        lemma_mul_le(29real / 100real, d, -f);
        assert(d * (-f) == -(f * d)) by (nonlinear_arith);
        assert(false);
    }
    lemma_entry_near(a, value(e1[0]), s.0);
    lemma_entry_near(b, value(e1[1]), s.1);
    lemma_entry_near(c, value(e1[2]), s.2);
    // The third axis.
    let l = 101real / 100real;
    assert forall|j: int, k: int| 0 <= j < 3 && 0 <= k < 3 implies rabs(
        value(#[trigger] e0[j]) * value(#[trigger] e1[k]),
    ) <= 103real / 100real by {
        assert(j == 0 || j == 1 || j == 2);
        assert(k == 0 || k == 1 || k == 2);
        lemma_mul_bounds(value(e0[j]), l, value(e1[k]), l);
    }
    lemma_tiny();
    assert forall|i: int| 0 <= i < 3 implies ({
        let j = (i + 1) % 3;
        let k = (i + 2) % 3;
        near(
            value(#[trigger] x.r[i][2]),
            value(x.r[j][0]) * value(x.r[k][1]) - value(x.r[k][0]) * value(x.r[j][1]),
            1real / 1000000real,
        )
    }) by {
        let j = (i + 1) % 3;
        let k = (i + 2) % 3;
        cross_is_vector_product(e0, e1, i);
        assert(i == 0 || i == 1 || i == 2);
        let z = rabs(value(e0[j]) * value(e1[k])) + rabs(value(e0[k]) * value(e1[j]));
        assert(rabs(value(e0[j]) * value(e1[k])) <= 103real / 100real);
        assert(rabs(value(e0[k]) * value(e1[j])) <= 103real / 100real);
        lemma_eps(z);
        assert(x.r[i][2] == cross(e0, e1)[i]);
        assert(x.r[j][0] == e0[j] && x.r[k][0] == e0[k] && x.r[j][1] == e1[j] && x.r[k][1] == e1[k]);
    }
    assert(column(x.r, 2)@ =~= cross(e0, e1)@);
}

/// A sum of products with the second factors scaled.
proof fn lemma_scaled_terms(a: real, x: real, b: real, y: real, c: real, z: real, d: real)
    ensures
        (a * x + b * y + c * z) * d == a * (x * d) + b * (y * d) + c * (z * d),
{
    let p = a * x;
    let q = b * y;
    let r = c * z;
    assert((p + q + r) * d == p * d + q * d + r * d) by (nonlinear_arith);
    assert((a * x) * d == a * (x * d)) by (nonlinear_arith);
    assert((b * y) * d == b * (y * d)) by (nonlinear_arith);
    assert((c * z) * d == c * (z * d)) by (nonlinear_arith);
}

proof fn lemma_entry_near(a: real, q: real, x: real)
    requires
        -(101real / 100real) <= a <= 101real / 100real,
        near(q, x, 2real * eps()),
    ensures
        near(a * q, a * x, 1real / 1000000real),
{
    let g = q - x;
    lemma_mul_bounds(a, 101real / 100real, g, 2real * eps());
    assert(a * q == a * x + a * g) by (nonlinear_arith)
        requires
            g == q - x,
    ;
    assert((101real / 100real) * (2real * eps()) == 202real / 100real * eps()) by (nonlinear_arith);
}

/// The pose of a projection matrix is rigid: its axes have length one and stand at right angles, and the
/// third is the vector product of the others, so it turns and does not mirror.
pub proof fn pose_is_rigid(p: Seq<Binary32>)
    requires
        p.len() == 12,
        pose_from(p) is Some,
        ordinary_column(column(left_block(p), 0)),
        ordinary_column(column(left_block(p), 1)),
    ensures
        rigid(pose_from(p)->0),
{
    let b = left_block(p);
    let c0 = column(b, 0);
    let c1 = column(b, 1);
    let n0 = length(c0);
    let n1 = length(c1);
    length_is_euclidean(c0);
    length_is_euclidean(c1);
    let s0 = lemma_unit(c0, n0);
    let s1 = lemma_unit(c1, n1);
    let u0 = scaled_down(c0, n0);
    let u1 = scaled_down(c1, n1);
    lemma_not_parallel(u0, u1);
    lemma_reversed(u0);
    lemma_reversed(u1);
    lemma_reversed_dot(u0, u1);
    let x = pose_from(p)->0;
    let flip = crate::binary32::less(crate::linalg::determinant(b), num(0));
    let (e0, w1) = two_axes(u0, u1, flip);
    if flip {
        lemma_orthogonal(reversed(u0), reversed(u1));
    } else {
        lemma_orthogonal(u0, u1);
    }
    lemma_rigid(e0, w1, x.t);
    assert(x == pose_with(e0, scaled_down(w1, length(w1)), x.t));
}

} // verus!
