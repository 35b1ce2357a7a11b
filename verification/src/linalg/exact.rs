//! How near the vector and matrix operations come to exact arithmetic.

use vstd::prelude::*;

use crate::binary32::{difference, product, sum, Binary32};
use crate::linalg::{column, cross, determinant, dot, length, matrix_product, rotated, Mat3, Vec3};
use crate::sqrt::{midrange, root_is_square_root};
use crate::value::{
    difference_value, eps, huge, lemma_mul_bounds, lemma_mul_le, lemma_scale, near, product_value,
    rabs, sum_value, tiny, value,
};

verus! {

/// All entries are finite.
pub open spec fn finite3(a: Vec3) -> bool {
    a[0].finite() && a[1].finite() && a[2].finite()
}

/// The inner product, exactly.
pub open spec fn exact_dot(a: Vec3, b: Vec3) -> real {
    value(a[0]) * value(b[0]) + value(a[1]) * value(b[1]) + value(a[2]) * value(b[2])
}

/// The sum of the magnitudes of the terms of an inner product.
pub open spec fn dot_size(a: Vec3, b: Vec3) -> real {
    rabs(value(a[0]) * value(b[0])) + rabs(value(a[1]) * value(b[1])) + rabs(
        value(a[2]) * value(b[2]),
    )
}

pub(crate) proof fn lemma_eps(a: real)
    ensures
        16777216real * (a * eps()) == a,
{
    assert(16777216real * (a * eps()) == a) by (nonlinear_arith)
        requires
            eps() == 1real / 16777216real,
    ;
}

pub(crate) proof fn lemma_tiny()
    ensures
        0real < tiny(),
        1180591620717411303424real * (1180591620717411303424real * tiny()) <= 1real,
        huge() == 1267650600228229401496703205376real,
{
    lemma_scale();
    let t = tiny();
    let h = huge();
    assert(h == 1267650600228229401496703205376real);
    assert(t * h == h * t) by (nonlinear_arith);
    assert(t * h == t * 1267650600228229401496703205376real);
}

/// An inner product is the exact one up to rounding of its terms.
pub proof fn dot_is_inner_product(a: Vec3, b: Vec3)
    requires
        finite3(a),
        finite3(b),
        dot_size(a, b) <= 1208925819614629174706176real,
    ensures
        dot(a, b).finite(),
        near(value(dot(a, b)), exact_dot(a, b), 4real * (dot_size(a, b) * eps()) + 8real * tiny()),
{
    lemma_tiny();
    let x = value(a[0]) * value(b[0]);
    let y = value(a[1]) * value(b[1]);
    let z = value(a[2]) * value(b[2]);
    let s = dot_size(a, b);
    lemma_eps(s);
    lemma_eps(rabs(x));
    lemma_eps(rabs(y));
    lemma_eps(rabs(z));
    product_value(a[0], b[0]);
    product_value(a[1], b[1]);
    product_value(a[2], b[2]);
    let p = product(a[0], b[0]);
    let q = product(a[1], b[1]);
    let r = product(a[2], b[2]);
    let t = value(p) + value(q);
    lemma_eps(rabs(t));
    sum_value(p, q);
    let f = sum(p, q);
    let g = value(f) + value(r);
    lemma_eps(rabs(g));
    sum_value(f, r);
}

/// A difference of two products is the exact one up to rounding of its terms.
proof fn lemma_minor(a: Binary32, b: Binary32, c: Binary32, d: Binary32)
    requires
        a.finite() && b.finite() && c.finite() && d.finite(),
        rabs(value(a) * value(b)) + rabs(value(c) * value(d)) <= 1208925819614629174706176real,
    ensures
        ({
            let m = difference(product(a, b), product(c, d));
            let s = rabs(value(a) * value(b)) + rabs(value(c) * value(d));
            &&& m.finite()
            &&& near(
                value(m),
                value(a) * value(b) - value(c) * value(d),
                3real * (s * eps()) + 4real * tiny(),
            )
        }),
{
    lemma_tiny();
    let x = value(a) * value(b);
    let y = value(c) * value(d);
    lemma_eps(rabs(x) + rabs(y));
    lemma_eps(rabs(x));
    lemma_eps(rabs(y));
    product_value(a, b);
    product_value(c, d);
    let p = product(a, b);
    let q = product(c, d);
    let t = value(p) - value(q);
    lemma_eps(rabs(t));
    difference_value(p, q);
}

/// Every entry of a vector product is the exact one up to rounding of its terms: entry `i` is made of
/// the two entries that follow it in turn.
pub proof fn cross_is_vector_product(a: Vec3, b: Vec3, i: int)
    requires
        finite3(a),
        finite3(b),
        0 <= i < 3,
        forall|j: int, k: int|
            0 <= j < 3 && 0 <= k < 3 ==> rabs(value(#[trigger] a[j]) * value(#[trigger] b[k]))
                <= 604462909807314587353088real,
    ensures
        ({
            let j = (i + 1) % 3;
            let k = (i + 2) % 3;
            let s = rabs(value(a[j]) * value(b[k])) + rabs(value(a[k]) * value(b[j]));
            &&& cross(a, b)[i].finite()
            &&& near(
                value(cross(a, b)[i]),
                value(a[j]) * value(b[k]) - value(a[k]) * value(b[j]),
                3real * (s * eps()) + 4real * tiny(),
            )
        }),
{
    let j = (i + 1) % 3;
    let k = (i + 2) % 3;
    assert(i == 0 || i == 1 || i == 2);
    assert(rabs(value(a[j]) * value(b[k])) <= 604462909807314587353088real);
    assert(rabs(value(a[k]) * value(b[j])) <= 604462909807314587353088real);
    lemma_minor(a[j], b[k], a[k], b[j]);
}

/// Matrix times vector: every entry is the exact one up to rounding of its terms.
pub proof fn rotated_is_matrix_times_vector(r: Mat3, v: Vec3, i: int)
    requires
        0 <= i < 3,
        finite3(r[i]),
        finite3(v),
        dot_size(r[i], v) <= 1208925819614629174706176real,
    ensures
        rotated(r, v)[i].finite(),
        near(
            value(rotated(r, v)[i]),
            exact_dot(r[i], v),
            4real * (dot_size(r[i], v) * eps()) + 8real * tiny(),
        ),
{
    assert(i == 0 || i == 1 || i == 2);
    dot_is_inner_product(r[i], v);
}

/// Matrix times matrix: every entry is the exact one up to rounding of its terms.
pub proof fn product_is_matrix_product(a: Mat3, b: Mat3, i: int, j: int)
    requires
        0 <= i < 3,
        0 <= j < 3,
        finite3(a[i]),
        b[0][j].finite() && b[1][j].finite() && b[2][j].finite(),
        rabs(value(a[i][0]) * value(b[0][j])) + rabs(value(a[i][1]) * value(b[1][j])) + rabs(
            value(a[i][2]) * value(b[2][j]),
        ) <= 1208925819614629174706176real,
    ensures
        ({
            let x = value(a[i][0]) * value(b[0][j]);
            let y = value(a[i][1]) * value(b[1][j]);
            let z = value(a[i][2]) * value(b[2][j]);
            let m = matrix_product(a, b)[i][j];
            &&& m.finite()
            &&& near(
                value(m),
                x + y + z,
                4real * ((rabs(x) + rabs(y) + rabs(z)) * eps()) + 8real * tiny(),
            )
        }),
{
    assert(i == 0 || i == 1 || i == 2);
    assert(j == 0 || j == 1 || j == 2);
    let c = column(b, j);
    assert(c[0] == b[0][j] && c[1] == b[1][j] && c[2] == b[2][j]);
    assert(matrix_product(a, b)[i][j] == dot(a[i], c));
    dot_is_inner_product(a[i], c);
}

/// The square of a length is the sum of the squares, up to one part in 400000.
pub proof fn length_is_euclidean(a: Vec3)
    requires
        finite3(a),
        1real <= 604462909807314587353088real * exact_dot(a, a),
        exact_dot(a, a) <= 604462909807314587353088real,
    ensures
        length(a).finite(),
        value(length(a)) > 0real,
        near(value(length(a)) * value(length(a)), exact_dot(a, a), exact_dot(a, a) / 400000real),
{
    lemma_tiny();
    let x = value(a[0]);
    let y = value(a[1]);
    let z = value(a[2]);
    assert(x * x >= 0real) by (nonlinear_arith);
    assert(y * y >= 0real) by (nonlinear_arith);
    assert(z * z >= 0real) by (nonlinear_arith);
    let e = exact_dot(a, a);
    assert(dot_size(a, a) == e);
    lemma_eps(e);
    dot_is_inner_product(a, a);
    assert(midrange(value(dot(a, a))));
    root_is_square_root(dot(a, a));
}

/// A product with a number that is only known up to rounding, of entries up to a million.
proof fn lemma_cofactor(f: Binary32, m: Binary32, exact: real, s: real)
    requires
        f.finite() && m.finite(),
        rabs(value(f)) <= 1048576real,
        near(value(m), exact, 3real * (s * eps()) + 4real * tiny()),
        rabs(exact) <= s,
        0real <= s <= 2199023255552real,
    ensures
        product(f, m).finite(),
        near(
            value(product(f, m)),
            value(f) * exact,
            5real * ((rabs(value(f)) * s) * eps()) + 8388608real * tiny(),
        ),
        rabs(value(f) * exact) <= rabs(value(f)) * s,
        rabs(value(f)) * s <= 2305843009213693952real,
{
    lemma_tiny();
    let t = tiny();
    let x = value(f);
    let y = value(m);
    let ax = rabs(x);
    let gap = y - exact;
    let se = s * eps();
    lemma_eps(s);
    let b = 3real * se + 4real * t;
    lemma_mul_bounds(x, ax, gap, b);
    lemma_mul_bounds(x, ax, exact, s);
    lemma_mul_bounds(x, ax, y, s + b);
    let xs = ax * s;
    assert(ax * b == 3real * (ax * se) + 4real * (ax * t)) by (nonlinear_arith)
        requires
            b == 3real * se + 4real * t,
    ;
    assert(ax * (s + b) == xs + ax * b) by (nonlinear_arith)
        requires
            xs == ax * s,
    ;
    assert(ax * se == xs * eps()) by (nonlinear_arith)
        requires
            xs == ax * s,
            se == s * eps(),
    ;
    lemma_mul_le(ax, 1048576real, t);
    lemma_mul_le(ax, 1048576real, s);
    lemma_eps(xs);
    let xy = x * y;
    assert(xy == x * exact + x * gap) by (nonlinear_arith)
        requires
            xy == x * y,
            gap == y - exact,
    ;
    product_value(f, m);
    lemma_eps(rabs(xy));
}

/// All entries are finite and at most a million.
pub open spec fn moderate3(a: Vec3) -> bool {
    &&& finite3(a)
    &&& rabs(value(a[0])) <= 1048576real
    &&& rabs(value(a[1])) <= 1048576real
    &&& rabs(value(a[2])) <= 1048576real
}

/// The 2x2 determinant of rows 1 and 2 and columns `j` and `k`, exactly.
pub open spec fn exact_minor(m: Mat3, j: int, k: int) -> real {
    value(m[1][j]) * value(m[2][k]) - value(m[1][k]) * value(m[2][j])
}

/// The sum of the magnitudes of its terms.
pub open spec fn minor_size(m: Mat3, j: int, k: int) -> real {
    rabs(value(m[1][j]) * value(m[2][k])) + rabs(value(m[1][k]) * value(m[2][j]))
}

/// The determinant, exactly, by its first row.
pub open spec fn exact_determinant(m: Mat3) -> real {
    value(m[0][0]) * exact_minor(m, 1, 2) - value(m[0][1]) * exact_minor(m, 0, 2) + value(m[0][2])
        * exact_minor(m, 0, 1)
}

/// The sum of the magnitudes of its six terms.
pub open spec fn determinant_size(m: Mat3) -> real {
    rabs(value(m[0][0])) * minor_size(m, 1, 2) + rabs(value(m[0][1])) * minor_size(m, 0, 2) + rabs(
        value(m[0][2]),
    ) * minor_size(m, 0, 1)
}

proof fn lemma_minor_of(m: Mat3, j: int, k: int)
    requires
        moderate3(m[1]),
        moderate3(m[2]),
        0 <= j < k < 3,
    ensures
        ({
            let c = difference(product(m[1][j], m[2][k]), product(m[1][k], m[2][j]));
            &&& c.finite()
            &&& near(
                value(c),
                exact_minor(m, j, k),
                3real * (minor_size(m, j, k) * eps()) + 4real * tiny(),
            )
            &&& rabs(exact_minor(m, j, k)) <= minor_size(m, j, k)
            &&& 0real <= minor_size(m, j, k) <= 2199023255552real
        }),
{
    assert(j == 0 || j == 1);
    assert(k == 1 || k == 2);
    let b = 1048576real;
    lemma_mul_bounds(value(m[1][j]), b, value(m[2][k]), b);
    lemma_mul_bounds(value(m[1][k]), b, value(m[2][j]), b);
    lemma_minor(m[1][j], m[2][k], m[1][k], m[2][j]);
}

/// A determinant is the exact one up to rounding of its terms.
pub proof fn determinant_is_near(m: Mat3)
    requires
        moderate3(m[0]),
        moderate3(m[1]),
        moderate3(m[2]),
    ensures
        determinant(m).finite(),
        near(
            value(determinant(m)),
            exact_determinant(m),
            8real * (determinant_size(m) * eps()) + 67108864real * tiny(),
        ),
{
    lemma_tiny();
    lemma_minor_of(m, 1, 2);
    lemma_minor_of(m, 0, 2);
    lemma_minor_of(m, 0, 1);
    let c0 = difference(product(m[1][1], m[2][2]), product(m[1][2], m[2][1]));
    let c1 = difference(product(m[1][0], m[2][2]), product(m[1][2], m[2][0]));
    let c2 = difference(product(m[1][0], m[2][1]), product(m[1][1], m[2][0]));
    lemma_cofactor(m[0][0], c0, exact_minor(m, 1, 2), minor_size(m, 1, 2));
    lemma_cofactor(m[0][1], c1, exact_minor(m, 0, 2), minor_size(m, 0, 2));
    lemma_cofactor(m[0][2], c2, exact_minor(m, 0, 1), minor_size(m, 0, 1));
    let s0 = rabs(value(m[0][0])) * minor_size(m, 1, 2);
    let s1 = rabs(value(m[0][1])) * minor_size(m, 0, 2);
    let s2 = rabs(value(m[0][2])) * minor_size(m, 0, 1);
    lemma_eps(s0);
    lemma_eps(s1);
    lemma_eps(s2);
    lemma_eps(determinant_size(m));
    let p = product(m[0][0], c0);
    let q = product(m[0][1], c1);
    let r = product(m[0][2], c2);
    let d = value(p) - value(q);
    lemma_eps(rabs(d));
    difference_value(p, q);
    let f = difference(p, q);
    let g = value(f) + value(r);
    lemma_eps(rabs(g));
    sum_value(f, r);
}

} // verus!
