//! What the factorisation and the solvers achieve: put into their equations, the results fit.

use vstd::prelude::*;

use crate::binary32::{difference, product, quotient, Binary32};
use crate::linalg::exact::{lemma_eps, lemma_tiny};
use crate::linalg::{
    backward_rest, backward_solved, factor, factor_rest, factored, forward_rest, forward_solved,
};
use crate::sqrt::{midrange, root, root_is_square_root};
use crate::value::{
    difference_value, eps, lemma_mul_bounds, lemma_mul_le, near, product_value, quotient_value, rabs,
    tiny, value,
};

verus! {

/// The sum of the first `k` products of pairs, exactly.
pub open spec fn pair_sum(p: Seq<(Binary32, Binary32)>, k: int) -> real
    decreases k,
{
    if k <= 0 {
        0real
    } else {
        pair_sum(p, k - 1) + value(p[k - 1].0) * value(p[k - 1].1)
    }
}

/// The sum of the magnitudes of the first `k` products of pairs.
pub open spec fn pair_size(p: Seq<(Binary32, Binary32)>, k: int) -> real
    decreases k,
{
    if k <= 0 {
        0real
    } else {
        pair_size(p, k - 1) + rabs(value(p[k - 1].0) * value(p[k - 1].1))
    }
}

/// The first `k` pairs are finite.
pub open spec fn finite_pairs(p: Seq<(Binary32, Binary32)>, k: int) -> bool {
    forall|j: int| 0 <= j < k ==> (#[trigger] p[j]).0.finite() && p[j].1.finite()
}

/// A number less the first `k` products of pairs, in single precision.
spec fn running(s: Binary32, p: Seq<(Binary32, Binary32)>, k: int) -> Binary32
    decreases k,
{
    if k <= 0 {
        s
    } else {
        difference(running(s, p, k - 1), product(p[k - 1].0, p[k - 1].1))
    }
}

proof fn lemma_running(s: Binary32, p: Seq<(Binary32, Binary32)>, k: int)
    requires
        0 <= k <= 12,
        k <= p.len(),
        s.finite(),
        finite_pairs(p, k),
        rabs(value(s)) + pair_size(p, k) <= 1152921504606846976real,
    ensures
        running(s, p, k).finite(),
        pair_size(p, k) >= 0real,
        rabs(pair_sum(p, k)) <= pair_size(p, k),
        near(
            value(running(s, p, k)),
            value(s) - pair_sum(p, k),
            3real * (k as real * ((rabs(value(s)) + pair_size(p, k)) * eps())) + 4real * (k as real
                * tiny()),
        ),
    decreases k,
{
    lemma_tiny();
    let t = tiny();
    if k == 0 {
        let z = (rabs(value(s)) + pair_size(p, k)) * eps();
        assert(0real * z == 0real) by (nonlinear_arith);
        assert(0real * t == 0real) by (nonlinear_arith);
    } else {
        let a = p[k - 1].0;
        let b = p[k - 1].1;
        assert(a.finite() && b.finite());
        let w = value(a) * value(b);
        let before = rabs(value(s)) + pair_size(p, k - 1);
        let now = before + rabs(w);
        assert(rabs(w) >= 0real);
        lemma_running(s, p, k - 1);
        let m = k as real - 1real;
        let be = before * eps();
        let ne = now * eps();
        lemma_eps(before);
        lemma_eps(now);
        lemma_eps(rabs(w));
        lemma_mul_le(be, ne, m);
        lemma_mul_le(m, 12real, ne);
        lemma_mul_le(m, 12real, t);
        assert(be * m == m * be && ne * m == m * ne && t * m == m * t) by (nonlinear_arith);
        product_value(a, b);
        let x = running(s, p, k - 1);
        let y = product(a, b);
        let d = value(x) - value(y);
        lemma_eps(rabs(d));
        difference_value(x, y);
        let kr = k as real;
        assert(kr * ne == m * ne + ne) by (nonlinear_arith)
            requires
                m == kr - 1real,
        ;
        assert(kr * t == m * t + t) by (nonlinear_arith)
            requires
                m == kr - 1real,
        ;
    }
}

/// Twelve steps at most.
proof fn lemma_rest(s: Binary32, p: Seq<(Binary32, Binary32)>, k: int)
    requires
        0 <= k <= 12,
        k <= p.len(),
        s.finite(),
        finite_pairs(p, k),
        rabs(value(s)) + pair_size(p, k) <= 1152921504606846976real,
    ensures
        running(s, p, k).finite(),
        near(
            value(running(s, p, k)),
            value(s) - pair_sum(p, k),
            36real * ((rabs(value(s)) + pair_size(p, k)) * eps()) + 48real * tiny(),
        ),
        rabs(value(running(s, p, k))) <= 2305843009213693952real,
        rabs(value(running(s, p, k))) <= 2real * (rabs(value(s)) + pair_size(p, k)) + tiny() * 64real,
{
    lemma_tiny();
    lemma_running(s, p, k);
    let z = rabs(value(s)) + pair_size(p, k);
    lemma_eps(z);
    lemma_mul_le(k as real, 12real, z * eps());
    lemma_mul_le(k as real, 12real, tiny());
}

/// A quotient times its divisor.
proof fn lemma_divided(r: Binary32, d: Binary32)
    requires
        r.finite() && d.finite(),
        rabs(value(r)) <= 2305843009213693952real,
        1073741824real * rabs(value(d)) >= 1real,
    ensures
        quotient(r, d).finite(),
        near(
            value(d) * value(quotient(r, d)),
            value(r),
            rabs(value(r)) * eps() + rabs(value(d)) * tiny(),
        ),
{
    lemma_tiny();
    let rv = value(r);
    let dv = value(d);
    let x = rv / dv;
    assert(x * dv == rv) by (nonlinear_arith)
        requires
            x == rv / dv,
            dv != 0real,
    ;
    let ax = rabs(x);
    let ad = rabs(dv);
    let ar = rabs(rv);
    assert(ar == ax * ad) by (nonlinear_arith)
        requires
            x * dv == rv,
            ax == rabs(x),
            ad == rabs(dv),
            ar == rabs(rv),
    ;
    lemma_mul_le(1real, 1073741824real * ad, ax);
    assert((1073741824real * ad) * ax == 1073741824real * (ax * ad) && 1real * ax == ax)
        by (nonlinear_arith);
    quotient_value(r, d);
    let q = value(quotient(r, d));
    let g = q - x;
    let b = ax * eps() + tiny();
    lemma_mul_bounds(dv, ad, g, b);
    assert(dv * q == rv + dv * g) by (nonlinear_arith)
        requires
            g == q - x,
            x * dv == rv,
    ;
    assert(ad * b == (ax * ad) * eps() + ad * tiny()) by (nonlinear_arith)
        requires
            b == ax * eps() + tiny(),
    ;
}

/// Row `i` of a lower triangle with the first `k` entries of a vector.
pub open spec fn row_pairs(
    l: Seq<Binary32>,
    n: int,
    y: Seq<Binary32>,
    i: int,
    k: int,
) -> Seq<(Binary32, Binary32)> {
    Seq::new(k as nat, |j: int| (l[i * n + j], y[j]))
}

/// Column `i` of a lower triangle below the diagonal with the entries of a vector.
pub open spec fn column_pairs(
    l: Seq<Binary32>,
    n: int,
    x: Seq<Binary32>,
    i: int,
) -> Seq<(Binary32, Binary32)> {
    Seq::new((n - 1 - i) as nat, |j: int| (l[(i + 1 + j) * n + i], x[i + 1 + j]))
}

proof fn lemma_forward_rest(l: Seq<Binary32>, n: int, b: Seq<Binary32>, i: int, k: int)
    requires
        0 <= k <= i < n,
    ensures
        forward_rest(l, n, b, i, k) == running(
            b[i],
            row_pairs(l, n, forward_solved(l, n, b), i, i),
            k,
        ),
    decreases k,
{
    if k > 0 {
        lemma_forward_rest(l, n, b, i, k - 1);
    }
}

/// The solution of `L y = b` fits: row `i` of `L` times `y` is entry `i` of `b`, up to rounding of the
/// terms.
pub proof fn forward_solution_fits(l: Seq<Binary32>, n: int, b: Seq<Binary32>, i: int)
    requires
        0 <= i < n <= 12,
        b[i].finite(),
        l[i * n + i].finite(),
        1073741824real * rabs(value(l[i * n + i])) >= 1real,
        finite_pairs(row_pairs(l, n, forward_solved(l, n, b), i, i), i),
        rabs(value(b[i])) + pair_size(row_pairs(l, n, forward_solved(l, n, b), i, i), i)
            <= 1152921504606846976real,
    ensures
        ({
            let y = forward_solved(l, n, b);
            let p = row_pairs(l, n, y, i, i);
            let d = value(l[i * n + i]);
            &&& y[i].finite()
            &&& near(
                pair_sum(p, i) + d * value(y[i]),
                value(b[i]),
                40real * ((rabs(value(b[i])) + pair_size(p, i)) * eps()) + (64real + rabs(d))
                    * tiny(),
            )
        }),
{
    lemma_tiny();
    let y = forward_solved(l, n, b);
    let p = row_pairs(l, n, y, i, i);
    lemma_forward_rest(l, n, b, i, i);
    lemma_rest(b[i], p, i);
    let r = running(b[i], p, i);
    let d = l[i * n + i];
    lemma_divided(r, d);
    assert(y[i] == quotient(r, d));
    lemma_closed(value(b[i]), pair_sum(p, i), pair_size(p, i), value(r), value(d), value(y[i]));
}

/// The two errors together.
proof fn lemma_closed(b: real, sum: real, size: real, r: real, d: real, q: real)
    requires
        near(r, b - sum, 36real * ((rabs(b) + size) * eps()) + 48real * tiny()),
        near(d * q, r, rabs(r) * eps() + rabs(d) * tiny()),
        rabs(r) <= 2real * (rabs(b) + size) + tiny() * 64real,
    ensures
        near(
            sum + d * q,
            b,
            40real * ((rabs(b) + size) * eps()) + (64real + rabs(d)) * tiny(),
        ),
{
    lemma_tiny();
    lemma_eps(rabs(b) + size);
    lemma_eps(rabs(r));
    assert((64real + rabs(d)) * tiny() == 64real * tiny() + rabs(d) * tiny()) by (nonlinear_arith);
}

proof fn lemma_backward_rest(l: Seq<Binary32>, n: int, y: Seq<Binary32>, i: int, k: int)
    requires
        0 <= i < n,
        0 <= k <= n - 1 - i,
    ensures
        backward_rest(l, n, y, i, i + 1 + k) == running(
            y[i],
            column_pairs(l, n, backward_solved(l, n, y), i),
            k,
        ),
    decreases k,
{
    if k > 0 {
        lemma_backward_rest(l, n, y, i, k - 1);
    }
}

/// The solution of `L^T x = y` fits: column `i` of `L` times `x` is entry `i` of `y`, up to rounding of
/// the terms.
pub proof fn backward_solution_fits(l: Seq<Binary32>, n: int, y: Seq<Binary32>, i: int)
    requires
        0 <= i < n <= 12,
        y[i].finite(),
        l[i * n + i].finite(),
        1073741824real * rabs(value(l[i * n + i])) >= 1real,
        finite_pairs(column_pairs(l, n, backward_solved(l, n, y), i), n - 1 - i),
        rabs(value(y[i])) + pair_size(column_pairs(l, n, backward_solved(l, n, y), i), n - 1 - i)
            <= 1152921504606846976real,
    ensures
        ({
            let x = backward_solved(l, n, y);
            let p = column_pairs(l, n, x, i);
            let d = value(l[i * n + i]);
            &&& x[i].finite()
            &&& near(
                pair_sum(p, n - 1 - i) + d * value(x[i]),
                value(y[i]),
                40real * ((rabs(value(y[i])) + pair_size(p, n - 1 - i)) * eps()) + (64real + rabs(d))
                    * tiny(),
            )
        }),
{
    lemma_tiny();
    let x = backward_solved(l, n, y);
    let p = column_pairs(l, n, x, i);
    let k = n - 1 - i;
    lemma_backward_rest(l, n, y, i, k);
    lemma_rest(y[i], p, k);
    let r = running(y[i], p, k);
    let d = l[i * n + i];
    lemma_divided(r, d);
    assert(x[i] == quotient(r, d));
    lemma_closed(value(y[i]), pair_sum(p, k), pair_size(p, k), value(r), value(d), value(x[i]));
}

/// Rows `i` and `j` of a lower triangle, the first `k` entries.
pub open spec fn two_rows(
    l: Seq<Binary32>,
    n: int,
    i: int,
    j: int,
    k: int,
) -> Seq<(Binary32, Binary32)> {
    Seq::new(k as nat, |c: int| (l[i * n + c], l[j * n + c]))
}

proof fn lemma_factored(m: Seq<Binary32>, n: int, i: int, j: int)
    requires
        0 <= j <= i < n,
        m.len() == n * n,
    ensures
        factored(m, n)[i * n + j] == factor(m, n, i, j),
{
    crate::grid::lemma_row_major(i, j, n, n);
    vstd::arithmetic::div_mod::lemma_fundamental_div_mod_converse(i * n + j, n, i, j);
}

proof fn lemma_factor_rest(m: Seq<Binary32>, n: int, i: int, j: int, k: int)
    requires
        0 <= k <= j <= i < n,
        m.len() == n * n,
    ensures
        factor_rest(m, n, i, j, k) == running(
            m[i * n + j],
            two_rows(factored(m, n), n, i, j, j),
            k,
        ),
    decreases k,
{
    if k > 0 {
        lemma_factor_rest(m, n, i, j, k - 1);
        lemma_factored(m, n, i, k - 1);
        lemma_factored(m, n, j, k - 1);
    }
}

/// The factor fits below the diagonal: rows `i` and `j` of `L` multiply to entry (`i`, `j`) of the
/// matrix, up to rounding of the terms.
pub proof fn factor_fits(m: Seq<Binary32>, n: int, i: int, j: int)
    requires
        0 <= j < i < n <= 12,
        m.len() == n * n,
        m[i * n + j].finite(),
        factored(m, n)[j * n + j].finite(),
        1073741824real * rabs(value(factored(m, n)[j * n + j])) >= 1real,
        finite_pairs(two_rows(factored(m, n), n, i, j, j), j),
        rabs(value(m[i * n + j])) + pair_size(two_rows(factored(m, n), n, i, j, j), j)
            <= 1152921504606846976real,
    ensures
        ({
            let l = factored(m, n);
            let p = two_rows(l, n, i, j, j);
            let d = value(l[j * n + j]);
            &&& l[i * n + j].finite()
            &&& near(
                pair_sum(p, j) + d * value(l[i * n + j]),
                value(m[i * n + j]),
                40real * ((rabs(value(m[i * n + j])) + pair_size(p, j)) * eps()) + (64real + rabs(
                    d,
                )) * tiny(),
            )
        }),
{
    lemma_tiny();
    let l = factored(m, n);
    let p = two_rows(l, n, i, j, j);
    lemma_factored(m, n, i, j);
    lemma_factored(m, n, j, j);
    lemma_factor_rest(m, n, i, j, j);
    let s = m[i * n + j];
    lemma_rest(s, p, j);
    let r = running(s, p, j);
    let d = l[j * n + j];
    lemma_divided(r, d);
    assert(l[i * n + j] == quotient(r, d));
    lemma_closed(
        value(s),
        pair_sum(p, j),
        pair_size(p, j),
        value(r),
        value(d),
        value(l[i * n + j]),
    );
}

/// The factor fits on the diagonal: the squares of row `i` of `L` add up to entry (`i`, `i`) of the
/// matrix, up to rounding of the terms and one part in 400000 of the last square.
pub proof fn factor_fits_on_diagonal(m: Seq<Binary32>, n: int, i: int)
    requires
        0 <= i < n <= 12,
        m.len() == n * n,
        m[i * n + i].finite(),
        finite_pairs(two_rows(factored(m, n), n, i, i, i), i),
        rabs(value(m[i * n + i])) + pair_size(two_rows(factored(m, n), n, i, i, i), i)
            <= 1152921504606846976real,
        value(m[i * n + i]) - pair_sum(two_rows(factored(m, n), n, i, i, i), i) >= (rabs(
            value(m[i * n + i]),
        ) + pair_size(two_rows(factored(m, n), n, i, i, i), i)) / 1000real,
        1152921504606846976real * (value(m[i * n + i]) - pair_sum(
            two_rows(factored(m, n), n, i, i, i),
            i,
        )) >= 1real,
    ensures
        ({
            let l = factored(m, n);
            let p = two_rows(l, n, i, i, i);
            let d = value(l[i * n + i]);
            &&& l[i * n + i].finite()
            &&& d > 0real
            &&& near(
                pair_sum(p, i) + d * d,
                value(m[i * n + i]),
                40real * ((rabs(value(m[i * n + i])) + pair_size(p, i)) * eps()) + 64real * tiny() + (
                value(m[i * n + i]) - pair_sum(p, i)) / 400000real,
            )
        }),
{
    lemma_tiny();
    let l = factored(m, n);
    let p = two_rows(l, n, i, i, i);
    lemma_factored(m, n, i, i);
    lemma_factor_rest(m, n, i, i, i);
    let s = m[i * n + i];
    lemma_rest(s, p, i);
    let r = running(s, p, i);
    let z = rabs(value(s)) + pair_size(p, i);
    let e = value(s) - pair_sum(p, i);
    lemma_eps(z);
    assert(near(value(r), e, e / 400real));
    assert(midrange(value(r)));
    root_is_square_root(r);
    assert(l[i * n + i] == root(r));
}

} // verus!
