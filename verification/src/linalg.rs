//! Small dense linear algebra in single precision: 3-vectors and 3x3 matrices, Cholesky factors and
//! triangular solves. Every operation is rounded in the order in which it is written.

use vstd::prelude::*;

use crate::binary32::{difference, is_less, less, product, quotient, sum, Binary32};
use crate::grid::{lemma_row_major, lemma_split};
use crate::sqrt::{root, sqrt32};

pub mod exact;
pub mod solving;

verus! {

/// A 3-vector.
pub type Vec3 = [Binary32; 3];

/// A 3x3 matrix by rows.
pub type Mat3 = [[Binary32; 3]; 3];

/// The number with the given encoding.
pub open spec fn num(bits: u32) -> Binary32 {
    Binary32 { bits }
}

/// Inner product.
pub open spec fn dot(a: Vec3, b: Vec3) -> Binary32 {
    sum(sum(product(a[0], b[0]), product(a[1], b[1])), product(a[2], b[2]))
}

/// Vector product.
pub open spec fn cross(a: Vec3, b: Vec3) -> Vec3 {
    [
        difference(product(a[1], b[2]), product(a[2], b[1])),
        difference(product(a[2], b[0]), product(a[0], b[2])),
        difference(product(a[0], b[1]), product(a[1], b[0])),
    ]
}

/// Length of a vector.
pub open spec fn length(a: Vec3) -> Binary32 {
    root(dot(a, a))
}

/// Matrix times vector.
pub open spec fn rotated(r: Mat3, v: Vec3) -> Vec3 {
    [dot(r[0], v), dot(r[1], v), dot(r[2], v)]
}

/// Column of a matrix.
pub open spec fn column(m: Mat3, j: int) -> Vec3 {
    [m[0][j], m[1][j], m[2][j]]
}

/// Determinant.
pub open spec fn determinant(m: Mat3) -> Binary32 {
    let c0 = difference(product(m[1][1], m[2][2]), product(m[1][2], m[2][1]));
    let c1 = difference(product(m[1][0], m[2][2]), product(m[1][2], m[2][0]));
    let c2 = difference(product(m[1][0], m[2][1]), product(m[1][1], m[2][0]));
    sum(difference(product(m[0][0], c0), product(m[0][1], c1)), product(m[0][2], c2))
}

/// Matrix product.
pub open spec fn matrix_product(a: Mat3, b: Mat3) -> Mat3 {
    [
        [dot(a[0], column(b, 0)), dot(a[0], column(b, 1)), dot(a[0], column(b, 2))],
        [dot(a[1], column(b, 0)), dot(a[1], column(b, 1)), dot(a[1], column(b, 2))],
        [dot(a[2], column(b, 0)), dot(a[2], column(b, 1)), dot(a[2], column(b, 2))],
    ]
}

/// Inner product.
pub fn dot3(a: &Vec3, b: &Vec3) -> (r: Binary32)
    ensures
        r == dot(*a, *b),
{
    a[0].times(b[0]).plus(a[1].times(b[1])).plus(a[2].times(b[2]))
}

/// Vector product.
pub fn cross3(a: &Vec3, b: &Vec3) -> (r: Vec3)
    ensures
        r == cross(*a, *b),
{
    [
        a[1].times(b[2]).minus(a[2].times(b[1])),
        a[2].times(b[0]).minus(a[0].times(b[2])),
        a[0].times(b[1]).minus(a[1].times(b[0])),
    ]
}

/// Length of a vector.
pub fn norm3(a: &Vec3) -> (r: Binary32)
    ensures
        r == length(*a),
{
    sqrt32(dot3(a, a))
}

/// Matrix times vector.
pub fn rot_vec(r: &Mat3, v: &Vec3) -> (x: Vec3)
    ensures
        x == rotated(*r, *v),
{
    [dot3(&r[0], v), dot3(&r[1], v), dot3(&r[2], v)]
}

/// Column of a matrix.
pub fn column3(m: &Mat3, j: usize) -> (r: Vec3)
    requires
        j < 3,
    ensures
        r == column(*m, j as int),
{
    [m[0][j], m[1][j], m[2][j]]
}

/// Determinant.
pub fn det3(m: &Mat3) -> (r: Binary32)
    ensures
        r == determinant(*m),
{
    let c0: Binary32 = m[1][1].times(m[2][2]).minus(m[1][2].times(m[2][1]));
    let c1: Binary32 = m[1][0].times(m[2][2]).minus(m[1][2].times(m[2][0]));
    let c2: Binary32 = m[1][0].times(m[2][1]).minus(m[1][1].times(m[2][0]));
    m[0][0].times(c0).minus(m[0][1].times(c1)).plus(m[0][2].times(c2))
}

/// Matrix product.
pub fn mat_mul3(a: &Mat3, b: &Mat3) -> (r: Mat3)
    ensures
        r == matrix_product(*a, *b),
{
    let b0: Vec3 = column3(b, 0);
    let b1: Vec3 = column3(b, 1);
    let b2: Vec3 = column3(b, 2);
    [
        [dot3(&a[0], &b0), dot3(&a[0], &b1), dot3(&a[0], &b2)],
        [dot3(&a[1], &b0), dot3(&a[1], &b1), dot3(&a[1], &b2)],
        [dot3(&a[2], &b0), dot3(&a[2], &b1), dot3(&a[2], &b2)],
    ]
}

/// A square matrix of `n` rows, row by row, with `a a^T` added above and on the diagonal.
pub open spec fn outer_added(m: Seq<Binary32>, n: int, a: Seq<Binary32>) -> Seq<Binary32> {
    Seq::new(
        m.len(),
        |t: int|
            if t / n <= t % n {
                sum(m[t], product(a[t / n], a[t % n]))
            } else {
                m[t]
            },
    )
}

/// Adds `a a^T` to the upper triangle of the 12x12 matrix `m`.
pub fn add_outer(m: &mut [Binary32; 144], a: &[Binary32; 12])
    ensures
        final(m)@ == outer_added(old(m)@, 12, a@),
{
    for j in 0..12usize
        invariant
            m@.len() == 144,
            forall|t: int|
                0 <= t < 144 ==> #[trigger] m@[t] == if t % 12 < j {
                    outer_added(old(m)@, 12, a@)[t]
                } else {
                    old(m)@[t]
                },
    {
        for i in 0..j + 1
            invariant
                j < 12,
                m@.len() == 144,
                forall|t: int|
                    0 <= t < 144 ==> #[trigger] m@[t] == if t % 12 < j || (t % 12 == j && t / 12
                        < i) {
                        outer_added(old(m)@, 12, a@)[t]
                    } else {
                        old(m)@[t]
                    },
        {
            let t: usize = i * 12 + j;
            assert(t as int / 12 == i && t as int % 12 == j);
            m[t] = m[t].plus(a[i].times(a[j]));
        }
    }
    assert(m@ =~= outer_added(old(m)@, 12, a@));
}

/// Entry (`i`, `j`) of the Cholesky factor of a square matrix of `n` rows, for `j <= i`.
pub open spec fn factor(m: Seq<Binary32>, n: int, i: int, j: int) -> Binary32
    decreases i, j, j + 1,
{
    if !(0 <= j <= i) {
        num(0)
    } else if i == j {
        root(factor_rest(m, n, i, j, j))
    } else {
        quotient(factor_rest(m, n, i, j, j), factor(m, n, j, j))
    }
}

/// Entry (`i`, `j`) of the matrix less the first `k` products of factor entries.
pub open spec fn factor_rest(m: Seq<Binary32>, n: int, i: int, j: int, k: int) -> Binary32
    decreases i, j, k,
{
    if k <= 0 || !(k <= j <= i) {
        m[i * n + j]
    } else {
        difference(
            factor_rest(m, n, i, j, k - 1),
            product(factor(m, n, i, k - 1), factor(m, n, j, k - 1)),
        )
    }
}

/// Pivot `i` of the factorisation is positive and finite.
pub open spec fn good_pivot(m: Seq<Binary32>, n: int, i: int) -> bool {
    let s = factor_rest(m, n, i, i, i);
    less(num(0), s) && s.finite()
}

/// The matrix is numerically positive definite: all pivots are positive and finite.
pub open spec fn factorable(m: Seq<Binary32>, n: int) -> bool {
    forall|i: int| 0 <= i < n ==> #[trigger] good_pivot(m, n, i)
}

/// The matrix after the entries before (`i`, `j`) of its lower triangle, row by row, were replaced by
/// those of its Cholesky factor.
pub open spec fn factored_upto(m: Seq<Binary32>, n: int, i: int, j: int) -> Seq<Binary32> {
    Seq::new(
        m.len(),
        |t: int|
            if t % n <= t / n && (t / n < i || (t / n == i && t % n < j)) {
                factor(m, n, t / n, t % n)
            } else {
                m[t]
            },
    )
}

/// The matrix with its Cholesky factor in place of its lower triangle.
pub open spec fn factored(m: Seq<Binary32>, n: int) -> Seq<Binary32> {
    factored_upto(m, n, n, 0)
}

/// Factors a square matrix of `n` rows in place: the lower triangle becomes the factor `L` with
/// `m = L L^T`. False where a pivot is not positive and finite; the matrix is then spoiled.
pub fn cholesky(m: &mut [Binary32], n: usize) -> (ok: bool)
    requires
        n <= 12,
        old(m).len() == n * n,
    ensures
        ok == factorable(old(m)@, n as int),
        ok ==> final(m)@ == factored(old(m)@, n as int),
        final(m)@.len() == old(m)@.len(),
{
    let ghost m0 = m@;
    proof {
        let start = factored_upto(m0, n as int, 0, 0);
        assert forall|u: int| 0 <= u < n * n implies #[trigger] m@[u] == start[u] by {
            assert(n > 0) by {
                assert(0 * 0 == 0);
            }
            lemma_split(u, n as int, n as int);
        }
        assert(m@ =~= start);
    }
    for i in 0..n
        invariant
            n <= 12,
            m0 == old(m)@,
            m0.len() == n * n,
            m.len() == n * n,
            m@ == factored_upto(m0, n as int, i as int, 0),
            forall|k: int| 0 <= k < i ==> #[trigger] good_pivot(m0, n as int, k),
    {
        for j in 0..i + 1
            invariant
                i < n <= 12,
                m0 == old(m)@,
                m0.len() == n * n,
                m.len() == n * n,
                m@ == factored_upto(m0, n as int, i as int, j as int),
                forall|k: int| 0 <= k < i ==> #[trigger] good_pivot(m0, n as int, k),
                j > i ==> good_pivot(m0, n as int, i as int),
        {
            proof {
                lemma_row_major(i as int, j as int, n as int, n as int);
            }
            let ghost before = m@;
            let t: usize = i * n + j;
            let mut s: Binary32 = m[t];
            for k in 0..j
                invariant
                    j <= i < n <= 12,
                    m0.len() == n * n,
                    m.len() == n * n,
                    m@ == factored_upto(m0, n as int, i as int, j as int),
                    s == factor_rest(m0, n as int, i as int, j as int, k as int),
            {
                proof {
                    lemma_row_major(i as int, k as int, n as int, n as int);
                    lemma_row_major(j as int, k as int, n as int, n as int);
                }
                s = s.minus(m[i * n + k].times(m[j * n + k]));
            }
            if i == j {
                if !is_less(Binary32 { bits: 0 }, s) || !s.is_finite() {
                    assert(!good_pivot(m0, n as int, i as int));
                    return false;
                }
                m[t] = sqrt32(s);
                assert(good_pivot(m0, n as int, i as int));
            } else {
                proof {
                    lemma_row_major(j as int, j as int, n as int, n as int);
                }
                m[t] = s.over(m[j * n + j]);
            }
            proof {
                let after = factored_upto(m0, n as int, i as int, j + 1);
                assert forall|u: int| 0 <= u < n * n implies #[trigger] m@[u] == after[u] by {
                    lemma_split(u, n as int, n as int);
                    if u != t {
                        assert(m@[u] == before[u]);
                        assert(!(u / (n as int) == i && u % (n as int) == j));
                    }
                }
                assert(m@ =~= after);
            }
        }
        proof {
            let after = factored_upto(m0, n as int, i + 1, 0);
            assert forall|u: int| 0 <= u < n * n implies #[trigger] m@[u] == after[u] by {
                lemma_split(u, n as int, n as int);
            }
            assert(m@ =~= after);
        }
    }
    true
}

/// Entry `i` of the solution `y` of `L y = b`, with the factor `l` as a matrix of `n` rows.
pub open spec fn forward(l: Seq<Binary32>, n: int, b: Seq<Binary32>, i: int) -> Binary32
    decreases i, i + 1,
{
    if i < 0 {
        num(0)
    } else {
        quotient(forward_rest(l, n, b, i, i), l[i * n + i])
    }
}

/// Entry `i` of `b` less the first `k` products.
pub open spec fn forward_rest(l: Seq<Binary32>, n: int, b: Seq<Binary32>, i: int, k: int) -> Binary32
    decreases i, k,
{
    if k <= 0 || k > i {
        b[i]
    } else {
        difference(
            forward_rest(l, n, b, i, k - 1),
            product(l[i * n + k - 1], forward(l, n, b, k - 1)),
        )
    }
}

/// The solution `y` of `L y = b`.
pub open spec fn forward_solved(l: Seq<Binary32>, n: int, b: Seq<Binary32>) -> Seq<Binary32> {
    Seq::new(n as nat, |i: int| forward(l, n, b, i))
}

/// Entry `i` of the solution `x` of `L^T x = y`.
pub open spec fn backward(l: Seq<Binary32>, n: int, y: Seq<Binary32>, i: int) -> Binary32
    decreases n - i, n + 1,
{
    if i < 0 || i >= n {
        num(0)
    } else {
        quotient(backward_rest(l, n, y, i, n), l[i * n + i])
    }
}

/// Entry `i` of `y` less the products with the entries `i + 1..k` of the solution.
pub open spec fn backward_rest(
    l: Seq<Binary32>,
    n: int,
    y: Seq<Binary32>,
    i: int,
    k: int,
) -> Binary32
    decreases n - i, k,
{
    if k <= i + 1 || k <= 0 || k > n {
        y[i]
    } else {
        difference(
            backward_rest(l, n, y, i, k - 1),
            product(l[(k - 1) * n + i], backward(l, n, y, k - 1)),
        )
    }
}

/// The solution `x` of `L^T x = y`.
pub open spec fn backward_solved(l: Seq<Binary32>, n: int, y: Seq<Binary32>) -> Seq<Binary32> {
    Seq::new(n as nat, |i: int| backward(l, n, y, i))
}

/// Solves `L y = b`.
pub fn solve_forward(l: &[Binary32], n: usize, b: &[Binary32], y: &mut [Binary32])
    requires
        n <= 12,
        l.len() == n * n,
        b.len() == n,
        old(y).len() == n,
    ensures
        final(y)@ == forward_solved(l@, n as int, b@),
{
    for i in 0..n
        invariant
            n <= 12,
            l.len() == n * n,
            b.len() == n,
            y.len() == n,
            forall|k: int| 0 <= k < i ==> #[trigger] y@[k] == forward(l@, n as int, b@, k),
    {
        let mut s: Binary32 = b[i];
        for k in 0..i
            invariant
                i < n <= 12,
                l.len() == n * n,
                y.len() == n,
                forall|k: int| 0 <= k < i ==> #[trigger] y@[k] == forward(l@, n as int, b@, k),
                s == forward_rest(l@, n as int, b@, i as int, k as int),
        {
            proof {
                lemma_row_major(i as int, k as int, n as int, n as int);
            }
            s = s.minus(l[i * n + k].times(y[k]));
        }
        proof {
            lemma_row_major(i as int, i as int, n as int, n as int);
        }
        y[i] = s.over(l[i * n + i]);
    }
    assert(y@ =~= forward_solved(l@, n as int, b@));
}

/// Solves `L^T x = y`.
pub fn solve_backward(l: &[Binary32], n: usize, y: &[Binary32], x: &mut [Binary32])
    requires
        n <= 12,
        l.len() == n * n,
        y.len() == n,
        old(x).len() == n,
    ensures
        final(x)@ == backward_solved(l@, n as int, y@),
{
    let mut left: usize = n;
    while left > 0
        invariant
            left <= n <= 12,
            l.len() == n * n,
            y.len() == n,
            x.len() == n,
            forall|k: int| left <= k < n ==> #[trigger] x@[k] == backward(l@, n as int, y@, k),
        decreases left,
    {
        let i: usize = left - 1;
        let mut s: Binary32 = y[i];
        for k in i + 1..n
            invariant
                i < n <= 12,
                l.len() == n * n,
                x.len() == n,
                forall|k: int| i < k < n ==> #[trigger] x@[k] == backward(l@, n as int, y@, k),
                s == backward_rest(l@, n as int, y@, i as int, k as int),
        {
            proof {
                lemma_row_major(k as int, i as int, n as int, n as int);
            }
            s = s.minus(l[k * n + i].times(x[k]));
        }
        proof {
            lemma_row_major(i as int, i as int, n as int, n as int);
        }
        x[i] = s.over(l[i * n + i]);
        left = i;
    }
    assert(x@ =~= backward_solved(l@, n as int, y@));
}

/// The solution of the symmetric 6x6 system `a x = b` by its Cholesky factor.
pub open spec fn solution6(a: Seq<Binary32>, b: Seq<Binary32>) -> Seq<Binary32> {
    let l = factored(a, 6);
    backward_solved(l, 6, forward_solved(l, 6, b))
}

/// All entries are finite.
pub open spec fn all_finite(x: Seq<Binary32>) -> bool {
    forall|i: int| 0 <= i < x.len() ==> (#[trigger] x[i]).finite()
}

/// Solves the symmetric 6x6 system `a x = b`. `None` where `a` is not positive definite or the
/// solution is not finite.
pub fn solve6(a: &[Binary32; 36], b: &[Binary32; 6]) -> (r: Option<[Binary32; 6]>)
    ensures
        r is Some <==> factorable(a@, 6) && all_finite(solution6(a@, b@)),
        r matches Some(x) ==> x@ == solution6(a@, b@),
{
    let mut l: [Binary32; 36] = *a;
    if !cholesky(&mut l, 6) {
        return None;
    }
    let mut y: [Binary32; 6] = [Binary32 { bits: 0 }; 6];
    solve_forward(&l, 6, b, &mut y);
    let mut x: [Binary32; 6] = [Binary32 { bits: 0 }; 6];
    solve_backward(&l, 6, &y, &mut x);
    for i in 0..6usize
        invariant
            x@ == solution6(a@, b@),
            forall|k: int| 0 <= k < i ==> (#[trigger] x@[k]).finite(),
    {
        if !x[i].is_finite() {
            assert(!x@[i as int].finite());
            return None;
        }
    }
    Some(x)
}

} // verus!
