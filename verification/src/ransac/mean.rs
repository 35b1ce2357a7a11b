//! What the error of a pose is: the root of the mean square of the errors of its inliers.

use vstd::prelude::*;

use crate::binary32::{mag, nearest_int, one_units, product, quotient, sum, Binary32};
use crate::linalg::exact::{lemma_eps, lemma_tiny};
use crate::linalg::num;
use crate::pose::{Correspondence, Pose};
use crate::ransac::threshold::usable;
use crate::ransac::{
    error_of, error_upto, inlier_mask, inliers_upto, pixel_error2, result_has_enough_inliers,
    sample_size, search_outcome, searched, Camera, PnpOptions, PnpResult, SearchState, Trial,
};
use crate::sqrt::{midrange, root, root_is_square_root};
use crate::value::{
    eps, lemma_mul_bounds, lemma_mul_le, lemma_value, near, product_value, quotient_value, rabs,
    small_int_value, sum_value, tiny, value, values_compare,
};

verus! {

/// The sum of the squared errors of the flagged ones among the first `n` correspondences, exactly.
pub open spec fn flagged_error(
    x: Pose,
    corrs: Seq<Correspondence>,
    cam: Camera,
    mask: Seq<bool>,
    n: int,
) -> real
    decreases n,
{
    if n <= 0 {
        0real
    } else if mask[n - 1] {
        flagged_error(x, corrs, cam, mask, n - 1) + value(pixel_error2(x, corrs[n - 1], cam))
    } else {
        flagged_error(x, corrs, cam, mask, n - 1)
    }
}

/// The computed sum is the exact one, up to two units of rounding per correspondence.
proof fn lemma_error_sum(
    x: Pose,
    corrs: Seq<Correspondence>,
    cam: Camera,
    thr2: Binary32,
    n: int,
)
    requires
        0 <= n <= corrs.len(),
        corrs.len() <= 0x10_0000,
        thr2.finite(),
        0real <= value(thr2) <= 1099511627776real,
    ensures
        ({
            let m = inlier_mask(x, corrs, cam, thr2);
            let e = flagged_error(x, corrs, cam, m, n);
            let v = error_upto(x, corrs, cam, thr2, n);
            &&& v.finite()
            &&& 0real <= e <= n as real * 1099511627776real
            &&& near(value(v), e, (n as real * 2real) * (e * eps()) + n as real * (4real * tiny()))
        }),
    decreases n,
{
    lemma_tiny();
    if n == 0 {
        lemma_value(num(0));
        assert(0real * (4real * tiny()) == 0real) by (nonlinear_arith);
        assert(0real * eps() == 0real) by (nonlinear_arith);
        assert((0real * 2real) * (0real * eps()) == 0real) by (nonlinear_arith);
    } else {
        lemma_error_sum(x, corrs, cam, thr2, n - 1);
        let m = inlier_mask(x, corrs, cam, thr2);
        let c = corrs[n - 1];
        let a = error_upto(x, corrs, cam, thr2, n - 1);
        let d = flagged_error(x, corrs, cam, m, n - 1);
        let t = tiny();
        let k = n as real - 1real;
        let de = d * eps();
        let b = (k * 2real) * de + k * (4real * t);
        lemma_eps(d);
        assert(0real <= k <= 1048576real);
        assert((k * 2real) * de == 2real * (k * de)) by (nonlinear_arith);
        assert(k * (4real * t) == 4real * (k * t)) by (nonlinear_arith);
        lemma_mul_le(k, 1048576real, de);
        lemma_mul_le(k, 1048576real, t);
        lemma_mul_le(0real, k, de);
        lemma_mul_le(0real, k, t);
        assert(0real * de == 0real && 0real * t == 0real) by (nonlinear_arith);
        // The sum so far is at most a fifth off.
        assert(value(a) <= 12real / 10real * d + 1real);
        if m[n - 1] {
            let p = pixel_error2(x, c, cam);
            let w = value(p);
            values_compare(p, thr2);
            lemma_error_not_negative(x, c, cam);
            assert(p.finite()) by {
                if !p.finite() {
                    lemma_infinite(p, thr2);
                }
            }
            let e = d + w;
            let ee = e * eps();
            lemma_eps(e);
            lemma_eps(w);
            assert(ee == de + w * eps()) by (nonlinear_arith)
                requires
                    ee == e * eps(),
                    de == d * eps(),
                    e == d + w,
            ;
            let s = value(a) + w;
            sum_value(a, p);
            lemma_eps(rabs(s));
            lemma_mul_le(de, ee, k);
            assert(de * k == k * de && ee * k == k * ee) by (nonlinear_arith);
            let nr = n as real;
            assert((nr * 2real) * ee == 2real * (k * ee) + 2real * ee) by (nonlinear_arith)
                requires
                    k == nr - 1real,
            ;
            assert(nr * (4real * t) == 4real * (k * t) + 4real * t) by (nonlinear_arith)
                requires
                    k == nr - 1real,
            ;
            assert(value(a) >= -(4real * (k * t)));
            assert(rabs(s) <= 12real / 10real * e + 4real * (k * t)) by {
                assert(value(a) <= d + 2real * (k * de) + 4real * (k * t));
            }
            assert(error_upto(x, corrs, cam, thr2, n) == sum(a, p));
        } else {
            let nr = n as real;
            assert((nr * 2real) * de == 2real * (k * de) + 2real * de) by (nonlinear_arith)
                requires
                    k == nr - 1real,
            ;
            assert(nr * (4real * t) == 4real * (k * t) + 4real * t) by (nonlinear_arith)
                requires
                    k == nr - 1real,
            ;
        }
    }
}

/// What is at most a finite number is no infinity.
proof fn lemma_infinite(p: Binary32, b: Binary32)
    requires
        b.finite(),
        !p.nan(),
        value(p) <= value(b),
        value(p) >= 0real,
    ensures
        p.finite(),
{
    lemma_value(p);
    lemma_value(b);
    values_compare(p, b);
    if p.inf() {
        if b.low() < p.low() {
            crate::binary32::mag_is_increasing(b.low(), p.low());
        }
        assert(false);
    }
}

/// A squared error is not negative.
proof fn lemma_error_not_negative(x: Pose, c: Correspondence, cam: Camera)
    ensures
        !pixel_error2(x, c, cam).nan() ==> value(pixel_error2(x, c, cam)) >= 0real,
{
    let (xc, z) = crate::pose::seen(x, c);
    let a = product(
        cam.fx,
        crate::binary32::difference(c.xn, quotient(sum(xc[0], x.t[0]), z)),
    );
    let b = product(
        cam.fy,
        crate::binary32::difference(c.yn, quotient(sum(xc[1], x.t[1]), z)),
    );
    lemma_square_sign(a);
    lemma_square_sign(b);
    let p = product(a, a);
    let q = product(b, b);
    reveal(sum);
    lemma_value(p);
    lemma_value(q);
    lemma_value(sum(p, q));
    if !p.nan() && !q.nan() {
        if p.low() > 0 {
            crate::binary32::mag_is_increasing(0, p.low());
        }
        if q.low() > 0 {
            crate::binary32::mag_is_increasing(0, q.low());
        }
        let t = p.units() + q.units();
        crate::binary32::rounding_is_total(t, 1);
    }
}

/// A square has no sign.
proof fn lemma_square_sign(a: Binary32)
    ensures
        product(a, a).nan() || !product(a, a).negative(),
{
    reveal(product);
    if !a.nan() && !a.inf() {
        let m = mag(a.low());
        if a.low() > 0 {
            crate::binary32::mag_is_increasing(0, a.low());
        }
        vstd::arithmetic::power2::lemma_pow2_pos(149);
        assert(m * m >= 0) by (nonlinear_arith);
        crate::binary32::rounding_is_total(m * m, one_units());
    }
}

/// The error that a pose is returned with is the root mean square of the reprojection errors of its
/// inliers: its square times their number is the sum of their squared errors, up to one part in 1000,
/// for up to 4096 correspondences and errors that are not vanishing.
pub proof fn error_is_root_mean_square(
    corrs: Seq<Correspondence>,
    cam: Camera,
    opts: PnpOptions,
    r: PnpResult,
    a: SearchState,
    b: SearchState,
)
    requires
        searched(corrs, cam, opts, Some(r), a, b),
        usable(opts.reproj_threshold_px),
        1 <= corrs.len() <= 4096,
        corrs.len() <= a.mask.len(),
        r.inlier_count > 0,
        flagged_error(Pose { r: r.r, t: r.t }, corrs, cam, b.mask, corrs.len() as int) >= 1real
            / 1000000real,
    ensures
        ({
            let e = flagged_error(
                Pose { r: r.r, t: r.t },
                corrs,
                cam,
                b.mask,
                corrs.len() as int,
            );
            let m = value(r.mean_reproj_error_px);
            &&& r.mean_reproj_error_px.finite()
            &&& m > 0real
            &&& near(r.inlier_count as real * (m * m), e, e / 1000real)
        }),
{
    reveal(search_outcome);
    lemma_tiny();
    let n = corrs.len() as int;
    let k = sample_size(opts.sample_size as int, n);
    let t = opts.reproj_threshold_px;
    let thr2 = product(t, t);
    let trials = choose|trials: Seq<Trial>| search_outcome(trials, corrs, cam, opts, Some(r), a, b);
    result_has_enough_inliers(trials, corrs, cam, thr2, k, opts.min_inliers);
    let x = Pose { r: r.r, t: r.t };
    let mask = inlier_mask(x, corrs, cam, thr2);
    lemma_inlier_count(x, corrs, cam, thr2, n);
    // The threshold.
    let tv = value(t);
    lemma_mul_bounds(tv, 1024real, tv, 1024real);
    lemma_mul_le(1real / 8real, tv, tv);
    product_value(t, t);
    lemma_eps(tv * tv);
    lemma_error_sum(x, corrs, cam, thr2, n);
    lemma_mask_prefix(x, corrs, cam, mask, b.mask, n);
    let e = flagged_error(x, corrs, cam, mask, n);
    let v = error_of(x, corrs, cam, thr2);
    let ee = e * eps();
    lemma_eps(e);
    let nr = n as real;
    assert((nr * 2real) * ee == 2real * (nr * ee)) by (nonlinear_arith);
    assert(nr * (4real * tiny()) == 4real * (nr * tiny())) by (nonlinear_arith);
    lemma_mul_le(nr, 4096real, ee);
    lemma_mul_le(nr, 4096real, tiny());
    lemma_mul_le(nr, 4096real, 1099511627776real);
    assert(near(value(v), e, e / 2000real));
    // The mean.
    let count = r.inlier_count as int;
    small_int_value(count);
    let c = nearest_int(count);
    let cr = count as real;
    let vv = value(v);
    let mean = vv / cr;
    assert(mean * cr == vv) by (nonlinear_arith)
        requires
            mean == vv / cr,
            cr >= 1real,
    ;
    if mean < 0real {
        lemma_mul_le(mean, 0real, cr);
        assert(0real * cr == 0real) by (nonlinear_arith);
        assert(false);
    }
    lemma_mul_le(1real, cr, mean);
    assert(1real * mean == mean && cr * mean == mean * cr) by (nonlinear_arith);
    lemma_mul_le(cr, 4096real, mean);
    quotient_value(v, c);
    lemma_eps(mean);
    let q = quotient(v, c);
    assert(midrange(value(q)));
    root_is_square_root(q);
    let m = value(root(q));
    let mm = m * m;
    let gap = mm - mean;
    assert(near(mm, mean, mean / 100000real));
    lemma_mul_bounds(gap, mean / 100000real, cr, cr);
    assert((mean / 100000real) * cr == (mean * cr) / 100000real) by (nonlinear_arith);
    assert(gap * cr == cr * mm - mean * cr) by (nonlinear_arith)
        requires
            gap == mm - mean,
    ;
}

proof fn lemma_inlier_count(
    x: Pose,
    corrs: Seq<Correspondence>,
    cam: Camera,
    thr2: Binary32,
    n: int,
)
    requires
        0 <= n,
    ensures
        inliers_upto(x, corrs, cam, thr2, n) <= n,
    decreases n,
{
    if n > 0 {
        lemma_inlier_count(x, corrs, cam, thr2, n - 1);
    }
}

proof fn lemma_mask_prefix(
    x: Pose,
    corrs: Seq<Correspondence>,
    cam: Camera,
    a: Seq<bool>,
    b: Seq<bool>,
    n: int,
)
    requires
        forall|i: int| 0 <= i < n ==> a[i] == b[i],
    ensures
        flagged_error(x, corrs, cam, a, n) == flagged_error(x, corrs, cam, b, n),
    decreases n,
{
    if n > 0 {
        lemma_mask_prefix(x, corrs, cam, a, b, n - 1);
    }
}

} // verus!
