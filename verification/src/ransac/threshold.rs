//! What the threshold of the search means: a distance in pixels.

use vstd::prelude::*;

use crate::binary32::{difference, product, quotient, sum, Binary32};
use crate::linalg::exact::{
    dot_size, exact_dot, finite3, lemma_eps, lemma_tiny, rotated_is_matrix_times_vector,
};
use crate::linalg::num;
use crate::pose::{seen, squares2, Correspondence, Pose};
use crate::ransac::{
    flags_upto, hypothesis, inlier, inlier_mask, mask_counts_inliers, pixel_error2, reaches, result_has_enough_inliers, result_is_owed,
    sample_size, search_outcome, searched, Camera, PnpOptions, PnpResult, SearchState, Trial,
};
use crate::value::{
    difference_value, eps, huge, lemma_mul_bounds, lemma_mul_le, lemma_scale, lemma_value, near,
    product_value, quotient_value, rabs, sum_value, tiny, value, values_compare,
};

verus! {

/// A threshold between an eighth of a pixel and 1024 pixels.
pub open spec fn usable(t: Binary32) -> bool {
    &&& t.finite()
    &&& 1real / 8real <= value(t) <= 1024real
}

/// The correspondence is flagged as it should be at threshold `t`: a flagged one lies in front of the
/// camera and its squared error is at most the square of the threshold, up to 2^-23 of it; one in front
/// of the camera that is not flagged has a squared error of at least that.
pub open spec fn judged(x: Pose, c: Correspondence, cam: Camera, t: Binary32, flag: bool) -> bool {
    let z = seen(x, c).1;
    let e = pixel_error2(x, c, cam);
    let tt = value(t) * value(t);
    &&& flag ==> !z.nan() && 0real < value(z) && !e.nan() && value(e) <= tt + tt / 8388608real
    &&& !flag && !z.nan() && 0real < value(z) && !e.nan() ==> value(e) >= tt - tt / 8388608real
}

/// Inliers at the square of a threshold are those whose squared error is at most that square.
pub proof fn inliers_lie_within_threshold(x: Pose, c: Correspondence, cam: Camera, t: Binary32)
    requires
        usable(t),
    ensures
        judged(x, c, cam, t, inlier(x, c, cam, product(t, t))),
{
    lemma_scale();
    let z = seen(x, c).1;
    let e = pixel_error2(x, c, cam);
    let v = value(t);
    let tt = v * v;
    lemma_mul_bounds(v, 1024real, v, 1024real);
    lemma_mul_le(1real / 8real, v, v);
    assert(1real / 64real <= tt <= 1048576real);
    product_value(t, t);
    let p = product(t, t);
    lemma_value(num(0));
    assert(16777216real * (tt * eps()) == tt) by (nonlinear_arith)
        requires
            eps() == 1real / 16777216real,
    ;
    lemma_small();
    assert(near(value(p), tt, tt / 8388608real));
    if !z.nan() {
        values_compare(num(0), z);
    }
    if !e.nan() {
        values_compare(e, p);
    }
}

proof fn lemma_small()
    ensures
        0real < tiny(),
        1125899906842624real * tiny() <= 1real / 1000real,
{
    lemma_scale();
    let t = tiny();
    let h = huge();
    assert(h == 1267650600228229401496703205376real);
    assert(t * h == h * t) by (nonlinear_arith);
    assert(t * h == t * 1267650600228229401496703205376real);
}

/// Camera coordinate `i` of the point of a correspondence.
pub open spec fn camera_coordinate(x: Pose, c: Correspondence, i: int) -> Binary32 {
    sum(seen(x, c).0[i], x.t[i])
}

/// The point of the correspondence lies in front of the camera, within four times its depth of the
/// optical axis, as does its image, and the focal lengths are at most 2048 pixels.
pub open spec fn in_view(x: Pose, c: Correspondence, cam: Camera) -> bool {
    let z = seen(x, c).1;
    let px = camera_coordinate(x, c, 0);
    let py = camera_coordinate(x, c, 1);
    &&& z.finite() && px.finite() && py.finite() && c.xn.finite() && c.yn.finite()
    &&& cam.fx.finite() && cam.fy.finite()
    &&& 0real < value(z)
    &&& rabs(value(px)) <= 4real * value(z)
    &&& rabs(value(py)) <= 4real * value(z)
    &&& rabs(value(c.xn)) <= 4real
    &&& rabs(value(c.yn)) <= 4real
    &&& rabs(value(cam.fx)) <= 2048real
    &&& rabs(value(cam.fy)) <= 2048real
}

/// Horizontal distance in pixels between the image of a correspondence and where the pose projects its
/// point.
pub open spec fn offset_x(x: Pose, c: Correspondence, cam: Camera) -> real {
    value(cam.fx) * (value(c.xn) - value(camera_coordinate(x, c, 0)) / value(seen(x, c).1))
}

/// Vertical distance in pixels between the image of a correspondence and where the pose projects its
/// point.
pub open spec fn offset_y(x: Pose, c: Correspondence, cam: Camera) -> real {
    value(cam.fy) * (value(c.yn) - value(camera_coordinate(x, c, 1)) / value(seen(x, c).1))
}

/// Squared reprojection distance in pixels.
pub open spec fn distance2(x: Pose, c: Correspondence, cam: Camera) -> real {
    offset_x(x, c, cam) * offset_x(x, c, cam) + offset_y(x, c, cam) * offset_y(x, c, cam)
}

/// One component of the error is computed to 1/256 of a pixel.
proof fn lemma_component(f: Binary32, n: Binary32, p: Binary32, z: Binary32)
    requires
        f.finite() && n.finite() && p.finite() && z.finite(),
        0real < value(z),
        rabs(value(p)) <= 4real * value(z),
        rabs(value(n)) <= 4real,
        rabs(value(f)) <= 2048real,
    ensures
        ({
            let o = product(f, difference(n, quotient(p, z)));
            let exact = value(f) * (value(n) - value(p) / value(z));
            &&& o.finite()
            &&& near(value(o), exact, 1real / 256real)
            &&& rabs(value(o)) <= 17000real
        }),
{
    lemma_small();
    let m = value(p) / value(z);
    let pv = value(p);
    let zv = value(z);
    assert(m * zv == pv) by (nonlinear_arith)
        requires
            m == pv / zv,
            zv > 0real,
    ;
    if m > 4real {
        assert(m * zv > 4real * zv) by (nonlinear_arith)
            requires
                m > 4real,
                zv > 0real,
        ;
    }
    if m < -4real {
        assert(m * zv < -4real * zv) by (nonlinear_arith)
            requires
                m < -4real,
                zv > 0real,
        ;
    }
    assert(-4real <= m <= 4real);
    quotient_value(p, z);
    let q = quotient(p, z);
    let am = rabs(m);
    assert(16777216real * (am * eps()) == am) by (nonlinear_arith)
        requires
            eps() == 1real / 16777216real,
    ;
    let d = difference(n, q);
    let de = value(n) - value(q);
    difference_value(n, q);
    let ad = rabs(de);
    assert(16777216real * (ad * eps()) == ad) by (nonlinear_arith)
        requires
            eps() == 1real / 16777216real,
    ;
    let fv = value(f);
    let exact = value(n) - m;
    let gap = value(d) - exact;
    assert(-15real <= 16777216real * gap <= 15real);
    lemma_mul_bounds(fv, 2048real, gap, 15real / 16777216real);
    lemma_mul_bounds(fv, 2048real, value(d), 82real / 10real);
    let fd = fv * value(d);
    assert(fd == fv * exact + fv * gap) by (nonlinear_arith)
        requires
            fd == fv * value(d),
            gap == value(d) - exact,
    ;
    product_value(f, d);
    let af = rabs(fd);
    assert(16777216real * (af * eps()) == af) by (nonlinear_arith)
        requires
            eps() == 1real / 16777216real,
    ;
}

/// The sum of two squares.
proof fn lemma_squares(a: Binary32, b: Binary32)
    requires
        a.finite() && b.finite(),
        rabs(value(a)) <= 17000real,
        rabs(value(b)) <= 17000real,
    ensures
        ({
            let s = value(a) * value(a) + value(b) * value(b);
            &&& squares2(a, b).finite()
            &&& near(
                value(squares2(a, b)),
                s,
                s * (3real / 16777216real) + 1real / 1000000000real,
            )
        }),
{
    lemma_small();
    let x = value(a);
    let y = value(b);
    lemma_mul_bounds(x, 17000real, x, 17000real);
    lemma_mul_bounds(y, 17000real, y, 17000real);
    let xx = x * x;
    let yy = y * y;
    assert(xx >= 0real) by (nonlinear_arith)
        requires
            xx == x * x,
    ;
    assert(yy >= 0real) by (nonlinear_arith)
        requires
            yy == y * y,
    ;
    product_value(a, a);
    product_value(b, b);
    let pa = product(a, a);
    let pb = product(b, b);
    assert(16777216real * (xx * eps()) == xx && 16777216real * (yy * eps()) == yy)
        by (nonlinear_arith)
        requires
            eps() == 1real / 16777216real,
    ;
    let t = value(pa) + value(pb);
    sum_value(pa, pb);
    let at = rabs(t);
    assert(16777216real * (at * eps()) == at) by (nonlinear_arith)
        requires
            eps() == 1real / 16777216real,
    ;
}

/// A square of a number at most `d` off.
proof fn lemma_square_near(o: real, p: real, d: real, b: real)
    requires
        -d <= o - p <= d,
        -b <= p <= b,
        0real <= d,
    ensures
        o * o <= p * p + d * (2real * b + d),
{
    lemma_mul_bounds(o - p, d, o + p, 2real * b + d);
    assert((o - p) * (o + p) == o * o - p * p) by (nonlinear_arith);
}

/// What is at most `b` squared is at most `b` off zero.
proof fn lemma_root_bound(o: real, b: real)
    requires
        o * o <= b * b,
        0real <= b,
    ensures
        -b <= o <= b,
{
    if o > b {
        assert(o * o > b * b) by (nonlinear_arith)
            requires
                o > b,
                b >= 0real,
        ;
    }
    if o < -b {
        assert(o * o > b * b) by (nonlinear_arith)
            requires
                -o > b,
                b >= 0real,
        ;
    }
}

/// The threshold is a distance: of the correspondences in view of a pose, the inliers are those whose
/// reprojection distance in pixels is at most the threshold, up to 1/64 of a pixel.
pub proof fn inliers_are_near(x: Pose, c: Correspondence, cam: Camera, t: Binary32)
    requires
        usable(t),
        in_view(x, c, cam),
    ensures
        inlier(x, c, cam, product(t, t)) ==> distance2(x, c, cam) <= (value(t) + 1real / 64real) * (
        value(t) + 1real / 64real),
        distance2(x, c, cam) <= (value(t) - 1real / 64real) * (value(t) - 1real / 64real)
            ==> inlier(x, c, cam, product(t, t)),
{
    inliers_lie_within_threshold(x, c, cam, t);
    let z = seen(x, c).1;
    let px = camera_coordinate(x, c, 0);
    let py = camera_coordinate(x, c, 1);
    lemma_component(cam.fx, c.xn, px, z);
    lemma_component(cam.fy, c.yn, py, z);
    let ox = product(cam.fx, difference(c.xn, quotient(px, z)));
    let oy = product(cam.fy, difference(c.yn, quotient(py, z)));
    lemma_squares(ox, oy);
    let e = pixel_error2(x, c, cam);
    assert(e == squares2(ox, oy));
    let p = value(ox);
    let q = value(oy);
    let s = p * p + q * q;
    let a = offset_x(x, c, cam);
    let b = offset_y(x, c, cam);
    let v = value(t);
    let tt = v * v;
    lemma_mul_le(1real / 8real, v, v);
    lemma_mul_le(v, 1024real, v);
    assert(tt / 1024real <= v && 1real / 64real <= tt <= 1048576real);
    assert(p * p >= 0real) by (nonlinear_arith);
    assert(q * q >= 0real) by (nonlinear_arith);
    assert(a * a >= 0real) by (nonlinear_arith);
    assert(b * b >= 0real) by (nonlinear_arith);
    let d = 1real / 256real;
    if inlier(x, c, cam, product(t, t)) {
        // The computed error is at most the threshold, up to rounding.
        assert(s <= tt + tt / 2000000real);
        let w = v + d / 8real;
        assert(w * w == tt + v * (d / 4real) + d / 8real * (d / 8real)) by (nonlinear_arith)
            requires
                w == v + d / 8real,
                tt == v * v,
                d == 1real / 256real,
        ;
        assert(v * (d / 4real) == v / 1024real) by (nonlinear_arith)
            requires
                d == 1real / 256real,
        ;
        assert(d / 8real * (d / 8real) >= 0real) by (nonlinear_arith)
            requires
                d == 1real / 256real,
        ;
        assert(s <= w * w);
        lemma_root_bound(p, w);
        lemma_root_bound(q, w);
        lemma_square_near(a, p, d, w);
        lemma_square_near(b, q, d, w);
        assert(d * (2real * w + d) == (2real * w + d) / 256real) by (nonlinear_arith)
            requires
                d == 1real / 256real,
        ;
        assert((v + 1real / 64real) * (v + 1real / 64real) == tt + v / 32real + 1real / 4096real)
            by (nonlinear_arith)
            requires
                tt == v * v,
        ;
    }
    if distance2(x, c, cam) <= (v - 1real / 64real) * (v - 1real / 64real) {
        let w = v - 1real / 64real;
        assert(w * w == tt - v / 32real + 1real / 4096real) by (nonlinear_arith)
            requires
                w == v - 1real / 64real,
                tt == v * v,
        ;
        lemma_root_bound(a, w);
        lemma_root_bound(b, w);
        lemma_square_near(p, a, d, w);
        lemma_square_near(q, b, d, w);
        assert(d * (2real * w + d) == (2real * w + d) / 256real) by (nonlinear_arith)
            requires
                d == 1real / 256real,
        ;
        assert(s <= tt - v / 100real);
        assert(s < tt - tt / 1000000real);
        assert(value(e) < tt - tt / 8388608real);
    }
}

/// The flag of a correspondence says whether it reprojects within the threshold: up to rounding of the
/// squared error and, for a correspondence in view, up to 1/64 of a pixel of the distance.
pub open spec fn flagged_by_distance(
    x: Pose,
    c: Correspondence,
    cam: Camera,
    t: Binary32,
    flag: bool,
) -> bool {
    &&& judged(x, c, cam, t, flag)
    &&& in_view(x, c, cam) && flag ==> distance2(x, c, cam) <= (value(t) + 1real / 64real) * (value(
        t,
    ) + 1real / 64real)
    &&& in_view(x, c, cam) && distance2(x, c, cam) <= (value(t) - 1real / 64real) * (value(t) - 1real
        / 64real) ==> flag
}

/// The flags say which correspondences reproject within the threshold of the options.
pub open spec fn mask_fits(
    x: Pose,
    corrs: Seq<Correspondence>,
    cam: Camera,
    opts: PnpOptions,
    mask: Seq<bool>,
) -> bool {
    forall|i: int|
        0 <= i < corrs.len() ==> flagged_by_distance(
            x,
            corrs[i],
            cam,
            opts.reproj_threshold_px,
            #[trigger] mask[i],
        )
}

proof fn lemma_flags_agree(a: Seq<bool>, b: Seq<bool>, n: int)
    requires
        forall|i: int| 0 <= i < n ==> a[i] == b[i],
    ensures
        flags_upto(a, n) == flags_upto(b, n),
    decreases n,
{
    if n > 0 {
        lemma_flags_agree(a, b, n - 1);
    }
}

proof fn lemma_mask_fits(x: Pose, corrs: Seq<Correspondence>, cam: Camera, opts: PnpOptions)
    requires
        usable(opts.reproj_threshold_px),
    ensures
        mask_fits(
            x,
            corrs,
            cam,
            opts,
            inlier_mask(
                x,
                corrs,
                cam,
                product(opts.reproj_threshold_px, opts.reproj_threshold_px),
            ),
        ),
{
    let t = opts.reproj_threshold_px;
    let m = inlier_mask(x, corrs, cam, product(t, t));
    assert forall|i: int| 0 <= i < corrs.len() implies flagged_by_distance(
        x,
        corrs[i],
        cam,
        t,
        #[trigger] m[i],
    ) by {
        inliers_lie_within_threshold(x, corrs[i], cam, t);
        if in_view(x, corrs[i], cam) {
            inliers_are_near(x, corrs[i], cam, t);
        }
    }
}

/// A pose that the search returns comes with the flags of the correspondences that reproject within
/// the threshold of the options, and with their number, which is at least the number asked for. Flags
/// beyond the correspondences stay.
pub proof fn search_flags_by_distance(
    corrs: Seq<Correspondence>,
    cam: Camera,
    opts: PnpOptions,
    r: PnpResult,
    a: SearchState,
    b: SearchState,
)
    requires
        searched(corrs, cam, opts, Some(r), a, b),
        usable(opts.reproj_threshold_px),
        corrs.len() <= a.mask.len(),
        corrs.len() <= usize::MAX,
    ensures
        b.mask.len() == a.mask.len(),
        mask_fits(Pose { r: r.r, t: r.t }, corrs, cam, opts, b.mask),
        forall|i: int| corrs.len() <= i < a.mask.len() ==> #[trigger] b.mask[i] == a.mask[i],
        r.inlier_count == flags_upto(b.mask, corrs.len() as int),
        r.inlier_count >= opts.min_inliers,
{
    reveal(search_outcome);
    let n = corrs.len() as int;
    let k = sample_size(opts.sample_size as int, n);
    let t = opts.reproj_threshold_px;
    let thr2 = product(t, t);
    let trials = choose|trials: Seq<Trial>| search_outcome(trials, corrs, cam, opts, Some(r), a, b);
    result_has_enough_inliers(trials, corrs, cam, thr2, k, opts.min_inliers);
    let x = Pose { r: r.r, t: r.t };
    let m = inlier_mask(x, corrs, cam, thr2);
    lemma_mask_fits(x, corrs, cam, opts);
    mask_counts_inliers(x, corrs, cam, thr2, n);
    lemma_flags_agree(m, b.mask, n);
    assert forall|i: int| 0 <= i < n implies flagged_by_distance(
        x,
        corrs[i],
        cam,
        t,
        #[trigger] b.mask[i],
    ) by {
        assert(b.mask[i] == m[i]);
    }
}

/// Where the search returns no pose, no hypothesis of its trials has the number of correspondences
/// asked for within the threshold of the options.
pub proof fn search_fails_for_want_of_inliers(
    trials: Seq<Trial>,
    corrs: Seq<Correspondence>,
    cam: Camera,
    opts: PnpOptions,
    a: SearchState,
    b: SearchState,
    i: int,
)
    requires
        search_outcome(trials, corrs, cam, opts, None, a, b),
        usable(opts.reproj_threshold_px),
        corrs.len() <= usize::MAX,
        0 <= i < trials.len(),
        hypothesis(corrs, sample_size(opts.sample_size as int, corrs.len() as int), trials[i])
            is Some,
    ensures
        ({
            let k = sample_size(opts.sample_size as int, corrs.len() as int);
            let x = hypothesis(corrs, k, trials[i])->0;
            exists|mask: Seq<bool>|
                {
                    &&& mask.len() == corrs.len()
                    &&& #[trigger] mask_fits(x, corrs, cam, opts, mask)
                    &&& flags_upto(mask, corrs.len() as int) < opts.min_inliers
                }
        }),
{
    reveal(search_outcome);
    let n = corrs.len() as int;
    let k = sample_size(opts.sample_size as int, n);
    let t = opts.reproj_threshold_px;
    let thr2 = product(t, t);
    let x = hypothesis(corrs, k, trials[i])->0;
    result_is_owed(trials, corrs, cam, thr2, k, opts.min_inliers);
    assert(!reaches(trials[i], corrs, cam, thr2, k, opts.min_inliers));
    lemma_mask_fits(x, corrs, cam, opts);
    mask_counts_inliers(x, corrs, cam, thr2, n);
    let mask = inlier_mask(x, corrs, cam, thr2);
    assert(mask_fits(x, corrs, cam, opts, mask));
}

/// Camera coordinate `i` of a point, exactly: its world position rotated by row `i`, and moved.
pub open spec fn exact_coordinate(x: Pose, c: Correspondence, i: int) -> real {
    exact_dot(x.r[i], c.world) + value(x.t[i])
}

/// The pose takes world positions to camera coordinates: rotated, then moved, up to rounding of the
/// terms. The depth is the third coordinate.
pub proof fn pose_transforms_points(x: Pose, c: Correspondence, i: int)
    requires
        0 <= i < 3,
        finite3(x.r[i]),
        finite3(c.world),
        x.t[i].finite(),
        dot_size(x.r[i], c.world) + rabs(value(x.t[i])) <= 604462909807314587353088real,
    ensures
        camera_coordinate(x, c, 2) == seen(x, c).1,
        camera_coordinate(x, c, i).finite(),
        near(
            value(camera_coordinate(x, c, i)),
            exact_coordinate(x, c, i),
            6real * ((dot_size(x.r[i], c.world) + rabs(value(x.t[i]))) * eps()) + 16real * tiny(),
        ),
{
    lemma_tiny();
    rotated_is_matrix_times_vector(x.r, c.world, i);
    let p = seen(x, c).0[i];
    let s = dot_size(x.r[i], c.world);
    let t = rabs(value(x.t[i]));
    lemma_eps(s);
    lemma_eps(t);
    lemma_eps(s + t);
    let e = value(p) + value(x.t[i]);
    lemma_eps(rabs(e));
    sum_value(p, x.t[i]);
}

} // verus!
