//! Where the features stand: every feature at its keypoint, projected to level 0.

use vstd::arithmetic::power2::lemma_pow2_adds;
use vstd::prelude::*;

use crate::binary32::{lemma_exact, mag, nearest_int, one_units, product, signed, Binary32};
use crate::blur::blurred;
use crate::fast::Corner;
use crate::pyramid::{
    feature_at, features_upto, has_descriptor, lemma_level_size, level_image, level_scale,
    level_size, FeatureView, Frame, LEVELS, SCALE_BITS,
};
use crate::rbrief::{descriptor_of, interior};
use crate::sqrt::ONE_BITS;
use crate::value::{
    eps, huge, lemma_mul_le, lemma_scale, lemma_value, near, product_value, rabs, small_int_value,
    tiny, value,
};

verus! {

/// The scale of level `l`: 1.2 to the power of `l`.
pub open spec fn zoom(l: int) -> real
    decreases l,
{
    if l <= 0 {
        1real
    } else {
        zoom(l - 1) * (12real / 10real)
    }
}

/// The number is coordinate `c` of level `l` in level-0 pixels: `c` times 1.2 to the power of `l`, up to
/// a relative error of 1/500000, and `c` itself on level 0.
pub open spec fn projects(x: Binary32, c: int, l: int) -> bool {
    &&& x.finite()
    &&& near(value(x), c as real * zoom(l), c as real * zoom(l) / 500000real)
    &&& l == 0 ==> value(x) == c as real
}

/// The feature is one of level `l` and stands at keypoint `kp`.
pub open spec fn stands_at(v: FeatureView, l: int, kp: Corner) -> bool {
    &&& v.level == l
    &&& projects(v.x, kp.x as int, l)
    &&& projects(v.y, kp.y as int, l)
}

/// The feature stands at a keypoint of its level outside the border band, and describes the blurred
/// level image there.
pub open spec fn placed(f: Frame, v: FeatureView) -> bool {
    let w = level_size(f.w, v.level);
    let h = level_size(f.h, v.level);
    &&& 0 <= v.level < LEVELS
    &&& exists|k: int|
        {
            let kp = #[trigger] f.keypoints(v.level)[k];
            &&& 0 <= k < f.keypoints(v.level).len()
            &&& interior(w, h, kp.x as int, kp.y as int)
            &&& stands_at(v, v.level, kp)
            &&& v.desc == descriptor_of(
                blurred(level_image(f.img, f.w, f.h, v.level), w, h),
                w,
                h,
                kp.x as int,
                kp.y as int,
            )
        }
}

/// One times a number is that number.
pub proof fn product_by_one(a: Binary32)
    requires
        a.finite(),
    ensures
        product(a, (Binary32 { bits: ONE_BITS })) == a,
{
    reveal(product);
    crate::sqrt::lemma_units();
    let one = Binary32 { bits: ONE_BITS };
    let m = mag(a.low());
    assert(one.low() == ONE_BITS);
    lemma_exact(m * one_units(), one_units(), a.low() as u32);
    assert(signed(a.negative(), a.low() as u32) == a);
}

/// The scale per level is 1.2 up to rounding.
proof fn lemma_scale_bits()
    ensures
        (Binary32 { bits: SCALE_BITS }).finite(),
        value(Binary32 { bits: SCALE_BITS }) == 10066330real / 8388608real,
{
    let s = Binary32 { bits: SCALE_BITS };
    lemma_scale();
    lemma_value(s);
    vstd::arithmetic::power2::lemma2_to64();
    lemma_pow2_adds(23, 126);
    let p = vstd::arithmetic::power2::pow2(126) as int;
    assert(vstd::arithmetic::power2::pow2(23) == 8388608);
    assert(SCALE_BITS as int % 8388608 == 1677722 && SCALE_BITS as int / 8388608 == 127);
    assert(mag(s.low()) == 10066330 * p);
    assert(one_units() == 8388608 * p);
    let pr = p as real;
    let c = value(s);
    let ur = one_units() as real;
    assert(ur == 8388608real * pr);
    assert(c == 10066330real / 8388608real) by (nonlinear_arith)
        requires
            c * ur == 10066330real * pr,
            ur == 8388608real * pr,
            ur > 0real,
    ;
}

/// What the factor of a level may be off by, in units of 2^-23.
spec fn slack(l: int) -> real {
    if l <= 0 {
        0real
    } else if l == 1 {
        2real
    } else if l == 2 {
        5real
    } else if l == 3 {
        8real
    } else if l == 4 {
        12real
    } else if l == 5 {
        17real
    } else {
        24real
    }
}

spec fn off_by(s: real, z: real, b: real) -> bool {
    &&& 8388608real * (s - z) <= b
    &&& 8388608real * (z - s) <= b
}

proof fn lemma_tiny()
    ensures
        0real < tiny(),
        8388608real * tiny() <= 1real / 1000real,
{
    lemma_scale();
    let t = tiny();
    let h = huge();
    assert(h == 1267650600228229401496703205376real);
    assert(t * h == h * t) by (nonlinear_arith);
    assert(t * h == t * 1267650600228229401496703205376real);
}

/// One more level.
proof fn lemma_scale_step(s: Binary32, z: real, b: real)
    requires
        s.finite(),
        off_by(value(s), z, b),
        1real <= z <= 3real,
        0real <= b <= 24real,
    ensures
        ({
            let r = product(s, Binary32 { bits: SCALE_BITS });
            &&& r.finite()
            &&& off_by(value(r), z * (12real / 10real), 12001real / 10000real * b + 11real / 10real
                * z)
        }),
{
    lemma_scale_bits();
    lemma_tiny();
    let c = Binary32 { bits: SCALE_BITS };
    let v = value(s);
    let e = value(s) * value(c);
    assert(e == v * (10066330real / 8388608real));
    assert(0real < e < 10real);
    product_value(s, c);
    let r = value(product(s, c));
    assert(16777216real * (e * eps()) == e) by (nonlinear_arith)
        requires
            eps() == 1real / 16777216real,
    ;
    assert(rabs(e) == e);
}

proof fn lemma_level_scale(l: int)
    requires
        0 <= l < LEVELS,
    ensures
        level_scale(l).finite(),
        off_by(value(level_scale(l)), zoom(l), slack(l)),
        1real <= zoom(l) <= 3real,
        slack(l) <= 9real * zoom(l),
        l == 0 ==> zoom(l) == 1real,
        l == 1 ==> zoom(l) == 12real / 10real,
        l == 2 ==> zoom(l) == 144real / 100real,
        l == 3 ==> zoom(l) == 1728real / 1000real,
        l == 4 ==> zoom(l) == 20736real / 10000real,
        l == 5 ==> zoom(l) == 248832real / 100000real,
        l == 6 ==> zoom(l) == 2985984real / 1000000real,
    decreases l,
{
    if l > 0 {
        lemma_level_scale(l - 1);
        lemma_scale_step(level_scale(l - 1), zoom(l - 1), slack(l - 1));
    } else {
        crate::sqrt::lemma_units();
        lemma_scale();
        let o = Binary32 { bits: ONE_BITS };
        lemma_value(o);
        let y = value(o);
        let ur = one_units() as real;
        assert(y == 1real) by (nonlinear_arith)
            requires
                y * ur == ur,
                ur > 0real,
        ;
    }
}

/// A coordinate outside the border band is projected to level 0 by the factor of its level.
pub proof fn projection_is_scaling(c: int, l: int)
    requires
        1 <= c < 0x100_0000,
        0 <= l < LEVELS,
    ensures
        projects(product(nearest_int(c), level_scale(l)), c, l),
{
    lemma_level_scale(l);
    lemma_tiny();
    small_int_value(c);
    let n = nearest_int(c);
    let x = c as real;
    let s = value(level_scale(l));
    let z = zoom(l);
    let b = slack(l);
    let xs = x * s;
    let xz = x * z;
    lemma_mul_le(8388608real * (s - z), b, x);
    lemma_mul_le(8388608real * (z - s), b, x);
    lemma_mul_le(b, 9real * z, x);
    assert((8388608real * (s - z)) * x == 8388608real * (xs - xz)) by (nonlinear_arith)
        requires
            xs == x * s,
            xz == x * z,
    ;
    assert((8388608real * (z - s)) * x == 8388608real * (xz - xs)) by (nonlinear_arith)
        requires
            xs == x * s,
            xz == x * z,
    ;
    assert((9real * z) * x == 9real * xz) by (nonlinear_arith)
        requires
            xz == x * z,
    ;
    lemma_mul_le(1real, z, x);
    lemma_mul_le(z, 3real, x);
    assert(1real * x == x && z * x == xz) by (nonlinear_arith)
        requires
            xz == x * z,
    ;
    assert(1real <= xz <= 60000000real);
    assert(0real < xs < 70000000real);
    product_value(n, level_scale(l));
    let r = product(n, level_scale(l));
    assert(16777216real * (xs * eps()) == xs) by (nonlinear_arith)
        requires
            eps() == 1real / 16777216real,
    ;
    assert(rabs(xs) == xs);
    if l == 0 {
        product_by_one(n);
    }
}

/// The features of a list of keypoints: each comes from a keypoint with a descriptor, and keeps the
/// order of the keypoints.
proof fn lemma_sources(
    smooth: Seq<u8>,
    w: int,
    h: int,
    level: int,
    scale: Binary32,
    kps: Seq<Corner>,
    n: int,
    i: int,
) -> (k: int)
    requires
        0 <= i < features_upto(smooth, w, h, level, scale, kps, n).len(),
    ensures
        0 <= k < n,
        has_descriptor(smooth, w, h, kps[k]),
        features_upto(smooth, w, h, level, scale, kps, n)[i] == feature_at(
            smooth,
            w,
            h,
            level,
            scale,
            kps[k],
        ),
    decreases n,
{
    let before = features_upto(smooth, w, h, level, scale, kps, n - 1);
    if i < before.len() {
        lemma_sources(smooth, w, h, level, scale, kps, n - 1, i)
    } else {
        n - 1
    }
}

proof fn lemma_reached(
    smooth: Seq<u8>,
    w: int,
    h: int,
    level: int,
    scale: Binary32,
    kps: Seq<Corner>,
    n: int,
    k: int,
) -> (i: int)
    requires
        0 <= k < n,
        has_descriptor(smooth, w, h, kps[k]),
    ensures
        0 <= i < features_upto(smooth, w, h, level, scale, kps, n).len(),
        features_upto(smooth, w, h, level, scale, kps, n)[i] == feature_at(
            smooth,
            w,
            h,
            level,
            scale,
            kps[k],
        ),
    decreases n,
{
    if k < n - 1 {
        lemma_reached(smooth, w, h, level, scale, kps, n - 1, k)
    } else {
        features_upto(smooth, w, h, level, scale, kps, n - 1).len() as int
    }
}

/// Every feature of a level stands at a keypoint of that level.
pub proof fn features_stand_at_keypoints(f: Frame, l: int, i: int)
    requires
        0 <= f.w <= 0x100_0000,
        0 <= f.h <= 0x100_0000,
        0 <= l < LEVELS,
        0 <= i < f.level_features(l).len(),
    ensures
        placed(f, f.level_features(l)[i]),
        f.level_features(l)[i].level == l,
{
    let w = level_size(f.w, l);
    let h = level_size(f.h, l);
    lemma_level_size(f.w, l);
    lemma_level_size(f.h, l);
    let smooth = blurred(level_image(f.img, f.w, f.h, l), w, h);
    let kps = f.keypoints(l);
    let k = lemma_sources(smooth, w, h, l, level_scale(l), kps, kps.len() as int, i);
    let kp = kps[k];
    projection_is_scaling(kp.x as int, l);
    projection_is_scaling(kp.y as int, l);
    assert(stands_at(f.level_features(l)[i], l, f.keypoints(l)[k]));
}

/// Every keypoint of a level outside the border band whose descriptor has a set bit has a feature, and
/// that feature stands at it.
pub proof fn keypoints_have_features(f: Frame, l: int, k: int)
    requires
        0 <= f.w <= 0x100_0000,
        0 <= f.h <= 0x100_0000,
        0 <= l < LEVELS,
        f.searchable(l),
        0 <= k < f.keypoints(l).len(),
        has_descriptor(
            blurred(
                level_image(f.img, f.w, f.h, l),
                level_size(f.w, l),
                level_size(f.h, l),
            ),
            level_size(f.w, l),
            level_size(f.h, l),
            f.keypoints(l)[k],
        ),
    ensures
        exists|i: int|
            0 <= i < f.level_features(l).len() && stands_at(
                #[trigger] f.level_features(l)[i],
                l,
                f.keypoints(l)[k],
            ),
{
    let w = level_size(f.w, l);
    let h = level_size(f.h, l);
    lemma_level_size(f.w, l);
    lemma_level_size(f.h, l);
    let smooth = blurred(level_image(f.img, f.w, f.h, l), w, h);
    let kps = f.keypoints(l);
    let i = lemma_reached(smooth, w, h, l, level_scale(l), kps, kps.len() as int, k);
    projection_is_scaling(kps[k].x as int, l);
    projection_is_scaling(kps[k].y as int, l);
    assert(stands_at(f.level_features(l)[i], l, f.keypoints(l)[k]));
}

/// Every feature of the levels below `l` stands at a keypoint of its level.
pub proof fn all_features_are_placed(f: Frame, l: int, i: int)
    requires
        0 <= f.w <= 0x100_0000,
        0 <= f.h <= 0x100_0000,
        0 <= l <= LEVELS,
        0 <= i < f.features_below(l).len(),
    ensures
        placed(f, f.features_below(l)[i]),
    decreases l,
{
    let before = f.features_below(l - 1);
    if i < before.len() {
        all_features_are_placed(f, l - 1, i);
    } else {
        features_stand_at_keypoints(f, l - 1, i - before.len());
    }
}

/// Two coordinates that differ are projected to different numbers.
proof fn lemma_apart(x: Binary32, y: Binary32, c: int, d: int, l: int)
    requires
        0 <= l < LEVELS,
        0 <= c < d <= 0x2_0000,
        projects(x, c, l),
        projects(y, d, l),
    ensures
        value(x) < value(y),
{
    lemma_level_scale(l);
    let z = zoom(l);
    let a = c as real;
    let b = d as real;
    lemma_mul_le(a + 1real, b, z);
    lemma_mul_le(b, 131072real, z);
    lemma_mul_le(a, 131072real, z);
    assert((a + 1real) * z == a * z + z) by (nonlinear_arith);
}

/// Features of different keypoints of a level, in images of up to 131072 pixels per side, stand at
/// different positions, and in the order of the keypoints' columns and rows.
pub proof fn positions_tell_keypoints_apart(
    a: FeatureView,
    b: FeatureView,
    l: int,
    p: Corner,
    q: Corner,
)
    requires
        0 <= l < LEVELS,
        p.x <= 0x2_0000 && p.y <= 0x2_0000,
        q.x <= 0x2_0000 && q.y <= 0x2_0000,
        stands_at(a, l, p),
        stands_at(b, l, q),
    ensures
        p.x < q.x ==> value(a.x) < value(b.x),
        p.y < q.y ==> value(a.y) < value(b.y),
        q.x < p.x ==> value(b.x) < value(a.x),
        q.y < p.y ==> value(b.y) < value(a.y),
        value(a.x) == value(b.x) && value(a.y) == value(b.y) ==> p == q,
{
    if p.x < q.x {
        lemma_apart(a.x, b.x, p.x as int, q.x as int, l);
    }
    if q.x < p.x {
        lemma_apart(b.x, a.x, q.x as int, p.x as int, l);
    }
    if p.y < q.y {
        lemma_apart(a.y, b.y, p.y as int, q.y as int, l);
    }
    if q.y < p.y {
        lemma_apart(b.y, a.y, q.y as int, p.y as int, l);
    }
}

} // verus!
