//! Camera poses from 3D-2D correspondences: the linear solution by direct linear transform, and its
//! refinement by Levenberg-Marquardt.

use vstd::prelude::*;

use crate::binary32::{
    at_most, difference, from_u64, is_at_most, is_less, larger, larger_of, less, magnitude,
    nearest_int, opposite, product, quotient, smaller, smaller_of, sum, Binary32,
};
use crate::linalg::{
    add_outer, all_finite, backward_solved, cholesky, column, column3, cross, cross3, det3,
    determinant, dot, dot3, factorable, factored, forward_solved, length, mat_mul3,
    matrix_product, norm3, num, outer_added, rot_vec, rotated, solution6, solve6, solve_backward,
    solve_forward, Mat3, Vec3,
};
use crate::sqrt::{root, sqrt32, HALF_BITS, ONE_BITS};

pub mod frame;
pub mod turning;

verus! {

/// Encodings of the constants: 2, 3, 6, 24, 120, 720, 2^24, 1/4, 10^-12, 10^-6, 10^-3, 10^6, 0.3,
/// 0.95 and the smallest normal number.
pub const TWO_BITS: u32 = 0x4000_0000;

pub const THREE_BITS: u32 = 0x4040_0000;

pub const SIX_BITS: u32 = 0x40C0_0000;

pub const TWENTY_FOUR_BITS: u32 = 0x41C0_0000;

pub const ONE_TWENTY_BITS: u32 = 0x42F0_0000;

pub const SEVEN_TWENTY_BITS: u32 = 0x4434_0000;

pub const TWO_24_BITS: u32 = 0x4B80_0000;

pub const QUARTER_BITS: u32 = 0x3E80_0000;

pub const PICO_BITS: u32 = 0x2B8C_BCCC;

pub const MICRO_BITS: u32 = 0x3586_37BD;

pub const MILLI_BITS: u32 = 0x3A83_126F;

pub const MILLION_BITS: u32 = 0x4974_2400;

pub const THREE_TENTHS_BITS: u32 = 0x3E99_999A;

pub const PARALLEL_BITS: u32 = 0x3F73_3333;

pub const MIN_NORMAL_BITS: u32 = 0x0080_0000;

/// Steps of inverse power iteration per linear solution.
pub const N_ITER_INV: usize = 24;

/// Levenberg-Marquardt steps per refinement.
pub const MAX_STEPS: usize = 8;

/// Damping factors tried per step.
pub const MAX_TRIES: usize = 6;

/// One match: a world point and undistorted normalized image coordinates.
#[derive(Clone, Copy, Debug, PartialEq, Eq)]
pub struct Correspondence {
    pub world: Vec3,
    pub xn: Binary32,
    pub yn: Binary32,
}

/// World-to-camera pose: `X_cam = r X_world + t`.
#[derive(Clone, Copy, Debug, PartialEq, Eq)]
pub struct Pose {
    pub r: Mat3,
    pub t: Vec3,
}

/// Running sum of `f(0)`, `f(1)`, .. `f(n - 1)`, from 0.
pub open spec fn total(f: spec_fn(int) -> Binary32, n: int) -> Binary32
    decreases n,
{
    if n <= 0 {
        num(0)
    } else {
        sum(total(f, n - 1), f(n - 1))
    }
}

/// Sum of the squares of three numbers.
pub open spec fn squares3(a: Binary32, b: Binary32, c: Binary32) -> Binary32 {
    sum(sum(product(a, a), product(b, b)), product(c, c))
}

/// Sum of the squares of two numbers.
pub open spec fn squares2(a: Binary32, b: Binary32) -> Binary32 {
    sum(product(a, a), product(b, b))
}

/// Centre and scale that bring a sample to mean distance sqrt(3) in the world and sqrt(2) in the
/// image.
#[derive(Clone, Copy, Debug, PartialEq, Eq)]
pub struct Normalization {
    pub cw: Vec3,
    pub ci: [Binary32; 2],
    pub mw: Binary32,
    pub mi: Binary32,
    pub sw: Binary32,
    pub si: Binary32,
}

/// World coordinate `j` of sampled correspondence `t`.
pub open spec fn world_of(corrs: Seq<Correspondence>, idx: Seq<usize>, t: int, j: int) -> Binary32 {
    corrs[idx[t] as int].world[j]
}

/// Mean of world coordinate `j` over the sample.
pub open spec fn mean_world(corrs: Seq<Correspondence>, idx: Seq<usize>, j: int) -> Binary32 {
    quotient(
        total(|t: int| world_of(corrs, idx, t, j), idx.len() as int),
        nearest_int(idx.len() as int),
    )
}

/// Mean of the horizontal image coordinate over the sample.
pub open spec fn mean_xn(corrs: Seq<Correspondence>, idx: Seq<usize>) -> Binary32 {
    quotient(
        total(|t: int| corrs[idx[t] as int].xn, idx.len() as int),
        nearest_int(idx.len() as int),
    )
}

/// Mean of the vertical image coordinate over the sample.
pub open spec fn mean_yn(corrs: Seq<Correspondence>, idx: Seq<usize>) -> Binary32 {
    quotient(
        total(|t: int| corrs[idx[t] as int].yn, idx.len() as int),
        nearest_int(idx.len() as int),
    )
}

/// Squared distance of sampled point `t` from the world centre.
pub open spec fn world_spread(
    corrs: Seq<Correspondence>,
    idx: Seq<usize>,
    cw: Vec3,
    t: int,
) -> Binary32 {
    squares3(
        difference(world_of(corrs, idx, t, 0), cw[0]),
        difference(world_of(corrs, idx, t, 1), cw[1]),
        difference(world_of(corrs, idx, t, 2), cw[2]),
    )
}

/// Squared distance of sampled point `t` from the image centre.
pub open spec fn image_spread(
    corrs: Seq<Correspondence>,
    idx: Seq<usize>,
    ci: [Binary32; 2],
    t: int,
) -> Binary32 {
    let c = corrs[idx[t] as int];
    squares2(difference(c.xn, ci[0]), difference(c.yn, ci[1]))
}

/// The normalization of a sample.
pub open spec fn normalization(corrs: Seq<Correspondence>, idx: Seq<usize>) -> Normalization {
    let k = nearest_int(idx.len() as int);
    let cw: Vec3 = [
        mean_world(corrs, idx, 0),
        mean_world(corrs, idx, 1),
        mean_world(corrs, idx, 2),
    ];
    let ci = [mean_xn(corrs, idx), mean_yn(corrs, idx)];
    let mw = quotient(total(|t: int| world_spread(corrs, idx, cw, t), idx.len() as int), k);
    let mi = quotient(total(|t: int| image_spread(corrs, idx, ci, t), idx.len() as int), k);
    Normalization {
        cw,
        ci,
        mw,
        mi,
        sw: root(quotient(num(THREE_BITS), mw)),
        si: root(quotient(num(TWO_BITS), mi)),
    }
}

/// All indices of a sample are inside the list.
pub open spec fn sample_inside(corrs: Seq<Correspondence>, idx: Seq<usize>) -> bool {
    forall|t: int| 0 <= t < idx.len() ==> #[trigger] idx[t] < corrs.len()
}

/// Computes the normalization of a sample.
fn normalize(corrs: &[Correspondence], idx: &[usize]) -> (r: Normalization)
    requires
        sample_inside(corrs@, idx@),
    ensures
        r == normalization(corrs@, idx@),
{
    let ghost fx = |t: int| corrs@[idx@[t] as int].xn;
    let ghost fy = |t: int| corrs@[idx@[t] as int].yn;
    let ghost f0 = |t: int| world_of(corrs@, idx@, t, 0);
    let ghost f1 = |t: int| world_of(corrs@, idx@, t, 1);
    let ghost f2 = |t: int| world_of(corrs@, idx@, t, 2);
    let zero: Binary32 = Binary32 { bits: 0 };
    let mut s0: Binary32 = zero;
    let mut s1: Binary32 = zero;
    let mut s2: Binary32 = zero;
    let mut sx: Binary32 = zero;
    let mut sy: Binary32 = zero;
    for t in 0..idx.len()
        invariant
            sample_inside(corrs@, idx@),
            fx == (|t: int| corrs@[idx@[t] as int].xn),
            fy == (|t: int| corrs@[idx@[t] as int].yn),
            f0 == (|t: int| world_of(corrs@, idx@, t, 0)),
            f1 == (|t: int| world_of(corrs@, idx@, t, 1)),
            f2 == (|t: int| world_of(corrs@, idx@, t, 2)),
            s0 == total(f0, t as int),
            s1 == total(f1, t as int),
            s2 == total(f2, t as int),
            sx == total(fx, t as int),
            sy == total(fy, t as int),
    {
        assert(idx@[t as int] < corrs@.len());
        let c: Correspondence = corrs[idx[t]];
        assert(f0(t as int) == c.world[0] && f1(t as int) == c.world[1] && f2(t as int)
            == c.world[2] && fx(t as int) == c.xn && fy(t as int) == c.yn);
        s0 = s0.plus(c.world[0]);
        s1 = s1.plus(c.world[1]);
        s2 = s2.plus(c.world[2]);
        sx = sx.plus(c.xn);
        sy = sy.plus(c.yn);
    }
    let k: Binary32 = from_u64(idx.len() as u64);
    let cw: Vec3 = [s0.over(k), s1.over(k), s2.over(k)];
    let ci: [Binary32; 2] = [sx.over(k), sy.over(k)];
    let ghost gw = |t: int| world_spread(corrs@, idx@, cw, t);
    let ghost gi = |t: int| image_spread(corrs@, idx@, ci, t);
    let mut mw: Binary32 = zero;
    let mut mi: Binary32 = zero;
    for t in 0..idx.len()
        invariant
            sample_inside(corrs@, idx@),
            gw == (|t: int| world_spread(corrs@, idx@, cw, t)),
            gi == (|t: int| image_spread(corrs@, idx@, ci, t)),
            mw == total(gw, t as int),
            mi == total(gi, t as int),
    {
        assert(idx@[t as int] < corrs@.len());
        let c: Correspondence = corrs[idx[t]];
        let d0: Binary32 = c.world[0].minus(cw[0]);
        let d1: Binary32 = c.world[1].minus(cw[1]);
        let d2: Binary32 = c.world[2].minus(cw[2]);
        let e0: Binary32 = c.xn.minus(ci[0]);
        let e1: Binary32 = c.yn.minus(ci[1]);
        let dw: Binary32 = d0.times(d0).plus(d1.times(d1)).plus(d2.times(d2));
        let di: Binary32 = e0.times(e0).plus(e1.times(e1));
        assert(gw(t as int) == dw && gi(t as int) == di);
        mw = mw.plus(dw);
        mi = mi.plus(di);
    }
    mw = mw.over(k);
    mi = mi.over(k);
    let sw: Binary32 = sqrt32(Binary32 { bits: THREE_BITS }.over(mw));
    let si: Binary32 = sqrt32(Binary32 { bits: TWO_BITS }.over(mi));
    Normalization { cw, ci, mw, mi, sw, si }
}

/// Normalized coordinates of a correspondence: world x, y, z and image x, y.
pub open spec fn normalized(c: Correspondence, m: Normalization) -> [Binary32; 5] {
    [
        product(difference(c.world[0], m.cw[0]), m.sw),
        product(difference(c.world[1], m.cw[1]), m.sw),
        product(difference(c.world[2], m.cw[2]), m.sw),
        product(difference(c.xn, m.ci[0]), m.si),
        product(difference(c.yn, m.ci[1]), m.si),
    ]
}

/// First equation of a correspondence.
pub open spec fn equation_x(p: [Binary32; 5]) -> [Binary32; 12] {
    let o = num(0);
    let n = opposite(p[3]);
    [
        p[0],
        p[1],
        p[2],
        num(ONE_BITS),
        o,
        o,
        o,
        o,
        product(n, p[0]),
        product(n, p[1]),
        product(n, p[2]),
        n,
    ]
}

/// Second equation of a correspondence.
pub open spec fn equation_y(p: [Binary32; 5]) -> [Binary32; 12] {
    let o = num(0);
    let n = opposite(p[4]);
    [
        o,
        o,
        o,
        o,
        p[0],
        p[1],
        p[2],
        num(ONE_BITS),
        product(n, p[0]),
        product(n, p[1]),
        product(n, p[2]),
        n,
    ]
}

/// Upper triangle of the normal matrix of the first `n` sampled correspondences.
pub open spec fn normal_upto(
    corrs: Seq<Correspondence>,
    idx: Seq<usize>,
    m: Normalization,
    n: int,
) -> Seq<Binary32>
    decreases n,
{
    if n <= 0 {
        Seq::new(144, |t: int| num(0))
    } else {
        let p = normalized(corrs[idx[n - 1] as int], m);
        outer_added(
            outer_added(normal_upto(corrs, idx, m, n - 1), 12, equation_x(p)@),
            12,
            equation_y(p)@,
        )
    }
}

/// A 12x12 matrix with its upper triangle mirrored to the lower one.
pub open spec fn mirrored(m: Seq<Binary32>) -> Seq<Binary32> {
    Seq::new(
        144,
        |t: int|
            if t / 12 > t % 12 {
                m[(t % 12) * 12 + t / 12]
            } else {
                m[t]
            },
    )
}

/// The largest of 0 and the first `n` diagonal entries of a 12x12 matrix.
pub open spec fn diagonal_max(m: Seq<Binary32>, n: int) -> Binary32
    decreases n,
{
    if n <= 0 {
        num(0)
    } else {
        larger(diagonal_max(m, n - 1), m[(n - 1) * 13])
    }
}

/// A 12x12 matrix with a millionth of its largest diagonal entry added to the diagonal.
pub open spec fn shifted(m: Seq<Binary32>) -> Seq<Binary32> {
    let lam = product(num(MICRO_BITS), diagonal_max(m, 12));
    Seq::new(
        144,
        |t: int|
            if t % 13 == 0 {
                sum(m[t], lam)
            } else {
                m[t]
            },
    )
}

/// The matrix whose factor the linear solution iterates with.
pub open spec fn system(corrs: Seq<Correspondence>, idx: Seq<usize>) -> Seq<Binary32> {
    shifted(
        mirrored(normal_upto(corrs, idx, normalization(corrs, idx), idx.len() as int)),
    )
}

/// The linear solution exists up to its starting vector: the sample has extent and its system can be
/// factored.
pub open spec fn solvable(corrs: Seq<Correspondence>, idx: Seq<usize>) -> bool {
    let m = normalization(corrs, idx);
    less(num(0), m.mw) && less(num(0), m.mi) && factorable(system(corrs, idx), 12)
}

/// Adds both equations of a correspondence to the normal matrix.
fn add_correspondence(m: &mut [Binary32; 144], c: &Correspondence, z: &Normalization)
    ensures
        final(m)@ == outer_added(
            outer_added(old(m)@, 12, equation_x(normalized(*c, *z))@),
            12,
            equation_y(normalized(*c, *z))@,
        ),
{
    let o: Binary32 = Binary32 { bits: 0 };
    let one: Binary32 = Binary32 { bits: ONE_BITS };
    let x: Binary32 = c.world[0].minus(z.cw[0]).times(z.sw);
    let y: Binary32 = c.world[1].minus(z.cw[1]).times(z.sw);
    let w: Binary32 = c.world[2].minus(z.cw[2]).times(z.sw);
    let nx: Binary32 = c.xn.minus(z.ci[0]).times(z.si).negated();
    let ny: Binary32 = c.yn.minus(z.ci[1]).times(z.si).negated();
    let row_x: [Binary32; 12] = [
        x,
        y,
        w,
        one,
        o,
        o,
        o,
        o,
        nx.times(x),
        nx.times(y),
        nx.times(w),
        nx,
    ];
    let row_y: [Binary32; 12] = [
        o,
        o,
        o,
        o,
        x,
        y,
        w,
        one,
        ny.times(x),
        ny.times(y),
        ny.times(w),
        ny,
    ];
    assert(row_x == equation_x(normalized(*c, *z)));
    assert(row_y == equation_y(normalized(*c, *z)));
    add_outer(m, &row_x);
    add_outer(m, &row_y);
}

/// Mirrors the upper triangle of a 12x12 matrix to the lower one.
fn mirror12(m: &mut [Binary32; 144])
    ensures
        final(m)@ == mirrored(old(m)@),
{
    for j in 0..12usize
        invariant
            forall|t: int|
                0 <= t < 144 ==> #[trigger] m@[t] == if t % 12 < j {
                    mirrored(old(m)@)[t]
                } else {
                    old(m)@[t]
                },
    {
        for i in j + 1..12
            invariant
                j < 12,
                forall|t: int|
                    0 <= t < 144 ==> #[trigger] m@[t] == if t % 12 < j || (t % 12 == j && t / 12
                        < i) {
                        mirrored(old(m)@)[t]
                    } else {
                        old(m)@[t]
                    },
        {
            let from: usize = j * 12 + i;
            let to: usize = i * 12 + j;
            assert(from as int / 12 == j && from as int % 12 == i);
            assert(to as int / 12 == i && to as int % 12 == j);
            m[to] = m[from];
        }
    }
    assert(m@ =~= mirrored(old(m)@));
}

/// Adds a millionth of the largest diagonal entry to the diagonal of a 12x12 matrix.
fn shift12(m: &mut [Binary32; 144])
    ensures
        final(m)@ == shifted(old(m)@),
{
    let ghost m0 = m@;
    let mut md: Binary32 = Binary32 { bits: 0 };
    for i in 0..12usize
        invariant
            m@ == m0,
            md == diagonal_max(m0, i as int),
    {
        md = larger_of(md, m[i * 13]);
    }
    let lam: Binary32 = Binary32 { bits: MICRO_BITS }.times(md);
    for i in 0..12usize
        invariant
            m0 == old(m)@,
            lam == product(num(MICRO_BITS), diagonal_max(m0, 12)),
            forall|t: int|
                0 <= t < 144 ==> #[trigger] m@[t] == if t % 13 == 0 && t < i * 13 {
                    sum(m0[t], lam)
                } else {
                    m0[t]
                },
    {
        let d: usize = i * 13;
        assert(d as int % 13 == 0);
        m[d] = m[d].plus(lam);
    }
    assert(m@ =~= shifted(m0));
}

/// Normalization and factored system of a sample; `None` where there is no linear solution.
pub fn dlt_factor(corrs: &[Correspondence], idx: &[usize]) -> (r: Option<
    ([Binary32; 144], Normalization),
>)
    requires
        sample_inside(corrs@, idx@),
    ensures
        r is Some <==> solvable(corrs@, idx@),
        r matches Some(x) ==> {
            &&& x.0@ == factored(system(corrs@, idx@), 12)
            &&& x.1 == normalization(corrs@, idx@)
        },
{
    let z: Normalization = normalize(corrs, idx);
    let zero: Binary32 = Binary32 { bits: 0 };
    if !is_less(zero, z.mw) || !is_less(zero, z.mi) {
        return None;
    }
    let mut m: [Binary32; 144] = [Binary32 { bits: 0 }; 144];
    assert(m@ =~= normal_upto(corrs@, idx@, z, 0));
    for t in 0..idx.len()
        invariant
            sample_inside(corrs@, idx@),
            m@ == normal_upto(corrs@, idx@, z, t as int),
    {
        assert(idx@[t as int] < corrs@.len());
        let c: Correspondence = corrs[idx[t]];
        add_correspondence(&mut m, &c, &z);
    }
    mirror12(&mut m);
    shift12(&mut m);
    if !cholesky(&mut m, 12) {
        return None;
    }
    Some((m, z))
}

/// Entry of the starting vector that a random number gives: between -1 and 1.
pub open spec fn start_entry(draw: u32) -> Binary32 {
    difference(
        quotient(product(num(TWO_BITS), nearest_int(draw as int / 256)), num(TWO_24_BITS)),
        num(ONE_BITS),
    )
}

/// Sum of the squares of a 12-vector.
pub open spec fn squares12(v: Seq<Binary32>) -> Binary32 {
    total(|i: int| product(v[i], v[i]), 12)
}

/// A 12-vector divided by its length.
pub open spec fn unit12(v: Seq<Binary32>) -> Seq<Binary32> {
    let inv = quotient(num(ONE_BITS), root(squares12(v)));
    Seq::new(12, |i: int| product(v[i], inv))
}

/// `n` steps of inverse power iteration with the factor `l` from the vector `v`.
pub open spec fn iterated(l: Seq<Binary32>, v: Seq<Binary32>, n: int) -> Seq<Binary32>
    decreases n,
{
    if n <= 0 {
        v
    } else {
        unit12(backward_solved(l, 12, forward_solved(l, 12, iterated(l, v, n - 1))))
    }
}

fn sum_squares12(v: &[Binary32; 12]) -> (r: Binary32)
    ensures
        r == squares12(v@),
{
    let ghost f = |i: int| product(v@[i], v@[i]);
    let mut n2: Binary32 = Binary32 { bits: 0 };
    for i in 0..12usize
        invariant
            f == (|i: int| product(v@[i], v@[i])),
            n2 == total(f, i as int),
    {
        assert(f(i as int) == product(v@[i as int], v@[i as int]));
        n2 = n2.plus(v[i].times(v[i]));
    }
    n2
}

fn normalize12(v: &mut [Binary32; 12])
    ensures
        final(v)@ == unit12(old(v)@),
{
    let inv: Binary32 = Binary32 { bits: ONE_BITS }.over(sqrt32(sum_squares12(v)));
    for i in 0..12usize
        invariant
            forall|k: int|
                0 <= k < 12 ==> #[trigger] v@[k] == if k < i {
                    product(old(v)@[k], inv)
                } else {
                    old(v)@[k]
                },
    {
        v[i] = v[i].times(inv);
    }
    assert(v@ =~= unit12(old(v)@));
}

/// The projection matrix before normalization.
pub open spec fn denormalized(
    p: Seq<Binary32>,
    sw: Binary32,
    cw: Vec3,
    si: Binary32,
    ci: [Binary32; 2],
) -> [Binary32; 12] {
    let sii = quotient(num(ONE_BITS), si);
    let q0 = sum(product(p[0], sii), product(ci[0], p[8]));
    let q1 = sum(product(p[1], sii), product(ci[0], p[9]));
    let q2 = sum(product(p[2], sii), product(ci[0], p[10]));
    let q3 = sum(product(p[3], sii), product(ci[0], p[11]));
    let q4 = sum(product(p[4], sii), product(ci[1], p[8]));
    let q5 = sum(product(p[5], sii), product(ci[1], p[9]));
    let q6 = sum(product(p[6], sii), product(ci[1], p[10]));
    let q7 = sum(product(p[7], sii), product(ci[1], p[11]));
    let n = opposite(sw);
    let w: Vec3 = [product(n, cw[0]), product(n, cw[1]), product(n, cw[2])];
    [
        product(q0, sw),
        product(q1, sw),
        product(q2, sw),
        sum(dot([q0, q1, q2], w), q3),
        product(q4, sw),
        product(q5, sw),
        product(q6, sw),
        sum(dot([q4, q5, q6], w), q7),
        product(p[8], sw),
        product(p[9], sw),
        product(p[10], sw),
        sum(dot([p[8], p[9], p[10]], w), p[11]),
    ]
}

/// Undoes the normalization of a 3x4 projection matrix.
pub fn denormalize_p(
    p: &[Binary32; 12],
    sw: Binary32,
    cw: &Vec3,
    si: Binary32,
    ci: &[Binary32; 2],
) -> (r: [Binary32; 12])
    ensures
        r == denormalized(p@, sw, *cw, si, *ci),
{
    let sii: Binary32 = Binary32 { bits: ONE_BITS }.over(si);
    let q0: Binary32 = p[0].times(sii).plus(ci[0].times(p[8]));
    let q1: Binary32 = p[1].times(sii).plus(ci[0].times(p[9]));
    let q2: Binary32 = p[2].times(sii).plus(ci[0].times(p[10]));
    let q3: Binary32 = p[3].times(sii).plus(ci[0].times(p[11]));
    let q4: Binary32 = p[4].times(sii).plus(ci[1].times(p[8]));
    let q5: Binary32 = p[5].times(sii).plus(ci[1].times(p[9]));
    let q6: Binary32 = p[6].times(sii).plus(ci[1].times(p[10]));
    let q7: Binary32 = p[7].times(sii).plus(ci[1].times(p[11]));
    let n: Binary32 = sw.negated();
    let w: Vec3 = [n.times(cw[0]), n.times(cw[1]), n.times(cw[2])];
    [
        q0.times(sw),
        q1.times(sw),
        q2.times(sw),
        dot3(&[q0, q1, q2], &w).plus(q3),
        q4.times(sw),
        q5.times(sw),
        q6.times(sw),
        dot3(&[q4, q5, q6], &w).plus(q7),
        p[8].times(sw),
        p[9].times(sw),
        p[10].times(sw),
        dot3(&[p[8], p[9], p[10]], &w).plus(p[11]),
    ]
}

/// A vector divided by a number.
pub open spec fn scaled_down(v: Vec3, d: Binary32) -> Vec3 {
    [quotient(v[0], d), quotient(v[1], d), quotient(v[2], d)]
}

/// The opposite vector.
pub open spec fn reversed(v: Vec3) -> Vec3 {
    [opposite(v[0]), opposite(v[1]), opposite(v[2])]
}

/// `v` less `k` times `e`.
pub open spec fn reduced(v: Vec3, k: Binary32, e: Vec3) -> Vec3 {
    [
        difference(v[0], product(k, e[0])),
        difference(v[1], product(k, e[1])),
        difference(v[2], product(k, e[2])),
    ]
}

/// A usable length: above the given bound and finite.
pub open spec fn usable(x: Binary32, bound: u32) -> bool {
    less(num(bound), x) && x.finite()
}

/// The two directions are nearly parallel.
pub open spec fn nearly_parallel(a: Vec3, b: Vec3) -> bool {
    less(num(PARALLEL_BITS), magnitude(dot(a, b)))
}

/// The first two rotation columns of a 3x4 projection matrix with the determinant sign applied, the
/// second one made orthogonal to the first but not yet a unit vector.
pub open spec fn two_axes(u0: Vec3, u1: Vec3, flip: bool) -> (Vec3, Vec3) {
    let e0 = if flip {
        reversed(u0)
    } else {
        u0
    };
    let v1 = if flip {
        reversed(u1)
    } else {
        u1
    };
    (e0, reduced(v1, dot(e0, v1), e0))
}

/// The pose with the axes `e0` and `e1` and the translation `t`.
pub open spec fn pose_with(e0: Vec3, e1: Vec3, t: Vec3) -> Pose {
    let e2 = cross(e0, e1);
    Pose {
        r: [[e0[0], e1[0], e2[0]], [e0[1], e1[1], e2[1]], [e0[2], e1[2], e2[2]]],
        t,
    }
}

/// The diagonal of the rotation and the translation are finite.
pub open spec fn pose_finite(x: Pose) -> bool {
    &&& x.r[0][0].finite()
    &&& x.r[1][1].finite()
    &&& x.r[2][2].finite()
    &&& x.t[0].finite()
    &&& x.t[1].finite()
    &&& x.t[2].finite()
}

/// The rotation part of a 3x4 projection matrix.
pub open spec fn left_block(p: Seq<Binary32>) -> Mat3 {
    [[p[0], p[1], p[2]], [p[4], p[5], p[6]], [p[8], p[9], p[10]]]
}

/// The pose that a 3x4 projection matrix stands for up to scale. The scale is the mean column length
/// with the sign of the determinant; the rotation is made orthonormal. `None` where a column has no
/// usable length, the determinant is zero, two columns are nearly parallel, or the pose is not finite.
pub open spec fn pose_from(p: Seq<Binary32>) -> Option<Pose> {
    let b = left_block(p);
    let n0 = length(column(b, 0));
    let n1 = length(column(b, 1));
    let n2 = length(column(b, 2));
    let db = determinant(b);
    let scale = quotient(sum(sum(n0, n1), n2), num(THREE_BITS));
    let flip = less(db, num(0));
    let mu = if flip {
        opposite(scale)
    } else {
        scale
    };
    let u0 = scaled_down(column(b, 0), n0);
    let u1 = scaled_down(column(b, 1), n1);
    let u2 = scaled_down(column(b, 2), n2);
    let (e0, w1) = two_axes(u0, u1, flip);
    let ne1 = length(w1);
    let x = pose_with(
        e0,
        scaled_down(w1, ne1),
        [quotient(p[3], mu), quotient(p[7], mu), quotient(p[11], mu)],
    );
    if !usable(n0, MIN_NORMAL_BITS) || !usable(n1, MIN_NORMAL_BITS) || !usable(
        n2,
        MIN_NORMAL_BITS,
    ) {
        None
    } else if !db.finite() || db.units() == 0 {
        None
    } else if nearly_parallel(u0, u1) || nearly_parallel(u0, u2) || nearly_parallel(u1, u2) {
        None
    } else if !usable(ne1, MICRO_BITS) || !pose_finite(x) {
        None
    } else {
        Some(x)
    }
}

fn is_usable(x: Binary32, bound: u32) -> (r: bool)
    ensures
        r == usable(x, bound),
{
    is_less(Binary32 { bits: bound }, x) && x.is_finite()
}

fn is_nearly_parallel(a: &Vec3, b: &Vec3) -> (r: bool)
    ensures
        r == nearly_parallel(*a, *b),
{
    is_less(Binary32 { bits: PARALLEL_BITS }, dot3(a, b).abs())
}

fn scale_down(v: &Vec3, d: Binary32) -> (r: Vec3)
    ensures
        r == scaled_down(*v, d),
{
    [v[0].over(d), v[1].over(d), v[2].over(d)]
}

fn axes(u0: &Vec3, u1: &Vec3, flip: bool) -> (r: (Vec3, Vec3))
    ensures
        r == two_axes(*u0, *u1, flip),
{
    let e0: Vec3 = if flip {
        [u0[0].negated(), u0[1].negated(), u0[2].negated()]
    } else {
        [u0[0], u0[1], u0[2]]
    };
    let v1: Vec3 = if flip {
        [u1[0].negated(), u1[1].negated(), u1[2].negated()]
    } else {
        [u1[0], u1[1], u1[2]]
    };
    let pr: Binary32 = dot3(&e0, &v1);
    let e1: Vec3 = [
        v1[0].minus(pr.times(e0[0])),
        v1[1].minus(pr.times(e0[1])),
        v1[2].minus(pr.times(e0[2])),
    ];
    assert(e0 == two_axes(*u0, *u1, flip).0);
    (e0, e1)
}

/// The pose that a 3x4 projection matrix stands for up to scale.
pub fn pose_from_p(p: &[Binary32; 12]) -> (r: Option<Pose>)
    ensures
        r == pose_from(p@),
{
    let b: Mat3 = [[p[0], p[1], p[2]], [p[4], p[5], p[6]], [p[8], p[9], p[10]]];
    assert(b == left_block(p@));
    let c0: Vec3 = column3(&b, 0);
    let c1: Vec3 = column3(&b, 1);
    let c2: Vec3 = column3(&b, 2);
    let n0: Binary32 = norm3(&c0);
    let n1: Binary32 = norm3(&c1);
    let n2: Binary32 = norm3(&c2);
    if !is_usable(n0, MIN_NORMAL_BITS) || !is_usable(n1, MIN_NORMAL_BITS) || !is_usable(
        n2,
        MIN_NORMAL_BITS,
    ) {
        return None;
    }
    let scale: Binary32 = n0.plus(n1).plus(n2).over(Binary32 { bits: THREE_BITS });
    let db: Binary32 = det3(&b);
    if !db.is_finite() || is_zero_number(db) {
        return None;
    }
    let flip: bool = is_less(db, Binary32 { bits: 0 });
    let mu: Binary32 = if flip {
        scale.negated()
    } else {
        scale
    };
    let u0: Vec3 = scale_down(&c0, n0);
    let u1: Vec3 = scale_down(&c1, n1);
    let u2: Vec3 = scale_down(&c2, n2);
    if is_nearly_parallel(&u0, &u1) || is_nearly_parallel(&u0, &u2) || is_nearly_parallel(
        &u1,
        &u2,
    ) {
        return None;
    }
    let (e0, w1): (Vec3, Vec3) = axes(&u0, &u1, flip);
    let ne1: Binary32 = norm3(&w1);
    if !is_usable(ne1, MICRO_BITS) {
        return None;
    }
    let e1: Vec3 = scale_down(&w1, ne1);
    let e2: Vec3 = cross3(&e0, &e1);
    let x: Pose = Pose {
        r: [[e0[0], e1[0], e2[0]], [e0[1], e1[1], e2[1]], [e0[2], e1[2], e2[2]]],
        t: [p[3].over(mu), p[7].over(mu), p[11].over(mu)],
    };
    if !(x.r[0][0].is_finite() && x.r[1][1].is_finite() && x.r[2][2].is_finite()
        && x.t[0].is_finite() && x.t[1].is_finite() && x.t[2].is_finite()) {
        return None;
    }
    Some(x)
}

/// Whether a finite number is zero.
fn is_zero_number(x: Binary32) -> (r: bool)
    requires
        x.finite(),
    ensures
        r == (x.units() == 0),
{
    is_at_most(x, Binary32 { bits: 0 }) && is_at_most(Binary32 { bits: 0 }, x)
}

/// The linear solution of a sample with the starting vector that twelve random numbers give.
#[verifier::opaque]
pub open spec fn dlt(corrs: Seq<Correspondence>, idx: Seq<usize>, draws: Seq<u32>) -> Option<Pose> {
    let z = normalization(corrs, idx);
    let start = Seq::new(12, |i: int| start_entry(draws[i]));
    if !solvable(corrs, idx) || !less(num(0), squares12(start)) {
        None
    } else {
        let v = iterated(factored(system(corrs, idx), 12), unit12(start), N_ITER_INV as int);
        pose_from(denormalized(v, z.sw, z.cw, z.si, z.ci)@)
    }
}

/// The linear solution of a sample, from its factored system and twelve random numbers.
pub(crate) fn dlt_solve(
    l: &[Binary32; 144],
    z: &Normalization,
    draws: &[u32; 12],
    Ghost(corrs): Ghost<Seq<Correspondence>>,
    Ghost(idx): Ghost<Seq<usize>>,
) -> (r: Option<Pose>)
    requires
        solvable(corrs, idx),
        l@ == factored(system(corrs, idx), 12),
        *z == normalization(corrs, idx),
    ensures
        r == dlt(corrs, idx, draws@),
{
    reveal(dlt);
    let mut v: [Binary32; 12] = [Binary32 { bits: 0 }; 12];
    let two: Binary32 = Binary32 { bits: TWO_BITS };
    let whole: Binary32 = Binary32 { bits: TWO_24_BITS };
    let one: Binary32 = Binary32 { bits: ONE_BITS };
    for i in 0..12usize
        invariant
            two == num(TWO_BITS),
            whole == num(TWO_24_BITS),
            one == num(ONE_BITS),
            forall|k: int| 0 <= k < i ==> #[trigger] v@[k] == start_entry(draws@[k]),
    {
        v[i] = two.times(from_u64((draws[i] / 256) as u64)).over(whole).minus(one);
    }
    let ghost start = Seq::new(12, |i: int| start_entry(draws@[i]));
    assert(v@ =~= start);
    if !is_less(Binary32 { bits: 0 }, sum_squares12(&v)) {
        return None;
    }
    normalize12(&mut v);
    let mut y: [Binary32; 12] = [Binary32 { bits: 0 }; 12];
    for n in 0..N_ITER_INV
        invariant
            v@ == iterated(l@, unit12(start), n as int),
    {
        solve_forward(l, 12, &v, &mut y);
        solve_backward(l, 12, &y, &mut v);
        normalize12(&mut v);
    }
    let p: [Binary32; 12] = denormalize_p(&v, z.sw, &z.cw, z.si, &z.ci);
    pose_from_p(&p)
}

/// The linear solution of a sample, with the starting vector that twelve random numbers give.
pub fn dlt_from_draws(corrs: &[Correspondence], idx: &[usize], draws: &[u32; 12]) -> (r: Option<
    Pose,
>)
    requires
        sample_inside(corrs@, idx@),
    ensures
        r == dlt(corrs@, idx@, draws@),
{
    match dlt_factor(corrs, idx) {
        Some((l, z)) => dlt_solve(&l, &z, draws, Ghost(corrs@), Ghost(idx@)),
        None => {
            reveal(dlt);
            None
        },
    }
}

/// The skew matrix of a vector.
pub open spec fn skew(w: Vec3) -> Mat3 {
    let o = num(0);
    [[o, opposite(w[2]), w[1]], [w[2], o, opposite(w[0])], [opposite(w[1]), w[0], o]]
}

/// A rotation vector held to length 1/2, and its squared length.
pub open spec fn limited(w: Vec3) -> (Vec3, Binary32) {
    let t2 = dot(w, w);
    if less(num(QUARTER_BITS), t2) {
        let s = quotient(num(HALF_BITS), root(t2));
        ([product(w[0], s), product(w[1], s), product(w[2], s)], num(QUARTER_BITS))
    } else {
        (w, t2)
    }
}

/// One entry of the rotation: identity plus `sa` and `ca` times the skew matrix and its square.
pub open spec fn rodrigues(
    unit: Binary32,
    sa: Binary32,
    x: Binary32,
    ca: Binary32,
    x2: Binary32,
) -> Binary32 {
    sum(sum(unit, product(sa, x)), product(ca, x2))
}

/// The rotation by a rotation vector, by a short series in the angle.
pub open spec fn rotation(w0: Vec3) -> Mat3 {
    let (w, t2) = limited(w0);
    let t4 = product(t2, t2);
    let sa = sum(
        difference(num(ONE_BITS), quotient(t2, num(SIX_BITS))),
        quotient(t4, num(ONE_TWENTY_BITS)),
    );
    let ca = sum(
        difference(num(HALF_BITS), quotient(t2, num(TWENTY_FOUR_BITS))),
        quotient(t4, num(SEVEN_TWENTY_BITS)),
    );
    let x = skew(w);
    let y = matrix_product(x, x);
    let i = num(ONE_BITS);
    let o = num(0);
    [
        [
            rodrigues(i, sa, x[0][0], ca, y[0][0]),
            rodrigues(o, sa, x[0][1], ca, y[0][1]),
            rodrigues(o, sa, x[0][2], ca, y[0][2]),
        ],
        [
            rodrigues(o, sa, x[1][0], ca, y[1][0]),
            rodrigues(i, sa, x[1][1], ca, y[1][1]),
            rodrigues(o, sa, x[1][2], ca, y[1][2]),
        ],
        [
            rodrigues(o, sa, x[2][0], ca, y[2][0]),
            rodrigues(o, sa, x[2][1], ca, y[2][1]),
            rodrigues(i, sa, x[2][2], ca, y[2][2]),
        ],
    ]
}

fn rodrigues_entry(unit: Binary32, sa: Binary32, x: Binary32, ca: Binary32, x2: Binary32) -> (r:
    Binary32)
    ensures
        r == rodrigues(unit, sa, x, ca, x2),
{
    unit.plus(sa.times(x)).plus(ca.times(x2))
}

fn limit(w: &Vec3) -> (r: (Vec3, Binary32))
    ensures
        r == limited(*w),
{
    let t2: Binary32 = dot3(w, w);
    let quarter: Binary32 = Binary32 { bits: QUARTER_BITS };
    if is_less(quarter, t2) {
        let s: Binary32 = Binary32 { bits: HALF_BITS }.over(sqrt32(t2));
        ([w[0].times(s), w[1].times(s), w[2].times(s)], quarter)
    } else {
        (*w, t2)
    }
}

/// The rotation by a rotation vector, held to an angle of 1/2.
pub fn exp_so3(w0: &Vec3) -> (r: Mat3)
    ensures
        r == rotation(*w0),
{
    let (w, t2): (Vec3, Binary32) = limit(w0);
    let t4: Binary32 = t2.times(t2);
    let i: Binary32 = Binary32 { bits: ONE_BITS };
    let o: Binary32 = Binary32 { bits: 0 };
    let sa: Binary32 = i.minus(t2.over(Binary32 { bits: SIX_BITS })).plus(
        t4.over(Binary32 { bits: ONE_TWENTY_BITS }),
    );
    let ca: Binary32 = Binary32 { bits: HALF_BITS }.minus(
        t2.over(Binary32 { bits: TWENTY_FOUR_BITS }),
    ).plus(t4.over(Binary32 { bits: SEVEN_TWENTY_BITS }));
    let x: Mat3 = [
        [o, w[2].negated(), w[1]],
        [w[2], o, w[0].negated()],
        [w[1].negated(), w[0], o],
    ];
    assert(x == skew(w));
    let y: Mat3 = mat_mul3(&x, &x);
    [
        [
            rodrigues_entry(i, sa, x[0][0], ca, y[0][0]),
            rodrigues_entry(o, sa, x[0][1], ca, y[0][1]),
            rodrigues_entry(o, sa, x[0][2], ca, y[0][2]),
        ],
        [
            rodrigues_entry(o, sa, x[1][0], ca, y[1][0]),
            rodrigues_entry(i, sa, x[1][1], ca, y[1][1]),
            rodrigues_entry(o, sa, x[1][2], ca, y[1][2]),
        ],
        [
            rodrigues_entry(o, sa, x[2][0], ca, y[2][0]),
            rodrigues_entry(o, sa, x[2][1], ca, y[2][1]),
            rodrigues_entry(i, sa, x[2][2], ca, y[2][2]),
        ],
    ]
}

/// Correspondence `i` takes part: all do without a mask.
pub open spec fn used(mask: Option<Seq<bool>>, i: int) -> bool {
    match mask {
        Some(m) => i < m.len() && m[i],
        None => true,
    }
}

/// A point in camera coordinates before the translation, and its depth.
pub open spec fn seen(x: Pose, c: Correspondence) -> (Vec3, Binary32) {
    let xc = rotated(x.r, c.world);
    (xc, sum(xc[2], x.t[2]))
}

/// Normalized reprojection error of a correspondence.
pub open spec fn residual(x: Pose, c: Correspondence) -> (Binary32, Binary32) {
    let (xc, z) = seen(x, c);
    (
        difference(c.xn, quotient(sum(xc[0], x.t[0]), z)),
        difference(c.yn, quotient(sum(xc[1], x.t[1]), z)),
    )
}

/// The point is at no positive depth.
pub open spec fn too_near(x: Pose, c: Correspondence) -> bool {
    at_most(seen(x, c).1, num(MICRO_BITS))
}

/// Cost of a correspondence: the squared error, or a million for a point that is too near.
pub open spec fn point_cost(x: Pose, c: Correspondence) -> Binary32 {
    if too_near(x, c) {
        num(MILLION_BITS)
    } else {
        squares2(residual(x, c).0, residual(x, c).1)
    }
}

/// Cost of the first `n` correspondences.
pub open spec fn cost_upto(
    x: Pose,
    corrs: Seq<Correspondence>,
    mask: Option<Seq<bool>>,
    n: int,
) -> Binary32
    decreases n,
{
    if n <= 0 {
        num(0)
    } else if used(mask, n - 1) {
        sum(cost_upto(x, corrs, mask, n - 1), point_cost(x, corrs[n - 1]))
    } else {
        cost_upto(x, corrs, mask, n - 1)
    }
}

/// Cost of a pose.
pub open spec fn cost_of(x: Pose, corrs: Seq<Correspondence>, mask: Option<Seq<bool>>) -> Binary32 {
    cost_upto(x, corrs, mask, corrs.len() as int)
}

/// How many of the first `n` correspondences take part.
pub open spec fn used_upto(mask: Option<Seq<bool>>, n: int) -> nat
    decreases n,
{
    if n <= 0 {
        0
    } else if used(mask, n - 1) {
        used_upto(mask, n - 1) + 1
    } else {
        used_upto(mask, n - 1)
    }
}

/// The mask as a sequence.
pub open spec fn mask_view(mask: Option<&[bool]>) -> Option<Seq<bool>> {
    match mask {
        Some(m) => Some(m@),
        None => None,
    }
}

fn is_used(mask: Option<&[bool]>, i: usize) -> (r: bool)
    ensures
        r == used(mask_view(mask), i as int),
{
    match mask {
        Some(m) => i < m.len() && m[i],
        None => true,
    }
}

fn see(x: &Pose, c: &Correspondence) -> (r: (Vec3, Binary32))
    ensures
        r == seen(*x, *c),
{
    let xc: Vec3 = rot_vec(&x.r, &c.world);
    let z: Binary32 = xc[2].plus(x.t[2]);
    (xc, z)
}

/// Cost and number of the correspondences that take part.
pub fn pose_cost(x: &Pose, corrs: &[Correspondence], mask: Option<&[bool]>) -> (r: (usize, Binary32))
    ensures
        r.0 == used_upto(mask_view(mask), corrs@.len() as int),
        r.1 == cost_of(*x, corrs@, mask_view(mask)),
{
    let mut count: usize = 0;
    let mut cost: Binary32 = Binary32 { bits: 0 };
    for i in 0..corrs.len()
        invariant
            count == used_upto(mask_view(mask), i as int),
            count <= i,
            cost == cost_upto(*x, corrs@, mask_view(mask), i as int),
    {
        if is_used(mask, i) {
            count = count + 1;
            let c: Correspondence = corrs[i];
            let (xc, z): (Vec3, Binary32) = see(x, &c);
            if is_at_most(z, Binary32 { bits: MICRO_BITS }) {
                cost = cost.plus(Binary32 { bits: MILLION_BITS });
            } else {
                let dx: Binary32 = c.xn.minus(xc[0].plus(x.t[0]).over(z));
                let dy: Binary32 = c.yn.minus(xc[1].plus(x.t[1]).over(z));
                cost = cost.plus(dx.times(dx).plus(dy.times(dy)));
            }
        }
    }
    (count, cost)
}

/// Derivatives of the projection of a point by the six pose parameters: horizontal and vertical.
pub open spec fn jacobian(x: Pose, c: Correspondence) -> ([Binary32; 6], [Binary32; 6]) {
    let (xc, z) = seen(x, c);
    let iz = quotient(num(ONE_BITS), z);
    let px = product(sum(xc[0], x.t[0]), iz);
    let py = product(sum(xc[1], x.t[1]), iz);
    let o = num(0);
    (
        [
            product(product(opposite(px), iz), xc[1]),
            sum(product(iz, z), product(product(px, iz), xc[0])),
            product(opposite(iz), xc[1]),
            iz,
            o,
            product(opposite(px), iz),
        ],
        [
            difference(product(opposite(iz), z), product(product(py, iz), xc[1])),
            product(product(py, iz), xc[0]),
            product(iz, xc[0]),
            o,
            iz,
            product(opposite(py), iz),
        ],
    )
}

/// Error of the projection of a point by reciprocal depth.
pub open spec fn shortfall(x: Pose, c: Correspondence) -> (Binary32, Binary32) {
    let (xc, z) = seen(x, c);
    let iz = quotient(num(ONE_BITS), z);
    (
        difference(c.xn, product(sum(xc[0], x.t[0]), iz)),
        difference(c.yn, product(sum(xc[1], x.t[1]), iz)),
    )
}

/// Normal equations: a 6x6 matrix by rows and the right side.
pub struct Normal {
    pub a: Seq<Binary32>,
    pub g: Seq<Binary32>,
}

/// The normal equations with one more row `j` and its error `r`.
pub open spec fn with_row(m: Normal, j: [Binary32; 6], r: Binary32) -> Normal {
    Normal {
        a: Seq::new(36, |t: int| sum(m.a[t], product(j[t / 6], j[t % 6]))),
        g: Seq::new(6, |i: int| sum(m.g[i], product(j[i], r))),
    }
}

/// The normal equations of the first `n` correspondences.
pub open spec fn equations_upto(
    x: Pose,
    corrs: Seq<Correspondence>,
    mask: Option<Seq<bool>>,
    n: int,
) -> Normal
    decreases n,
{
    if n <= 0 {
        Normal { a: Seq::new(36, |t: int| num(0)), g: Seq::new(6, |i: int| num(0)) }
    } else {
        let before = equations_upto(x, corrs, mask, n - 1);
        let c = corrs[n - 1];
        if used(mask, n - 1) && !too_near(x, c) {
            let (j0, j1) = jacobian(x, c);
            let (r0, r1) = shortfall(x, c);
            with_row(with_row(before, j0, r0), j1, r1)
        } else {
            before
        }
    }
}

fn add_row(a: &mut [Binary32; 36], g: &mut [Binary32; 6], j: &[Binary32; 6], r: Binary32)
    ensures
        ({
            let m = with_row(Normal { a: old(a)@, g: old(g)@ }, *j, r);
            &&& final(a)@ == m.a
            &&& final(g)@ == m.g
        }),
{
    let ghost m = with_row(Normal { a: a@, g: g@ }, *j, r);
    for i in 0..6usize
        invariant
            m == with_row(Normal { a: old(a)@, g: old(g)@ }, *j, r),
            forall|k: int|
                0 <= k < 6 ==> #[trigger] g@[k] == if k < i {
                    m.g[k]
                } else {
                    old(g)@[k]
                },
            forall|t: int|
                0 <= t < 36 ==> #[trigger] a@[t] == if t / 6 < i {
                    m.a[t]
                } else {
                    old(a)@[t]
                },
    {
        g[i] = g[i].plus(j[i].times(r));
        for k in 0..6usize
            invariant
                i < 6,
                m == with_row(Normal { a: old(a)@, g: old(g)@ }, *j, r),
                forall|t: int|
                    0 <= t < 36 ==> #[trigger] a@[t] == if t / 6 < i || (t / 6 == i && t % 6 < k) {
                        m.a[t]
                    } else {
                        old(a)@[t]
                    },
        {
            let t: usize = i * 6 + k;
            assert(t as int / 6 == i && t as int % 6 == k);
            a[t] = a[t].plus(j[i].times(j[k]));
        }
    }
    assert(a@ =~= m.a);
    assert(g@ =~= m.g);
}

/// The normal equations of a pose.
pub fn normal_equations(x: &Pose, corrs: &[Correspondence], mask: Option<&[bool]>) -> (r: (
    [Binary32; 36],
    [Binary32; 6],
))
    ensures
        ({
            let m = equations_upto(*x, corrs@, mask_view(mask), corrs@.len() as int);
            &&& r.0@ == m.a
            &&& r.1@ == m.g
        }),
{
    let mut a: [Binary32; 36] = [Binary32 { bits: 0 }; 36];
    let mut g: [Binary32; 6] = [Binary32 { bits: 0 }; 6];
    let one: Binary32 = Binary32 { bits: ONE_BITS };
    let o: Binary32 = Binary32 { bits: 0 };
    proof {
        let m = equations_upto(*x, corrs@, mask_view(mask), 0);
        assert(a@ =~= m.a);
        assert(g@ =~= m.g);
    }
    for i in 0..corrs.len()
        invariant
            one == num(ONE_BITS),
            o == num(0),
            a@ == equations_upto(*x, corrs@, mask_view(mask), i as int).a,
            g@ == equations_upto(*x, corrs@, mask_view(mask), i as int).g,
    {
        let ghost before = equations_upto(*x, corrs@, mask_view(mask), i as int);
        let c: Correspondence = corrs[i];
        let (xc, z): (Vec3, Binary32) = see(x, &c);
        if is_used(mask, i) && !is_at_most(z, Binary32 { bits: MICRO_BITS }) {
            let iz: Binary32 = one.over(z);
            let px: Binary32 = xc[0].plus(x.t[0]).times(iz);
            let py: Binary32 = xc[1].plus(x.t[1]).times(iz);
            let j0: [Binary32; 6] = [
                px.negated().times(iz).times(xc[1]),
                iz.times(z).plus(px.times(iz).times(xc[0])),
                iz.negated().times(xc[1]),
                iz,
                o,
                px.negated().times(iz),
            ];
            let j1: [Binary32; 6] = [
                iz.negated().times(z).minus(py.times(iz).times(xc[1])),
                py.times(iz).times(xc[0]),
                iz.times(xc[0]),
                o,
                iz,
                py.negated().times(iz),
            ];
            assert(j0 == jacobian(*x, c).0 && j1 == jacobian(*x, c).1);
            let ghost m0 = Normal { a: a@, g: g@ };
            assert(m0 == before);
            add_row(&mut a, &mut g, &j0, c.xn.minus(px));
            let ghost m1 = Normal { a: a@, g: g@ };
            assert(m1 == with_row(m0, j0, shortfall(*x, c).0));
            add_row(&mut a, &mut g, &j1, c.yn.minus(py));
        }
    }
    (a, g)
}

/// The largest of 10^-12 and a millionth of the first `n` diagonal entries of a 6x6 matrix.
pub open spec fn damping_floor(a: Seq<Binary32>, n: int) -> Binary32
    decreases n,
{
    if n <= 0 {
        num(PICO_BITS)
    } else {
        larger(
            damping_floor(a, n - 1),
            product(magnitude(a[(n - 1) * 7]), num(MICRO_BITS)),
        )
    }
}

/// A 6x6 matrix with a damped diagonal.
pub open spec fn damped(a: Seq<Binary32>, lambda: Binary32) -> Seq<Binary32> {
    let floor = damping_floor(a, 6);
    Seq::new(
        36,
        |t: int|
            if t % 7 == 0 {
                sum(a[t], sum(product(lambda, larger(magnitude(a[t]), floor)), floor))
            } else {
                a[t]
            },
    )
}

/// A pose after the step `d`: rotation first, then translation.
pub open spec fn stepped(x: Pose, d: Seq<Binary32>) -> Pose {
    Pose {
        r: matrix_product(rotation([d[0], d[1], d[2]]), x.r),
        t: [sum(x.t[0], d[3]), sum(x.t[1], d[4]), sum(x.t[2], d[5])],
    }
}

/// State of a refinement: the pose, its cost and the damping.
#[derive(Clone, Copy, Debug, PartialEq, Eq)]
pub struct Refinement {
    pub pose: Pose,
    pub cost: Binary32,
    pub lambda: Binary32,
}

/// The candidate pose of one damped step; `None` where the step cannot be computed.
pub open spec fn candidate(m: Normal, s: Refinement) -> Option<Pose> {
    let a = damped(m.a, s.lambda);
    if factorable(a, 6) && all_finite(solution6(a, m.g)) {
        Some(stepped(s.pose, solution6(a, m.g)))
    } else {
        None
    }
}

/// The candidate exists and lowers the cost.
pub open spec fn improves(
    m: Normal,
    s: Refinement,
    corrs: Seq<Correspondence>,
    mask: Option<Seq<bool>>,
) -> bool {
    candidate(m, s) matches Some(x) && less(cost_of(x, corrs, mask), s.cost)
}

/// State after the candidate was taken.
pub open spec fn taken(
    m: Normal,
    s: Refinement,
    corrs: Seq<Correspondence>,
    mask: Option<Seq<bool>>,
) -> Refinement {
    let x = candidate(m, s)->0;
    Refinement {
        pose: x,
        cost: cost_of(x, corrs, mask),
        lambda: larger(product(s.lambda, num(THREE_TENTHS_BITS)), num(MICRO_BITS)),
    }
}

/// State after the candidate was refused.
pub open spec fn refused(s: Refinement) -> Refinement {
    Refinement {
        lambda: smaller(product(s.lambda, num(THREE_BITS)), num(MILLION_BITS)),
        ..s
    }
}

/// Tries up to `n` damping factors; says whether one gave a better pose.
pub open spec fn tried(
    m: Normal,
    s: Refinement,
    corrs: Seq<Correspondence>,
    mask: Option<Seq<bool>>,
    n: int,
) -> (Refinement, bool)
    decreases n,
{
    if n <= 0 {
        (s, false)
    } else if improves(m, s, corrs, mask) {
        (taken(m, s, corrs, mask), true)
    } else {
        tried(m, refused(s), corrs, mask, n - 1)
    }
}

/// Up to `n` steps of refinement: the pose where no damping factor improves it any more.
pub open spec fn walked(
    s: Refinement,
    corrs: Seq<Correspondence>,
    mask: Option<Seq<bool>>,
    n: int,
) -> Pose
    decreases n,
{
    if n <= 0 {
        s.pose
    } else {
        let m = equations_upto(s.pose, corrs, mask, corrs.len() as int);
        let (next, better) = tried(m, s, corrs, mask, MAX_TRIES as int);
        if better {
            walked(next, corrs, mask, n - 1)
        } else {
            next.pose
        }
    }
}

/// The refinement of a pose against the correspondences that take part; the pose itself where they
/// are fewer than four.
#[verifier::opaque]
pub open spec fn refined(x: Pose, corrs: Seq<Correspondence>, mask: Option<Seq<bool>>) -> Pose {
    if used_upto(mask, corrs.len() as int) < 4 {
        x
    } else {
        walked(
            Refinement { pose: x, cost: cost_of(x, corrs, mask), lambda: num(MILLI_BITS) },
            corrs,
            mask,
            MAX_STEPS as int,
        )
    }
}

fn damp(a: &[Binary32; 36], lambda: Binary32) -> (m: [Binary32; 36])
    ensures
        m@ == damped(a@, lambda),
{
    let mut floor: Binary32 = Binary32 { bits: PICO_BITS };
    for i in 0..6usize
        invariant
            floor == damping_floor(a@, i as int),
    {
        floor = larger_of(floor, a[i * 7].abs().times(Binary32 { bits: MICRO_BITS }));
    }
    let mut m: [Binary32; 36] = *a;
    for i in 0..6usize
        invariant
            floor == damping_floor(a@, 6),
            forall|t: int|
                0 <= t < 36 ==> #[trigger] m@[t] == if t % 7 == 0 && t < i * 7 {
                    damped(a@, lambda)[t]
                } else {
                    a@[t]
                },
    {
        let d: usize = i * 7;
        assert(d as int % 7 == 0);
        let step: Binary32 = lambda.times(larger_of(a[d].abs(), floor)).plus(floor);
        m[d] = m[d].plus(step);
    }
    assert(m@ =~= damped(a@, lambda));
    m
}

fn step_pose(x: &Pose, d: &[Binary32; 6]) -> (r: Pose)
    ensures
        r == stepped(*x, d@),
{
    let w: Vec3 = [d[0], d[1], d[2]];
    Pose {
        r: mat_mul3(&exp_so3(&w), &x.r),
        t: [x.t[0].plus(d[3]), x.t[1].plus(d[4]), x.t[2].plus(d[5])],
    }
}

/// Tries the damping factors of one refinement step.
fn try_step(
    a: &[Binary32; 36],
    g: &[Binary32; 6],
    s: Refinement,
    corrs: &[Correspondence],
    mask: Option<&[bool]>,
) -> (r: (Refinement, bool))
    ensures
        r == tried(
            Normal { a: a@, g: g@ },
            s,
            corrs@,
            mask_view(mask),
            MAX_TRIES as int,
        ),
{
    let ghost m = Normal { a: a@, g: g@ };
    let mut now: Refinement = s;
    let mut left: usize = MAX_TRIES;
    while left > 0
        invariant
            left <= MAX_TRIES,
            m == (Normal { a: a@, g: g@ }),
            tried(m, s, corrs@, mask_view(mask), MAX_TRIES as int) == tried(
                m,
                now,
                corrs@,
                mask_view(mask),
                left as int,
            ),
        decreases left,
    {
        let damped_a: [Binary32; 36] = damp(a, now.lambda);
        if let Some(d) = solve6(&damped_a, g) {
            let cand: Pose = step_pose(&now.pose, &d);
            let (_, cc): (usize, Binary32) = pose_cost(&cand, corrs, mask);
            assert(candidate(m, now) == Some(cand));
            if is_less(cc, now.cost) {
                let lambda: Binary32 = larger_of(
                    now.lambda.times(Binary32 { bits: THREE_TENTHS_BITS }),
                    Binary32 { bits: MICRO_BITS },
                );
                return (Refinement { pose: cand, cost: cc, lambda }, true);
            }
        } else {
            assert(candidate(m, now) is None);
        }
        now = Refinement {
            pose: now.pose,
            cost: now.cost,
            lambda: smaller_of(
                now.lambda.times(Binary32 { bits: THREE_BITS }),
                Binary32 { bits: MILLION_BITS },
            ),
        };
        left = left - 1;
    }
    (now, false)
}

/// Refines a pose against the correspondences that take part, minimizing the normalized reprojection
/// error. The pose is returned as it is where no step improves it.
pub fn refine_pose(pose: Pose, corrs: &[Correspondence], use_mask: Option<&[bool]>) -> (r: Pose)
    ensures
        r == refined(pose, corrs@, mask_view(use_mask)),
{
    reveal(refined);
    let ghost mask = mask_view(use_mask);
    let (count, cost): (usize, Binary32) = pose_cost(&pose, corrs, use_mask);
    if count < 4 {
        return pose;
    }
    let mut now: Refinement = Refinement { pose, cost, lambda: Binary32 { bits: MILLI_BITS } };
    let mut left: usize = MAX_STEPS;
    while left > 0
        invariant
            left <= MAX_STEPS,
            mask == mask_view(use_mask),
            refined(pose, corrs@, mask) == walked(now, corrs@, mask, left as int),
        decreases left,
    {
        let (a, g): ([Binary32; 36], [Binary32; 6]) = normal_equations(
            &now.pose,
            corrs,
            use_mask,
        );
        assert(Normal { a: a@, g: g@ } == equations_upto(
            now.pose,
            corrs@,
            mask,
            corrs@.len() as int,
        ));
        let (next, better): (Refinement, bool) = try_step(&a, &g, now, corrs, use_mask);
        if !better {
            return next.pose;
        }
        now = next;
        left = left - 1;
    }
    now.pose
}

proof fn lemma_tried(
    m: Normal,
    s: Refinement,
    corrs: Seq<Correspondence>,
    mask: Option<Seq<bool>>,
    n: int,
)
    ensures
        ({
            let (next, better) = tried(m, s, corrs, mask, n);
            &&& !better ==> next.pose == s.pose
            &&& better ==> less(next.cost, s.cost) && next.cost == cost_of(
                next.pose,
                corrs,
                mask,
            )
        }),
    decreases n,
{
    if n > 0 && !improves(m, s, corrs, mask) {
        lemma_tried(m, refused(s), corrs, mask, n - 1);
    }
}

proof fn lemma_walked(
    s: Refinement,
    corrs: Seq<Correspondence>,
    mask: Option<Seq<bool>>,
    n: int,
)
    requires
        s.cost == cost_of(s.pose, corrs, mask),
    ensures
        walked(s, corrs, mask, n) == s.pose || less(
            cost_of(walked(s, corrs, mask, n), corrs, mask),
            s.cost,
        ),
    decreases n,
{
    if n > 0 {
        let m = equations_upto(s.pose, corrs, mask, corrs.len() as int);
        let (next, better) = tried(m, s, corrs, mask, MAX_TRIES as int);
        lemma_tried(m, s, corrs, mask, MAX_TRIES as int);
        if better {
            lemma_walked(next, corrs, mask, n - 1);
        }
    }
}

/// Refinement never makes a pose worse: it returns the pose itself or one of lower cost.
pub proof fn refinement_does_not_raise_cost(
    x: Pose,
    corrs: Seq<Correspondence>,
    mask: Option<Seq<bool>>,
)
    ensures
        refined(x, corrs, mask) == x || less(
            cost_of(refined(x, corrs, mask), corrs, mask),
            cost_of(x, corrs, mask),
        ),
{
    reveal(refined);
    let s = Refinement { pose: x, cost: cost_of(x, corrs, mask), lambda: num(MILLI_BITS) };
    lemma_walked(s, corrs, mask, MAX_STEPS as int);
}

} // verus!
