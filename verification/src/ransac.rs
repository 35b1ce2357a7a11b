//! Camera pose from matched points with outliers: fixed-iteration RANSAC over the linear solution, each
//! hypothesis refined on its sample, the winner refined on its inliers.

use vstd::prelude::*;

use crate::binary32::{
    at_most, difference, from_u64, is_at_most, is_less, less, magnitude, nearest_int, product,
    quotient, sum, Binary32,
};
use crate::linalg::{num, rot_vec, Mat3, Vec3};
use crate::pose::{
    dlt, dlt_factor, dlt_solve, refine_pose, refined, sample_inside, seen, solvable, squares2,
    Correspondence, Pose, PICO_BITS, THREE_BITS,
};
use crate::ransac::threshold::{mask_fits, search_flags_by_distance, usable};
use crate::ransac::undistort::{distorts_back, moderate, undistortion_inverts_distortion};
use crate::sqrt::{root, sqrt32, ONE_BITS};

pub mod mean;
mod newton;
pub mod threshold;
pub mod undistort;

verus! {

/// Default number of hypotheses.
pub const RANSAC_ITERATIONS: u32 = 150;

/// Default sample size.
pub const RANSAC_SAMPLE_SIZE: usize = 8;

/// Encoding of the default inlier threshold, 4 pixels.
pub const RANSAC_REPROJ_THRESHOLD_BITS: u32 = 0x4080_0000;

/// Default number of inliers that a pose needs.
pub const MIN_PNP_INLIERS: usize = 8;

/// Smallest sample.
pub const MIN_SAMPLE_SIZE: usize = 6;

/// Largest sample.
pub const MAX_SAMPLE_SIZE: usize = 12;

/// Repetitions that sampling allows: it gives up after more than these.
pub const MAX_REDRAWS: usize = 200;

/// Encoding of 10^-20.
pub const TINY_BITS: u32 = 0x1E3C_E508;

/// A source of random numbers.
pub trait Rng {
    /// The numbers drawn so far.
    open spec fn drawn(&self) -> Seq<u32> {
        arbitrary()
    }

    /// Draws a number.
    fn next_u32(&mut self) -> (r: u32)
        ensures
            final(self).drawn() == old(self).drawn().push(r),
    ;
}

/// The xorshift64* generator.
#[derive(Clone, Copy)]
pub struct Xorshift64 {
    state: u64,
    history: Ghost<Seq<u32>>,
}

/// One step of the shift register.
pub open spec fn shifted_register(x: u64) -> u64 {
    let a = x ^ (x << 13);
    let b = a ^ (a >> 7);
    b ^ (b << 17)
}

/// The number that a register value yields.
pub open spec fn scrambled(x: u64) -> u32 {
    (x.wrapping_mul(0x2545_F491_4F6C_DD1D) >> 32) as u32
}

impl Xorshift64 {
    /// The register.
    pub closed spec fn register(self) -> u64 {
        self.state
    }

    /// The register is not zero, where it would stall.
    pub open spec fn running(self) -> bool {
        self.register() != 0
    }

    /// A generator with the given seed; zero is replaced by a fixed seed.
    pub fn new(seed: u64) -> (g: Xorshift64)
        ensures
            g.register() == if seed == 0 {
                0x9E37_79B9_7F4A_7C15
            } else {
                seed
            },
            g.running(),
            g.drawn() == Seq::<u32>::empty(),
    {
        Xorshift64 {
            state: if seed == 0 {
                0x9E37_79B9_7F4A_7C15
            } else {
                seed
            },
            history: Ghost(Seq::empty()),
        }
    }
}

impl Rng for Xorshift64 {
    closed spec fn drawn(&self) -> Seq<u32> {
        self.history@
    }

    fn next_u32(&mut self) -> (r: u32)
        ensures
            final(self).register() == shifted_register(old(self).register()),
            r == scrambled(final(self).register()),
            old(self).running() ==> final(self).running(),
    {
        proof {
            register_never_stalls(self.state);
        }
        let mut x: u64 = self.state;
        x = x ^ (x << 13);
        x = x ^ (x >> 7);
        x = x ^ (x << 17);
        self.state = x;
        let r: u32 = (x.wrapping_mul(0x2545_F491_4F6C_DD1D) >> 32) as u32;
        self.history = Ghost(self.history@.push(r));
        r
    }
}

/// A register that is not zero never becomes zero.
pub proof fn register_never_stalls(x: u64)
    ensures
        x != 0 ==> shifted_register(x) != 0,
{
    let a = x ^ (x << 13);
    let b = a ^ (a >> 7);
    assert(x != 0 ==> x ^ (x << 13) != 0) by (bit_vector);
    assert(a != 0 ==> a ^ (a >> 7) != 0) by (bit_vector);
    assert(b != 0 ==> b ^ (b << 17) != 0) by (bit_vector);
}

/// Intrinsics of a camera with one radial distortion coefficient.
#[derive(Clone, Copy, Debug, PartialEq, Eq)]
pub struct Camera {
    pub fx: Binary32,
    pub fy: Binary32,
    pub cx: Binary32,
    pub cy: Binary32,
    pub k1: Binary32,
}

/// Up to `n` Newton steps for the undistorted radius of the distorted radius `rd`, from `r`. A step
/// that leaves the positive finite numbers falls back to `rd`.
pub open spec fn undistorted_radius(k1: Binary32, rd: Binary32, r: Binary32, n: int) -> Binary32
    decreases n,
{
    let one = num(ONE_BITS);
    let r2 = product(r, r);
    let fp = sum(one, product(product(num(THREE_BITS), k1), r2));
    let next = difference(
        r,
        quotient(difference(product(r, sum(one, product(k1, r2))), rd), fp),
    );
    if n <= 0 || less(magnitude(fp), num(PICO_BITS)) {
        r
    } else if !less(num(0), next) || !next.finite() {
        rd
    } else {
        undistorted_radius(k1, rd, next, n - 1)
    }
}

/// Undistorted normalized coordinates of a pixel.
pub open spec fn undistorted(cam: Camera, u: Binary32, v: Binary32) -> [Binary32; 2] {
    let xd = quotient(difference(u, cam.cx), cam.fx);
    let yd = quotient(difference(v, cam.cy), cam.fy);
    let rd2 = squares2(xd, yd);
    if less(rd2, num(TINY_BITS)) {
        [xd, yd]
    } else {
        let rd = root(rd2);
        let s = quotient(undistorted_radius(cam.k1, rd, rd, 8), rd);
        [product(xd, s), product(yd, s)]
    }
}

impl Camera {
    /// Undistorted normalized coordinates of a pixel: inverts `x_d = x_u (1 + k1 r_u^2)` on the radius.
    pub fn pixel_to_undistorted_normalized(&self, u: Binary32, v: Binary32) -> (r: [Binary32; 2])
        ensures
            r == undistorted(*self, u, v),
            moderate(*self, u, v) ==> distorts_back(*self, u, v, r),
    {
        proof {
            if moderate(*self, u, v) {
                undistortion_inverts_distortion(*self, u, v);
            }
        }
        let xd: Binary32 = u.minus(self.cx).over(self.fx);
        let yd: Binary32 = v.minus(self.cy).over(self.fy);
        let rd2: Binary32 = xd.times(xd).plus(yd.times(yd));
        if is_less(rd2, Binary32 { bits: TINY_BITS }) {
            return [xd, yd];
        }
        let rd: Binary32 = sqrt32(rd2);
        let one: Binary32 = Binary32 { bits: ONE_BITS };
        let three: Binary32 = Binary32 { bits: THREE_BITS };
        let mut r: Binary32 = rd;
        let mut left: usize = 8;
        let mut done: bool = false;
        while left > 0 && !done
            invariant
                left <= 8,
                one == num(ONE_BITS),
                three == num(THREE_BITS),
                !done ==> undistorted_radius(self.k1, rd, rd, 8) == undistorted_radius(
                    self.k1,
                    rd,
                    r,
                    left as int,
                ),
                done ==> undistorted_radius(self.k1, rd, rd, 8) == r,
            decreases left, !done as int,
        {
            let r2: Binary32 = r.times(r);
            let fp: Binary32 = one.plus(three.times(self.k1).times(r2));
            if is_less(fp.abs(), Binary32 { bits: PICO_BITS }) {
                done = true;
            } else {
                r = r.minus(r.times(one.plus(self.k1.times(r2))).minus(rd).over(fp));
                if !is_less(Binary32 { bits: 0 }, r) || !r.is_finite() {
                    r = rd;
                    done = true;
                } else {
                    left = left - 1;
                }
            }
        }
        let s: Binary32 = r.over(rd);
        [xd.times(s), yd.times(s)]
    }
}

/// Parameters of the search. The sample size is held between 6 and 12.
#[derive(Clone, Copy, Debug, PartialEq, Eq)]
pub struct PnpOptions {
    pub iterations: u32,
    pub sample_size: usize,
    pub reproj_threshold_px: Binary32,
    pub min_inliers: usize,
}

impl Default for PnpOptions {
    fn default() -> (o: PnpOptions)
        ensures
            o == (PnpOptions {
                iterations: RANSAC_ITERATIONS,
                sample_size: RANSAC_SAMPLE_SIZE,
                reproj_threshold_px: num(RANSAC_REPROJ_THRESHOLD_BITS),
                min_inliers: MIN_PNP_INLIERS,
            }),
    {
        PnpOptions {
            iterations: RANSAC_ITERATIONS,
            sample_size: RANSAC_SAMPLE_SIZE,
            reproj_threshold_px: Binary32 { bits: RANSAC_REPROJ_THRESHOLD_BITS },
            min_inliers: MIN_PNP_INLIERS,
        }
    }
}

/// World-to-camera pose and its inlier statistics.
#[derive(Clone, Copy, Debug, PartialEq, Eq)]
pub struct PnpResult {
    pub r: Mat3,
    pub t: Vec3,
    pub inlier_count: usize,
    pub mean_reproj_error_px: Binary32,
}

/// Statistics of the best hypothesis, also of a rejected one.
#[derive(Clone, Copy, Debug, PartialEq, Eq)]
pub struct PnpBest {
    pub inlier_count: usize,
    pub mean_reproj_error_px: Binary32,
}

impl Default for PnpBest {
    fn default() -> (b: PnpBest)
        ensures
            b == (PnpBest { inlier_count: 0, mean_reproj_error_px: num(0) }),
    {
        PnpBest { inlier_count: 0, mean_reproj_error_px: Binary32 { bits: 0 } }
    }
}

/// Squared reprojection error of a correspondence in pixels.
pub open spec fn pixel_error2(x: Pose, c: Correspondence, cam: Camera) -> Binary32 {
    let (xc, z) = seen(x, c);
    squares2(
        product(cam.fx, difference(c.xn, quotient(sum(xc[0], x.t[0]), z))),
        product(cam.fy, difference(c.yn, quotient(sum(xc[1], x.t[1]), z))),
    )
}

/// The correspondence is an inlier of the pose: it lies at positive depth and its squared error is at
/// most `thr2`.
pub open spec fn inlier(x: Pose, c: Correspondence, cam: Camera, thr2: Binary32) -> bool {
    less(num(0), seen(x, c).1) && at_most(pixel_error2(x, c, cam), thr2)
}

/// How many of the first `n` correspondences are inliers.
pub open spec fn inliers_upto(
    x: Pose,
    corrs: Seq<Correspondence>,
    cam: Camera,
    thr2: Binary32,
    n: int,
) -> nat
    decreases n,
{
    if n <= 0 {
        0
    } else if inlier(x, corrs[n - 1], cam, thr2) {
        inliers_upto(x, corrs, cam, thr2, n - 1) + 1
    } else {
        inliers_upto(x, corrs, cam, thr2, n - 1)
    }
}

/// Sum of the squared errors of the inliers among the first `n` correspondences.
pub open spec fn error_upto(
    x: Pose,
    corrs: Seq<Correspondence>,
    cam: Camera,
    thr2: Binary32,
    n: int,
) -> Binary32
    decreases n,
{
    if n <= 0 {
        num(0)
    } else if inlier(x, corrs[n - 1], cam, thr2) {
        sum(error_upto(x, corrs, cam, thr2, n - 1), pixel_error2(x, corrs[n - 1], cam))
    } else {
        error_upto(x, corrs, cam, thr2, n - 1)
    }
}

/// Number of inliers of a pose.
pub open spec fn inliers(x: Pose, corrs: Seq<Correspondence>, cam: Camera, thr2: Binary32) -> nat {
    inliers_upto(x, corrs, cam, thr2, corrs.len() as int)
}

/// Sum of the squared errors of the inliers of a pose.
pub open spec fn error_of(
    x: Pose,
    corrs: Seq<Correspondence>,
    cam: Camera,
    thr2: Binary32,
) -> Binary32 {
    error_upto(x, corrs, cam, thr2, corrs.len() as int)
}

/// One flag per correspondence: whether it is an inlier.
pub open spec fn inlier_mask(
    x: Pose,
    corrs: Seq<Correspondence>,
    cam: Camera,
    thr2: Binary32,
) -> Seq<bool> {
    Seq::new(corrs.len(), |i: int| inlier(x, corrs[i], cam, thr2))
}

proof fn lemma_inliers_bound(
    x: Pose,
    corrs: Seq<Correspondence>,
    cam: Camera,
    thr2: Binary32,
    n: int,
)
    ensures
        n >= 0 ==> inliers_upto(x, corrs, cam, thr2, n) <= n,
    decreases n,
{
    if n > 0 {
        lemma_inliers_bound(x, corrs, cam, thr2, n - 1);
    }
}

/// A correspondence and its squared error where it is an inlier.
fn inlier_error(x: &Pose, c: &Correspondence, cam: &Camera, thr2: Binary32) -> (r: Option<Binary32>)
    ensures
        r is Some <==> inlier(*x, *c, *cam, thr2),
        r matches Some(d2) ==> d2 == pixel_error2(*x, *c, *cam),
{
    let xc: Vec3 = rot_vec(&x.r, &c.world);
    let z: Binary32 = xc[2].plus(x.t[2]);
    if !is_less(Binary32 { bits: 0 }, z) {
        return None;
    }
    let du: Binary32 = cam.fx.times(c.xn.minus(xc[0].plus(x.t[0]).over(z)));
    let dv: Binary32 = cam.fy.times(c.yn.minus(xc[1].plus(x.t[1]).over(z)));
    let d2: Binary32 = du.times(du).plus(dv.times(dv));
    if is_at_most(d2, thr2) {
        Some(d2)
    } else {
        None
    }
}

/// Number of inliers of a pose and the sum of their squared errors.
pub fn score_pose(x: &Pose, corrs: &[Correspondence], cam: &Camera, thr2: Binary32) -> (r: (
    usize,
    Binary32,
))
    ensures
        r.0 == inliers(*x, corrs@, *cam, thr2),
        r.1 == error_of(*x, corrs@, *cam, thr2),
{
    let mut count: usize = 0;
    let mut err2: Binary32 = Binary32 { bits: 0 };
    for i in 0..corrs.len()
        invariant
            count <= i,
            count == inliers_upto(*x, corrs@, *cam, thr2, i as int),
            err2 == error_upto(*x, corrs@, *cam, thr2, i as int),
    {
        let c: Correspondence = corrs[i];
        if let Some(d2) = inlier_error(x, &c, cam, thr2) {
            count = count + 1;
            err2 = err2.plus(d2);
        }
    }
    (count, err2)
}

/// Writes the inlier mask of a pose; returns the number of inliers and the sum of their squared
/// errors.
pub fn mask_and_error(
    x: &Pose,
    corrs: &[Correspondence],
    cam: &Camera,
    thr2: Binary32,
    out_mask: &mut [bool],
) -> (r: (usize, Binary32))
    requires
        old(out_mask).len() >= corrs.len(),
    ensures
        r.0 == inliers(*x, corrs@, *cam, thr2),
        r.1 == error_of(*x, corrs@, *cam, thr2),
        final(out_mask)@ == inlier_mask(*x, corrs@, *cam, thr2) + old(out_mask)@.skip(
            corrs@.len() as int,
        ),
{
    let mut count: usize = 0;
    let mut err2: Binary32 = Binary32 { bits: 0 };
    for i in 0..corrs.len()
        invariant
            out_mask.len() >= corrs.len(),
            out_mask@.len() == old(out_mask)@.len(),
            count <= i,
            count == inliers_upto(*x, corrs@, *cam, thr2, i as int),
            err2 == error_upto(*x, corrs@, *cam, thr2, i as int),
            forall|k: int|
                0 <= k < i ==> #[trigger] out_mask@[k] == inlier(*x, corrs@[k], *cam, thr2),
            forall|k: int|
                i <= k < out_mask@.len() ==> #[trigger] out_mask@[k] == old(out_mask)@[k],
    {
        let c: Correspondence = corrs[i];
        let mut flag: bool = false;
        if let Some(d2) = inlier_error(x, &c, cam, thr2) {
            flag = true;
            count = count + 1;
            err2 = err2.plus(d2);
        }
        out_mask[i] = flag;
    }
    assert(out_mask@ =~= inlier_mask(*x, corrs@, *cam, thr2) + old(out_mask)@.skip(
        corrs@.len() as int,
    ));
    (count, err2)
}

/// A sample of `k` distinct indices below `n`.
pub open spec fn is_sample(sample: Seq<usize>, n: int, k: int) -> bool {
    &&& sample.len() == k
    &&& forall|i: int| 0 <= i < k ==> #[trigger] sample[i] < n
    &&& forall|i: int, j: int|
        0 <= i < j < k ==> #[trigger] sample[i] != #[trigger] sample[j]
}

/// Whether `c` is among the first `slot` entries.
pub fn already_drawn(out: &[usize], slot: usize, c: usize) -> (r: bool)
    requires
        slot <= out.len(),
    ensures
        r <==> out@.take(slot as int).contains(c),
{
    for i in 0..slot
        invariant
            slot <= out.len(),
            forall|j: int| 0 <= j < i ==> #[trigger] out@[j] != c,
    {
        if out[i] == c {
            assert(out@.take(slot as int)[i as int] == c);
            return true;
        }
    }
    false
}

/// Sampling below `n` after the first `m` numbers: the distinct indices so far, and how many
/// repetitions there were.
pub open spec fn sampling(draws: Seq<u32>, n: int, m: int) -> (Seq<usize>, int)
    decreases m,
{
    if m <= 0 {
        (seq![], 0)
    } else {
        let (sample, repeated) = sampling(draws, n, m - 1);
        let c = (draws[m - 1] as int % n) as usize;
        if sample.contains(c) {
            (sample, repeated + 1)
        } else {
            (sample.push(c), repeated)
        }
    }
}

/// Sampling of `k` indices ends: all are drawn, or there were too many repetitions.
pub open spec fn sampling_ends(s: (Seq<usize>, int), k: int) -> bool {
    s.0.len() >= k || s.1 > MAX_REDRAWS
}

/// The numbers are those that sampling takes: it ends with the last of them, and not before.
pub open spec fn is_sampling(draws: Seq<u32>, n: int, k: int) -> bool {
    &&& sampling_ends(sampling(draws, n, draws.len() as int), k)
    &&& forall|m: int|
        0 <= m < draws.len() ==> !sampling_ends(#[trigger] sampling(draws, n, m), k)
}

/// The indices that sampling ends with.
pub open spec fn sample_of(draws: Seq<u32>, n: int) -> Seq<usize> {
    sampling(draws, n, draws.len() as int).0
}

proof fn lemma_sampling_push(draws: Seq<u32>, v: u32, n: int, m: int)
    requires
        0 <= m <= draws.len(),
    ensures
        sampling(draws.push(v), n, m) == sampling(draws, n, m),
    decreases m,
{
    if m > 0 {
        lemma_sampling_push(draws, v, n, m - 1);
        assert(draws.push(v)[m - 1] == draws[m - 1]);
    }
}

/// Sampled indices are distinct and lie below `n`.
pub proof fn samples_are_distinct(draws: Seq<u32>, n: int, m: int)
    requires
        0 < n <= usize::MAX,
    ensures
        is_sample(sampling(draws, n, m).0, n, sampling(draws, n, m).0.len() as int),
    decreases m,
{
    if m > 0 {
        samples_are_distinct(draws, n, m - 1);
        let before = sampling(draws, n, m - 1).0;
        let c = (draws[m - 1] as int % n) as usize;
        if !before.contains(c) {
            let after = before.push(c);
            assert forall|i: int, j: int| 0 <= i < j < after.len() implies #[trigger] after[i]
                != #[trigger] after[j] by {
                assert(before[i] == after[i]);
            }
        }
    }
}

/// What a generator drew between two moments.
pub open spec fn newly_drawn(before: Seq<u32>, after: Seq<u32>) -> Seq<u32> {
    after.skip(before.len() as int)
}

/// Draws `k` distinct indices below `n` into `out[..k]`, drawing again on a repetition. False after
/// more than 200 repetitions; the indices drawn until then are in `out`.
pub fn sample_distinct<R: Rng>(rng: &mut R, n: usize, k: usize, out: &mut [usize]) -> (ok: bool)
    requires
        n > 0,
        k <= old(out).len(),
    ensures
        ({
            let draws = newly_drawn(old(rng).drawn(), final(rng).drawn());
            let sample = sample_of(draws, n as int);
            &&& final(rng).drawn() == old(rng).drawn() + draws
            &&& is_sampling(draws, n as int, k as int)
            &&& ok == (sample.len() == k)
            &&& final(out)@ == sample + old(out)@.skip(sample.len() as int)
            &&& is_sample(sample, n as int, sample.len() as int)
        }),
{
    let mut tries: usize = 0;
    let mut slot: usize = 0;
    let ghost mut draws: Seq<u32> = seq![];
    assert(rng.drawn() =~= old(rng).drawn() + draws);
    assert(out@ =~= sampling(draws, n as int, 0).0 + old(out)@.skip(0));
    while slot < k
        invariant
            n > 0,
            slot <= k <= out.len(),
            tries <= MAX_REDRAWS,
            rng.drawn() == old(rng).drawn() + draws,
            sampling(draws, n as int, draws.len() as int).0.len() == slot,
            sampling(draws, n as int, draws.len() as int).1 == tries,
            forall|m: int|
                0 <= m < draws.len() ==> !sampling_ends(
                    #[trigger] sampling(draws, n as int, m),
                    k as int,
                ),
            out@ == sample_of(draws, n as int) + old(out)@.skip(slot as int),
            out@.len() == old(out)@.len(),
        decreases k - slot, MAX_REDRAWS + 1 - tries,
    {
        let ghost before = draws;
        let v: u32 = rng.next_u32();
        let c: usize = (v as usize) % n;
        let repeated: bool = already_drawn(out, slot, c);
        proof {
            draws = before.push(v);
            let m = before.len() as int;
            assert(rng.drawn() =~= old(rng).drawn() + draws);
            lemma_sampling_push(before, v, n as int, m);
            assert(draws[m] == v);
            assert(sampling(before, n as int, m) == sampling(draws, n as int, m));
            assert(out@.take(slot as int) =~= sample_of(before, n as int));
            assert forall|i: int| 0 <= i < draws.len() implies !sampling_ends(
                #[trigger] sampling(draws, n as int, i),
                k as int,
            ) by {
                lemma_sampling_push(before, v, n as int, i);
            }
        }
        if repeated {
            tries = tries + 1;
            if tries > MAX_REDRAWS {
                proof {
                    assert(newly_drawn(old(rng).drawn(), rng.drawn()) =~= draws);
                    samples_are_distinct(draws, n as int, draws.len() as int);
                }
                return false;
            }
        } else {
            out[slot] = c;
            slot = slot + 1;
            assert(out@ =~= sample_of(draws, n as int) + old(out)@.skip(slot as int));
        }
    }
    proof {
        assert(newly_drawn(old(rng).drawn(), rng.drawn()) =~= draws);
        samples_are_distinct(draws, n as int, draws.len() as int);
    }
    true
}

/// The linear solution of a sample with a random starting vector, for which twelve numbers are drawn
/// where the sample can be solved.
pub fn dlt_pose<R: Rng>(corrs: &[Correspondence], idx: &[usize], rng: &mut R) -> (r: Option<Pose>)
    requires
        sample_inside(corrs@, idx@),
    ensures
        ({
            let draws = newly_drawn(old(rng).drawn(), final(rng).drawn());
            &&& final(rng).drawn() == old(rng).drawn() + draws
            &&& draws.len() == if solvable(corrs@, idx@) {
                12int
            } else {
                0
            }
            &&& r == dlt(corrs@, idx@, draws)
        }),
        !solvable(corrs@, idx@) ==> r is None && *final(rng) == *old(rng),
{
    match dlt_factor(corrs, idx) {
        Some((l, z)) => {
            let mut draws: [u32; 12] = [0; 12];
            assert(rng.drawn() =~= old(rng).drawn() + draws@.take(0));
            for i in 0..12usize
                invariant
                    rng.drawn() == old(rng).drawn() + draws@.take(i as int),
            {
                draws[i] = rng.next_u32();
                assert(rng.drawn() =~= old(rng).drawn() + draws@.take(i + 1));
            }
            let r: Option<Pose> = dlt_solve(&l, &z, &draws, Ghost(corrs@), Ghost(idx@));
            assert(newly_drawn(old(rng).drawn(), rng.drawn()) =~= draws@);
            r
        },
        None => {
            proof {
                reveal(dlt);
                assert(newly_drawn(old(rng).drawn(), rng.drawn()) =~= seq![]);
                assert(rng.drawn() =~= old(rng).drawn() + seq![]);
            }
            None
        },
    }
}

/// The numbers drawn in one iteration: for the sample, and for the starting vector.
pub struct Trial {
    pub sampling: Seq<u32>,
    pub start: Seq<u32>,
}

impl Trial {
    /// The sampled indices.
    pub open spec fn sample(self, corrs: Seq<Correspondence>) -> Seq<usize> {
        sample_of(self.sampling, corrs.len() as int)
    }

    /// The iteration draws just these numbers: the starting vector is drawn where the sample of `k` is
    /// complete and can be solved.
    pub open spec fn valid(self, corrs: Seq<Correspondence>, k: int) -> bool {
        &&& is_sampling(self.sampling, corrs.len() as int, k)
        &&& self.start.len() == if self.sample(corrs).len() == k && solvable(
            corrs,
            self.sample(corrs),
        ) {
            12int
        } else {
            0
        }
    }
}

/// All numbers of the first `m` trials, in the order in which they are drawn.
pub open spec fn drawn_upto(trials: Seq<Trial>, m: int) -> Seq<u32>
    decreases m,
{
    if m <= 0 {
        seq![]
    } else {
        drawn_upto(trials, m - 1) + trials[m - 1].sampling + trials[m - 1].start
    }
}

/// One flag per correspondence: whether it is in the sample.
pub open spec fn sample_mask(sample: Seq<usize>, n: int) -> Seq<bool> {
    Seq::new(n as nat, |i: int| sample.contains(i as usize))
}

/// The hypothesis of a trial: the linear solution refined on the sample. None where the sample of `k`
/// is incomplete or has no solution.
pub open spec fn hypothesis(corrs: Seq<Correspondence>, k: int, t: Trial) -> Option<Pose> {
    let sample = t.sample(corrs);
    if sample.len() != k {
        None
    } else {
        match dlt(corrs, sample, t.start) {
            Some(x) => Some(refined(x, corrs, Some(sample_mask(sample, corrs.len() as int)))),
            None => None,
        }
    }
}

/// A scored hypothesis.
#[derive(Clone, Copy, Debug, PartialEq, Eq)]
pub struct Scored {
    pub pose: Pose,
    pub count: usize,
    pub err2: Binary32,
}

/// The better of the best hypothesis so far and a new pose: more inliers, or as many with less error.
pub open spec fn considered(
    best: Option<Scored>,
    x: Pose,
    corrs: Seq<Correspondence>,
    cam: Camera,
    thr2: Binary32,
) -> Option<Scored> {
    let count = inliers(x, corrs, cam, thr2);
    let err2 = error_of(x, corrs, cam, thr2);
    let new = Some(Scored { pose: x, count: count as usize, err2 });
    match best {
        None => new,
        Some(b) => if count > b.count || (count == b.count && less(err2, b.err2)) {
            new
        } else {
            best
        },
    }
}

/// The best hypothesis of the first `m` trials.
pub open spec fn best_upto(
    trials: Seq<Trial>,
    corrs: Seq<Correspondence>,
    cam: Camera,
    thr2: Binary32,
    k: int,
    m: int,
) -> Option<Scored>
    decreases m,
{
    if m <= 0 {
        None
    } else {
        let before = best_upto(trials, corrs, cam, thr2, k, m - 1);
        match hypothesis(corrs, k, trials[m - 1]) {
            Some(x) => considered(before, x, corrs, cam, thr2),
            None => before,
        }
    }
}

/// The better of the best hypothesis so far and a new pose.
pub fn consider(
    best: Option<Scored>,
    x: Pose,
    corrs: &[Correspondence],
    cam: &Camera,
    thr2: Binary32,
) -> (r: Option<Scored>)
    ensures
        r == considered(best, x, corrs@, *cam, thr2),
{
    let (count, err2): (usize, Binary32) = score_pose(&x, corrs, cam, thr2);
    let take: bool = match best {
        None => true,
        Some(b) => count > b.count || (count == b.count && is_less(err2, b.err2)),
    };
    if take {
        Some(Scored { pose: x, count, err2 })
    } else {
        best
    }
}

/// The winner refined on its inliers, where it has four or more and the refinement loses none.
pub open spec fn polished(
    x: Pose,
    corrs: Seq<Correspondence>,
    cam: Camera,
    thr2: Binary32,
) -> Pose {
    let r = refined(x, corrs, Some(inlier_mask(x, corrs, cam, thr2)));
    if inliers(x, corrs, cam, thr2) >= 4 && inliers(r, corrs, cam, thr2) >= inliers(
        x,
        corrs,
        cam,
        thr2,
    ) {
        r
    } else {
        x
    }
}

/// The result for the best hypothesis: `None` without one, or with fewer inliers than `min_inliers`.
pub open spec fn concluded(
    best: Option<Scored>,
    corrs: Seq<Correspondence>,
    cam: Camera,
    thr2: Binary32,
    min_inliers: usize,
) -> Option<PnpResult> {
    match best {
        Some(b) => if b.count < min_inliers {
            None
        } else {
            let x = polished(b.pose, corrs, cam, thr2);
            let count = inliers(x, corrs, cam, thr2);
            Some(
                PnpResult {
                    r: x.r,
                    t: x.t,
                    inlier_count: count as usize,
                    mean_reproj_error_px: root(
                        quotient(error_of(x, corrs, cam, thr2), nearest_int(count as int)),
                    ),
                },
            )
        },
        None => None,
    }
}

/// The statistics of the best hypothesis; unchanged without one.
pub open spec fn reported(best: Option<Scored>, before: PnpBest) -> PnpBest {
    match best {
        Some(b) => PnpBest {
            inlier_count: b.count,
            mean_reproj_error_px: if b.count > 0 {
                root(quotient(b.err2, nearest_int(b.count as int)))
            } else {
                num(0)
            },
        },
        None => before,
    }
}

/// Sample size for `n` correspondences.
pub open spec fn sample_size(wanted: int, n: int) -> int {
    let k: int = if wanted < MIN_SAMPLE_SIZE {
        MIN_SAMPLE_SIZE as int
    } else if wanted > MAX_SAMPLE_SIZE {
        MAX_SAMPLE_SIZE as int
    } else {
        wanted
    };
    if k < n {
        k
    } else {
        n
    }
}

/// The result for the best hypothesis. The mask takes the inliers of the returned pose.
pub fn conclude(
    best: Option<Scored>,
    corrs: &[Correspondence],
    cam: &Camera,
    thr2: Binary32,
    min_inliers: usize,
    out_mask: &mut [bool],
) -> (r: Option<PnpResult>)
    requires
        old(out_mask).len() >= corrs.len(),
    ensures
        r == concluded(best, corrs@, *cam, thr2, min_inliers),
        r matches Some(x) ==> final(out_mask)@ == inlier_mask(
            Pose { r: x.r, t: x.t },
            corrs@,
            *cam,
            thr2,
        ) + old(out_mask)@.skip(corrs@.len() as int),
        r is None ==> final(out_mask)@ == old(out_mask)@,
{
    let b: Scored = match best {
        Some(b) => b,
        None => {
            return None;
        },
    };
    if b.count < min_inliers {
        return None;
    }
    let n: usize = corrs.len();
    let (cnt0, _): (usize, Binary32) = mask_and_error(&b.pose, corrs, cam, thr2, out_mask);
    let ghost tail = old(out_mask)@.skip(n as int);
    let x: Pose = if cnt0 >= 4 {
        let mask: &[bool] = vstd::slice::slice_subrange(out_mask, 0, n);
        assert(mask@ =~= inlier_mask(b.pose, corrs@, *cam, thr2));
        let better: Pose = refine_pose(b.pose, corrs, Some(mask));
        let (cnt1, _): (usize, Binary32) = score_pose(&better, corrs, cam, thr2);
        if cnt1 >= cnt0 {
            better
        } else {
            b.pose
        }
    } else {
        b.pose
    };
    assert(x == polished(b.pose, corrs@, *cam, thr2));
    assert(out_mask@.skip(n as int) =~= tail);
    let (count, err2): (usize, Binary32) = mask_and_error(&x, corrs, cam, thr2, out_mask);
    Some(
        PnpResult {
            r: x.r,
            t: x.t,
            inlier_count: count,
            mean_reproj_error_px: sqrt32(err2.over(from_u64(count as u64))),
        },
    )
}

/// Marks the sampled correspondences in a mask.
fn mark_sample(sample: &[usize], out_mask: &mut [bool], n: usize)
    requires
        n <= old(out_mask).len(),
        forall|i: int| 0 <= i < sample.len() ==> #[trigger] sample@[i] < n,
    ensures
        final(out_mask)@ == sample_mask(sample@, n as int) + old(out_mask)@.skip(n as int),
{
    for i in 0..n
        invariant
            n <= out_mask.len(),
            out_mask@.len() == old(out_mask)@.len(),
            forall|k: int| 0 <= k < i ==> !#[trigger] out_mask@[k],
            forall|k: int|
                i <= k < out_mask@.len() ==> #[trigger] out_mask@[k] == old(out_mask)@[k],
    {
        out_mask[i] = false;
    }
    for i in 0..sample.len()
        invariant
            n <= out_mask.len(),
            out_mask@.len() == old(out_mask)@.len(),
            forall|i: int| 0 <= i < sample.len() ==> #[trigger] sample@[i] < n,
            forall|k: int|
                0 <= k < n ==> (#[trigger] out_mask@[k] <==> exists|j: int|
                    0 <= j < i && #[trigger] sample@[j] == k),
            forall|k: int|
                n <= k < out_mask@.len() ==> #[trigger] out_mask@[k] == old(out_mask)@[k],
    {
        let ghost before = out_mask@;
        let at: usize = sample[i];
        out_mask[at] = true;
        proof {
            let after = out_mask@;
            assert forall|k: int| 0 <= k < n implies (#[trigger] after[k] <==> exists|j: int|
                0 <= j < i + 1 && #[trigger] sample@[j] == k) by {
                if k == at {
                    assert(sample@[i as int] == k);
                } else {
                    assert(after[k] == before[k]);
                    if after[k] {
                        let j = choose|j: int| 0 <= j < i && #[trigger] sample@[j] == k;
                        assert(sample@[j] == k);
                    }
                }
            }
        }
    }
    proof {
        let goal = sample_mask(sample@, n as int) + old(out_mask)@.skip(n as int);
        let after = out_mask@;
        assert forall|k: int| 0 <= k < after.len() implies #[trigger] after[k] == goal[k] by {
            if k < n {
                if after[k] {
                    let j = choose|j: int| 0 <= j < sample.len() && #[trigger] sample@[j] == k;
                    assert(sample@[j] == k as usize);
                    assert(sample@.contains(k as usize));
                } else if sample@.contains(k as usize) {
                    let j = choose|j: int| 0 <= j < sample@.len() && sample@[j] == k as usize;
                    assert(sample@[j] == k);
                }
            }
        }
        assert(after =~= goal);
    }
}

/// The mask after the first `m` trials: the sample of the last one that had a hypothesis.
pub open spec fn marked_upto(
    trials: Seq<Trial>,
    corrs: Seq<Correspondence>,
    k: int,
    before: Seq<bool>,
    m: int,
) -> Seq<bool>
    decreases m,
{
    let n = corrs.len() as int;
    if m <= 0 {
        before
    } else if hypothesis(corrs, k, trials[m - 1]) is Some {
        sample_mask(trials[m - 1].sample(corrs), n) + before.skip(n)
    } else {
        marked_upto(trials, corrs, k, before, m - 1)
    }
}

/// What a search reads and changes besides its inputs: the numbers drawn, the mask, and the statistics
/// of the best hypothesis.
pub struct SearchState {
    pub drawn: Seq<u32>,
    pub mask: Seq<bool>,
    pub best: PnpBest,
}

/// The search has the given trials, one per iteration: their numbers are drawn one after another, the
/// best hypothesis is reported, and the result is concluded from it. The mask takes the inliers of the
/// result; without one it is left as the trials marked it.
#[verifier::opaque]
pub open spec fn search_outcome(
    trials: Seq<Trial>,
    corrs: Seq<Correspondence>,
    cam: Camera,
    opts: PnpOptions,
    r: Option<PnpResult>,
    a: SearchState,
    b: SearchState,
) -> bool {
    let n = corrs.len() as int;
    let m = trials.len() as int;
    let k = sample_size(opts.sample_size as int, n);
    let thr2 = product(opts.reproj_threshold_px, opts.reproj_threshold_px);
    let best = best_upto(trials, corrs, cam, thr2, k, m);
    &&& m == opts.iterations
    &&& forall|i: int| 0 <= i < m ==> (#[trigger] trials[i]).valid(corrs, k)
    &&& r == concluded(best, corrs, cam, thr2, opts.min_inliers)
    &&& b.drawn == a.drawn + drawn_upto(trials, m)
    &&& b.best == reported(best, a.best)
    &&& b.mask == match r {
        Some(x) => inlier_mask(Pose { r: x.r, t: x.t }, corrs, cam, thr2) + a.mask.skip(n),
        None => marked_upto(trials, corrs, k, a.mask, m),
    }
}

/// The search turns `a` into `b` and finds `r`, with the trials that the drawn numbers make up.
pub open spec fn searched(
    corrs: Seq<Correspondence>,
    cam: Camera,
    opts: PnpOptions,
    r: Option<PnpResult>,
    a: SearchState,
    b: SearchState,
) -> bool {
    exists|trials: Seq<Trial>| search_outcome(trials, corrs, cam, opts, r, a, b)
}

/// The statistics before any hypothesis.
pub open spec fn no_best() -> PnpBest {
    PnpBest { inlier_count: 0, mean_reproj_error_px: num(0) }
}

/// Fixed-iteration RANSAC over the linear solution. `None` on fewer than six correspondences, a mask
/// shorter than their number, or where no hypothesis has `min_inliers` inliers. On success the mask
/// flags the inliers. The best hypothesis is reported even where the pose is rejected.
pub fn pnp_ransac_best<R: Rng>(
    corrs: &[Correspondence],
    cam: &Camera,
    opts: &PnpOptions,
    rng: &mut R,
    out_mask: &mut [bool],
    out_best: &mut PnpBest,
) -> (r: Option<PnpResult>)
    ensures
        corrs@.len() < 6 || old(out_mask)@.len() < corrs@.len() ==> {
            &&& r is None
            &&& *final(rng) == *old(rng)
            &&& final(out_mask)@ == old(out_mask)@
            &&& *final(out_best) == *old(out_best)
        },
        corrs@.len() >= 6 && old(out_mask)@.len() >= corrs@.len() ==> searched(
            corrs@,
            *cam,
            *opts,
            r,
            SearchState {
                drawn: old(rng).drawn(),
                mask: old(out_mask)@,
                best: *old(out_best),
            },
            SearchState {
                drawn: final(rng).drawn(),
                mask: final(out_mask)@,
                best: *final(out_best),
            },
        ),
        final(out_mask)@.len() == old(out_mask)@.len(),
        r is Some && usable(opts.reproj_threshold_px) ==> {
            let x = Pose { r: r->0.r, t: r->0.t };
            &&& mask_fits(x, corrs@, *cam, *opts, final(out_mask)@)
            &&& r->0.inlier_count == flags_upto(final(out_mask)@, corrs@.len() as int)
            &&& r->0.inlier_count >= opts.min_inliers
        },
{
    let n: usize = corrs.len();
    if n < 6 || out_mask.len() < n {
        return None;
    }
    let wanted: usize = if opts.sample_size < MIN_SAMPLE_SIZE {
        MIN_SAMPLE_SIZE
    } else if opts.sample_size > MAX_SAMPLE_SIZE {
        MAX_SAMPLE_SIZE
    } else {
        opts.sample_size
    };
    let k: usize = if wanted < n {
        wanted
    } else {
        n
    };
    let thr2: Binary32 = opts.reproj_threshold_px.times(opts.reproj_threshold_px);
    let mut best: Option<Scored> = None;
    let mut sample: [usize; 12] = [0; 12];
    let ghost mut trials: Seq<Trial> = seq![];
    assert(rng.drawn() =~= old(rng).drawn() + drawn_upto(trials, 0));
    for it in 0..opts.iterations
        invariant
            6 <= k <= 12,
            k <= n,
            n == corrs.len(),
            n <= out_mask.len(),
            sample@.len() == 12,
            trials.len() == it,
            forall|i: int|
                0 <= i < trials.len() ==> (#[trigger] trials[i]).valid(corrs@, k as int),
            rng.drawn() == old(rng).drawn() + drawn_upto(trials, trials.len() as int),
            out_mask@ == marked_upto(trials, corrs@, k as int, old(out_mask)@, it as int),
            out_mask@.len() == old(out_mask)@.len(),
            best == best_upto(trials, corrs@, *cam, thr2, k as int, it as int),
    {
        let ghost before = trials;
        let ghost mut t = Trial { sampling: seq![], start: seq![] };
        let ghost drawn0 = rng.drawn();
        let complete: bool = sample_distinct(rng, n, k, &mut sample);
        proof {
            t = Trial { sampling: newly_drawn(drawn0, rng.drawn()), start: seq![] };
        }
        if complete {
            let chosen: &[usize] = vstd::slice::slice_subrange(&sample, 0, k);
            assert(chosen@ =~= t.sample(corrs@));
            let ghost drawn1 = rng.drawn();
            let found: Option<Pose> = dlt_pose(corrs, chosen, rng);
            proof {
                t = Trial { sampling: t.sampling, start: newly_drawn(drawn1, rng.drawn()) };
            }
            if let Some(x) = found {
                mark_sample(chosen, out_mask, n);
                let mask: &[bool] = vstd::slice::slice_subrange(out_mask, 0, n);
                assert(mask@ =~= sample_mask(chosen@, n as int));
                let refined_x: Pose = refine_pose(x, corrs, Some(mask));
                assert(hypothesis(corrs@, k as int, t) == Some(refined_x));
                best = consider(best, refined_x, corrs, cam, thr2);
            }
        }
        proof {
            trials = before.push(t);
            lemma_trial_added(before, t, corrs@, *cam, thr2, k as int, old(out_mask)@);
            lemma_marked_tail(before, corrs@, k as int, old(out_mask)@, it as int);
            assert(rng.drawn() =~= old(rng).drawn() + (drawn_upto(before, it as int) + t.sampling
                + t.start));
            assert(out_mask@ =~= marked_upto(
                trials,
                corrs@,
                k as int,
                old(out_mask)@,
                it + 1,
            ));
        }
    }
    if let Some(b) = best {
        out_best.inlier_count = b.count;
        out_best.mean_reproj_error_px = if b.count > 0 {
            sqrt32(b.err2.over(from_u64(b.count as u64)))
        } else {
            Binary32 { bits: 0 }
        };
    }
    let r: Option<PnpResult> = conclude(best, corrs, cam, thr2, opts.min_inliers, out_mask);
    proof {
        let a = SearchState {
            drawn: old(rng).drawn(),
            mask: old(out_mask)@,
            best: *old(out_best),
        };
        let b = SearchState { drawn: rng.drawn(), mask: out_mask@, best: *out_best };
        reveal(search_outcome);
        lemma_marked_tail(trials, corrs@, k as int, old(out_mask)@, trials.len() as int);
        if let Some(x) = r {
            let inl = inlier_mask(Pose { r: x.r, t: x.t }, corrs@, *cam, thr2);
            assert(out_mask@ =~= inl + old(out_mask)@.skip(n as int));
        }
        assert(search_outcome(trials, corrs@, *cam, *opts, r, a, b));
        if r is Some && usable(opts.reproj_threshold_px) {
            search_flags_by_distance(corrs@, *cam, *opts, r->0, a, b);
        }
    }
    r
}

proof fn lemma_trials_prefix(
    trials: Seq<Trial>,
    t: Trial,
    corrs: Seq<Correspondence>,
    cam: Camera,
    thr2: Binary32,
    k: int,
    mask: Seq<bool>,
    m: int,
)
    requires
        m <= trials.len(),
    ensures
        best_upto(trials.push(t), corrs, cam, thr2, k, m) == best_upto(
            trials,
            corrs,
            cam,
            thr2,
            k,
            m,
        ),
        drawn_upto(trials.push(t), m) == drawn_upto(trials, m),
        marked_upto(trials.push(t), corrs, k, mask, m) == marked_upto(trials, corrs, k, mask, m),
    decreases m,
{
    if m > 0 {
        lemma_trials_prefix(trials, t, corrs, cam, thr2, k, mask, m - 1);
        assert(trials.push(t)[m - 1] == trials[m - 1]);
    }
}

/// The trials leave the mask beyond the correspondences as it is.
proof fn lemma_marked_tail(
    trials: Seq<Trial>,
    corrs: Seq<Correspondence>,
    k: int,
    mask: Seq<bool>,
    m: int,
)
    ensures
        marked_upto(trials, corrs, k, mask, m).skip(corrs.len() as int) == mask.skip(
            corrs.len() as int,
        ),
    decreases m,
{
    if m > 0 {
        lemma_marked_tail(trials, corrs, k, mask, m - 1);
        let n = corrs.len() as int;
        let sampled = sample_mask(trials[m - 1].sample(corrs), n);
        assert((sampled + mask.skip(n)).skip(n) =~= mask.skip(n));
    }
}

/// What one more trial adds.
proof fn lemma_trial_added(
    trials: Seq<Trial>,
    t: Trial,
    corrs: Seq<Correspondence>,
    cam: Camera,
    thr2: Binary32,
    k: int,
    mask: Seq<bool>,
)
    ensures
        ({
            let m = trials.len() as int;
            let all = trials.push(t);
            let n = corrs.len() as int;
            &&& best_upto(all, corrs, cam, thr2, k, m + 1) == match hypothesis(corrs, k, t) {
                Some(x) => considered(
                    best_upto(trials, corrs, cam, thr2, k, m),
                    x,
                    corrs,
                    cam,
                    thr2,
                ),
                None => best_upto(trials, corrs, cam, thr2, k, m),
            }
            &&& drawn_upto(all, m + 1) == drawn_upto(trials, m) + t.sampling + t.start
            &&& marked_upto(all, corrs, k, mask, m + 1) == if hypothesis(corrs, k, t) is Some {
                sample_mask(t.sample(corrs), n) + mask.skip(n)
            } else {
                marked_upto(trials, corrs, k, mask, m)
            }
        }),
{
    lemma_trials_prefix(trials, t, corrs, cam, thr2, k, mask, trials.len() as int);
    assert(trials.push(t)[trials.len() as int] == t);
}

/// [`pnp_ransac_best`] without the report.
pub fn pnp_ransac<R: Rng>(
    corrs: &[Correspondence],
    cam: &Camera,
    opts: &PnpOptions,
    rng: &mut R,
    out_mask: &mut [bool],
) -> (r: Option<PnpResult>)
    ensures
        corrs@.len() < 6 || old(out_mask)@.len() < corrs@.len() ==> {
            &&& r is None
            &&& *final(rng) == *old(rng)
            &&& final(out_mask)@ == old(out_mask)@
        },
        corrs@.len() >= 6 && old(out_mask)@.len() >= corrs@.len() ==> exists|after: PnpBest|
            #[trigger] searched(
                corrs@,
                *cam,
                *opts,
                r,
                SearchState {
                    drawn: old(rng).drawn(),
                    mask: old(out_mask)@,
                    best: no_best(),
                },
                SearchState {
                    drawn: final(rng).drawn(),
                    mask: final(out_mask)@,
                    best: after,
                },
            ),
        final(out_mask)@.len() == old(out_mask)@.len(),
        r is Some && usable(opts.reproj_threshold_px) ==> {
            let x = Pose { r: r->0.r, t: r->0.t };
            &&& mask_fits(x, corrs@, *cam, *opts, final(out_mask)@)
            &&& r->0.inlier_count == flags_upto(final(out_mask)@, corrs@.len() as int)
            &&& r->0.inlier_count >= opts.min_inliers
        },
{
    let mut best: PnpBest = PnpBest { inlier_count: 0, mean_reproj_error_px: Binary32 { bits: 0 } };
    assert(best == no_best());
    let r: Option<PnpResult> = pnp_ransac_best(corrs, cam, opts, rng, out_mask, &mut best);
    assert(corrs@.len() >= 6 && old(out_mask)@.len() >= corrs@.len() ==> searched(
        corrs@,
        *cam,
        *opts,
        r,
        SearchState { drawn: old(rng).drawn(), mask: old(out_mask)@, best: no_best() },
        SearchState { drawn: rng.drawn(), mask: out_mask@, best },
    ));
    r
}

proof fn lemma_sampling_agrees(p: Seq<u32>, q: Seq<u32>, n: int, m: int)
    requires
        0 <= m <= p.len(),
        m <= q.len(),
        p.take(m) == q.take(m),
    ensures
        sampling(p, n, m) == sampling(q, n, m),
    decreases m,
{
    if m > 0 {
        assert(p[m - 1] == p.take(m)[m - 1]);
        assert(q[m - 1] == q.take(m)[m - 1]);
        assert(p.take(m - 1) =~= p.take(m).take(m - 1));
        assert(q.take(m - 1) =~= q.take(m).take(m - 1));
        lemma_sampling_agrees(p, q, n, m - 1);
    }
}

/// No complete sampling goes on to be another one.
proof fn lemma_sampling_is_complete(all: Seq<u32>, o: int, p: Seq<u32>, q: Seq<u32>, n: int, k: int)
    requires
        0 <= o,
        o + p.len() <= all.len(),
        o + q.len() <= all.len(),
        all.subrange(o, (o + p.len()) as int) == p,
        all.subrange(o, (o + q.len()) as int) == q,
        is_sampling(p, n, k),
        is_sampling(q, n, k),
    ensures
        p == q,
{
    let m = if p.len() <= q.len() {
        p.len() as int
    } else {
        q.len() as int
    };
    assert forall|i: int| 0 <= i < m implies p[i] == q[i] by {
        assert(all.subrange(o, (o + p.len()) as int)[i] == all[o + i]);
        assert(all.subrange(o, (o + q.len()) as int)[i] == all[o + i]);
    }
    assert(p.take(m) =~= q.take(m));
    lemma_sampling_agrees(p, q, n, m);
    assert(p.len() == q.len());
    assert(p =~= q);
}

/// Where the numbers of trial `i` stand among all numbers.
proof fn lemma_drawn_part(trials: Seq<Trial>, i: int, m: int)
    requires
        0 <= i < m <= trials.len(),
    ensures
        ({
            let all = drawn_upto(trials, m);
            let o = drawn_upto(trials, i).len() as int;
            let s = trials[i].sampling;
            let t = trials[i].start;
            &&& o + s.len() + t.len() <= all.len()
            &&& all.subrange(o, o + s.len()) == s
            &&& all.subrange(o + s.len(), o + s.len() + t.len()) == t
        }),
    decreases m,
{
    let all = drawn_upto(trials, m);
    let o = drawn_upto(trials, i).len() as int;
    let s = trials[i].sampling;
    let t = trials[i].start;
    if i < m - 1 {
        lemma_drawn_part(trials, i, m - 1);
        let before = drawn_upto(trials, m - 1);
        assert(all.subrange(o, o + s.len()) =~= before.subrange(o, o + s.len()));
        assert(all.subrange(o + s.len(), o + s.len() + t.len()) =~= before.subrange(
            o + s.len(),
            o + s.len() + t.len(),
        ));
    } else {
        assert(all.subrange(o, o + s.len()) =~= s);
        assert(all.subrange(o + s.len(), o + s.len() + t.len()) =~= t);
    }
}

proof fn lemma_same_trial(
    u: Seq<Trial>,
    v: Seq<Trial>,
    corrs: Seq<Correspondence>,
    k: int,
    i: int,
)
    requires
        u.len() == v.len(),
        0 <= i < u.len(),
        forall|j: int| 0 <= j < u.len() ==> (#[trigger] u[j]).valid(corrs, k),
        forall|j: int| 0 <= j < v.len() ==> (#[trigger] v[j]).valid(corrs, k),
        drawn_upto(u, u.len() as int) == drawn_upto(v, v.len() as int),
        drawn_upto(u, i) == drawn_upto(v, i),
    ensures
        u[i] == v[i],
        drawn_upto(u, i + 1) == drawn_upto(v, i + 1),
{
    let all = drawn_upto(u, u.len() as int);
    let o = drawn_upto(u, i).len() as int;
    lemma_drawn_part(u, i, u.len() as int);
    lemma_drawn_part(v, i, v.len() as int);
    assert(u[i].valid(corrs, k) && v[i].valid(corrs, k));
    lemma_sampling_is_complete(
        all,
        o,
        u[i].sampling,
        v[i].sampling,
        corrs.len() as int,
        k,
    );
    assert(u[i].start == v[i].start);
}

proof fn lemma_same_trials(
    u: Seq<Trial>,
    v: Seq<Trial>,
    corrs: Seq<Correspondence>,
    k: int,
    m: int,
)
    requires
        u.len() == v.len(),
        0 <= m <= u.len(),
        forall|j: int| 0 <= j < u.len() ==> (#[trigger] u[j]).valid(corrs, k),
        forall|j: int| 0 <= j < v.len() ==> (#[trigger] v[j]).valid(corrs, k),
        drawn_upto(u, u.len() as int) == drawn_upto(v, v.len() as int),
    ensures
        u.take(m) == v.take(m),
        drawn_upto(u, m) == drawn_upto(v, m),
    decreases m,
{
    if m > 0 {
        lemma_same_trials(u, v, corrs, k, m - 1);
        lemma_same_trial(u, v, corrs, k, m - 1);
        assert(u.take(m) =~= u.take(m - 1).push(u[m - 1]));
        assert(v.take(m) =~= v.take(m - 1).push(v[m - 1]));
    } else {
        assert(u.take(0) =~= v.take(0));
    }
}

/// The drawn numbers decide a search: two searches of the same correspondences that start alike and
/// draw the same numbers have the same trials and end alike.
pub proof fn draws_decide(
    corrs: Seq<Correspondence>,
    cam: Camera,
    opts: PnpOptions,
    a: SearchState,
    u: Seq<Trial>,
    r: Option<PnpResult>,
    b: SearchState,
    v: Seq<Trial>,
    s: Option<PnpResult>,
    c: SearchState,
)
    requires
        search_outcome(u, corrs, cam, opts, r, a, b),
        search_outcome(v, corrs, cam, opts, s, a, c),
        b.drawn == c.drawn,
    ensures
        u == v,
        r == s,
        b == c,
{
    reveal(search_outcome);
    let m = u.len() as int;
    let k = sample_size(opts.sample_size as int, corrs.len() as int);
    assert(b.drawn.skip(a.drawn.len() as int) =~= drawn_upto(u, m));
    assert(c.drawn.skip(a.drawn.len() as int) =~= drawn_upto(v, m));
    lemma_same_trials(u, v, corrs, k, m);
    assert(u.take(m) =~= u);
    assert(v.take(m) =~= v);
}

/// How many of the first `n` flags are set.
pub open spec fn flags_upto(mask: Seq<bool>, n: int) -> nat
    decreases n,
{
    if n <= 0 {
        0
    } else if mask[n - 1] {
        flags_upto(mask, n - 1) + 1
    } else {
        flags_upto(mask, n - 1)
    }
}

/// The inlier mask has as many flags as the pose has inliers.
pub proof fn mask_counts_inliers(
    x: Pose,
    corrs: Seq<Correspondence>,
    cam: Camera,
    thr2: Binary32,
    n: int,
)
    requires
        n <= corrs.len(),
    ensures
        flags_upto(inlier_mask(x, corrs, cam, thr2), n) == inliers_upto(x, corrs, cam, thr2, n),
    decreases n,
{
    if n > 0 {
        mask_counts_inliers(x, corrs, cam, thr2, n - 1);
    }
}

/// A point at no positive depth is never an inlier.
pub proof fn no_inlier_behind_camera(x: Pose, c: Correspondence, cam: Camera, thr2: Binary32)
    requires
        at_most(seen(x, c).1, num(0)),
    ensures
        !inlier(x, c, cam, thr2),
{
}

/// The best hypothesis is scored by its inliers, and no trial has a hypothesis with more.
pub proof fn best_has_most_inliers(
    trials: Seq<Trial>,
    corrs: Seq<Correspondence>,
    cam: Camera,
    thr2: Binary32,
    k: int,
    m: int,
    i: int,
)
    requires
        0 <= i < m <= trials.len(),
        corrs.len() <= usize::MAX,
        hypothesis(corrs, k, trials[i]) is Some,
    ensures
        best_upto(trials, corrs, cam, thr2, k, m) matches Some(b) && b.count >= inliers(
            hypothesis(corrs, k, trials[i])->0,
            corrs,
            cam,
            thr2,
        ),
    decreases m,
{
    lemma_best_is_scored(trials, corrs, cam, thr2, k, m - 1);
    if let Some(x) = hypothesis(corrs, k, trials[m - 1]) {
        lemma_inliers_bound(x, corrs, cam, thr2, corrs.len() as int);
    }
    if i < m - 1 {
        best_has_most_inliers(trials, corrs, cam, thr2, k, m - 1, i);
    }
}

proof fn lemma_best_is_scored(
    trials: Seq<Trial>,
    corrs: Seq<Correspondence>,
    cam: Camera,
    thr2: Binary32,
    k: int,
    m: int,
)
    requires
        corrs.len() <= usize::MAX,
    ensures
        best_upto(trials, corrs, cam, thr2, k, m) matches Some(b) ==> {
            &&& b.count == inliers(b.pose, corrs, cam, thr2)
            &&& b.err2 == error_of(b.pose, corrs, cam, thr2)
        },
    decreases m,
{
    if m > 0 {
        lemma_best_is_scored(trials, corrs, cam, thr2, k, m - 1);
        if let Some(x) = hypothesis(corrs, k, trials[m - 1]) {
            lemma_inliers_bound(x, corrs, cam, thr2, corrs.len() as int);
        }
    }
}

/// A returned pose has the inliers that it is returned with, at least as many as were asked for and at
/// least as many as any hypothesis of the search.
pub proof fn result_has_enough_inliers(
    trials: Seq<Trial>,
    corrs: Seq<Correspondence>,
    cam: Camera,
    thr2: Binary32,
    k: int,
    min_inliers: usize,
)
    requires
        corrs.len() <= usize::MAX,
        concluded(
            best_upto(trials, corrs, cam, thr2, k, trials.len() as int),
            corrs,
            cam,
            thr2,
            min_inliers,
        ) is Some,
    ensures
        ({
            let best = best_upto(trials, corrs, cam, thr2, k, trials.len() as int)->0;
            let res = concluded(Some(best), corrs, cam, thr2, min_inliers)->0;
            &&& res.inlier_count == inliers(Pose { r: res.r, t: res.t }, corrs, cam, thr2)
            &&& res.inlier_count >= min_inliers
            &&& res.inlier_count >= best.count
        }),
{
    lemma_best_is_scored(trials, corrs, cam, thr2, k, trials.len() as int);
    let best = best_upto(trials, corrs, cam, thr2, k, trials.len() as int)->0;
    let x = polished(best.pose, corrs, cam, thr2);
    lemma_inliers_bound(x, corrs, cam, thr2, corrs.len() as int);
    assert(Pose { r: x.r, t: x.t } == x);
}

/// A pose is returned exactly where the best hypothesis has the inliers asked for.
pub proof fn result_is_owed(
    trials: Seq<Trial>,
    corrs: Seq<Correspondence>,
    cam: Camera,
    thr2: Binary32,
    k: int,
    min_inliers: usize,
)
    requires
        corrs.len() <= usize::MAX,
    ensures
        concluded(
            best_upto(trials, corrs, cam, thr2, k, trials.len() as int),
            corrs,
            cam,
            thr2,
            min_inliers,
        ) is Some <==> exists|i: int|
            0 <= i < trials.len() && #[trigger] reaches(trials[i], corrs, cam, thr2, k, min_inliers),
{
    let m = trials.len() as int;
    let best = best_upto(trials, corrs, cam, thr2, k, m);
    lemma_best_is_scored(trials, corrs, cam, thr2, k, m);
    if let Some(b) = best {
        let i = lemma_best_comes_from(trials, corrs, cam, thr2, k, m);
        if b.count >= min_inliers {
            assert(reaches(trials[i], corrs, cam, thr2, k, min_inliers));
        }
    }
    if exists|i: int|
        0 <= i < trials.len() && #[trigger] reaches(trials[i], corrs, cam, thr2, k, min_inliers) {
        let i = choose|i: int|
            0 <= i < trials.len() && #[trigger] reaches(trials[i], corrs, cam, thr2, k, min_inliers);
        best_has_most_inliers(trials, corrs, cam, thr2, k, m, i);
    }
}

/// The trial has a hypothesis with the inliers asked for.
pub open spec fn reaches(
    t: Trial,
    corrs: Seq<Correspondence>,
    cam: Camera,
    thr2: Binary32,
    k: int,
    min_inliers: usize,
) -> bool {
    hypothesis(corrs, k, t) matches Some(x) && inliers(x, corrs, cam, thr2) >= min_inliers
}

proof fn lemma_best_comes_from(
    trials: Seq<Trial>,
    corrs: Seq<Correspondence>,
    cam: Camera,
    thr2: Binary32,
    k: int,
    m: int,
) -> (i: int)
    requires
        m <= trials.len(),
        best_upto(trials, corrs, cam, thr2, k, m) is Some,
    ensures
        0 <= i < m,
        hypothesis(corrs, k, trials[i]) == Some(best_upto(trials, corrs, cam, thr2, k, m)->0.pose),
    decreases m,
{
    let before = best_upto(trials, corrs, cam, thr2, k, m - 1);
    let now = best_upto(trials, corrs, cam, thr2, k, m);
    if now == before {
        lemma_best_comes_from(trials, corrs, cam, thr2, k, m - 1)
    } else {
        m - 1
    }
}

} // verus!
