use vo_box_lite::binary32::Binary32;
use vo_box_lite::linalg::mat_mul3;
use vo_box_lite::pose::{dlt_from_draws, exp_so3, pose_cost, refine_pose, Correspondence, Pose};
use vo_box_lite::ransac::{
    already_drawn, conclude, consider, dlt_pose, mask_and_error, pnp_ransac, pnp_ransac_best,
    sample_distinct, score_pose, Camera, PnpBest, PnpOptions, Rng, Xorshift64,
};

fn b(x: f32) -> Binary32 {
    Binary32 { bits: x.to_bits() }
}

fn f(x: Binary32) -> f32 {
    f32::from_bits(x.bits)
}

fn b3(v: [f32; 3]) -> [Binary32; 3] {
    v.map(b)
}

fn f3(v: [Binary32; 3]) -> [f32; 3] {
    v.map(f)
}

fn b33(m: [[f32; 3]; 3]) -> [[Binary32; 3]; 3] {
    m.map(b3)
}

fn f33(m: [[Binary32; 3]; 3]) -> [[f32; 3]; 3] {
    m.map(f3)
}

fn dot(a: [f32; 3], b: [f32; 3]) -> f32 {
    a[0] * b[0] + a[1] * b[1] + a[2] * b[2]
}

fn norm(a: [f32; 3]) -> f32 {
    dot(a, a).sqrt()
}

fn rot(r: &[[f32; 3]; 3], v: [f32; 3]) -> [f32; 3] {
    [dot(r[0], v), dot(r[1], v), dot(r[2], v)]
}

/// A calibration: focal length, centre and radial coefficient.
const F: f32 = 267.0;
const CX: f32 = 320.0;
const CY: f32 = 240.0;
const K1: f32 = -0.00208;

fn cam() -> Camera {
    Camera { fx: b(F), fy: b(F), cx: b(CX), cy: b(CY), k1: b(K1) }
}

fn undistort(u: f32, v: f32) -> [f32; 2] {
    cam().pixel_to_undistorted_normalized(b(u), b(v)).map(f)
}

/// Forward distortion model: undistorted normalized -> distorted pixel.
fn distort_to_pixel(xu: f32, yu: f32) -> [f32; 2] {
    let s = 1.0 + K1 * (xu * xu + yu * yu);
    [F * xu * s + CX, F * yu * s + CY]
}

/// A pose in the machine's own numbers.
struct Truth {
    r: [[f32; 3]; 3],
    t: [f32; 3],
}

fn euler(yaw: f32, pitch: f32, roll: f32) -> [[f32; 3]; 3] {
    let (sy, cy) = yaw.sin_cos();
    let (sp, cp) = pitch.sin_cos();
    let (sr, cr) = roll.sin_cos();
    [
        [cy * cp, cy * sp * sr - sy * cr, cy * sp * cr + sy * sr],
        [sy * cp, sy * sp * sr + cy * cr, sy * sp * cr - cy * sr],
        [-sp, cp * sr, cp * cr],
    ]
}

/// trace(R_a^T R_b) = elementwise dot, so the rotation angle drops out.
fn rot_err_deg(a: [[f32; 3]; 3], b: [[f32; 3]; 3]) -> f32 {
    let tr: f32 = a.iter().zip(&b).map(|(ra, rb)| dot(*ra, *rb)).sum();
    ((tr - 1.0) / 2.0).clamp(-1.0, 1.0).acos().to_degrees()
}

/// Synthetic scene: points in front of a known pose, projected through the
/// distortion model; `outlier_frac` are replaced by random pixels.
fn make_scene(
    rng: &mut Xorshift64,
    n: usize,
    outlier_frac: f32,
    noise_px: f32,
) -> (Truth, Vec<Correspondence>, usize) {
    let r_true = euler(0.55, -0.35, 0.2);
    let center = [1.0, -0.35, 0.6];
    let rc = rot(&r_true, center);
    let t_true = [-rc[0], -rc[1], -rc[2]]; // t = -R C

    let u = |rng: &mut Xorshift64| (rng.next_u32() >> 8) as f32 / (1u32 << 24) as f32;
    let mut corrs = Vec::with_capacity(n);
    let mut n_true = 0;
    for _ in 0..n {
        let depth = 2.0 + 6.0 * u(rng);
        let xn = (2.0 * u(rng) - 1.0) * 0.7;
        let yn = (2.0 * u(rng) - 1.0) * 0.7;
        let xc = [xn * depth, yn * depth, depth];
        // World point: R^T x_c + C.
        let rt = [
            [r_true[0][0], r_true[1][0], r_true[2][0]],
            [r_true[0][1], r_true[1][1], r_true[2][1]],
            [r_true[0][2], r_true[1][2], r_true[2][2]],
        ];
        let rtx = rot(&rt, xc);
        let world = [rtx[0] + center[0], rtx[1] + center[1], rtx[2] + center[2]];

        let outlier = u(rng) < outlier_frac;
        let (px, py) = if outlier {
            (u(rng) * 640.0, u(rng) * 480.0)
        } else {
            n_true += 1;
            let [px, py] = distort_to_pixel(xn, yn);
            let nz = noise_px * (2.0 * u(rng) - 1.0);
            (px + nz, py + nz)
        };
        let [ux, uy] = undistort(px, py);
        corrs.push(Correspondence {
            world: b3(world),
            xn: b(ux),
            yn: b(uy),
        });
    }
    (
        Truth {
            r: r_true,
            t: t_true,
        },
        corrs,
        n_true,
    )
}

#[test]
fn undistort_roundtrip() {
    for &(u, v) in &[
        (0.0, 0.0),
        (639.0, 479.0),
        (320.0, 240.0),
        (10.0, 470.0),
        (100.0, 50.0),
    ] {
        let [xu, yu] = undistort(u, v);
        let [uu, vv] = distort_to_pixel(xu, yu);
        let err = ((uu - u).powi(2) + (vv - v).powi(2)).sqrt();
        assert!(err < 1e-3, "roundtrip err {err} px at ({u},{v})");
    }
}

#[test]
fn dlt_exact_recovers_pose() {
    let mut rng = Xorshift64::new(1);
    let (truth, corrs, _) = make_scene(&mut rng, 30, 0.0, 0.0);
    let sample: Vec<usize> = (0..8).collect();
    let pose = dlt_pose(&corrs, &sample, &mut rng).expect("dlt failed");
    let pose = Truth { r: f33(pose.r), t: f3(pose.t) };
    let rerr = rot_err_deg(truth.r, pose.r);
    let terr = norm([
        pose.t[0] - truth.t[0],
        pose.t[1] - truth.t[1],
        pose.t[2] - truth.t[2],
    ]) / norm(truth.t);
    assert!(rerr < 0.1, "rotation err {rerr} deg");
    assert!(terr < 1e-2, "translation rel err {terr}");
}

#[test]
fn refine_recovers_from_perturbation() {
    // The linear pose is only a rough start; refinement must pull it back onto
    // the true rigid pose.
    let mut rng = Xorshift64::new(11);
    let (truth, corrs, _) = make_scene(&mut rng, 80, 0.0, 1.0);
    let perturbed = Pose {
        r: mat_mul3(&exp_so3(&b3([0.15, -0.12, 0.10])), &b33(truth.r)),
        t: b3([truth.t[0] + 0.4, truth.t[1] - 0.3, truth.t[2] + 0.5]),
    };
    let refined = refine_pose(perturbed, &corrs, None);
    let refined = Truth { r: f33(refined.r), t: f3(refined.t) };
    let rerr = rot_err_deg(truth.r, refined.r);
    let terr = norm([
        refined.t[0] - truth.t[0],
        refined.t[1] - truth.t[1],
        refined.t[2] - truth.t[2],
    ]) / norm(truth.t);
    assert!(rerr < 0.5, "rot err {rerr} deg");
    assert!(terr < 0.05, "t rel err {terr}");
}

#[test]
fn ransac_noisy_outliers() {
    let mut worst_rot = 0f32;
    let mut worst_t = 0f32;
    for seed in [1u64, 42, 7, 99, 1234, 555, 2024, 31337] {
        let mut rng = Xorshift64::new(seed);
        let n = 60;
        let (truth, corrs, n_true) = make_scene(&mut rng, n, 0.2, 0.3);
        let mut mask = vec![false; n];
        let opts = PnpOptions {
            iterations: 150,
            sample_size: 8,
            reproj_threshold_px: b(4.0),
            min_inliers: 20,
        };
        let res = pnp_ransac(&corrs, &cam(), &opts, &mut rng, &mut mask).expect("pnp failed");
        let pose = Truth { r: f33(res.r), t: f3(res.t) };
        let rerr = rot_err_deg(truth.r, pose.r);
        let terr = norm([
            pose.t[0] - truth.t[0],
            pose.t[1] - truth.t[1],
            pose.t[2] - truth.t[2],
        ]) / norm(truth.t);
        worst_rot = worst_rot.max(rerr);
        worst_t = worst_t.max(terr);
        println!(
            "seed {seed}: inliers {}/{} (true {}) rot {rerr:.3}deg t_rel {terr:.4}",
            res.inlier_count, n, n_true
        );
        assert!(res.inlier_count >= n_true - 2, "seed {seed}");
        assert!(rerr < 1.0, "seed {seed}: rot {rerr}");
        assert!(terr < 5e-2, "seed {seed}: t {terr}");
        assert!(f(res.mean_reproj_error_px) < 1.0, "seed {seed}");
        assert_eq!(mask.iter().filter(|&&b| b).count(), res.inlier_count);
    }
    println!("worst over seeds: rot {worst_rot:.3} deg, t_rel {worst_t:.4}");
}

#[test]
fn ransac_heavy_outliers() {
    let mut rng = Xorshift64::new(5);
    let n = 80;
    let (truth, corrs, n_true) = make_scene(&mut rng, n, 0.4, 0.5);
    let mut mask = vec![false; n];
    let opts = PnpOptions {
        iterations: 200,
        sample_size: 6,
        reproj_threshold_px: b(4.0),
        min_inliers: 20,
    };
    let res = pnp_ransac(&corrs, &cam(), &opts, &mut rng, &mut mask).expect("pnp failed");
    let pose = Truth { r: f33(res.r), t: f3(res.t) };
    let rerr = rot_err_deg(truth.r, pose.r);
    let terr = norm([
        pose.t[0] - truth.t[0],
        pose.t[1] - truth.t[1],
        pose.t[2] - truth.t[2],
    ]) / norm(truth.t);
    println!(
        "heavy: inliers {}/{} (true {}) rot {rerr:.3}deg t_rel {terr:.4}",
        res.inlier_count, n, n_true
    );
    assert!(res.inlier_count >= n_true - 4);
    assert!(rerr < 2.0, "rotation err {rerr} deg");
    assert!(terr < 8e-2, "translation rel err {terr}");
}

#[test]
fn rejects_garbage_and_tiny_input() {
    let mut rng = Xorshift64::new(7);
    let mut corrs = Vec::new();
    for _ in 0..40 {
        let mut u = || (rng.next_u32() >> 8) as f32 / (1u32 << 24) as f32;
        let world = [u() * 4.0 - 2.0, u() * 4.0 - 2.0, u() * 4.0 - 2.0];
        let [xn, yn] = undistort(u() * 640.0, u() * 480.0);
        corrs.push(Correspondence { world: b3(world), xn: b(xn), yn: b(yn) });
    }
    let mut mask = vec![false; corrs.len()];
    let opts = PnpOptions {
        min_inliers: 8,
        ..Default::default()
    };
    assert!(pnp_ransac(&corrs, &cam(), &opts, &mut rng, &mut mask).is_none());

    let mut rng2 = Xorshift64::new(8);
    let (_, corrs5, _) = make_scene(&mut rng2, 5, 0.0, 0.0);
    let mut mask = vec![false; 5];
    assert!(pnp_ransac(&corrs5, &cam(), &opts, &mut rng2, &mut mask).is_none());
}

#[test]
fn generator_matches_its_definition() {
    let mut g = Xorshift64::new(1);
    let mut x = 1u64;
    for _ in 0..100 {
        x ^= x << 13;
        x ^= x >> 7;
        x ^= x << 17;
        assert_eq!(g.next_u32(), (x.wrapping_mul(0x2545_F491_4F6C_DD1D) >> 32) as u32);
    }
    let mut zero = Xorshift64::new(0);
    let mut seeded = Xorshift64::new(0x9E37_79B9_7F4A_7C15);
    assert_eq!(zero.next_u32(), seeded.next_u32());
}

/// Numbers from a list, over and over.
struct Listed(Vec<u32>, usize);

impl Rng for Listed {
    fn next_u32(&mut self) -> u32 {
        let v = self.0[self.1 % self.0.len()];
        self.1 += 1;
        v
    }
}

#[test]
fn samples_are_distinct_or_given_up() {
    let mut rng = Xorshift64::new(3);
    let mut out = [99usize; 12];
    for n in 6..40 {
        assert!(sample_distinct(&mut rng, n, 6, &mut out));
        for i in 0..6 {
            assert!(out[i] < n);
            assert!(!already_drawn(&out, i, out[i]));
        }
        assert_eq!(out[6], 99);
    }
    // A generator that repeats itself gives up after more than 200 repetitions.
    let mut stuck = Listed(vec![4], 0);
    assert!(!sample_distinct(&mut stuck, 10, 2, &mut out));
    assert_eq!(stuck.1, 1 + 201);
    assert!(sample_distinct(&mut stuck, 10, 1, &mut out));
    // More indices than there are cannot be drawn.
    assert!(!sample_distinct(&mut rng, 3, 4, &mut out));
}

#[test]
fn defaults() {
    let o = PnpOptions::default();
    assert_eq!((o.iterations, o.sample_size, o.min_inliers), (150, 8, 8));
    assert_eq!(f(o.reproj_threshold_px), 4.0);
    let best = PnpBest::default();
    assert_eq!((best.inlier_count, best.mean_reproj_error_px.bits), (0, 0));
}

#[test]
fn scores_count_points_in_front_only() {
    let pose = Pose {
        r: b33([[1.0, 0.0, 0.0], [0.0, 1.0, 0.0], [0.0, 0.0, 1.0]]),
        t: b3([0.0, 0.0, 0.0]),
    };
    let at = |x: f32, z: f32, xn: f32| Correspondence {
        world: b3([x, 0.0, z]),
        xn: b(xn),
        yn: b(0.0),
    };
    // Exact, off by 0.01 * 267 = 2.67 px, behind the camera, at depth 0.
    let corrs = [at(1.0, 2.0, 0.5), at(1.0, 2.0, 0.51), at(1.0, -2.0, -0.5), at(0.0, 0.0, 0.0)];
    let thr2 = b(16.0);
    let (n, err2) = score_pose(&pose, &corrs, &cam(), thr2);
    assert_eq!(n, 2);
    let e = 267.0f32 * (0.51f32 - 0.5);
    assert_eq!(f(err2), e * e);
    let mut mask = [true; 5];
    assert_eq!(mask_and_error(&pose, &corrs, &cam(), thr2, &mut mask).0, 2);
    assert_eq!(mask, [true, true, false, false, true]);
}

#[test]
fn more_inliers_win_and_ties_go_to_the_smaller_error() {
    let mut rng = Xorshift64::new(21);
    let (truth, corrs, _) = make_scene(&mut rng, 20, 0.0, 0.2);
    let good = Pose { r: b33(truth.r), t: b3(truth.t) };
    let bad = Pose { r: b33(truth.r), t: b3([9.0, 9.0, 9.0]) };
    let thr2 = b(16.0);
    let first = consider(None, bad, &corrs, &cam(), thr2);
    assert_eq!(first.unwrap().pose, bad);
    let second = consider(first, good, &corrs, &cam(), thr2);
    assert_eq!(second.unwrap().pose, good);
    assert_eq!(second.unwrap().count, 20);
    assert_eq!(consider(second, bad, &corrs, &cam(), thr2), second);
    let mut mask = [false; 20];
    let res = conclude(second, &corrs, &cam(), thr2, 20, &mut mask).unwrap();
    assert_eq!(res.inlier_count, 20);
    assert!(mask.iter().all(|&m| m));
    assert!(conclude(second, &corrs, &cam(), thr2, 21, &mut mask).is_none());
    assert!(conclude(None, &corrs, &cam(), thr2, 0, &mut mask).is_none());
}

#[test]
fn best_hypothesis_is_reported_when_the_pose_is_rejected() {
    let mut rng = Xorshift64::new(17);
    let (_, corrs, _) = make_scene(&mut rng, 12, 0.0, 0.0);
    let mut mask = [false; 12];
    let mut best = PnpBest::default();
    let opts = PnpOptions { iterations: 5, min_inliers: 13, ..PnpOptions::default() };
    assert!(pnp_ransac_best(&corrs, &cam(), &opts, &mut rng, &mut mask, &mut best).is_none());
    assert!(best.inlier_count > 0);
    // Too short a mask: nothing is touched.
    let mut untouched = PnpBest { inlier_count: 5, mean_reproj_error_px: b(1.0) };
    let mut short = [true; 11];
    assert!(
        pnp_ransac_best(&corrs, &cam(), &opts, &mut rng, &mut short, &mut untouched).is_none()
    );
    assert_eq!(untouched.inlier_count, 5);
    assert_eq!(short, [true; 11]);
}

#[test]
fn degenerate_samples_have_no_linear_solution() {
    let same = Correspondence { world: b3([1.0, 2.0, 3.0]), xn: b(0.1), yn: b(0.2) };
    let corrs = [same; 8];
    let idx: Vec<usize> = (0..8).collect();
    assert!(dlt_from_draws(&corrs, &idx, &[7; 12]).is_none());
}

#[test]
fn refinement_never_raises_the_cost() {
    let mut rng = Xorshift64::new(33);
    let (truth, corrs, _) = make_scene(&mut rng, 25, 0.3, 2.0);
    for k in 0..4 {
        let start = Pose {
            r: b33(truth.r),
            t: b3([truth.t[0] + 0.1 * k as f32, truth.t[1], truth.t[2]]),
        };
        let end = refine_pose(start, &corrs, None);
        let before = f(pose_cost(&start, &corrs, None).1);
        let after = f(pose_cost(&end, &corrs, None).1);
        assert!(end == start || after < before);
    }
    // Fewer than four points: the pose is kept.
    let start = Pose { r: b33(truth.r), t: b3([0.0, 0.0, 0.0]) };
    let mask = [true, true, true];
    assert_eq!(refine_pose(start, &corrs, Some(&mask)), start);
}

#[test]
fn equal_draws_give_equal_results() {
    let mut rng = Xorshift64::new(77);
    let (_, corrs, _) = make_scene(&mut rng, 24, 0.3, 1.0);
    let opts = PnpOptions { iterations: 12, ..PnpOptions::default() };
    let mut runs = vec![];
    for _ in 0..2 {
        let mut rng = Xorshift64::new(5);
        let mut mask = [false; 24];
        let mut best = PnpBest::default();
        let r = pnp_ransac_best(&corrs, &cam(), &opts, &mut rng, &mut mask, &mut best);
        runs.push((r, mask, best, rng.next_u32()));
    }
    assert_eq!(runs[0], runs[1]);
}

#[test]
fn interrupted_samples_keep_what_was_drawn() {
    let mut out = [99usize; 3];
    let mut two = Listed(vec![7, 18, 7, 18], 0);
    // 7 and 18 leave 7 and 8 of 10; the third index never comes.
    assert!(!sample_distinct(&mut two, 10, 3, &mut out));
    assert_eq!(out, [7, 8, 99]);
    assert_eq!(two.1, 2 + 201);
}
