use vo_box_lite::binary32::Binary32;
use vo_box_lite::linalg::{
    add_outer, cholesky, cross3, det3, dot3, mat_mul3, norm3, rot_vec, solve6, solve_backward,
    solve_forward,
};
use vo_box_lite::pose::{denormalize_p, exp_so3, pose_from_p};

fn b(x: f32) -> Binary32 {
    Binary32 { bits: x.to_bits() }
}

fn f(x: Binary32) -> f32 {
    f32::from_bits(x.bits)
}

fn v(a: [f32; 3]) -> [Binary32; 3] {
    a.map(b)
}

#[test]
fn vectors_and_matrices() {
    let a = v([1.0, 2.0, 3.0]);
    let c = v([-4.0, 0.5, 2.0]);
    assert_eq!(f(dot3(&a, &c)), 1.0 * -4.0 + 2.0 * 0.5 + 3.0 * 2.0);
    assert_eq!(cross3(&a, &c).map(f), [2.5, -14.0, 8.5]);
    assert_eq!(f(norm3(&v([3.0, 4.0, 0.0]))), 5.0);
    let m = [v([1.0, 2.0, 0.0]), v([0.0, 1.0, 3.0]), v([4.0, 0.0, 1.0])];
    assert_eq!(rot_vec(&m, &a).map(f), [5.0, 11.0, 7.0]);
    assert_eq!(f(det3(&m)), 25.0);
    let sq = mat_mul3(&m, &m);
    assert_eq!(sq[0].map(f), [1.0, 4.0, 6.0]);
    assert_eq!(sq[1].map(f), [12.0, 1.0, 6.0]);
    assert_eq!(sq[2].map(f), [8.0, 8.0, 1.0]);
}

#[test]
fn outer_products_fill_the_upper_triangle() {
    let mut m = [b(0.0); 144];
    let mut a = [b(0.0); 12];
    for i in 0..12 {
        a[i] = b(i as f32 + 1.0);
    }
    add_outer(&mut m, &a);
    add_outer(&mut m, &a);
    for i in 0..12 {
        for j in 0..12 {
            let want = if i <= j { 2.0 * (i as f32 + 1.0) * (j as f32 + 1.0) } else { 0.0 };
            assert_eq!(f(m[i * 12 + j]), want);
        }
    }
}

#[test]
fn factors_multiply_back() {
    let mut m = [b(4.0), b(2.0), b(2.0), b(5.0)];
    assert!(cholesky(&mut m, 2));
    assert_eq!(f(m[0]), 2.0);
    assert_eq!(f(m[2]), 1.0);
    assert_eq!(f(m[3]), 2.0);
    let mut y = [b(0.0); 2];
    solve_forward(&m, 2, &[b(4.0), b(6.0)], &mut y);
    assert_eq!(y.map(f), [2.0, 2.0]);
    let mut x = [b(0.0); 2];
    solve_backward(&m, 2, &y, &mut x);
    assert_eq!(x.map(f), [0.5, 1.0]);
    let mut bad = [b(1.0), b(2.0), b(2.0), b(1.0)];
    assert!(!cholesky(&mut bad, 2));
}

#[test]
fn six_by_six_systems() {
    let mut a = [b(0.0); 36];
    let mut rhs = [b(0.0); 6];
    for i in 0..6 {
        a[i * 7] = b(4.0);
        rhs[i] = b(i as f32 * 2.0);
    }
    let x = solve6(&a, &rhs).unwrap();
    for i in 0..6 {
        assert_eq!(f(x[i]), i as f32 * 0.5);
    }
    a[0] = b(-1.0);
    assert!(solve6(&a, &rhs).is_none());
    a[0] = b(4.0);
    rhs[0] = b(f32::INFINITY);
    assert!(solve6(&a, &rhs).is_none());
}

#[test]
fn small_rotations_are_nearly_orthonormal() {
    let r = exp_so3(&v([0.1, -0.2, 0.05]));
    for i in 0..3 {
        for j in 0..3 {
            let d = f(dot3(&r[i], &r[j]));
            assert!((d - if i == j { 1.0 } else { 0.0 }).abs() < 1e-5);
        }
    }
    let id = exp_so3(&v([0.0, 0.0, 0.0]));
    assert_eq!(id.map(|row| row.map(f)), [[1.0, 0.0, 0.0], [0.0, 1.0, 0.0], [0.0, 0.0, 1.0]]);
    // Long vectors turn by half a radian at most.
    let long = exp_so3(&v([0.0, 0.0, 9.0]));
    assert!((f(long[0][0]) - 0.5f32.cos()).abs() < 1e-4);
}

#[test]
fn poses_come_out_of_projections() {
    let eye = [1.0f32, 0.0, 0.0, 5.0, 0.0, 1.0, 0.0, -2.0, 0.0, 0.0, 1.0, 7.0];
    let p = pose_from_p(&eye.map(b)).unwrap();
    assert_eq!(p.t.map(f), [5.0, -2.0, 7.0]);
    assert_eq!(p.r.map(|r| r.map(f)), [[1.0, 0.0, 0.0], [0.0, 1.0, 0.0], [0.0, 0.0, 1.0]]);
    // A negative scale gives the same pose.
    let flipped = pose_from_p(&eye.map(|x| b(-2.0 * x))).unwrap();
    assert_eq!(flipped.t.map(f), [5.0, -2.0, 7.0]);
    // A zero column, parallel columns, and numbers that are not finite.
    assert!(pose_from_p(&[b(0.0); 12]).is_none());
    let mut flat = eye;
    flat[0] = 1.0;
    flat[4] = 1.0;
    flat[1] = 1.0;
    flat[5] = 1.0;
    flat[8] = 0.0;
    flat[9] = 0.001;
    assert!(pose_from_p(&flat.map(b)).is_none());
    let mut nan = eye;
    nan[3] = f32::NAN;
    assert!(pose_from_p(&nan.map(b)).is_none());
}

#[test]
fn denormalization_is_exact_on_powers_of_two() {
    let p = [1.0f32, 0.0, 0.0, 2.0, 0.0, 1.0, 0.0, 4.0, 0.0, 0.0, 1.0, 8.0].map(b);
    let q = denormalize_p(&p, b(2.0), &v([1.0, 0.0, 0.0]), b(0.5), &[b(0.0), b(0.0)]);
    assert_eq!(
        q.map(f),
        [4.0, 0.0, 0.0, 0.0, 0.0, 4.0, 0.0, 8.0, 0.0, 0.0, 2.0, 8.0]
    );
}
