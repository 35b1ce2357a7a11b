use vo_box_lite::matcher::Descriptor;
use vo_box_lite::rbrief::pattern::pattern_pair;
use vo_box_lite::rbrief::{
    ic_angle, rbrief_angle, rbrief_descriptor, rbrief_samples, HALF_PATCH, ORB_PATTERN, U_MAX,
};

/// Deterministic xorshift64* so tests need no RNG dependency.
struct Lcg(u64);
impl Lcg {
    fn next(&mut self) -> u8 {
        let mut x = self.0;
        x ^= x << 13;
        x ^= x >> 7;
        x ^= x << 17;
        self.0 = x;
        (x.wrapping_mul(0x2545_F491_4F6C_DD1D) >> 32) as u8
    }
    fn fill(&mut self, buf: &mut [u8]) {
        for b in buf.iter_mut() {
            *b = self.next();
        }
    }
}

fn rand_img(w: usize, h: usize, seed: u64) -> Vec<u8> {
    let mut im = vec![0u8; w * h];
    Lcg(seed).fill(&mut im);
    im
}

/// Square root by the encoding and three Newton steps, on the machine's own numbers.
fn sqrt_f32(x: f32) -> f32 {
    if x <= 0.0 {
        return 0.0;
    }
    let mut r = f32::from_bits((x.to_bits() + 0x3F80_0000) >> 1);
    for _ in 0..3 {
        r = 0.5 * (r + x / r);
    }
    r
}

/// Rounding half to even, on the machine's own numbers.
fn round_half_even(x: f32) -> i32 {
    let a = if x < 0.0 { -x } else { x };
    let t = a as i32;
    let f = a - t as f32;
    let r = if f > 0.5 || f == 0.5 && (t & 1) == 1 { t + 1 } else { t };
    if x < 0.0 { -r } else { r }
}

/// Independent reference: (v, u) disk moments and sampling on the machine's own numbers:
/// cross-checks loops, packing, table indexing and the arithmetic bit for bit.
fn naive_descriptor(im: &[u8], w: usize, _h: usize, x: usize, y: usize) -> Descriptor {
    let mut m01: i32 = 0;
    let mut m10: i32 = 0;
    let c = (y * w + x) as isize;
    let sw = w as isize;
    for v in -HALF_PATCH..=HALF_PATCH {
        let d = if v == 0 { HALF_PATCH } else { U_MAX[v.unsigned_abs() as usize] };
        for u in -d..=d {
            let p = im[(c + u as isize + v as isize * sw) as usize] as i32;
            m10 += u * p;
            m01 += v * p;
        }
    }
    let m_sqrt = sqrt_f32((m01 as f32) * (m01 as f32) + (m10 as f32) * (m10 as f32));
    let (st, ct) = if m_sqrt > 1e-6 {
        ((m01 as f32) / m_sqrt, (m10 as f32) / m_sqrt)
    } else {
        (0.0, 1.0)
    };
    let rot = |dx: i32, dy: i32| {
        (
            round_half_even(ct * dx as f32 - st * dy as f32) + x as i32,
            round_half_even(st * dx as f32 + ct * dy as f32) + y as i32,
        )
    };
    let mut desc = [0u32; 8];
    for idx in 0..256usize {
        let (px, py, qx, qy) = pattern_pair(idx);
        let (ax, ay) = rot(px, py);
        let (bx, by) = rot(qx, qy);
        if im[ay as usize * w + ax as usize] < im[by as usize * w + bx as usize] {
            desc[idx / 32] |= 1u32 << (idx % 32);
        }
    }
    desc
}

#[test]
fn pattern_table_sane() {
    assert_eq!(ORB_PATTERN.len(), 1024);
    for v in ORB_PATTERN {
        assert!((-13..=13).contains(&v), "out-of-range pattern coord {v}");
    }
    // px and qx (even indices): no single-sided bias in the learned pairs.
    let sum: i64 = ORB_PATTERN.iter().step_by(2).map(|&v| v as i64).sum();
    assert!(sum.abs() < 1024, "pattern looks biased: {sum}");
}

#[test]
fn border_rejection() {
    let w = 200;
    let h = 150;
    let im = rand_img(w, h, 1);
    let mut d = [0u32; 8];
    // Interior (>= 20, < w-20) is accepted.
    for &(x, y) in &[(20usize, 20usize), (w - 21, h - 21), (100, 75), (20, 100), (100, 20)] {
        assert!(
            rbrief_descriptor(&im, w, h, x, y, &mut d),
            "interior ({x},{y}) rejected"
        );
    }
    // Border band and out-of-range are rejected with zeros.
    for &(x, y) in &[
        (19usize, 100usize),
        (100, 19),
        (w - 20, 100),
        (100, h - 20),
        (0, 0),
        (w - 1, h - 1),
        (w + 5, 10),
    ] {
        d = [0xDEAD_BEEF; 8];
        assert!(
            !rbrief_descriptor(&im, w, h, x, y, &mut d),
            "border ({x},{y}) accepted"
        );
        assert_eq!(d, [0; 8], "border descriptor not zeroed");
    }
    // Image too small to ever have a valid keypoint.
    assert!(!rbrief_descriptor(&im, 39, 39, 10, 10, &mut d));
    assert!(!rbrief_descriptor(&im, 39, 200, 10, 10, &mut d));
}

#[test]
fn flat_image_descriptor_is_zero() {
    let im = vec![128u8; 640 * 480];
    let mut d = [0u32; 8];
    assert!(rbrief_descriptor(&im, 640, 480, 320, 240, &mut d));
    assert_eq!(d, [0; 8], "flat patch: no strict-< test can fire");
}

#[test]
fn rbrief_matches_naive_reference() {
    for (w, h, seed) in [
        (640usize, 480usize, 0x9E37_79B9_7F4A_7C15u64),
        (320, 240, 0xDEAD_BEEF),
        (97, 63, 0x0123_4567), // odd dims
        (64, 64, 7),
    ] {
        let im = rand_img(w, h, seed);
        // Interior keypoints only (both reject identically anyway).
        for y in [20usize, 21, h / 2, h - 21] {
            for x in [20usize, 21, w / 2, w - 21] {
                let mut got = [0u32; 8];
                assert!(rbrief_descriptor(&im, w, h, x, y, &mut got));
                assert_eq!(got, naive_descriptor(&im, w, h, x, y), "{w}x{h} ({x},{y})");
            }
        }
    }
}

#[test]
fn deterministic_and_textured() {
    // Textured (checker-ish) patch: descriptor must be nonzero and stable.
    let w = 200;
    let h = 200;
    let mut im = vec![0u8; w * h];
    for (i, p) in im.iter_mut().enumerate() {
        *p = if ((i % w / 3) + (i / w / 3)) % 2 == 0 { 220 } else { 30 };
    }
    let mut d1 = [0u32; 8];
    let mut d2 = [0u32; 8];
    assert!(rbrief_descriptor(&im, w, h, 100, 100, &mut d1));
    assert!(rbrief_descriptor(&im, w, h, 100, 100, &mut d2));
    assert_eq!(d1, d2);
    assert!(d1.iter().any(|&w| w != 0), "textured patch gave zero descriptor");
}

#[test]
fn orientation_points_to_the_bright_side() {
    let (w, h) = (41usize, 41usize);
    // Brighter to the right: the direction is along x.
    let right: Vec<u8> = (0..w * h).map(|i| (i % w) as u8 * 4).collect();
    let (s, c) = ic_angle(&right, w, 20 * w + 20);
    assert_eq!(f32::from_bits(s.bits), 0.0);
    assert_eq!(f32::from_bits(c.bits), 1.0);
    // Brighter below: the direction is along y.
    let down: Vec<u8> = (0..w * h).map(|i| (i / w) as u8 * 4).collect();
    let (s, c) = ic_angle(&down, w, 20 * w + 20);
    assert_eq!(f32::from_bits(s.bits), 1.0);
    assert_eq!(f32::from_bits(c.bits), 0.0);
    // Flat: not rotated.
    let (s, c) = ic_angle(&vec![9u8; w * h], w, 20 * w + 20);
    assert_eq!((s.bits, c.bits), (0, 0x3F80_0000));
}

#[test]
fn descriptor_is_angle_and_samples_composed() {
    let (w, h) = (90usize, 70usize);
    let im = rand_img(w, h, 31);
    let mut whole = [0u32; 8];
    let mut parts = [0u32; 8];
    assert!(rbrief_descriptor(&im, w, h, 44, 33, &mut whole));
    let (s, c) = rbrief_angle(&im, w, h, 44, 33).unwrap();
    rbrief_samples(&im, w, 44, 33, s, c, &mut parts);
    assert_eq!(whole, parts);
    assert!(rbrief_angle(&im, w, h, 19, 33).is_none());
    assert_eq!(pattern_pair(0), (8, -3, 9, 5));
    assert_eq!(pattern_pair(255).0, ORB_PATTERN[1020]);
}

#[test]
fn a_brightness_offset_keeps_orientation_and_descriptor() {
    let (w, h) = (64, 56);
    let dark: Vec<u8> = rand_img(w, h, 31).iter().map(|p| p / 2).collect();
    for c in [1u8, 17, 128] {
        let bright: Vec<u8> = dark.iter().map(|p| p + c).collect();
        for (x, y) in [(20, 20), (32, 28), (43, 35), (5, 30)] {
            let mut a: Descriptor = [7; 8];
            let mut b: Descriptor = [7; 8];
            assert_eq!(
                rbrief_descriptor(&dark, w, h, x, y, &mut a),
                rbrief_descriptor(&bright, w, h, x, y, &mut b)
            );
            assert_eq!(a, b);
            assert_eq!(rbrief_angle(&dark, w, h, x, y), rbrief_angle(&bright, w, h, x, y));
        }
    }
}
