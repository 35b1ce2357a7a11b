use vo_box_lite::binary32::{
    from_i32, from_u64, hundredths, is_at_most, is_less, larger_of, lrint_half_even, smaller_of,
    to_i32, Binary32, NAN_BITS,
};
use vo_box_lite::sqrt::sqrt32;

struct Rng(u64);

impl Rng {
    fn next(&mut self) -> u32 {
        self.0 ^= self.0 << 13;
        self.0 ^= self.0 >> 7;
        self.0 ^= self.0 << 17;
        (self.0.wrapping_mul(0x2545_F491_4F6C_DD1D) >> 32) as u32
    }
}

fn b(x: f32) -> Binary32 {
    Binary32 { bits: x.to_bits() }
}

fn f(x: Binary32) -> f32 {
    f32::from_bits(x.bits)
}

/// The same number; any not-a-number is the one of this library.
fn same(got: Binary32, want: f32, label: &str) {
    if want.is_nan() {
        assert_eq!(got.bits, NAN_BITS, "{label}");
    } else {
        assert_eq!(got.bits, want.to_bits(), "{label}: {} {}", f(got), want);
    }
}

const SPECIAL: [u32; 22] = [
    0x0000_0000,
    0x8000_0000,
    0x0000_0001,
    0x8000_0001,
    0x007F_FFFF,
    0x0080_0000,
    0x0080_0001,
    0x3F80_0000,
    0xBF80_0000,
    0x3F80_0001,
    0x3F7F_FFFF,
    0x3F00_0000,
    0x4B80_0000,
    0x4B7F_FFFF,
    0x7F7F_FFFF,
    0xFF7F_FFFF,
    0x7F80_0000,
    0xFF80_0000,
    0x7FC0_0000,
    0xFFC0_0001,
    0x7F00_0000,
    0x1234_5678,
];

fn check_pair(x: u32, y: u32) {
    let (p, q) = (f32::from_bits(x), f32::from_bits(y));
    let (bp, bq) = (Binary32 { bits: x }, Binary32 { bits: y });
    same(bp.plus(bq), p + q, "sum");
    same(bp.minus(bq), p - q, "difference");
    same(bp.times(bq), p * q, "product");
    same(bp.over(bq), p / q, "quotient");
    assert_eq!(is_less(bp, bq), p < q);
    assert_eq!(is_at_most(bp, bq), p <= q);
    if !(p == 0.0 && q == 0.0) {
        let (lo, hi) = (p.min(q), p.max(q));
        if !lo.is_nan() {
            same(larger_of(bp, bq), hi, "larger");
            same(smaller_of(bp, bq), lo, "smaller");
        }
    }
}

#[test]
fn operations_match_the_machine_on_special_numbers() {
    for &x in &SPECIAL {
        for &y in &SPECIAL {
            check_pair(x, y);
        }
    }
}

#[test]
fn operations_match_the_machine_on_random_numbers() {
    let mut r = Rng(0x9E37_79B9_7F4A_7C15);
    for _ in 0..20_000 {
        check_pair(r.next(), r.next());
    }
    // Numbers of similar size, where sums cancel and ties are common.
    for _ in 0..20_000 {
        let e = (r.next() % 254) << 23;
        let near = |v: u32| (v & 0x8000_0000) | (e & 0x7F80_0000) | (v & 0x007F_FFFF);
        let x = near(r.next());
        let y = near(r.next());
        check_pair(x, y);
        check_pair(x, y.wrapping_add(1 << 23));
        check_pair(x & 0xFFFF_F000, y & 0xFFFF_0000);
    }
}

#[test]
fn tiny_products_and_quotients_match_the_machine() {
    let mut r = Rng(3);
    for _ in 0..20_000 {
        let x = (r.next() % 0x2000_0000) | (r.next() & 0x8000_0000);
        let y = (r.next() % 0x2000_0000) + 0x1000_0000;
        check_pair(x, y);
        check_pair(y, x);
    }
}

#[test]
fn signs_and_classes() {
    assert_eq!(f(b(3.5).negated()), -3.5);
    assert_eq!(b(0.0).negated().bits, 0x8000_0000);
    assert_eq!(f(b(-2.0).abs()), 2.0);
    assert!(b(f32::NAN).is_nan());
    assert!(!b(f32::INFINITY).is_nan());
    assert!(!b(f32::INFINITY).is_finite());
    assert!(b(f32::MAX).is_finite());
}

#[test]
fn integers_round_to_the_nearest_number() {
    for v in [0u64, 1, 7, 255, 16_777_215, 16_777_216, 16_777_217, 16_777_219, u64::MAX, 1 << 40] {
        assert_eq!(f(from_u64(v)), v as f32, "{v}");
    }
    for v in [0i32, 1, -1, 13, -13, 33_554_433, -33_554_435, i32::MIN, i32::MAX] {
        assert_eq!(f(from_i32(v)), v as f32, "{v}");
    }
    let mut r = Rng(11);
    for _ in 0..5000 {
        let v = ((r.next() as u64) << 32) | r.next() as u64;
        let v = v >> (r.next() % 64);
        assert_eq!(f(from_u64(v)).to_bits(), (v as f32).to_bits(), "{v}");
    }
}

#[test]
fn truncation_saturates() {
    for x in [
        0.0f32, -0.0, 0.99, -0.99, 1.0, 1.5, -7.9, 8388607.5, 16777216.0, 2147483500.0, 2147483648.0,
        -2147483648.0, 1e20, -1e20, f32::INFINITY, f32::NEG_INFINITY, f32::NAN, 1e-40,
    ] {
        assert_eq!(to_i32(b(x)), x as i32, "{x}");
    }
}

#[test]
fn rounding_to_integers_is_half_to_even() {
    for x in [
        0.5f32, 1.5, 2.5, -0.5, -1.5, -2.5, 0.49999997, 0.50000006, 18.5, 19.5, 8388607.5, 8388606.5,
        16777217.0, 0.0, -0.0, 1e-30, -3.2, 3.7,
    ] {
        let a = x.abs();
        let t = a.floor();
        let d = a - t;
        let up = d > 0.5 || (d == 0.5 && (t as i64) % 2 == 1);
        let r = t as i32 + if up { 1 } else { 0 };
        assert_eq!(lrint_half_even(b(x)), if x < 0.0 { -r } else { r }, "{x}");
    }
}

#[test]
fn square_roots_take_three_newton_steps() {
    let want = |x: f32| {
        if x <= 0.0 {
            return 0.0;
        }
        if x.is_infinite() {
            return x;
        }
        let mut r = f32::from_bits((x.to_bits() + 0x3F80_0000) >> 1);
        for _ in 0..3 {
            r = 0.5 * (r + x / r);
        }
        r
    };
    let mut r = Rng(5);
    for x in [0.0f32, -0.0, -4.0, 1.0, 2.0, 4.0, 1e-30, 3e38, f32::INFINITY, f32::NEG_INFINITY] {
        assert_eq!(f(sqrt32(b(x))).to_bits(), want(x).to_bits(), "{x}");
    }
    for _ in 0..3000 {
        let x = f32::from_bits(r.next() % 0x7F80_0000);
        assert_eq!(f(sqrt32(b(x))).to_bits(), want(x).to_bits(), "{x}");
    }
    let near = f(sqrt32(b(2.0)));
    assert!((near - 1.4142135).abs() < 1e-6);
}

#[test]
fn hundredths_round_half_to_even() {
    assert_eq!(hundredths(b(0.125)), (0, 12));
    assert_eq!(hundredths(b(0.375)), (0, 38));
    assert_eq!(hundredths(b(639.5)), (639, 50));
    assert_eq!(hundredths(b(1e-9)), (0, 0));
    assert_eq!(hundredths(b(-2.5)), (2, 50));
    assert_eq!(hundredths(b(1e19)), (9_999_999_980_506_447_872, 0));
}
