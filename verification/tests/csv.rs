use vo_box_lite::binary32::Binary32;
use vo_box_lite::csv::{format_csv, push_fixed2};
use vo_box_lite::pyramid::Feature;

fn text(x: f32) -> String {
    let mut buf = Vec::new();
    push_fixed2(&mut buf, Binary32 { bits: x.to_bits() });
    String::from_utf8(buf).unwrap()
}

#[test]
fn numbers_have_two_decimals() {
    for x in [
        0.0f32, -0.0, 0.5, 0.005, 0.015, 0.125, 0.375, 1.2, 1.44, 99.995, 639.0, 1234.5678, -3.14159,
        1e-30, 16777216.0, 1.8e19, 0.0049999, 2.675, 1e9,
        f32::MAX, f32::MIN, f32::INFINITY, f32::NEG_INFINITY, f32::NAN,
    ] {
        assert_eq!(text(x), format!("{x:.2}"), "{x}");
    }
    let mut bits = 0x1234_5678u32;
    for _ in 0..20_000 {
        bits = bits.wrapping_mul(1664525).wrapping_add(1013904223);
        let x = f32::from_bits(bits);
        assert_eq!(text(x), format!("{x:.2}"), "{bits:08x}");
    }
}

#[test]
fn rows_hold_position_and_descriptor() {
    let b = |x: f32| Binary32 { bits: x.to_bits() };
    let a = Feature { level: 0, x: b(12.0), y: b(7.5), desc: [0x0302_01FF, 0, 0, 0, 0, 0, 0, 0xA0] };
    let c = Feature { level: 2, x: b(1.44), y: b(2.88), desc: [u32::MAX; 8] };
    let got = String::from_utf8(format_csv(&[a, c])).unwrap();
    let want = format!(
        "12.00,7.50,ff010203{}a0000000\n1.44,2.88,{}\n",
        "0".repeat(48),
        "f".repeat(64)
    );
    assert_eq!(got, want);
    assert!(format_csv(&[]).is_empty());
}
