use vo_box_lite::blur::{blur_px_clamped, box_blur5x5, div25, div25_simd, simd_out_block8, store8};

/// Trivially independent reference (fresh clamp loops + exact division)
/// so the sliding-window bookkeeping is cross-checked, not self-referenced.
fn naive_box_blur(src: &[u8], w: usize, h: usize) -> Vec<u8> {
    let mut out = vec![0u8; w * h];
    for y in 0..h {
        for x in 0..w {
            let mut s = 0u32;
            for dy in -2i64..=2 {
                let yy = ((y as i64 + dy).clamp(0, h as i64 - 1)) as usize;
                for dx in -2i64..=2 {
                    let xx = ((x as i64 + dx).clamp(0, w as i64 - 1)) as usize;
                    s += src[yy * w + xx] as u32;
                }
            }
            out[y * w + x] = ((s + 12) / 25) as u8; // round-half-up
        }
    }
    out
}

/// Tiny deterministic xorshift so tests need no RNG dependency.
struct Lcg(u64);
impl Lcg {
    fn next(&mut self) -> u8 {
        self.0 = self.0.wrapping_mul(6364136223846793005).wrapping_add(1442695040888963407);
        (self.0 >> 33) as u8
    }
    fn fill(&mut self, buf: &mut [u8]) {
        for b in buf.iter_mut() {
            *b = self.next();
        }
    }
}

#[test]
fn div25_is_round_half_up_for_all_sums() {
    for s in 0..=25 * 255 {
        assert_eq!(div25(s as u16), ((s + 12) / 25) as u8, "s={s}");
    }
}

#[test]
fn simd_div25_matches_div25_for_all_sums() {
    for s in 0..=25 * 255 {
        assert_eq!(
            div25_simd(s as u16),
            div25(s as u16),
            "s={s} (the vector divide must be exact)"
        );
    }
}

/// A block of eight equals the direct five-tap sums on random interiors.
#[test]
fn simd_out_block8_matches_direct_windows() {
    let mut rng = Lcg(0x1234_5678_9abc_def0);
    for w in [16usize, 17, 23, 32, 33, 640] {
        let mut vcol = vec![0u16; w];
        for _ in 0..4 {
            for v in vcol.iter_mut() {
                *v = rng.next() as u16 * 5; // <= 1275
            }
            let mut x = 2usize;
            while x + 14 <= w {
                let words = simd_out_block8(&vcol, x);
                let bytes: Vec<u8> = words
                    .iter()
                    .flat_map(|word| word.to_le_bytes())
                    .collect();
                for i in 0..8 {
                    let s = vcol[x - 2 + i] as u32
                        + vcol[x - 1 + i] as u32
                        + vcol[x + i] as u32
                        + vcol[x + 1 + i] as u32
                        + vcol[x + 2 + i] as u32;
                    assert_eq!(bytes[i], div25(s as u16), "w={w} x={x} i={i}");
                }
                x += 8;
            }
        }
    }
}

#[test]
fn blur_matches_naive_reference() {
    let sizes: &[(usize, usize)] = &[
        (1, 1),      // degenerate both axes
        (1, 7),      // w < 5
        (7, 1),      // h < 5
        (2, 3),      // tiny
        (4, 5),      // h == 5, w < 5 -> all-border path
        (5, 5),      // exactly one interior row/col
        (5, 6),      // one interior col? w == 5, h == 6
        (6, 5),      // one interior row
        (7, 9),      // small interior
        (16, 16),    // first full blocks
        (17, 16),    // odd width
        (33, 17),    // odd
        (640, 480),  // VGA camera frame
    ];
    for &(w, h) in sizes {
        let mut rng = Lcg(0x9E37_79B9_7F4A_7C15 ^ ((w as u64) << 32) ^ (h as u64));
        for trial in 0..3 {
            let n = w * h;
            let mut src = vec![0u8; n];
            rng.fill(&mut src);
            let mut dst = vec![0xAAu8; n];
            let mut scratch = vec![0u16; w];
            let vcol = &mut scratch[..];
            assert!(
                box_blur5x5(&src, &mut dst, w, h, vcol),
                "size {w}x{h}"
            );
            let expect = naive_box_blur(&src, w, h);
            assert_eq!(dst, expect, "size {w}x{h} trial {trial}");
        }
    }
}

#[test]
fn rejects_bad_sizes() {
    let src = [0u8; 4];
    let mut dst = [0u8; 4];
    let mut scratch = [0u16; 2];
    assert!(!box_blur5x5(&src, &mut dst, 0, 2, &mut scratch)); // zero width
    assert!(!box_blur5x5(&src, &mut dst, 2, 0, &mut scratch)); // zero height
    assert!(!box_blur5x5(&src, &mut dst, 3, 2, &mut scratch)); // src too small (n=6 > 4)
    assert!(!box_blur5x5(&src, &mut dst, 2, 3, &mut scratch)); // dst too small (n=6 > 4)
    assert!(!box_blur5x5(&src, &mut dst, 2, 2, &mut [0u16; 1])); // scratch too small
    let mut ok_dst = [0u8; 4];
    assert!(box_blur5x5(&src, &mut ok_dst, 2, 2, &mut scratch)); // valid tiny frame
}

#[test]
fn uniform_image_is_unchanged() {
    let w = 20;
    let h = 20;
    let src = vec![137u8; w * h];
    let mut dst = vec![0u8; w * h];
    let mut scratch = vec![0u16; w];
    assert!(box_blur5x5(&src, &mut dst, w, h, &mut scratch));
    assert_eq!(dst, src);
}

#[test]
fn one_pixel_is_the_rounded_mean_of_its_window() {
    let (w, h) = (7usize, 6usize);
    let src: Vec<u8> = (0..w * h).map(|i| (i * 6) as u8).collect();
    let want = naive_box_blur(&src, w, h);
    for y in 0..h {
        for x in 0..w {
            assert_eq!(blur_px_clamped(&src, w, h, y, x), want[y * w + x]);
        }
    }
}

#[test]
fn eight_bytes_are_stored_in_order() {
    let mut dst = [9u8; 12];
    store8(&mut dst, 2, [0x0403_0201, 0x0807_0605]);
    assert_eq!(dst, [9, 9, 1, 2, 3, 4, 5, 6, 7, 8, 9, 9]);
}

#[test]
fn bytes_beyond_the_image_are_kept() {
    let src = [10u8; 30];
    let mut dst = [0xEEu8; 40];
    let mut scratch = [7u16; 9];
    assert!(box_blur5x5(&src, &mut dst, 6, 5, &mut scratch));
    assert_eq!(&dst[..30], &[10u8; 30]);
    assert_eq!(&dst[30..], &[0xEEu8; 10]);
    assert_eq!(&scratch[..6], &[50u16; 6]);
    assert_eq!(&scratch[6..], &[7u16; 3]);
}
