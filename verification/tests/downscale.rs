use vo_box_lite::downscale::{
    block_mean4, downscale65_simd_available, downscale65_simd_used, downscale_4x4,
    downscale_4x4_size, downscale_65, downscale_65_size, phase, simd_block4, simd_pair8, win_ok, HW1,
    HW2, W1, W2,
};

/// Independent reference: the formulas with plain
/// per-pixel index math (no incremental offsets, no unrolling), so the
/// production loop structure is cross-checked rather than self-referenced.
fn naive_downscale_65(src: &[u8], sw: usize, sh: usize) -> Vec<u8> {
    let dw = downscale_65_size(sw);
    let dh = downscale_65_size(sh);
    let g = sw / 6;
    let b = sh / 6;
    // Horizontal pass into a dw x sh u8 tmp (flat, stride dw).
    let mut tmp = vec![0u8; dw * sh];
    for y in 0..sh {
        for gg in 0..g {
            for k in 0..5 {
                let a = src[y * sw + 6 * gg + k] as u32;
                let c = src[y * sw + 6 * gg + k + 1] as u32;
                tmp[y * dw + 5 * gg + k] = ((W1[k] as u32 * a + W2[k] as u32 * c) >> 7) as u8;
            }
        }
    }
    // Vertical pass.
    let mut out = vec![0u8; dw * dh];
    for bb in 0..b {
        for k in 0..5 {
            let y0 = 6 * bb + k;
            for x in 0..dw {
                let a = tmp[y0 * dw + x] as u32;
                let c = tmp[(y0 + 1) * dw + x] as u32;
                out[(5 * bb + k) * dw + x] =
                    ((W1[k] as u32 * a + W2[k] as u32 * c) >> 7) as u8;
            }
        }
    }
    out
}

/// Tiny deterministic xorshift so tests need no RNG dependency.
struct Lcg(u64);
impl Lcg {
    fn next(&mut self) -> u8 {
        self.0 = self.0.wrapping_mul(6364136223846793005).wrapping_add(1442695040888963407);
        (self.0 >> 33) as u8
    }
    fn fill(&mut self, buf: &mut [u8]) {
        for b in buf.iter_mut() {
            *b = self.next();
        }
    }
}

#[test]
fn sizes_follow_fixed_ratio() {
    assert_eq!(downscale_65_size(640), 530); // 5 * (640/6) = 5*106
    assert_eq!(downscale_65_size(480), 400); // 5 * (480/6) = 5*80
    assert_eq!(downscale_65_size(530), 440); // 530/6 = 88 -> 440 (chain)
    assert_eq!(downscale_65_size(400), 330); // 400/6 = 66 -> 330
    assert_eq!(downscale_65_size(0), 0);
    assert_eq!(downscale_65_size(1), 0); // < 6: no group
    assert_eq!(downscale_65_size(5), 0);
    assert_eq!(downscale_65_size(6), 5);
    assert_eq!(downscale_65_size(7), 5); // trailing col never read
    assert_eq!(downscale_65_size(11), 5);
    assert_eq!(downscale_65_size(12), 10);
}

#[test]
fn downscale_matches_naive_reference() {
    // Trailing columns/rows (sw % 6) vary so the never-read tails are
    // exercised, plus exact-multiple and full-VGA sizes.
    let sizes: &[(usize, usize)] = &[
        (6, 6),
        (6, 7),
        (7, 6),
        (7, 12),
        (11, 11),
        (12, 12),
        (13, 18),
        (30, 42),
        (17, 7), // dw 15, dh 5
        (35, 35),
        (64, 48),
        (640, 480), // VGA -> 530x400
    ];
    for &(sw, sh) in sizes {
        let mut rng = Lcg(0x9E37_79B9_7F4A_7C15 ^ ((sw as u64) << 32) ^ (sh as u64));
        for trial in 0..3 {
            let mut src = vec![0u8; sw * sh];
            rng.fill(&mut src);
            let dw = downscale_65_size(sw);
            let dh = downscale_65_size(sh);
            let mut tmp = vec![0xAAu8; dw * sh];
            let mut dst = vec![0xBBu8; dw * dh];
            assert!(
                downscale_65(&src, sw, sh, &mut tmp, &mut dst),
                "size {sw}x{sh}"
            );
            assert_eq!(
                dst,
                naive_downscale_65(&src, sw, sh),
                "size {sw}x{sh} trial {trial}"
            );
        }
    }
}

#[test]
fn simd_pair8_matches_phase() {
    // Both tap layouts (per-lane h-pass, broadcast v-pass) match the scalar phase.
    let mut rng = Lcg(0xfeed_face_dead_beef);
    let (dw, sh) = (40usize, 24usize);
    let mut tmp = vec![0u8; dw * sh];
    rng.fill(&mut tmp);
    for off in 0..(tmp.len() - 16) {
        let bytes = simd_pair8(&tmp, off, off + 1, &HW1, &HW2).map(u32::to_le_bytes);
        for j in 0..8 {
            let (w1, w2) = if j < 5 { (W1[j], W2[j]) } else { (0, 0) };
            let s = w1 as u32 * tmp[off + j] as u32 + w2 as u32 * tmp[off + j + 1] as u32;
            assert_eq!(bytes[j / 4][j % 4], (s >> 7) as u8, "off {off} j {j}");
        }
    }
    for b in 0..(sh / 6) {
        for k in 0..5 {
            let (r0, r1) = ((6 * b + k) * dw, (6 * b + k + 1) * dw);
            let mut x = 0usize;
            while x + 8 <= dw {
                let bytes = simd_pair8(&tmp, r0 + x, r1 + x, &[W1[k]; 8], &[W2[k]; 8])
                    .map(u32::to_le_bytes);
                for j in 0..8 {
                    assert_eq!(bytes[j / 4][j % 4], phase(k, tmp[r0 + x + j], tmp[r1 + x + j]));
                }
                x += 8;
            }
        }
    }
}

#[test]
fn constant_image_is_preserved_exactly() {
    // W1[k] + W2[k] == 128 for all k, so c -> (c*128)>>7 == c. Also runs
    // the max-value path (255*128 = 32640, the u16 overflow boundary).
    for c in [0u8, 1, 64, 127, 128, 137, 254, 255] {
        let (sw, sh) = (100, 60);
        let dw = downscale_65_size(sw);
        let dh = downscale_65_size(sh);
        let src = vec![c; sw * sh];
        let mut tmp = vec![0u8; dw * sh];
        let mut dst = vec![0u8; dw * dh];
        assert!(downscale_65(&src, sw, sh, &mut tmp, &mut dst));
        assert!(dst.iter().all(|&p| p == c), "constant {c} not preserved");
    }
}

#[test]
fn chained_levels_stay_in_bounds_and_match() {
    // Repeatedly downscale level 0 -> level n
    // (sizes shrink 640x480 -> 530x400 -> 440x330 -> 365x275 -> ...).
    let mut rng = Lcg(42);
    let (w0, h0) = (640, 480);
    let mut src = vec![0u8; w0 * h0];
    rng.fill(&mut src);
    let (mut sw, mut sh) = (w0, h0);
    let mut naive_img = src.clone();
    for lvl in 1..8 {
        let dw = downscale_65_size(sw);
        let dh = downscale_65_size(sh);
        if dw == 0 || dh == 0 {
            break;
        }
        let mut tmp = vec![0u8; dw * sh];
        let mut dst = vec![0u8; dw * dh];
        assert!(downscale_65(&src, sw, sh, &mut tmp, &mut dst));
        naive_img = naive_downscale_65(&naive_img, sw, sh);
        assert_eq!(dst, naive_img, "level {lvl} ({sw}x{sh} -> {dw}x{dh})");
        src = dst;
        naive_img.truncate(dw * dh);
        (sw, sh) = (dw, dh);
    }
}

#[test]
fn rejects_bad_sizes_and_noops_on_small_axes() {
    let src = [0u8; 36]; // 6x6
    let mut dst = [0u8; 25]; // 5x5
    let mut tmp = [0u8; 30]; // dw*sh = 5*6
    assert!(!downscale_65(&src, 0, 6, &mut tmp, &mut dst)); // zero dims
    assert!(!downscale_65(&src, 6, 0, &mut tmp, &mut dst));
    assert!(!downscale_65(&src, 7, 6, &mut tmp, &mut dst)); // src too small
    assert!(!downscale_65(&src, 6, 6, &mut tmp, &mut [0u8; 24])); // dst too small
    assert!(!downscale_65(&src, 6, 6, &mut [0u8; 29], &mut dst)); // tmp too small
    // sw < 6: dw == 0 -> valid empty output, nothing written.
    let mut d2 = [0xFFu8; 5];
    assert!(downscale_65(&src, 5, 6, &mut tmp, &mut d2));
    assert_eq!(d2, [0xFF; 5]);
}

/// Independent reference: plain per-pixel index math (no row slices, no
/// unrolling), so the production loop structure is cross-checked.
fn naive_downscale_4x4(src: &[u8], sw: usize, sh: usize) -> Vec<u8> {
    let dw = downscale_4x4_size(sw);
    let dh = downscale_4x4_size(sh);
    let mut out = vec![0u8; dw * dh];
    for y in 0..dh {
        for x in 0..dw {
            let mut s = 0u32;
            for dy in 0..4 {
                for dx in 0..4 {
                    s += src[(4 * y + dy) * sw + 4 * x + dx] as u32;
                }
            }
            out[y * dw + x] = (s >> 4) as u8;
        }
    }
    out
}

#[test]
fn area_sizes_follow_fixed_ratio() {
    assert_eq!(downscale_4x4_size(640), 160); // VGA -> 160
    assert_eq!(downscale_4x4_size(480), 120);
    assert_eq!(downscale_4x4_size(4), 1);
    assert_eq!(downscale_4x4_size(7), 1); // trailing col never read
    assert_eq!(downscale_4x4_size(8), 2);
    assert_eq!(downscale_4x4_size(0), 0);
    assert_eq!(downscale_4x4_size(3), 0); // < 4: no block
}

#[test]
fn area_matches_naive_reference() {
    // Trailing rows/cols (dims % 4) vary so the never-read tails are
    // exercised, plus exact multiples and full-VGA size.
    let sizes: &[(usize, usize)] = &[
        (4, 4),
        (4, 7),
        (7, 4),
        (9, 9),
        (16, 12),
        (17, 18),
        (64, 48),
        (640, 480), // VGA -> 160x120
    ];
    for &(sw, sh) in sizes {
        let mut rng = Lcg(0x4D59_5DF4_D0F3_3173 ^ ((sw as u64) << 32) ^ (sh as u64));
        for trial in 0..3 {
            let mut src = vec![0u8; sw * sh];
            rng.fill(&mut src);
            let dw = downscale_4x4_size(sw);
            let dh = downscale_4x4_size(sh);
            let mut dst = vec![0xBBu8; dw * dh];
            assert!(
                downscale_4x4(&src, sw, sh, &mut dst),
                "size {sw}x{sh}"
            );
            assert_eq!(
                dst,
                naive_downscale_4x4(&src, sw, sh),
                "size {sw}x{sh} trial {trial}"
            );
        }
    }
}

#[test]
fn area_handles_offset_source_slices() {
    // Drive the aligned-block bounds predicate from every source byte
    // offset (edge blocks must fall back to the scalar mean, not over-read).
    let (sw, sh) = (37, 21);
    let dw = downscale_4x4_size(sw);
    let dh = downscale_4x4_size(sh);
    let n = sw * sh;
    let mut backing = vec![0u8; n + 32];
    let mut rng = Lcg(0x0F_F0_0F_F0);
    rng.fill(&mut backing);
    for off in 0..16usize {
        let src = &backing[off..off + n];
        let mut dst = vec![0u8; dw * dh];
        assert!(downscale_4x4(src, sw, sh, &mut dst));
        assert_eq!(dst, naive_downscale_4x4(src, sw, sh), "offset {off}");
    }
}

#[test]
fn area_mean_truncates_not_rounds() {
    // 8x8 checkerboard (alternating 0/255): every 4x4 block holds 8 black
    // + 8 white px, mean = 2040 >> 4 == 127 (truncating, not 128). Also
    // exercises the u16 max path (16 * 255 = 4080).
    let (sw, sh) = (8, 8);
    let src: Vec<u8> = (0..sh)
        .flat_map(|y| (0..sw).map(move |x| if (x + y) % 2 == 0 { 0 } else { 255 }))
        .collect();
    let dw = downscale_4x4_size(sw); // 2
    let dh = downscale_4x4_size(sh);
    let mut dst = vec![0u8; dw * dh];
    assert!(downscale_4x4(&src, sw, sh, &mut dst));
    assert!(dst.iter().all(|&p| p == 127), "got {dst:?}");
}

#[test]
fn area_rejects_bad_sizes_and_noops_on_small_axes() {
    let src = [0u8; 64]; // 8x8
    let mut dst = [0u8; 4]; // 2x2
    assert!(!downscale_4x4(&src, 0, 8, &mut dst)); // zero dims
    assert!(!downscale_4x4(&src, 8, 0, &mut dst));
    assert!(!downscale_4x4(&src, 9, 8, &mut dst)); // src too small
    assert!(!downscale_4x4(&src, 8, 8, &mut [0u8; 3])); // dst too small
    // sw < 4: dw == 0 -> valid empty output, nothing written.
    let mut d2 = [0xFFu8; 1];
    assert!(downscale_4x4(&src, 3, 8, &mut d2));
    assert_eq!(d2, [0xFF]);
}

#[test]
fn no_vector_kernel_runs_on_this_build() {
    assert!(!downscale65_simd_available());
    assert!(!downscale65_simd_used());
}

#[test]
fn windows_need_two_whole_blocks() {
    assert!(win_ok(0, 0, 32));
    assert!(win_ok(17, 16, 48));
    assert!(!win_ok(17, 17, 64));
    assert!(!win_ok(0, 0, 31));
}

#[test]
fn four_blocks_at_once_match_single_blocks() {
    let (sw, sh) = (24usize, 8usize);
    let mut src = vec![0u8; sw * sh];
    Lcg(5).fill(&mut src);
    for y in 0..2 {
        for x in 0..3 {
            let word = simd_block4(&src, sw, sh, y, x).to_le_bytes();
            for k in 0..4 {
                assert_eq!(word[k], block_mean4(&src, sw, sh, y, x + k));
            }
        }
    }
}

#[test]
fn weighted_average_of_two_pixels() {
    assert_eq!(phase(0, 0, 128), ((W2[0] as u32 * 128) >> 7) as u8);
    for k in 0..5 {
        assert_eq!(W1[k] + W2[k], 128);
        assert_eq!(phase(k, 255, 255), 255);
    }
}

#[test]
fn a_constant_image_is_averaged_to_itself() {
    let src = [77u8; 64];
    let mut dst = [0u8; 5];
    assert!(downscale_4x4(&src, 8, 8, &mut dst));
    assert_eq!(dst, [77, 77, 77, 77, 0]);
}
