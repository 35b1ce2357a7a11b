use vo_box_lite::binary32::Binary32;
use vo_box_lite::blur::box_blur5x5;
use vo_box_lite::downscale::{downscale_65, downscale_65_size};
use vo_box_lite::fast::{fast12_detect_nonmax, Corner};
use vo_box_lite::pyramid::{
    arena_bytes, extract_pyramid, level_dims, Clock, Feature, NoClock, PyramidProfile, LEVELS,
    SCALE_BITS,
};
use vo_box_lite::rbrief::rbrief_descriptor;

struct Ticks(u64);

impl Clock for Ticks {
    fn now_us(&mut self) -> u64 {
        self.0 += 3;
        self.0
    }

    fn cycles(&mut self) -> u64 {
        self.0 += 1;
        self.0
    }
}

const NONE: Corner = Corner { x: 0, y: 0 };

struct Buffers {
    arena: Vec<u8>,
    work: Vec<u8>,
    vcol: Vec<u16>,
    corners: Vec<Corner>,
    scores: Vec<i32>,
    rowidx: Vec<usize>,
    nms: Vec<Corner>,
    out: Vec<Feature>,
}

impl Buffers {
    fn new(w: usize, h: usize, raw: usize, out: usize) -> Buffers {
        Buffers {
            arena: vec![0; arena_bytes(w, h)],
            work: vec![0; w * h],
            vcol: vec![0; w],
            corners: vec![NONE; raw],
            scores: vec![0; raw],
            rowidx: vec![usize::MAX; h],
            nms: vec![NONE; raw],
            out: vec![Feature::default(); out],
        }
    }

    fn run(
        &mut self,
        img: &[u8],
        w: usize,
        h: usize,
        profile: Option<&mut PyramidProfile<Ticks>>,
    ) -> usize {
        extract_pyramid(
            img,
            w,
            h,
            20,
            &mut self.arena,
            &mut self.work,
            &mut self.vcol,
            &mut self.corners,
            &mut self.scores,
            &mut self.rowidx,
            &mut self.nms,
            &mut self.out,
            profile,
        )
    }
}

/// Blocks of random brightness.
fn scene(w: usize, h: usize) -> Vec<u8> {
    let mut seed = 12345u32;
    let cells: Vec<u8> = (0..w * h)
        .map(|_| {
            seed = seed.wrapping_mul(1664525).wrapping_add(1013904223);
            (seed >> 24) as u8
        })
        .collect();
    (0..w * h).map(|i| cells[(i / w / 9) * w + (i % w) / 7]).collect()
}

/// The pyramid by hand, with machine floats: level images, keypoints per level, features.
fn by_hand(img: &[u8], w: usize, h: usize) -> (Vec<Vec<u8>>, Vec<usize>, Vec<Feature>) {
    let mut images = vec![];
    let mut kept = vec![];
    let mut feats = vec![];
    let mut cur = img[..w * h].to_vec();
    let (mut cw, mut ch) = (w, h);
    let mut scale = 1.0f32;
    for l in 0..LEVELS {
        if cw < 7 || ch < 7 {
            break;
        }
        let mut corners = vec![NONE; 8192];
        let mut scores = vec![0; 8192];
        let mut rowidx = vec![0; ch];
        let mut nms = vec![NONE; 8192];
        let n = fast12_detect_nonmax(
            &cur, cw, ch, cw, 20, &mut corners, &mut scores, &mut rowidx, &mut nms,
        );
        let mut blurred = vec![0; cw * ch];
        assert!(box_blur5x5(&cur, &mut blurred, cw, ch, &mut vec![0; cw]));
        kept.push(n);
        for kp in &nms[..n] {
            let mut desc = [0u32; 8];
            if rbrief_descriptor(&blurred, cw, ch, kp.x, kp.y, &mut desc) && desc != [0; 8] {
                let p = |v: usize| Binary32 { bits: (v as f32 * scale).to_bits() };
                feats.push(Feature { level: l as u8, x: p(kp.x), y: p(kp.y), desc });
            }
        }
        scale *= 1.2;
        let (dw, dh) = (downscale_65_size(cw), downscale_65_size(ch));
        let mut next = vec![0; dw * dh];
        assert!(downscale_65(&cur, cw, ch, &mut vec![0; cw * ch], &mut next));
        images.push(next.clone());
        cur = next;
        cw = dw;
        ch = dh;
    }
    (images, kept, feats)
}

#[test]
fn sizes() {
    assert_eq!(level_dims(640, 480, 0), (640, 480));
    assert_eq!(level_dims(640, 480, 1), (530, 400));
    assert_eq!(arena_bytes(640, 480), 602_075);
    assert_eq!(SCALE_BITS, 1.2f32.to_bits());
    assert_eq!(arena_bytes(5, 5), 0);
}

#[test]
fn extraction_agrees_with_its_parts() {
    let (w, h) = (160, 120);
    let img = scene(w, h);
    let (images, kept, feats) = by_hand(&img, w, h);
    assert!(feats.len() > 50);
    let mut b = Buffers::new(w, h, 2048, 4096);
    let mut profile = PyramidProfile::new(Ticks(0));
    let n = b.run(&img, w, h, Some(&mut profile));
    assert_eq!(n, feats.len());
    assert_eq!(b.out[..n], feats[..]);
    assert_eq!(b.out[n], Feature::default());
    assert_eq!(profile.corners[..], kept[..]);
    let mut at = 0;
    for im in &images[..LEVELS - 1] {
        assert_eq!(b.arena[at..at + im.len()], im[..]);
        at += im.len();
    }
    assert_eq!(at, b.arena.len());
    assert!(profile.fast_us.iter().all(|&t| t == 3));
    assert!(profile.rbrief_us.iter().all(|&t| t >= 3));
    assert_eq!(profile.downscale_us[LEVELS - 1], 0);
    // The same without a profile, and with buffers that were used before.
    assert_eq!(b.run(&img, w, h, None), n);
    assert_eq!(b.out[..n], feats[..]);
}

#[test]
fn output_is_cut_at_its_capacity() {
    let (w, h) = (160, 120);
    let img = scene(w, h);
    let (_, kept, feats) = by_hand(&img, w, h);
    let first = feats.iter().filter(|f| f.level == 0).count();
    let mut b = Buffers::new(w, h, 2048, first);
    let mut profile = PyramidProfile::new(Ticks(0));
    assert_eq!(b.run(&img, w, h, Some(&mut profile)), first);
    assert_eq!(b.out[..], feats[..first]);
    assert_eq!(profile.corners, [kept[0], 0, 0, 0, 0, 0, 0]);
    assert_eq!(profile.fast_us[1], 0);
}

#[test]
fn small_buffers_and_images_give_nothing() {
    let (w, h) = (112, 96);
    let img = scene(w, h);
    let full = || Buffers::new(w, h, 512, 512);
    assert!(full().run(&img, w, h, None) > 0);
    assert_eq!(full().run(&img[1..], w, h, None), 0);
    let mut b = full();
    b.arena.pop();
    assert_eq!(b.run(&img, w, h, None), 0);
    let mut b = full();
    b.work.pop();
    assert_eq!(b.run(&img, w, h, None), 0);
    let mut b = full();
    b.vcol.pop();
    assert_eq!(b.run(&img, w, h, None), 0);
    let mut b = full();
    b.scores.pop();
    assert_eq!(b.run(&img, w, h, None), 0);
    let mut b = full();
    b.rowidx.pop();
    assert_eq!(b.run(&img, w, h, None), 0);
    for empty in 0..3 {
        let mut b = full();
        match empty {
            0 => b.corners.clear(),
            1 => b.nms.clear(),
            _ => b.out.clear(),
        }
        assert_eq!(b.run(&img, w, h, None), 0);
    }
    assert_eq!(Buffers::new(6, 48, 8, 8).run(&img, 6, 48, None), 0);
}

#[test]
fn keypoints_without_a_set_bit_are_dropped() {
    let (w, h) = (41, 41);
    let mut img = vec![100u8; w * h];
    img[20 * w + 20] = 88;
    let mut b = Buffers::new(w, h, 64, 64);
    let mut profile = PyramidProfile::new(Ticks(0));
    let n = extract_pyramid(
        &img,
        w,
        h,
        10,
        &mut b.arena,
        &mut b.work,
        &mut b.vcol,
        &mut b.corners,
        &mut b.scores,
        &mut b.rowidx,
        &mut b.nms,
        &mut b.out,
        Some(&mut profile),
    );
    // The pixel is a corner, but the blurred image around it is flat.
    assert_eq!(profile.corners[0], 1);
    assert_eq!(b.nms[0], Corner { x: 20, y: 20 });
    let mut blurred = vec![0; w * h];
    assert!(box_blur5x5(&img, &mut blurred, w, h, &mut vec![0; w]));
    assert_eq!(blurred, vec![100; w * h]);
    assert_eq!(n, 0);
    assert_eq!(b.out[0], Feature::default());
}

#[test]
fn extracted_descriptors_are_never_zero() {
    let (w, h) = (160, 120);
    let img = scene(w, h);
    let mut b = Buffers::new(w, h, 2048, 4096);
    let n = b.run(&img, w, h, None);
    assert!(n > 0);
    assert!(b.out[..n].iter().all(|f| f.desc != [0; 8]));
}

/// A clock whose readings are the squares, so that every span tells where it begins.
struct Squares {
    read: Vec<u64>,
    counted: Vec<u64>,
}

impl Clock for Squares {
    fn now_us(&mut self) -> u64 {
        let k = self.read.len() as u64;
        self.read.push(k * k);
        k * k
    }

    fn cycles(&mut self) -> u64 {
        let k = self.counted.len() as u64;
        self.counted.push(k * k);
        k * k
    }
}

#[test]
fn times_are_spans_of_the_readings_around_their_phase() {
    let (w, h) = (112, 96);
    let mut img = vec![100u8; w * h];
    for (x, y) in [(40, 30), (60, 50), (30, 60), (5, 5)] {
        img[y * w + x] = 250;
    }
    let mut b = Buffers::new(w, h, 512, 512);
    let mut p = PyramidProfile::new(Squares { read: vec![], counted: vec![] });
    let Buffers { arena, work, vcol, corners, scores, rowidx, nms, out } = &mut b;
    extract_pyramid(
        &img, w, h, 20, arena, work, vcol, corners, scores, rowidx, nms, out, Some(&mut p),
    );
    let gap = |i: u64| 2 * i + 1;
    assert_eq!(p.corners[0], 4);
    assert_eq!((p.fast_us[0], p.score_us[0], p.nms_us[0]), (gap(0), gap(2), gap(4)));
    assert_eq!((p.blur_us[0], p.rbrief_us[0], p.downscale_us[0]), (gap(6), gap(8), gap(10)));
    assert_eq!(p.fast_us[1], gap(12));
    let rounds = p.corners[0] as u64;
    assert_eq!(p.rbrief_angle_cyc[0], (0..rounds).map(|k| gap(3 * k)).sum::<u64>());
    assert_eq!(p.rbrief_sample_cyc[0], (0..rounds).map(|k| gap(3 * k + 1)).sum::<u64>());
}

#[test]
fn the_still_clock_reads_zero() {
    let mut c = NoClock::new();
    assert_eq!((c.now_us(), c.cycles(), c.now_us()), (0, 0, 0));
}

#[test]
fn features_compare_their_positions_as_numbers() {
    let b = |x: f32| Binary32 { bits: x.to_bits() };
    let f = Feature { level: 1, x: b(0.0), y: b(2.5), desc: [3; 8] };
    assert_eq!(f, f);
    assert_eq!(f, Feature { x: b(-0.0), ..f });
    assert_ne!(f, Feature { level: 2, ..f });
    assert_ne!(f, Feature { x: b(1e-45), ..f });
    assert_ne!(f, Feature { y: b(-2.5), ..f });
    assert_ne!(f, Feature { desc: [3, 3, 3, 3, 3, 3, 3, 4], ..f });
    let odd = Feature { y: b(f32::NAN), ..f };
    assert_ne!(odd, odd);
    let far = Feature { y: b(f32::INFINITY), ..f };
    assert_eq!(far, far);
}
