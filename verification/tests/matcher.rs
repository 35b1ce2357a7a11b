use vo_box_lite::matcher::{
    hamming, is_zero, match_map, Descriptor, DescriptorSource, Match, MatchBuffers,
    LOWE_RATIO_DEN, LOWE_RATIO_NUM, MATCH_MAX_DISTANCE,
};

const LOWE_RATIO: f32 = 0.8;

struct Lcg(u64);
impl Lcg {
    fn next(&mut self) -> u32 {
        self.0 =
            self.0.wrapping_mul(6364136223846793005).wrapping_add(1442695040888963407);
        (self.0 >> 32) as u32
    }
    fn desc(&mut self) -> Descriptor {
        let mut d = [0u32; 8];
        for w in d.iter_mut() {
            *w = self.next();
        }
        d
    }
}

/// Independent reference by sorting (lower index wins ties).
fn naive(query: &[Descriptor], map: &[Descriptor]) -> Vec<(usize, usize, u32)> {
    let qk: Vec<usize> = (0..query.len()).filter(|&i| !is_zero(&query[i])).collect();
    let mk: Vec<usize> = (0..map.len()).filter(|&i| !is_zero(&map[i])).collect();
    if qk.is_empty() || mk.is_empty() {
        return Vec::new();
    }
    let mut out = Vec::new();
    for &qi in &qk {
        let mut ds: Vec<(u32, usize)> =
            mk.iter().map(|&mi| (hamming(&query[qi], &map[mi]), mi)).collect();
        ds.sort_by(|a, b| a.0.cmp(&b.0).then(a.1.cmp(&b.1)));
        let (d1, m1) = ds[0];
        if d1 > MATCH_MAX_DISTANCE {
            continue;
        }
        if ds.len() >= 2 && d1 as f32 > LOWE_RATIO * ds[1].0 as f32 {
            continue;
        }
        let (mut bq, mut bd) = (None, u32::MAX);
        for &qj in &qk {
            let d = hamming(&query[qj], &map[m1]);
            if d < bd {
                bd = d;
                bq = Some(qj);
            }
        }
        if bq != Some(qi) {
            continue;
        }
        out.push((qi, m1, d1));
    }
    out
}

fn run(
    query: &[Descriptor],
    map: &[Descriptor],
    out: &mut [Match],
) -> Vec<(usize, usize, u32)> {
    let nq = query.len().max(1);
    let nm = map.len().max(1);
    let mut bi = vec![0u32; nq];
    let mut bd = vec![0u32; nq];
    let mut sd = vec![0u32; nq];
    let mut pq = vec![0u32; nm];
    let mut pd = vec![0u32; nm];
    let mut b = MatchBuffers {
        best_idx: &mut bi,
        best_dist: &mut bd,
        second_dist: &mut sd,
        point_query: &mut pq,
        point_dist: &mut pd,
    };
    let n = match_map(query, map, out, &mut b);
    out[..n].iter().map(|m| (m.query as usize, m.point as usize, m.dist)).collect()
}

#[test]
fn hamming_basics() {
    let z = [0u32; 8];
    let o = [u32::MAX; 8];
    assert_eq!(hamming(&z, &z), 0);
    assert_eq!(hamming(&z, &o), 256);
    assert!(is_zero(&z) && !is_zero(&o));
}

#[test]
fn matcher_matches_naive_reference() {
    let mut r = Lcg(0x1234_5678);
    for &(nq, nm) in &[(0usize, 0usize), (1, 0), (0, 1), (1, 1), (5, 3), (40, 60), (120, 90)] {
        let mut query: Vec<Descriptor> = (0..nq).map(|_| r.desc()).collect();
        let mut map: Vec<Descriptor> = (0..nm).map(|_| r.desc()).collect();
        // Force real matches: copy overlapping map descriptors into queries.
        for i in 0..nq.min(nm) {
            query[i] = map[i];
        }
        // Zero (border) descriptors on both sides must never match.
        if nq > 2 {
            query[2] = [0; 8];
        }
        if nm > 3 {
            map[3] = [0; 8];
        }
        let mut out = vec![Match::default(); nq.max(1)];
        let got = run(&query, &map, &mut out);
        let want = naive(&query, &map);
        assert_eq!(got, want, "nq={nq} nm={nm}");
    }
}

/// Descriptor with `n` low bits set (words 0..), zero elsewhere.
fn with_bits(n: u32) -> Descriptor {
    let mut d = [0u32; 8];
    for (i, w) in d.iter_mut().enumerate() {
        let lo = i as u32 * 32;
        if n <= lo {
            break;
        }
        *w = if n >= lo + 32 { u32::MAX } else { (1u32 << (n - lo)) - 1 };
    }
    d
}

#[test]
fn max_distance_and_ratio_reject() {
    // Query has a bit only in the last word, so with_bits() never overlaps it.
    let mut q = [0u32; 8];
    q[7] = 1;
    let mut out = vec![Match::default(); 4];
    // Only candidate is 102 bits away -> over the 100-bit cap.
    assert_eq!(run(&[q], &[with_bits(101)], &mut out).len(), 0);
    // best 51, second 52: 51 > 0.8*52 -> ratio rejects.
    assert_eq!(run(&[q], &[with_bits(50), with_bits(51)], &mut out).len(), 0);
    // best 41, second 61: 41 <= 0.8*61 -> accepted (MNN holds).
    assert_eq!(run(&[q], &[with_bits(40), with_bits(60)], &mut out).len(), 1);
}

#[test]
fn integer_ratio_is_the_single_precision_ratio() {
    for b1 in 0..=MATCH_MAX_DISTANCE {
        for b2 in 0..=256u32 {
            assert_eq!(
                LOWE_RATIO_DEN * b1 > LOWE_RATIO_NUM * b2,
                b1 as f32 > LOWE_RATIO * b2 as f32,
                "{b1} {b2}"
            );
        }
    }
}

#[test]
fn distance_is_symmetric_and_zero_only_between_equals() {
    let mut r = Lcg(99);
    for _ in 0..50 {
        let a = r.desc();
        let mut b = a;
        assert_eq!(hamming(&a, &b), 0);
        b[3] ^= 0x8000_0001;
        assert_eq!(hamming(&a, &b), 2);
        assert_eq!(hamming(&b, &a), 2);
    }
}

#[test]
fn a_descriptor_is_its_own_source() {
    let d = with_bits(70);
    assert_eq!(d.descriptor(), &d);
}

#[test]
fn matches_are_capped_and_ordered() {
    let mut r = Lcg(7);
    let map: Vec<Descriptor> = (0..20).map(|_| r.desc()).collect();
    let query: Vec<Descriptor> = map.iter().rev().copied().collect();
    let mut out = vec![Match::default(); 5];
    let got = run(&query, &map, &mut out);
    assert_eq!(got.len(), 5);
    for (i, &(q, m, d)) in got.iter().enumerate() {
        assert_eq!((q, m, d), (i, 19 - i, 0));
    }
}

#[test]
fn buffers_clamp_queries_and_points() {
    let mut r = Lcg(8);
    let map: Vec<Descriptor> = (0..6).map(|_| r.desc()).collect();
    let query = map.clone();
    let mut out = vec![Match::default(); 6];
    let (mut bi, mut bd, mut sd) = (vec![0u32; 6], vec![0u32; 4], vec![0u32; 6]);
    let (mut pq, mut pd) = (vec![0u32; 3], vec![0u32; 6]);
    let mut b = MatchBuffers {
        best_idx: &mut bi,
        best_dist: &mut bd,
        second_dist: &mut sd,
        point_query: &mut pq,
        point_dist: &mut pd,
    };
    // Four queries against three points.
    assert_eq!(match_map(&query, &map, &mut out, &mut b), 3);
    assert_eq!(out[2], Match { query: 2, point: 2, dist: 0 });
    assert_eq!(out[3], Match::default());
    assert_eq!(&bd[..3], &[0, 0, 0]);
    assert_eq!(pq, vec![0, 1, 2]);
}

#[test]
fn the_way_over_a_third_descriptor_is_no_shorter() {
    let mut r = Lcg(41);
    for _ in 0..100 {
        let (a, b, c) = (r.desc(), r.desc(), r.desc());
        assert!(hamming(&a, &c) <= hamming(&a, &b) + hamming(&b, &c));
    }
    assert_eq!(
        hamming(&with_bits(0), &with_bits(90)),
        hamming(&with_bits(0), &with_bits(40)) + hamming(&with_bits(40), &with_bits(90))
    );
}

#[test]
fn small_buffers_match_like_cut_inputs() {
    let mut r = Lcg(12);
    let map: Vec<Descriptor> = (0..30).map(|_| r.desc()).collect();
    let query: Vec<Descriptor> = (0..30).map(|i| map[(i * 7) % 30]).collect();
    let (mut bi, mut bd, mut sd) = (vec![9u32; 25], vec![9u32; 21], vec![9u32; 30]);
    let (mut pq, mut pd) = (vec![9u32; 18], vec![9u32; 30]);
    let mut b = MatchBuffers {
        best_idx: &mut bi,
        best_dist: &mut bd,
        second_dist: &mut sd,
        point_query: &mut pq,
        point_dist: &mut pd,
    };
    let mut out = vec![Match::default(); 30];
    let n = match_map(&query, &map, &mut out, &mut b);
    let mut cut = vec![Match::default(); 30];
    let want = run(&query[..21], &map[..18], &mut cut);
    assert!(n > 0 && n == want.len());
    assert_eq!(out, cut);
    let mut none: [Match; 0] = [];
    assert_eq!(match_map(&query, &map, &mut none, &mut b), 0);
}
