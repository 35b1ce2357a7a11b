use vo_box_lite::binary32::Binary32;
use vo_box_lite::localize::{correspond, localize_frame, LocalizeScratch, MapPoint};
use vo_box_lite::matcher::{Match, MatchBuffers};
use vo_box_lite::pose::Correspondence;
use vo_box_lite::pyramid::{Clock, Feature};
use vo_box_lite::ransac::{Camera, PnpOptions, Rng, Xorshift64};

struct Ticks(u64);

impl Clock for Ticks {
    fn now_us(&mut self) -> u64 {
        self.0 += 10;
        self.0
    }

    fn cycles(&mut self) -> u64 {
        0
    }
}

fn b(x: f32) -> Binary32 {
    Binary32 { bits: x.to_bits() }
}

fn f(x: Binary32) -> f32 {
    f32::from_bits(x.bits)
}

fn cam() -> Camera {
    Camera { fx: b(267.0), fy: b(267.0), cx: b(320.0), cy: b(240.0), k1: b(0.0) }
}

const NOTHING: Correspondence =
    Correspondence { world: [Binary32 { bits: 0 }; 3], xn: Binary32 { bits: 0 }, yn: Binary32 { bits: 0 } };

/// Points in front of a camera that is moved by `t`, and the features that see them.
fn scene(n: usize, t: [f32; 3]) -> (Vec<Feature>, Vec<MapPoint>) {
    let mut g = Xorshift64::new(5);
    let mut query = vec![];
    let mut map = vec![];
    for _ in 0..n {
        let mut unit = || (g.next_u32() >> 8) as f32 / (1u32 << 24) as f32;
        let p = [4.0 * unit() - 2.0, 3.0 * unit() - 1.5, 4.0 + 4.0 * unit()];
        let mut desc = [0u32; 8];
        for d in desc.iter_mut() {
            *d = g.next_u32();
        }
        let c = [p[0] + t[0], p[1] + t[1], p[2] + t[2]];
        let (u, v) = (267.0 * c[0] / c[2] + 320.0, 267.0 * c[1] / c[2] + 240.0);
        query.push(Feature { level: 0, x: b(u), y: b(v), desc });
        map.push(MapPoint { xyz: p.map(b), desc });
    }
    (query, map)
}

struct Run {
    matches: Vec<Match>,
    corrs: Vec<Correspondence>,
    mask: Vec<bool>,
}

fn run(
    query: &[Feature],
    map: &[MapPoint],
    room: usize,
) -> (vo_box_lite::localize::LocalizeStats, Run) {
    let mut r = Run {
        matches: vec![Match::default(); room],
        corrs: vec![NOTHING; room],
        mask: vec![false; room],
    };
    let mut q = [vec![0u32; 64], vec![0u32; 64], vec![0u32; 64]];
    let mut p = [vec![0u32; 64], vec![0u32; 64]];
    let [q0, q1, q2] = &mut q;
    let [p0, p1] = &mut p;
    let mut s = LocalizeScratch {
        mb: MatchBuffers {
            best_idx: q0,
            best_dist: q1,
            second_dist: q2,
            point_query: p0,
            point_dist: p1,
        },
        matches: &mut r.matches,
        corrs: &mut r.corrs,
        mask: &mut r.mask,
    };
    let opts = PnpOptions { iterations: 20, ..PnpOptions::default() };
    let mut rng = Xorshift64::new(9);
    let stats =
        localize_frame(query, map, &cam(), &opts, &mut rng, &mut s, &mut Ticks(0));
    (stats, r)
}

#[test]
fn a_moved_camera_is_found() {
    let t = [0.3, -0.2, 0.5];
    let (query, map) = scene(30, t);
    let (stats, r) = run(&query, &map, 64);
    assert_eq!(stats.matches, 30);
    let pose = stats.pnp.expect("pose");
    for i in 0..3 {
        assert!((f(pose.t[i]) - t[i]).abs() < 0.02, "{:?}", pose.t.map(f));
        assert!((f(pose.r[i][i]) - 1.0).abs() < 0.01);
    }
    assert_eq!(pose.inlier_count, 30);
    assert!(r.mask[..30].iter().all(|&m| m) && r.mask[30..].iter().all(|&m| !m));
    assert!(stats.pnp_best.inlier_count > 0);
    assert_eq!((stats.match_us, stats.pnp_us), (10, 10));
    for m in &r.matches[..30] {
        assert_eq!((m.query, m.dist), (m.point, 0));
    }
}

#[test]
fn room_limits_the_matches() {
    let (query, map) = scene(30, [0.0; 3]);
    let (stats, r) = run(&query, &map, 5);
    assert_eq!(stats.matches, 5);
    assert!(stats.pnp.is_none());
    assert_eq!(stats.pnp_best.inlier_count, 0);
    assert_ne!(r.corrs[4], NOTHING);
    let (stats, _) = run(&query, &map, 20);
    assert_eq!(stats.matches, 20);
    assert!(stats.pnp.is_some());
    let (stats, r) = run(&query, &[], 20);
    assert_eq!(stats.matches, 0);
    assert_eq!(r.corrs[0], NOTHING);
}

#[test]
fn correspondences_pair_world_and_view() {
    let (query, map) = scene(4, [0.0; 3]);
    let found = [
        Match { query: 2, point: 1, dist: 3 },
        Match { query: 0, point: 3, dist: 4 },
    ];
    let mut corrs = [NOTHING; 3];
    assert_eq!(correspond(&query, &map, &cam(), &found, &mut corrs), 2);
    assert_eq!(corrs[0].world, map[1].xyz);
    assert_eq!(f(corrs[0].xn), (f(query[2].x) - 320.0) / 267.0);
    assert_eq!(corrs[1].world, map[3].xyz);
    assert_eq!(corrs[2], NOTHING);
    assert_eq!(correspond(&query, &map, &cam(), &found, &mut corrs[..1]), 1);
}
