//! Localization: matches the features of a frame against the points of one map frame and recovers the
//! camera pose. Nothing is allocated.

use vstd::prelude::*;

use crate::binary32::Binary32;
use crate::linalg::Vec3;
use crate::matcher::{
    all_matches, buffers_left, descriptors, match_map, matches_are_sound, point_count,
    query_count, Descriptor, DescriptorSource, Match, MatchBuffers,
};
use crate::pose::{Correspondence, Pose};
use crate::pyramid::{newly_read, span, Clock, Feature};
use crate::ransac::threshold::{mask_fits, usable};
use crate::ransac::undistort::{distorts_back, moderate, undistortion_inverts_distortion};
use crate::ransac::{
    no_best, pnp_ransac_best, searched, undistorted, Camera, PnpBest, PnpOptions, PnpResult, Rng,
    SearchState,
};
use crate::store::{least, stored};

verus! {

/// One map point: its world position and its descriptor.
#[derive(Clone, Copy, Debug, PartialEq, Eq)]
pub struct MapPoint {
    pub xyz: Vec3,
    pub desc: Descriptor,
}

impl DescriptorSource for MapPoint {
    open spec fn words(&self) -> Seq<u32> {
        self.desc@
    }

    fn descriptor(&self) -> &Descriptor {
        &self.desc
    }
}

/// Scratch that the caller owns, reused across frames.
pub struct LocalizeScratch<'a> {
    pub mb: MatchBuffers<'a>,
    pub matches: &'a mut [Match],
    pub corrs: &'a mut [Correspondence],
    pub mask: &'a mut [bool],
}

/// One attempt: number of matches, pose (`None` where it failed), statistics of the best hypothesis,
/// and the time per phase.
#[derive(Clone, Copy, Debug, PartialEq, Eq)]
pub struct LocalizeStats {
    pub matches: usize,
    pub pnp: Option<PnpResult>,
    pub pnp_best: PnpBest,
    pub match_us: u64,
    pub pnp_us: u64,
}

/// The matches between the features of a frame and the points of a map frame.
pub open spec fn frame_matches(query: Seq<Feature>, map: Seq<MapPoint>, mb: MatchBuffers) -> Seq<
    Match,
> {
    all_matches(
        descriptors(query, query_count(query.len() as int, mb)),
        descriptors(map, point_count(map.len() as int, mb)),
    )
}

/// Matching a frame turns the buffers `a` into `b`, with room for `room` matches.
pub open spec fn frame_buffers_left(
    query: Seq<Feature>,
    map: Seq<MapPoint>,
    room: int,
    a: MatchBuffers,
    b: MatchBuffers,
) -> bool {
    buffers_left(
        descriptors(query, query_count(query.len() as int, a)),
        descriptors(map, point_count(map.len() as int, a)),
        room,
        a,
        b,
    )
}

/// The correspondence of a match: the world position of the point, and the undistorted position of
/// the feature.
pub open spec fn correspondence(
    query: Seq<Feature>,
    map: Seq<MapPoint>,
    cam: Camera,
    m: Match,
) -> Correspondence {
    let q = query[m.query as int];
    let p = undistorted(cam, q.x, q.y);
    Correspondence { world: map[m.point as int].xyz, xn: p[0], yn: p[1] }
}

/// The correspondences of the first `n` matches.
pub open spec fn correspondences(
    query: Seq<Feature>,
    map: Seq<MapPoint>,
    cam: Camera,
    found: Seq<Match>,
    n: int,
) -> Seq<Correspondence> {
    Seq::new(n as nat, |i: int| correspondence(query, map, cam, found[i]))
}

/// Every correspondence joins what was matched: its world position is the position of the very point
/// that the match names, and its image position is the undistorted position of the very feature that
/// the match names. Moving that point moves the correspondence along, and no other point matters to it.
pub proof fn correspondence_joins_the_match(
    query: Seq<Feature>,
    map: Seq<MapPoint>,
    other: Seq<MapPoint>,
    cam: Camera,
    found: Seq<Match>,
    n: int,
    i: int,
)
    requires
        0 <= i < n <= found.len(),
        found[i].query < query.len(),
        found[i].point < map.len(),
        other.len() == map.len(),
    ensures
        ({
            let m = found[i];
            let c = correspondences(query, map, cam, found, n)[i];
            let d = correspondences(query, other, cam, found, n)[i];
            &&& c.world == map[m.point as int].xyz
            &&& seq![c.xn, c.yn] == undistorted(
                cam,
                query[m.query as int].x,
                query[m.query as int].y,
            )@
            &&& c.world == d.world <==> map[m.point as int].xyz == other[m.point as int].xyz
            &&& c.xn == d.xn && c.yn == d.yn
        }),
{
    let p = undistorted(cam, query[found[i].query as int].x, query[found[i].query as int].y);
    assert(seq![p[0], p[1]] =~= p@);
}

/// Turns matches into correspondences, as far as `corrs` reaches; returns how many.
pub fn correspond(
    query: &[Feature],
    map: &[MapPoint],
    cam: &Camera,
    found: &[Match],
    corrs: &mut [Correspondence],
) -> (nc: usize)
    requires
        forall|i: int|
            0 <= i < found.len() ==> (#[trigger] found@[i]).query < query.len()
                && found@[i].point < map.len(),
    ensures
        nc == least(found@.len() as int, old(corrs)@.len() as int),
        final(corrs)@ == correspondences(query@, map@, *cam, found@, nc as int) + old(corrs)@.skip(
            nc as int,
        ),
        final(corrs)@.len() == old(corrs)@.len(),
        forall|i: int|
            0 <= i < nc ==> (#[trigger] final(corrs)@[i]).world == map@[found@[i].point as int].xyz,
        forall|i: int|
            0 <= i < nc ==> seq![(#[trigger] final(corrs)@[i]).xn, final(corrs)@[i].yn]
                == undistorted(
                *cam,
                query@[found@[i].query as int].x,
                query@[found@[i].query as int].y,
            )@,
        forall|i: int|
            0 <= i < nc && moderate(
                *cam,
                query@[found@[i].query as int].x,
                query@[found@[i].query as int].y,
            ) ==> distorts_back(
                *cam,
                query@[found@[i].query as int].x,
                query@[found@[i].query as int].y,
                [(#[trigger] final(corrs)@[i]).xn, final(corrs)@[i].yn],
            ),
        forall|i: int| nc <= i < old(corrs)@.len() ==> #[trigger] final(corrs)@[i] == old(corrs)@[i],
{
    let nc: usize = if found.len() <= corrs.len() {
        found.len()
    } else {
        corrs.len()
    };
    for i in 0..nc
        invariant
            nc <= found.len(),
            nc <= corrs.len(),
            corrs@.len() == old(corrs)@.len(),
            forall|i: int|
                0 <= i < found.len() ==> (#[trigger] found@[i]).query < query.len()
                    && found@[i].point < map.len(),
            forall|k: int|
                0 <= k < i ==> #[trigger] corrs@[k] == correspondence(
                    query@,
                    map@,
                    *cam,
                    found@[k],
                ),
            forall|k: int| i <= k < corrs@.len() ==> #[trigger] corrs@[k] == old(corrs)@[k],
    {
        let m: Match = found[i];
        assert(found@[i as int].query < query.len());
        let q: &Feature = &query[m.query as usize];
        let p: [Binary32; 2] = cam.pixel_to_undistorted_normalized(q.x, q.y);
        let world: Vec3 = map[m.point as usize].xyz;
        corrs[i] = Correspondence { world, xn: p[0], yn: p[1] };
    }
    assert(corrs@ =~= correspondences(query@, map@, *cam, found@, nc as int) + old(corrs)@.skip(
        nc as int,
    ));
    proof {
        let after = corrs@;
        assert forall|i: int| 0 <= i < nc implies seq![(#[trigger] after[i]).xn, after[i].yn]
            == undistorted(
            *cam,
            query@[found@[i].query as int].x,
            query@[found@[i].query as int].y,
        )@ by {
            let p = undistorted(
                *cam,
                query@[found@[i].query as int].x,
                query@[found@[i].query as int].y,
            );
            assert(seq![p[0], p[1]] =~= p@);
        }
        assert forall|i: int|
            0 <= i < nc && moderate(
                *cam,
                query@[found@[i].query as int].x,
                query@[found@[i].query as int].y,
            ) implies distorts_back(
            *cam,
            query@[found@[i].query as int].x,
            query@[found@[i].query as int].y,
            [(#[trigger] after[i]).xn, after[i].yn],
        ) by {
            let q = query@[found@[i].query as int];
            undistortion_inverts_distortion(*cam, q.x, q.y);
        }
    }
    nc
}

/// Matches a frame against the points of one map frame; the matches index both.
fn match_frame(query: &[Feature], map: &[MapPoint], out: &mut [Match], mb: &mut MatchBuffers) -> (n:
    usize)
    requires
        query_count(query.len() as int, *old(mb)) <= u32::MAX + 1,
        point_count(map.len() as int, *old(mb)) <= u32::MAX + 1,
    ensures
        n == least(
            frame_matches(query@, map@, *old(mb)).len() as int,
            old(out)@.len() as int,
        ),
        final(out)@ == stored(old(out)@, frame_matches(query@, map@, *old(mb))),
        forall|i: int|
            0 <= i < n ==> (#[trigger] final(out)@[i]).query < query.len() && final(out)@[i].point
                < map.len(),
        frame_buffers_left(query@, map@, old(out)@.len() as int, *old(mb), *final(mb)),
        final(final(mb).best_idx)@ == final(old(mb).best_idx)@,
        final(final(mb).best_dist)@ == final(old(mb).best_dist)@,
        final(final(mb).second_dist)@ == final(old(mb).second_dist)@,
        final(final(mb).point_query)@ == final(old(mb).point_query)@,
        final(final(mb).point_dist)@ == final(old(mb).point_dist)@,
{
    let ghost found = frame_matches(query@, map@, *mb);
    let ghost qs = descriptors(query@, query_count(query@.len() as int, *mb));
    let ghost ms = descriptors(map@, point_count(map@.len() as int, *mb));
    let n: usize = match_map(query, map, out, mb);
    proof {
        let after = out@;
        assert forall|i: int| 0 <= i < n implies (#[trigger] after[i]).query < query.len()
            && after[i].point < map.len() by {
            assert(after[i] == found[i]);
            matches_are_sound(qs, ms, i);
        }
    }
    n
}

/// Matches a frame against the points of one map frame and turns the matches into correspondences;
/// returns how many of both.
fn prepare(
    query: &[Feature],
    map: &[MapPoint],
    cam: &Camera,
    out: &mut [Match],
    corrs: &mut [Correspondence],
    mb: &mut MatchBuffers,
) -> (r: (usize, usize))
    requires
        query_count(query.len() as int, *old(mb)) <= u32::MAX + 1,
        point_count(map.len() as int, *old(mb)) <= u32::MAX + 1,
    ensures
        ({
            let found = frame_matches(query@, map@, *old(mb));
            let list = correspondences(query@, map@, *cam, found, r.1 as int);
            &&& r.0 == least(found.len() as int, old(out)@.len() as int)
            &&& r.1 == least(r.0 as int, old(corrs)@.len() as int)
            &&& final(out)@ == stored(old(out)@, found)
            &&& final(corrs)@ == list + old(corrs)@.skip(r.1 as int)
            &&& final(corrs)@.subrange(0, r.1 as int) == list
        }),
        frame_buffers_left(query@, map@, old(out)@.len() as int, *old(mb), *final(mb)),
        final(final(mb).best_idx)@ == final(old(mb).best_idx)@,
        final(final(mb).best_dist)@ == final(old(mb).best_dist)@,
        final(final(mb).second_dist)@ == final(old(mb).second_dist)@,
        final(final(mb).point_query)@ == final(old(mb).point_query)@,
        final(final(mb).point_dist)@ == final(old(mb).point_dist)@,
{
    let ghost found = frame_matches(query@, map@, *mb);
    let n: usize = match_frame(query, map, out, mb);
    let accepted: &[Match] = vstd::slice::slice_subrange(out, 0, n);
    assert(accepted@ =~= found.take(n as int));
    let nc: usize = correspond(query, map, cam, accepted, corrs);
    proof {
        let list = correspondences(query@, map@, *cam, found, nc as int);
        assert(correspondences(query@, map@, *cam, accepted@, nc as int) =~= list);
        assert(corrs@.subrange(0, nc as int) =~= list);
    }
    (n, nc)
}

/// Matches a frame against the points of one map frame and solves for the camera pose. The clock is
/// read before and after both.
pub fn localize_frame<R: Rng, C: Clock>(
    query: &[Feature],
    map: &[MapPoint],
    cam: &Camera,
    opts: &PnpOptions,
    rng: &mut R,
    s: &mut LocalizeScratch,
    clock: &mut C,
) -> (stats: LocalizeStats)
    requires
        query_count(query.len() as int, old(s).mb) <= u32::MAX + 1,
        point_count(map.len() as int, old(s).mb) <= u32::MAX + 1,
    ensures
        ({
            let found = frame_matches(query@, map@, old(s).mb);
            let n = least(found.len() as int, old(s).matches@.len() as int);
            let nc = least(n, old(s).corrs@.len() as int);
            let list = correspondences(query@, map@, *cam, found, nc);
            &&& stats.matches == n
            &&& final(s).matches@ == stored(old(s).matches@, found)
            &&& final(s).corrs@ == list + old(s).corrs@.skip(nc)
            &&& forall|i: int|
                0 <= i < nc ==> (#[trigger] final(s).corrs@[i]).world
                    == map@[found[i].point as int].xyz
            &&& nc < 6 || old(s).mask@.len() < nc ==> {
                &&& stats.pnp is None
                &&& stats.pnp_best == no_best()
                &&& final(s).mask@ == old(s).mask@
                &&& *final(rng) == *old(rng)
            }
            &&& stats.pnp is Some && usable(opts.reproj_threshold_px) ==> mask_fits(
                Pose { r: stats.pnp->0.r, t: stats.pnp->0.t },
                list,
                *cam,
                *opts,
                final(s).mask@,
            )
            &&& nc >= 6 && old(s).mask@.len() >= nc ==> searched(
                list,
                *cam,
                *opts,
                stats.pnp,
                SearchState {
                    drawn: old(rng).drawn(),
                    mask: old(s).mask@,
                    best: no_best(),
                },
                SearchState {
                    drawn: final(rng).drawn(),
                    mask: final(s).mask@,
                    best: stats.pnp_best,
                },
            )
        }),
        frame_buffers_left(
            query@,
            map@,
            old(s).matches@.len() as int,
            old(s).mb,
            final(s).mb,
        ),
        final(final(s).mb.best_idx)@ == final(old(s).mb.best_idx)@,
        final(final(s).mb.best_dist)@ == final(old(s).mb.best_dist)@,
        final(final(s).mb.second_dist)@ == final(old(s).mb.second_dist)@,
        final(final(s).mb.point_query)@ == final(old(s).mb.point_query)@,
        final(final(s).mb.point_dist)@ == final(old(s).mb.point_dist)@,
        ({
            let r = newly_read(old(clock).readings(), final(clock).readings());
            &&& final(clock).readings() == old(clock).readings() + r
            &&& final(clock).counts() == old(clock).counts()
            &&& r.len() == 4
            &&& stats.match_us == span(r, 0)
            &&& stats.pnp_us == span(r, 2)
        }),
        final(final(s).matches)@ == final(old(s).matches)@,
        final(final(s).corrs)@ == final(old(s).corrs)@,
        final(final(s).mask)@ == final(old(s).mask)@,
{
    let t0: u64 = clock.now_us();
    let (n, nc): (usize, usize) = prepare(query, map, cam, s.matches, s.corrs, &mut s.mb);
    let t1: u64 = clock.now_us();
    let t2: u64 = clock.now_us();
    let list: &[Correspondence] = vstd::slice::slice_subrange(s.corrs, 0, nc);
    let mut pnp_best: PnpBest = PnpBest {
        inlier_count: 0,
        mean_reproj_error_px: Binary32 { bits: 0 },
    };
    let pnp: Option<PnpResult> = pnp_ransac_best(list, cam, opts, rng, s.mask, &mut pnp_best);
    let t3: u64 = clock.now_us();
    proof {
        let r0 = old(clock).readings();
        let r = seq![t0, t1, t2, t3];
        assert(clock.readings() =~= r0 + r);
        assert(newly_read(r0, r0 + r) =~= r);
    }
    LocalizeStats {
        matches: n,
        pnp,
        pnp_best,
        match_us: t1.wrapping_sub(t0),
        pnp_us: t3.wrapping_sub(t2),
    }
}

} // verus!
