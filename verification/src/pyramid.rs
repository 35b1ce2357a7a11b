//! Seven-level scale pyramid: level 0 is the source, each further level the one before scaled 6:5. On
//! each level FAST-12 corners are found, the level is blurred and the corners are described; keypoints
//! too near the border are dropped. Positions are projected to level 0 as `x * 1.2^level`.

use vstd::prelude::*;

use crate::binary32::{at_most, from_u64, is_at_most, nearest_int, product, Binary32};
use crate::blur::{blurred, box_blur5x5, holds_col_sums};
use crate::downscale::{
    downscale_65, downscale_65_size, downscaled_65, hpassed, lemma_size_65_area, size_65,
};
use crate::fast::ee::fast12_detect_ee;
use crate::fast::{
    corners_of, nonmax_of, raw_seen, rows_after, score_raw, scores_of, suppress_raw, Corner,
};
use crate::matcher::{is_zero, zero, Descriptor, DescriptorSource};
use crate::pyramid::place::{all_features_are_placed, placed};
use crate::rbrief::{
    descriptor_of, interior, orientation_keeps_samples_inside, rbrief_angle, rbrief_samples,
};
use crate::sqrt::ONE_BITS;
use crate::store::{least, lemma_stored_take, stored};

pub mod place;

verus! {

/// Number of levels: the full size and six downscales.
pub const LEVELS: usize = 7;

/// Encoding of the scale per level, the single-precision number nearest to 1.2.
pub const SCALE_BITS: u32 = 0x3F99_999A;

/// FAST threshold for 4x4-averaged captures. Map and query must be extracted at the same threshold.
pub const FAST_THRESHOLD: i32 = 10;

/// Capacity of the raw corner scratch: suppression is exact only on the full raw list.
pub const CORNERS_RAW_MAX: usize = 8192;

/// Features per frame: the capacity that a caller provides.
pub const MAX_FEATURES: usize = 4096;

/// One feature: a descriptor and its position in level-0 pixels.
#[derive(Clone, Copy, Debug)]
pub struct Feature {
    /// Level on which the keypoint was found.
    pub level: u8,
    pub x: Binary32,
    pub y: Binary32,
    /// Bit `k` of word `i` is sample pair `32 * i + k`. Never all-zero in an extracted feature: keypoints
    /// in the border band and those without a set bit are dropped.
    pub desc: Descriptor,
}

/// Two numbers are equal: both zeros are, and what is not a number equals nothing.
pub open spec fn equal_numbers(a: Binary32, b: Binary32) -> bool {
    at_most(a, b) && at_most(b, a)
}

fn same_words(a: &Descriptor, b: &Descriptor) -> (r: bool)
    ensures
        r == (a@ == b@),
{
    for i in 0..8usize
        invariant
            forall|k: int| 0 <= k < i ==> #[trigger] a@[k] == b@[k],
    {
        if a[i] != b[i] {
            return false;
        }
    }
    assert(a@ =~= b@);
    true
}

impl PartialEq for Feature {
    fn eq(&self, other: &Feature) -> (r: bool) {
        self.level == other.level && is_at_most(self.x, other.x) && is_at_most(other.x, self.x)
            && is_at_most(self.y, other.y) && is_at_most(other.y, self.y) && same_words(
            &self.desc,
            &other.desc,
        )
    }
}

/// Features are equal by level, by the numbers of their positions, and by the words of their
/// descriptors.
impl vstd::std_specs::cmp::PartialEqSpecImpl for Feature {
    open spec fn obeys_eq_spec() -> bool {
        true
    }

    open spec fn eq_spec(&self, other: &Feature) -> bool {
        &&& self.level == other.level
        &&& equal_numbers(self.x, other.x)
        &&& equal_numbers(self.y, other.y)
        &&& self.desc@ == other.desc@
    }
}

impl Default for Feature {
    fn default() -> (f: Feature)
        ensures
            f.level == 0,
            f.x.bits == 0,
            f.y.bits == 0,
            f.desc@ == seq![0u32, 0, 0, 0, 0, 0, 0, 0],
    {
        let f: Feature = Feature {
            level: 0,
            x: Binary32 { bits: 0 },
            y: Binary32 { bits: 0 },
            desc: [0; 8],
        };
        assert(f.desc@ =~= seq![0u32, 0, 0, 0, 0, 0, 0, 0]);
        f
    }
}

impl DescriptorSource for Feature {
    open spec fn words(&self) -> Seq<u32> {
        self.desc@
    }

    fn descriptor(&self) -> &Descriptor {
        &self.desc
    }
}

/// A feature as plain values.
#[verifier::ext_equal]
pub struct FeatureView {
    pub level: int,
    pub x: Binary32,
    pub y: Binary32,
    pub desc: Seq<u32>,
}

impl View for Feature {
    type V = FeatureView;

    open spec fn view(&self) -> FeatureView {
        FeatureView { level: self.level as int, x: self.x, y: self.y, desc: self.desc@ }
    }
}

/// The caller's clocks, read around the phases that are timed.
pub trait Clock {
    /// The times read so far.
    open spec fn readings(&self) -> Seq<u64> {
        arbitrary()
    }

    /// The cycle counts read so far.
    open spec fn counts(&self) -> Seq<u64> {
        arbitrary()
    }

    /// Monotonic time in microseconds.
    fn now_us(&mut self) -> (t: u64)
        ensures
            final(self).readings() == old(self).readings().push(t),
            final(self).counts() == old(self).counts(),
    ;

    /// Processor cycle count, or 0 where there is none.
    fn cycles(&mut self) -> (t: u64)
        ensures
            final(self).counts() == old(self).counts().push(t),
            final(self).readings() == old(self).readings(),
    ;
}

/// A clock that stands still at 0, for extraction where nothing is timed.
#[derive(Clone, Copy)]
pub struct NoClock {
    times: Ghost<Seq<u64>>,
    cycle_counts: Ghost<Seq<u64>>,
}

impl NoClock {
    /// A clock that was never read.
    pub fn new() -> (c: NoClock)
        ensures
            c.readings() == Seq::<u64>::empty(),
            c.counts() == Seq::<u64>::empty(),
    {
        NoClock { times: Ghost(Seq::empty()), cycle_counts: Ghost(Seq::empty()) }
    }
}

impl Clock for NoClock {
    closed spec fn readings(&self) -> Seq<u64> {
        self.times@
    }

    closed spec fn counts(&self) -> Seq<u64> {
        self.cycle_counts@
    }

    fn now_us(&mut self) -> (t: u64)
        ensures
            t == 0,
    {
        self.times = Ghost(self.times@.push(0));
        0
    }

    fn cycles(&mut self) -> (t: u64)
        ensures
            t == 0,
    {
        self.cycle_counts = Ghost(self.cycle_counts@.push(0));
        0
    }
}

/// What a clock read between two moments.
pub open spec fn newly_read(before: Seq<u64>, after: Seq<u64>) -> Seq<u64> {
    after.skip(before.len() as int)
}

/// The time from reading `i` to the next one.
pub open spec fn span(r: Seq<u64>, i: int) -> u64 {
    r[i + 1].wrapping_sub(r[i])
}

/// Three counts are read per round: the sum over the first `m` rounds of the time from count `o` of a
/// round to the next one.
pub open spec fn laps(c: Seq<u64>, o: int, m: int) -> u64
    decreases m,
{
    if m <= 0 {
        0
    } else {
        laps(c, o, m - 1).wrapping_add(span(c, 3 * (m - 1) + o))
    }
}

proof fn lemma_laps_prefix(c: Seq<u64>, d: Seq<u64>, o: int, m: int)
    requires
        0 <= o <= 1,
        0 <= m,
        3 * m <= c.len(),
    ensures
        laps(c + d, o, m) == laps(c, o, m),
    decreases m,
{
    if m > 0 {
        lemma_laps_prefix(c, d, o, m - 1);
    }
}

/// Time per phase and level of one frame.
#[derive(Debug)]
pub struct PyramidProfile<C> {
    pub clock: C,
    /// FAST-12 detection.
    pub fast_us: [u64; 7],
    /// Corner scores.
    pub score_us: [u64; 7],
    /// Non-maximum suppression.
    pub nms_us: [u64; 7],
    /// Box blur.
    pub blur_us: [u64; 7],
    /// Description of the surviving corners.
    pub rbrief_us: [u64; 7],
    /// Cycles spent on orientations.
    pub rbrief_angle_cyc: [u64; 7],
    /// Cycles spent on sampling.
    pub rbrief_sample_cyc: [u64; 7],
    /// Downscale into the next level; the last entry is unused.
    pub downscale_us: [u64; 7],
    /// Corners that survived suppression.
    pub corners: [usize; 7],
}

impl<C> PyramidProfile<C> {
    /// A profile with all times and counts 0.
    pub fn new(clock: C) -> (p: PyramidProfile<C>)
        ensures
            p.clock == clock,
            p.fast_us@ == Seq::new(7, |i: int| 0u64),
            p.score_us@ == Seq::new(7, |i: int| 0u64),
            p.nms_us@ == Seq::new(7, |i: int| 0u64),
            p.blur_us@ == Seq::new(7, |i: int| 0u64),
            p.rbrief_us@ == Seq::new(7, |i: int| 0u64),
            p.rbrief_angle_cyc@ == Seq::new(7, |i: int| 0u64),
            p.rbrief_sample_cyc@ == Seq::new(7, |i: int| 0u64),
            p.downscale_us@ == Seq::new(7, |i: int| 0u64),
            p.corners@ == Seq::new(7, |i: int| 0usize),
    {
        PyramidProfile {
            clock,
            fast_us: [0; 7],
            score_us: [0; 7],
            nms_us: [0; 7],
            blur_us: [0; 7],
            rbrief_us: [0; 7],
            rbrief_angle_cyc: [0; 7],
            rbrief_sample_cyc: [0; 7],
            downscale_us: [0; 7],
            corners: [0; 7],
        }
    }
}

/// Length of an axis of `n` pixels on level `l`.
pub open spec fn level_size(n: int, l: int) -> int
    decreases l,
{
    if l <= 0 {
        n
    } else {
        size_65(level_size(n, l - 1))
    }
}

/// Pixels of the levels `1..l` together.
pub open spec fn arena_upto(w: int, h: int, l: int) -> int
    decreases l,
{
    if l <= 1 {
        0
    } else {
        arena_upto(w, h, l - 1) + level_size(w, l - 1) * level_size(h, l - 1)
    }
}

/// Pixels of all downscaled levels together.
pub open spec fn arena_size(w: int, h: int) -> int {
    arena_upto(w, h, LEVELS as int)
}

/// The image of level `l`.
pub open spec fn level_image(img: Seq<u8>, w: int, h: int, l: int) -> Seq<u8>
    decreases l,
{
    if l <= 0 {
        img
    } else {
        downscaled_65(level_image(img, w, h, l - 1), level_size(w, l - 1), level_size(h, l - 1))
    }
}

/// The factor from level `l` to level 0: a running product in single precision.
pub open spec fn level_scale(l: int) -> Binary32
    decreases l,
{
    if l <= 0 {
        Binary32 { bits: ONE_BITS }
    } else {
        product(level_scale(l - 1), Binary32 { bits: SCALE_BITS })
    }
}

/// The keypoints of a `w` by `h` image: the first `kept` survivors of suppression, with scratch for
/// `raw` corners and `rows` rows.
pub open spec fn keypoints(
    im: Seq<u8>,
    w: int,
    h: int,
    thr: int,
    raw: int,
    rows: int,
    kept: int,
) -> Seq<Corner> {
    let list = nonmax_of(im, w, h, w, thr, raw, rows);
    list.take(least(list.len() as int, kept))
}

/// The feature at a keypoint of a blurred image.
pub open spec fn feature_at(
    smooth: Seq<u8>,
    w: int,
    h: int,
    level: int,
    scale: Binary32,
    kp: Corner,
) -> FeatureView {
    FeatureView {
        level,
        x: product(nearest_int(kp.x as int), scale),
        y: product(nearest_int(kp.y as int), scale),
        desc: descriptor_of(smooth, w, h, kp.x as int, kp.y as int),
    }
}

/// The keypoint lies outside the border band and its descriptor has a set bit.
pub open spec fn has_descriptor(smooth: Seq<u8>, w: int, h: int, kp: Corner) -> bool {
    &&& interior(w, h, kp.x as int, kp.y as int)
    &&& !zero(descriptor_of(smooth, w, h, kp.x as int, kp.y as int))
}

/// The features of the first `n` keypoints, without those in the border band and those without a set
/// bit.
pub open spec fn features_upto(
    smooth: Seq<u8>,
    w: int,
    h: int,
    level: int,
    scale: Binary32,
    kps: Seq<Corner>,
    n: int,
) -> Seq<FeatureView>
    decreases n,
{
    if n <= 0 {
        seq![]
    } else {
        let before = features_upto(smooth, w, h, level, scale, kps, n - 1);
        let kp = kps[n - 1];
        if has_descriptor(smooth, w, h, kp) {
            before.push(feature_at(smooth, w, h, level, scale, kp))
        } else {
            before
        }
    }
}

/// How many of the first `n` keypoints are described where `room` features can be stored: those for
/// which there is still room.
pub open spec fn described_upto(
    smooth: Seq<u8>,
    w: int,
    h: int,
    level: int,
    scale: Binary32,
    kps: Seq<Corner>,
    room: int,
    n: int,
) -> int
    decreases n,
{
    if n <= 0 {
        0
    } else {
        let before = described_upto(smooth, w, h, level, scale, kps, room, n - 1);
        if features_upto(smooth, w, h, level, scale, kps, n - 1).len() < room {
            before + 1
        } else {
            before
        }
    }
}

/// All features of one `w` by `h` level image.
pub open spec fn image_features(
    im: Seq<u8>,
    w: int,
    h: int,
    thr: int,
    raw: int,
    rows: int,
    kept: int,
    level: int,
    scale: Binary32,
) -> Seq<FeatureView> {
    let kps = keypoints(im, w, h, thr, raw, rows, kept);
    features_upto(blurred(im, w, h), w, h, level, scale, kps, kps.len() as int)
}

/// Contents of the working buffers.
pub struct Scratch {
    pub work: Seq<u8>,
    pub vcol: Seq<u16>,
    pub corners: Seq<Corner>,
    pub scores: Seq<i32>,
    pub rowidx: Seq<usize>,
    pub nms: Seq<Corner>,
}

/// The search of a `w` by `h` image turns the working buffers `a` into `b`: the blurred image with its
/// last column sums, the raw corners, their scores and row index, and the survivors of suppression.
/// What lies beyond is kept.
#[verifier::opaque]
pub open spec fn level_leaves(
    im: Seq<u8>,
    w: int,
    h: int,
    thr: int,
    a: Scratch,
    b: Scratch,
) -> bool {
    let cap = a.corners.len() as int;
    let raw = raw_seen(im, w, h, w, thr, cap);
    &&& b.work == blurred(im, w, h) + a.work.skip(w * h)
    &&& holds_col_sums(b.vcol, im, w, h, h - 3)
    &&& b.vcol.skip(w) == a.vcol.skip(w)
    &&& b.corners == stored(a.corners, corners_of(im, w, h, w, thr))
    &&& b.scores == stored(a.scores, scores_of(im, w, raw, thr))
    &&& rows_after(raw, raw.len() as int, a.rowidx, b.rowidx)
    &&& b.nms == stored(a.nms, nonmax_of(im, w, h, w, thr, cap, a.rowidx.len() as int))
}

/// The working buffers after a downscale of a `w` by `h` image: its horizontal pass takes `work`.
pub open spec fn downscale_leaves(im: Seq<u8>, w: int, h: int, a: Scratch) -> Scratch {
    Scratch { work: hpassed(im, w, h) + a.work.skip(size_65(w) * h), ..a }
}

/// What an extraction depends on: the image, the threshold, and the capacities of the raw corner
/// scratch, the row index and the survivor store.
pub struct Frame {
    pub img: Seq<u8>,
    pub w: int,
    pub h: int,
    pub thr: int,
    pub raw: int,
    pub rows: int,
    pub kept: int,
}

impl Frame {
    /// Level `l` is large enough to be searched.
    pub open spec fn searchable(self, l: int) -> bool {
        level_size(self.w, l) >= 7 && level_size(self.h, l) >= 7
    }

    /// The keypoints of level `l`.
    pub open spec fn keypoints(self, l: int) -> Seq<Corner> {
        keypoints(
            level_image(self.img, self.w, self.h, l),
            level_size(self.w, l),
            level_size(self.h, l),
            self.thr,
            self.raw,
            self.rows,
            self.kept,
        )
    }

    /// The features of level `l`; none where a side is shorter than seven pixels.
    pub open spec fn level_features(self, l: int) -> Seq<FeatureView> {
        if self.searchable(l) {
            image_features(
                level_image(self.img, self.w, self.h, l),
                level_size(self.w, l),
                level_size(self.h, l),
                self.thr,
                self.raw,
                self.rows,
                self.kept,
                l,
                level_scale(l),
            )
        } else {
            seq![]
        }
    }

    /// The features of the levels below `l`, level by level.
    pub open spec fn features_below(self, l: int) -> Seq<FeatureView>
        decreases l,
    {
        if l <= 0 {
            seq![]
        } else {
            self.features_below(l - 1) + self.level_features(l - 1)
        }
    }

    /// All features.
    pub open spec fn features(self) -> Seq<FeatureView> {
        self.features_below(LEVELS as int)
    }

    /// Level `l` is searched when `room` features can be stored: it is large enough and the levels
    /// below it left some room.
    pub open spec fn reached(self, room: int, l: int) -> bool {
        self.searchable(l) && self.features_below(l).len() < room
    }

    /// Two profiles have the same times for the levels below `l` and for those that are not searched.
    pub open spec fn times_kept<C>(
        self,
        room: int,
        l: int,
        a: PyramidProfile<C>,
        b: PyramidProfile<C>,
    ) -> bool {
        forall|k: int|
            0 <= k < LEVELS && !(k >= l && self.reached(room, k)) ==> #[trigger] times_at(b, k)
                == times_at(a, k)
    }

    /// Level `l` is searched and the next one is built from it.
    pub open spec fn goes_on(self, room: int, l: int) -> bool {
        l + 1 < LEVELS && self.reached(room, l) && self.searchable(l + 1)
    }

    /// The search of level `l` turns the working buffers `a` into `b`.
    pub open spec fn level_leaves(self, l: int, a: Scratch, b: Scratch) -> bool {
        level_leaves(
            level_image(self.img, self.w, self.h, l),
            level_size(self.w, l),
            level_size(self.h, l),
            self.thr,
            a,
            b,
        )
    }

    /// The search of level `l` and of those after it turns the working buffers `a` into `b`.
    #[verifier::opaque]
    pub open spec fn leaves(self, room: int, l: int, a: Scratch, b: Scratch) -> bool
        decreases LEVELS - l,
    {
        if l >= LEVELS || !self.reached(room, l) {
            b == a
        } else if !self.goes_on(room, l) {
            self.level_leaves(l, a, b)
        } else {
            exists|m: Scratch| #[trigger]
                self.level_leaves(l, a, m) && self.leaves(
                    room,
                    l + 1,
                    downscale_leaves(
                        level_image(self.img, self.w, self.h, l),
                        level_size(self.w, l),
                        level_size(self.h, l),
                        m,
                    ),
                    b,
                )
        }
    }

    /// The search of level `l` turns profile `a` into `b`.
    pub open spec fn level_timed<C: Clock>(
        self,
        room: int,
        l: int,
        a: PyramidProfile<C>,
        b: PyramidProfile<C>,
    ) -> bool {
        let im = level_image(self.img, self.w, self.h, l);
        let w = level_size(self.w, l);
        let h = level_size(self.h, l);
        let kps = self.keypoints(l);
        level_timed(
            a,
            b,
            l,
            corners_of(im, w, h, w, self.thr).len() > 0,
            kps.len() as int,
            described_upto(
                blurred(im, w, h),
                w,
                h,
                l,
                level_scale(l),
                kps,
                room - self.features_below(l).len(),
                kps.len() as int,
            ),
        )
    }

    /// The search of level `l` and of those after it turns profile `a` into `b`.
    #[verifier::opaque]
    pub open spec fn timed<C: Clock>(
        self,
        room: int,
        l: int,
        a: PyramidProfile<C>,
        b: PyramidProfile<C>,
    ) -> bool
        decreases LEVELS - l,
    {
        if l >= LEVELS || !self.reached(room, l) {
            b == a
        } else if !self.goes_on(room, l) {
            self.level_timed(room, l, a, b)
        } else {
            exists|m: PyramidProfile<C>, d: PyramidProfile<C>|
                #![trigger self.level_timed(room, l, a, m), downscale_timed(m, d, l)]
                self.level_timed(room, l, a, m) && downscale_timed(m, d, l) && self.timed(
                    room,
                    l + 1,
                    d,
                    b,
                )
        }
    }

    /// The arena behind level `l`, of which `rest` was there before: the levels built after it, one
    /// after another, and what is left.
    #[verifier::opaque]
    pub open spec fn arena_after(self, room: int, l: int, rest: Seq<u8>) -> Seq<u8>
        decreases LEVELS - l,
    {
        if l >= LEVELS || !self.goes_on(room, l) {
            rest
        } else {
            level_image(self.img, self.w, self.h, l + 1) + self.arena_after(
                room,
                l + 1,
                rest.skip(level_size(self.w, l + 1) * level_size(self.h, l + 1)),
            )
        }
    }
}

/// The views of a list of features.
pub open spec fn views(fs: Seq<Feature>) -> Seq<FeatureView> {
    Seq::new(fs.len(), |i: int| fs[i]@)
}

/// Level sizes only shrink.
proof fn lemma_level_size(n: int, l: int)
    requires
        n >= 0,
        l >= 0,
    ensures
        0 <= level_size(n, l) <= n,
        level_size(n, l + 1) <= level_size(n, l),
    decreases l,
{
    if l > 0 {
        lemma_level_size(n, l - 1);
    }
}

proof fn lemma_arena(w: int, h: int, l: int, m: int)
    requires
        w >= 0,
        h >= 0,
        1 <= l <= m,
    ensures
        0 <= arena_upto(w, h, l) <= arena_upto(w, h, m),
    decreases m,
{
    if l < m {
        lemma_arena(w, h, l, m - 1);
        if m > 1 {
            lemma_level_size(w, m - 1);
            lemma_level_size(h, m - 1);
            assert(level_size(w, m - 1) * level_size(h, m - 1) >= 0) by (nonlinear_arith)
                requires
                    level_size(w, m - 1) >= 0,
                    level_size(h, m - 1) >= 0,
            ;
        }
    } else if l > 1 {
        lemma_arena(w, h, l - 1, l - 1);
        lemma_level_size(w, l - 1);
        lemma_level_size(h, l - 1);
        assert(level_size(w, l - 1) * level_size(h, l - 1) >= 0) by (nonlinear_arith)
            requires
                level_size(w, l - 1) >= 0,
                level_size(h, l - 1) >= 0,
        ;
    }
}

/// Sides of level `l` of a `w` by `h` image.
pub fn level_dims(w: usize, h: usize, l: usize) -> (r: (usize, usize))
    ensures
        r.0 == level_size(w as int, l as int),
        r.1 == level_size(h as int, l as int),
{
    let mut cw: usize = w;
    let mut ch: usize = h;
    for i in 0..l
        invariant
            cw == level_size(w as int, i as int),
            ch == level_size(h as int, i as int),
    {
        cw = downscale_65_size(cw);
        ch = downscale_65_size(ch);
    }
    (cw, ch)
}

/// Bytes needed for the downscaled levels of a `w` by `h` frame.
pub fn arena_bytes(w: usize, h: usize) -> (n: usize)
    requires
        arena_size(w as int, h as int) <= usize::MAX,
    ensures
        n == arena_size(w as int, h as int),
{
    let mut sz: usize = 0;
    for l in 1..LEVELS
        invariant
            sz == arena_upto(w as int, h as int, l as int),
            arena_size(w as int, h as int) <= usize::MAX,
    {
        let (cw, ch): (usize, usize) = level_dims(w, h, l);
        proof {
            lemma_arena(w as int, h as int, l as int, l as int);
            lemma_arena(w as int, h as int, l + 1, LEVELS as int);
            assert(0 <= cw * ch) by (nonlinear_arith);
        }
        sz = sz + cw * ch;
    }
    sz
}

/// The times of level `k`, phase by phase.
pub open spec fn times_at<C>(p: PyramidProfile<C>, k: int) -> (
    u64,
    u64,
    u64,
    u64,
    u64,
    u64,
    u64,
    u64,
) {
    (
        p.fast_us@[k],
        p.score_us@[k],
        p.nms_us@[k],
        p.blur_us@[k],
        p.rbrief_us@[k],
        p.rbrief_angle_cyc@[k],
        p.rbrief_sample_cyc@[k],
        p.downscale_us@[k],
    )
}

/// Two profiles have the same times for all levels but `l`.
pub open spec fn same_times_but<C>(a: PyramidProfile<C>, b: PyramidProfile<C>, l: int) -> bool {
    forall|k: int| 0 <= k < LEVELS && k != l ==> #[trigger] times_at(b, k) == times_at(a, k)
}

/// The description of `m` keypoints of a level turns profile `a` into `b`: per keypoint three cycle
/// counts are read, around the orientation and the sampling.
pub open spec fn cycles_entered<C: Clock>(
    a: PyramidProfile<C>,
    b: PyramidProfile<C>,
    level: int,
    m: int,
) -> bool {
    let c = newly_read(a.clock.counts(), b.clock.counts());
    &&& b.clock.counts() == a.clock.counts() + c
    &&& b.clock.readings() == a.clock.readings()
    &&& c.len() == 3 * m
    &&& b.fast_us@ == a.fast_us@
    &&& b.score_us@ == a.score_us@
    &&& b.nms_us@ == a.nms_us@
    &&& b.blur_us@ == a.blur_us@
    &&& b.rbrief_us@ == a.rbrief_us@
    &&& b.rbrief_angle_cyc@ == a.rbrief_angle_cyc@.update(level, laps(c, 0, m))
    &&& b.rbrief_sample_cyc@ == a.rbrief_sample_cyc@.update(level, laps(c, 1, m))
    &&& b.downscale_us@ == a.downscale_us@
    &&& b.corners@ == a.corners@
}

/// The search of a level turns profile `a` into `b`. The clock is read before and after detection,
/// before scoring, and, where raw corners were `found`, after it and before and after suppression; then
/// before and after the blur and the description. Of `kept` keypoints `m` are described.
#[verifier::opaque]
pub open spec fn level_timed<C: Clock>(
    a: PyramidProfile<C>,
    b: PyramidProfile<C>,
    level: int,
    found: bool,
    kept: int,
    m: int,
) -> bool {
    let r = newly_read(a.clock.readings(), b.clock.readings());
    let c = newly_read(a.clock.counts(), b.clock.counts());
    let k: int = if found {
        6
    } else {
        3
    };
    &&& b.clock.readings() == a.clock.readings() + r
    &&& b.clock.counts() == a.clock.counts() + c
    &&& r.len() == k + 4
    &&& c.len() == 3 * m
    &&& b.fast_us@ == a.fast_us@.update(level, span(r, 0))
    &&& b.score_us@ == if found {
        a.score_us@.update(level, span(r, 2))
    } else {
        a.score_us@
    }
    &&& b.nms_us@ == if found {
        a.nms_us@.update(level, span(r, 4))
    } else {
        a.nms_us@
    }
    &&& b.blur_us@ == a.blur_us@.update(level, span(r, k))
    &&& b.rbrief_us@ == a.rbrief_us@.update(level, span(r, k + 2))
    &&& b.rbrief_angle_cyc@ == a.rbrief_angle_cyc@.update(level, laps(c, 0, m))
    &&& b.rbrief_sample_cyc@ == a.rbrief_sample_cyc@.update(level, laps(c, 1, m))
    &&& b.downscale_us@ == a.downscale_us@
    &&& b.corners@ == a.corners@.update(level, kept as usize)
}

/// The downscale of a level turns profile `a` into `b`: the clock is read before and after it.
#[verifier::opaque]
pub open spec fn downscale_timed<C: Clock>(
    a: PyramidProfile<C>,
    b: PyramidProfile<C>,
    level: int,
) -> bool {
    let r = newly_read(a.clock.readings(), b.clock.readings());
    &&& b.clock.readings() == a.clock.readings() + r
    &&& b.clock.counts() == a.clock.counts()
    &&& r.len() == 2
    &&& b.fast_us@ == a.fast_us@
    &&& b.score_us@ == a.score_us@
    &&& b.nms_us@ == a.nms_us@
    &&& b.blur_us@ == a.blur_us@
    &&& b.rbrief_us@ == a.rbrief_us@
    &&& b.rbrief_angle_cyc@ == a.rbrief_angle_cyc@
    &&& b.rbrief_sample_cyc@ == a.rbrief_sample_cyc@
    &&& b.downscale_us@ == a.downscale_us@.update(level, span(r, 0))
    &&& b.corners@ == a.corners@
}

/// The attached profile.
spec fn held<C>(profile: Option<&mut PyramidProfile<C>>) -> Option<PyramidProfile<C>> {
    match profile {
        Some(p) => Some(*p),
        None => None,
    }
}

/// A timed phase.
#[derive(Clone, Copy, Debug, PartialEq, Eq)]
enum Phase {
    Fast,
    Score,
    Suppress,
    Blur,
    Describe,
    AngleCycles,
    SampleCycles,
    Downscale,
}

/// Reads the clock of an attached profile, else 0. The time is what the clock returned, and only the
/// clock changes.
fn tick<C: Clock>(profile: &mut Option<&mut PyramidProfile<C>>) -> (t: u64)
    ensures
        (*final(profile)) is Some == (*old(profile)) is Some,
        *old(profile) matches Some(a) ==> (*final(profile) matches Some(b) ==> {
            &&& *b == (PyramidProfile { clock: b.clock, ..*a })
            &&& same_times_but(*a, *b, -1)
            &&& b.clock.readings() == a.clock.readings().push(t)
            &&& b.clock.counts() == a.clock.counts()
            &&& *final(a) == *final(b)
        }),
        *old(profile) is None ==> t == 0,
{
    match profile {
        Some(pr) => pr.clock.now_us(),
        None => 0,
    }
}

/// Reads the cycle counter of an attached profile, else 0. The count is what the counter returned, and
/// only the clock changes.
fn tick_cycles<C: Clock>(profile: &mut Option<&mut PyramidProfile<C>>) -> (t: u64)
    ensures
        (*final(profile)) is Some == (*old(profile)) is Some,
        *old(profile) matches Some(a) ==> (*final(profile) matches Some(b) ==> {
            &&& *b == (PyramidProfile { clock: b.clock, ..*a })
            &&& same_times_but(*a, *b, -1)
            &&& b.clock.counts() == a.clock.counts().push(t)
            &&& b.clock.readings() == a.clock.readings()
            &&& *final(a) == *final(b)
        }),
        *old(profile) is None ==> t == 0,
{
    match profile {
        Some(pr) => pr.clock.cycles(),
        None => 0,
    }
}

/// The times of a phase by level, after `time` is entered for level `l` of the phase that is timed.
spec fn entered(times: Seq<u64>, timed: bool, l: int, time: u64) -> Seq<u64> {
    if timed {
        times.update(l, time)
    } else {
        times
    }
}

/// Profile `b` is profile `a` with `time` entered for a phase of level `l`.
spec fn recorded<C>(
    a: PyramidProfile<C>,
    b: PyramidProfile<C>,
    phase: Phase,
    l: int,
    time: u64,
) -> bool {
    &&& b.clock == a.clock
    &&& b.corners == a.corners
    &&& b.fast_us@ == entered(a.fast_us@, phase is Fast, l, time)
    &&& b.score_us@ == entered(a.score_us@, phase is Score, l, time)
    &&& b.nms_us@ == entered(a.nms_us@, phase is Suppress, l, time)
    &&& b.blur_us@ == entered(a.blur_us@, phase is Blur, l, time)
    &&& b.rbrief_us@ == entered(a.rbrief_us@, phase is Describe, l, time)
    &&& b.rbrief_angle_cyc@ == entered(a.rbrief_angle_cyc@, phase is AngleCycles, l, time)
    &&& b.rbrief_sample_cyc@ == entered(a.rbrief_sample_cyc@, phase is SampleCycles, l, time)
    &&& b.downscale_us@ == entered(a.downscale_us@, phase is Downscale, l, time)
}

/// Enters a time in an attached profile.
fn record<C: Clock>(
    profile: &mut Option<&mut PyramidProfile<C>>,
    phase: Phase,
    l: usize,
    time: u64,
)
    requires
        l < LEVELS,
    ensures
        (*final(profile)) is Some == (*old(profile)) is Some,
        *old(profile) matches Some(a) ==> (*final(profile) matches Some(b) ==> recorded(
            *a,
            *b,
            phase,
            l as int,
            time,
        ) && same_times_but(*a, *b, l as int) && *final(a) == *final(b)),
{
    match profile {
        Some(pr) => {
            match phase {
                Phase::Fast => {
                    pr.fast_us[l] = time;
                },
                Phase::Score => {
                    pr.score_us[l] = time;
                },
                Phase::Suppress => {
                    pr.nms_us[l] = time;
                },
                Phase::Blur => {
                    pr.blur_us[l] = time;
                },
                Phase::Describe => {
                    pr.rbrief_us[l] = time;
                },
                Phase::AngleCycles => {
                    pr.rbrief_angle_cyc[l] = time;
                },
                Phase::SampleCycles => {
                    pr.rbrief_sample_cyc[l] = time;
                },
                Phase::Downscale => {
                    pr.downscale_us[l] = time;
                },
            }
        },
        None => {},
    }
}

/// Enters the number of keypoints of a level in an attached profile.
fn record_corners<C: Clock>(profile: &mut Option<&mut PyramidProfile<C>>, l: usize, n: usize)
    requires
        l < LEVELS,
    ensures
        (*final(profile)) is Some == (*old(profile)) is Some,
        *old(profile) matches Some(a) ==> (*final(profile) matches Some(b) ==> {
            &&& *b == (PyramidProfile { corners: b.corners, ..*a })
            &&& b.corners@ == a.corners@.update(l as int, n)
            &&& same_times_but(*a, *b, -1)
            &&& *final(a) == *final(b)
        }),
{
    match profile {
        Some(pr) => {
            pr.corners[l] = n;
        },
        None => {},
    }
}

/// Describes the keypoints of one blurred level and appends their features to `out[total..]` until
/// `out` is full; returns how many.
fn describe_keypoints<C: Clock>(
    smooth: &[u8],
    cw: usize,
    ch: usize,
    level: u8,
    scale: Binary32,
    kps: &[Corner],
    out: &mut [Feature],
    total: usize,
    profile: &mut Option<&mut PyramidProfile<C>>,
) -> (added: usize)
    requires
        level < LEVELS,
        smooth.len() == cw * ch,
        cw <= i32::MAX,
        ch <= i32::MAX,
        total <= old(out).len(),
    ensures
        ({
            let list = features_upto(
                smooth@,
                cw as int,
                ch as int,
                level as int,
                scale,
                kps@,
                kps@.len() as int,
            );
            &&& added == least(list.len() as int, old(out)@.len() - total)
            &&& views(final(out)@.subrange(total as int, total + added)) == list.take(added as int)
        }),
        final(out)@.len() == old(out)@.len(),
        final(out)@.take(total as int) == old(out)@.take(total as int),
        final(out)@.skip(total + added) == old(out)@.skip(total + added),
        (*final(profile)) is Some == (*old(profile)) is Some,
        *old(profile) matches Some(a) ==> (*final(profile) matches Some(b) ==> {
            &&& b.corners == a.corners
            &&& same_times_but(*a, *b, level as int)
            &&& cycles_entered(
                *a,
                *b,
                level as int,
                described_upto(
                    smooth@,
                    cw as int,
                    ch as int,
                    level as int,
                    scale,
                    kps@,
                    old(out)@.len() - total,
                    kps@.len() as int,
                ),
            )
            &&& *final(a) == *final(b)
        }),
{
    let mut added: usize = 0;
    let mut angle_cyc: u64 = 0;
    let mut sample_cyc: u64 = 0;
    let ghost mut cs: Seq<u64> = seq![];
    let ghost mut m: int = 0;
    assert(*profile matches Some(a) ==> a.clock.counts() =~= a.clock.counts() + cs);
    let n: usize = kps.len();
    for i in 0..n
        invariant
            n == kps.len(),
            level < LEVELS,
            smooth.len() == cw * ch,
            cw <= i32::MAX,
            ch <= i32::MAX,
            total <= out.len(),
            out@.len() == old(out)@.len(),
            ({
                let list = features_upto(
                    smooth@,
                    cw as int,
                    ch as int,
                    level as int,
                    scale,
                    kps@,
                    i as int,
                );
                &&& added == least(list.len() as int, out@.len() - total)
                &&& forall|k: int|
                    0 <= k < added ==> #[trigger] out@[total + k]@ == list[k]
            }),
            forall|k: int|
                0 <= k < out@.len() && !(total <= k < total + added) ==> #[trigger] out@[k]
                    == old(out)@[k],
            (*profile) is Some == (*old(profile)) is Some,
            0 <= m,
            cs.len() == 3 * m,
            m == described_upto(
                smooth@,
                cw as int,
                ch as int,
                level as int,
                scale,
                kps@,
                old(out)@.len() - total,
                i as int,
            ),
            angle_cyc == laps(cs, 0, m),
            sample_cyc == laps(cs, 1, m),
            *old(profile) matches Some(a) ==> (*profile matches Some(b) ==> {
                &&& *b == (PyramidProfile { clock: b.clock, ..*a })
                &&& b.clock.readings() == a.clock.readings()
                &&& b.clock.counts() == a.clock.counts() + cs
                &&& same_times_but(*a, *b, level as int)
                &&& *final(a) == *final(b)
            }),
    {
        let kp: Corner = kps[i];
        if total + added < out.len() {
            let c0: u64 = tick_cycles(profile);
            let angle: Option<(Binary32, Binary32)> = rbrief_angle(smooth, cw, ch, kp.x, kp.y);
            let c1: u64 = tick_cycles(profile);
            match angle {
                Some((s, c)) => {
                    proof {
                        orientation_keeps_samples_inside(
                            smooth@,
                            cw as int,
                            ch as int,
                            kp.x as int,
                            kp.y as int,
                        );
                    }
                    let mut desc: Descriptor = [0; 8];
                    rbrief_samples(smooth, cw, kp.x, kp.y, s, c, &mut desc);
                    if !is_zero(&desc) {
                        out[total + added] = Feature {
                            level,
                            x: from_u64(kp.x as u64).times(scale),
                            y: from_u64(kp.y as u64).times(scale),
                            desc,
                        };
                        assert(out@[total + added]@ =~= feature_at(
                            smooth@,
                            cw as int,
                            ch as int,
                            level as int,
                            scale,
                            kp,
                        ));
                        added = added + 1;
                    }
                },
                None => {},
            }
            let c2: u64 = tick_cycles(profile);
            angle_cyc = angle_cyc.wrapping_add(c1.wrapping_sub(c0));
            sample_cyc = sample_cyc.wrapping_add(c2.wrapping_sub(c1));
            proof {
                let round = seq![c0, c1, c2];
                let before = cs;
                cs = before + round;
                lemma_laps_prefix(before, round, 0, m);
                lemma_laps_prefix(before, round, 1, m);
                m = m + 1;
                assert(cs[3 * (m - 1)] == c0 && cs[3 * (m - 1) + 1] == c1 && cs[3 * (m - 1) + 2]
                    == c2);
                assert(*old(profile) matches Some(a) ==> a.clock.counts() + cs
                    =~= (a.clock.counts() + before).push(c0).push(c1).push(c2));
            }
        }
    }
    assert(*old(profile) matches Some(a) ==> newly_read(
        a.clock.counts(),
        a.clock.counts() + cs,
    ) =~= cs);
    record(profile, Phase::AngleCycles, level as usize, angle_cyc);
    record(profile, Phase::SampleCycles, level as usize, sample_cyc);
    proof {
        let list = features_upto(
            smooth@,
            cw as int,
            ch as int,
            level as int,
            scale,
            kps@,
            kps@.len() as int,
        );
        let stored_views = views(out@.subrange(total as int, total + added));
        assert forall|k: int| 0 <= k < added implies #[trigger] stored_views[k] == list[k] by {
            assert(out@[total + k]@ == list[k]);
        }
        assert(stored_views =~= list.take(added as int));
        assert(out@.take(total as int) =~= old(out)@.take(total as int));
        assert(out@.skip(total + added) =~= old(out)@.skip(total + added));
    }
    added
}

/// One level: FAST-12 detection, scores and suppression on the raw image, blur, and description.
/// Appends to `out[total..]` and returns how many features were added.
fn process_level<C: Clock>(
    src: &[u8],
    cw: usize,
    ch: usize,
    thr: i32,
    level: u8,
    scale: Binary32,
    work: &mut [u8],
    vcol: &mut [u16],
    corners: &mut [Corner],
    scores: &mut [i32],
    rowidx: &mut [usize],
    nms: &mut [Corner],
    out: &mut [Feature],
    total: usize,
    profile: &mut Option<&mut PyramidProfile<C>>,
) -> (added: usize)
    requires
        level < LEVELS,
        7 <= cw <= i32::MAX,
        7 <= ch <= i32::MAX,
        cw * ch <= src.len(),
        cw * ch <= old(work).len(),
        cw <= old(vcol).len(),
        old(corners).len() > 0,
        old(scores).len() >= old(corners).len(),
        total <= old(out).len(),
    ensures
        ({
            let list = image_features(
                src@,
                cw as int,
                ch as int,
                thr as int,
                old(corners)@.len() as int,
                old(rowidx)@.len() as int,
                old(nms)@.len() as int,
                level as int,
                scale,
            );
            &&& added == least(list.len() as int, old(out)@.len() - total)
            &&& views(final(out)@.subrange(total as int, total + added)) == list.take(added as int)
        }),
        forall|i: int| total <= i < total + added ==> !zero(#[trigger] final(out)@[i].desc@),
        final(out)@.len() == old(out)@.len(),
        final(out)@.take(total as int) == old(out)@.take(total as int),
        final(out)@.skip(total + added) == old(out)@.skip(total + added),
        final(work)@.len() == old(work)@.len(),
        final(vcol)@.len() == old(vcol)@.len(),
        final(corners)@.len() == old(corners)@.len(),
        final(scores)@.len() == old(scores)@.len(),
        final(rowidx)@.len() == old(rowidx)@.len(),
        final(nms)@.len() == old(nms)@.len(),
        level_leaves(
            src@,
            cw as int,
            ch as int,
            thr as int,
            Scratch {
                work: old(work)@,
                vcol: old(vcol)@,
                corners: old(corners)@,
                scores: old(scores)@,
                rowidx: old(rowidx)@,
                nms: old(nms)@,
            },
            Scratch {
                work: final(work)@,
                vcol: final(vcol)@,
                corners: final(corners)@,
                scores: final(scores)@,
                rowidx: final(rowidx)@,
                nms: final(nms)@,
            },
        ),
        (*final(profile)) is Some == (*old(profile)) is Some,
        *old(profile) matches Some(a) ==> (*final(profile) matches Some(b) ==> b.corners@
            == a.corners@.update(
            level as int,
            keypoints(
                src@,
                cw as int,
                ch as int,
                thr as int,
                old(corners)@.len() as int,
                old(rowidx)@.len() as int,
                old(nms)@.len() as int,
            ).len() as usize,
        ) && same_times_but(*a, *b, level as int) && *final(a) == *final(b)),
        *old(profile) matches Some(a) ==> (*final(profile) matches Some(b) ==> {
            let kps = keypoints(
                src@,
                cw as int,
                ch as int,
                thr as int,
                old(corners)@.len() as int,
                old(rowidx)@.len() as int,
                old(nms)@.len() as int,
            );
            level_timed(
                *a,
                *b,
                level as int,
                corners_of(src@, cw as int, ch as int, cw as int, thr as int).len() > 0,
                kps.len() as int,
                described_upto(
                    blurred(src@, cw as int, ch as int),
                    cw as int,
                    ch as int,
                    level as int,
                    scale,
                    kps,
                    old(out)@.len() - total,
                    kps.len() as int,
                ),
            )
        }),
{
    let li: usize = level as usize;
    proof {
        assert((ch - 1) * cw + cw == cw * ch) by (nonlinear_arith);
    }
    let t0: u64 = tick(profile);
    let nraw: usize = fast12_detect_ee(src, cw, ch, cw, thr, corners);
    let t1: u64 = tick(profile);
    record(profile, Phase::Fast, li, t1.wrapping_sub(t0));
    let t2: u64 = tick(profile);
    let ghost raw = corners_of(src@, cw as int, ch as int, cw as int, thr as int);
    let ghost survivors = nonmax_of(
        src@,
        cw as int,
        ch as int,
        cw as int,
        thr as int,
        corners@.len() as int,
        rowidx@.len() as int,
    );
    let mut n: usize = 0;
    let ghost mut scored: Seq<u64> = seq![];
    if nraw > 0 {
        proof {
            lemma_stored_take(old(corners)@, raw, least(nraw as int, corners@.len() as int));
        }
        let nsc: usize = score_raw(src, cw, ch, cw, thr, nraw, corners, scores);
        let t3: u64 = tick(profile);
        record(profile, Phase::Score, li, t3.wrapping_sub(t2));
        let t4: u64 = tick(profile);
        n = suppress_raw(
            src,
            cw,
            ch,
            cw,
            thr,
            Ghost(corners@.len() as int),
            nsc,
            corners,
            scores,
            rowidx,
            nms,
        );
        let t5: u64 = tick(profile);
        record(profile, Phase::Suppress, li, t5.wrapping_sub(t4));
        proof {
            scored = seq![t3, t4, t5];
        }
    }
    assert(n == survivors.len());
    assert(nms@ =~= stored(old(nms)@, survivors));
    proof {
        let seen = raw_seen(
            src@,
            cw as int,
            ch as int,
            cw as int,
            thr as int,
            old(corners)@.len() as int,
        );
        assert(scores@ =~= stored(old(scores)@, scores_of(src@, cw as int, seen, thr as int)));
        assert(rows_after(seen, seen.len() as int, old(rowidx)@, rowidx@));
        reveal(level_leaves);
    }
    let t6: u64 = tick(profile);
    if !box_blur5x5(src, work, cw, ch, vcol) {
        return 0;
    }
    let t7: u64 = tick(profile);
    record(profile, Phase::Blur, li, t7.wrapping_sub(t6));
    let t8: u64 = tick(profile);
    let kept: usize = if n <= nms.len() {
        n
    } else {
        nms.len()
    };
    let kps: &[Corner] = vstd::slice::slice_subrange(nms, 0, kept);
    let smooth: &[u8] = vstd::slice::slice_subrange(work, 0, cw * ch);
    proof {
        lemma_stored_take(old(nms)@, survivors, kept as int);
        assert(kps@ =~= keypoints(
            src@,
            cw as int,
            ch as int,
            thr as int,
            old(corners)@.len() as int,
            old(rowidx)@.len() as int,
            old(nms)@.len() as int,
        ));
        assert(smooth@ =~= blurred(src@, cw as int, ch as int));
    }
    let added: usize = describe_keypoints(smooth, cw, ch, level, scale, kps, out, total, profile);
    proof {
        let after = out@;
        let mine = views(after.subrange(total as int, total + added));
        assert forall|i: int| total <= i < total + added implies !zero(
            #[trigger] after[i].desc@,
        ) by {
            assert(mine[i - total] == after[i]@);
            lemma_features_nonzero(
                smooth@,
                cw as int,
                ch as int,
                level as int,
                scale,
                kps@,
                kps@.len() as int,
                i - total,
            );
        }
    }
    let t9: u64 = tick(profile);
    record(profile, Phase::Describe, li, t9.wrapping_sub(t8));
    record_corners(profile, li, kept);
    proof {
        reveal(level_timed);
        let rs = seq![t0, t1, t2] + scored + seq![t6, t7, t8, t9];
        if let (Some(a), Some(b)) = (held(*old(profile)), held(*profile)) {
            let r0 = a.clock.readings();
            assert(newly_read(r0, r0 + rs) =~= rs);
            assert(b.clock.readings() =~= r0 + rs);
        }
    }
    added
}

/// Every feature of a level has a descriptor with a set bit.
proof fn lemma_features_nonzero(
    smooth: Seq<u8>,
    w: int,
    h: int,
    level: int,
    scale: Binary32,
    kps: Seq<Corner>,
    n: int,
    i: int,
)
    requires
        0 <= i < features_upto(smooth, w, h, level, scale, kps, n).len(),
    ensures
        !zero(features_upto(smooth, w, h, level, scale, kps, n)[i].desc),
    decreases n,
{
    let before = features_upto(smooth, w, h, level, scale, kps, n - 1);
    if i < before.len() {
        lemma_features_nonzero(smooth, w, h, level, scale, kps, n - 1, i);
    }
}

/// No extracted feature has an all-zero descriptor.
pub proof fn features_have_descriptors(f: Frame, l: int, i: int)
    requires
        0 <= i < f.features_below(l).len(),
    ensures
        !zero(f.features_below(l)[i].desc),
    decreases l,
{
    let before = f.features_below(l - 1);
    if i < before.len() {
        features_have_descriptors(f, l - 1, i);
    } else {
        let im = level_image(f.img, f.w, f.h, l - 1);
        let w = level_size(f.w, l - 1);
        let h = level_size(f.h, l - 1);
        let kps = f.keypoints(l - 1);
        lemma_features_nonzero(
            blurred(im, w, h),
            w,
            h,
            l - 1,
            level_scale(l - 1),
            kps,
            kps.len() as int,
            i - before.len(),
        );
    }
}

/// Lower levels come first in the list of all features.
proof fn lemma_features_prefix(f: Frame, l: int, m: int)
    requires
        0 <= l <= m,
    ensures
        f.features_below(l).len() <= f.features_below(m).len(),
        f.features_below(m).take(f.features_below(l).len() as int) == f.features_below(l),
    decreases m - l,
{
    let a = f.features_below(l);
    if l < m {
        lemma_features_prefix(f, l, m - 1);
        let b = f.features_below(m - 1);
        let c = f.features_below(m);
        assert forall|i: int| 0 <= i < a.len() implies c[i] == a[i] by {
            assert(b.take(a.len() as int)[i] == a[i]);
        }
        assert(c.take(a.len() as int) =~= a);
    } else {
        assert(a.take(a.len() as int) =~= a);
    }
}

/// Once a level is too small, all further ones are.
proof fn lemma_small_stays_small(f: Frame, l: int, m: int)
    requires
        0 <= l <= m,
        f.w >= 0,
        f.h >= 0,
        !f.searchable(l),
    ensures
        !f.searchable(m),
        f.features_below(m) == f.features_below(l),
    decreases m - l,
{
    if l < m {
        lemma_small_stays_small(f, l, m - 1);
        lemma_level_size(f.w, m - 1);
        lemma_level_size(f.h, m - 1);
        assert(f.features_below(m) =~= f.features_below(m - 1));
    }
}

/// What is stored once no further level is searched.
proof fn lemma_finished(f: Frame, room: int, l: int)
    requires
        0 <= l <= LEVELS,
        f.w >= 0,
        f.h >= 0,
        l == LEVELS || !f.reached(room, l),
    ensures
        least(f.features().len() as int, room) == least(f.features_below(l).len() as int, room),
        room >= 0 ==> f.features().take(least(f.features().len() as int, room))
            == f.features_below(l).take(least(f.features_below(l).len() as int, room)),
        forall|m: int| l <= m < LEVELS ==> !#[trigger] f.reached(room, m),
{
    lemma_features_prefix(f, l, LEVELS as int);
    let a = f.features_below(l);
    let c = f.features();
    if l < LEVELS && !f.searchable(l) {
        lemma_small_stays_small(f, l, LEVELS as int);
    }
    assert forall|m: int| l <= m < LEVELS implies !#[trigger] f.reached(room, m) by {
        lemma_features_prefix(f, l, m);
        if !f.searchable(l) {
            lemma_small_stays_small(f, l, m);
        }
    }
    if room >= 0 {
        let n = least(a.len() as int, room);
        assert forall|i: int| 0 <= i < n implies c[i] == a[i] by {
            assert(c.take(a.len() as int)[i] == a[i]);
        }
        assert(c.take(least(c.len() as int, room)) =~= a.take(n));
    }
}

/// No further level is searched: nothing changes.
proof fn lemma_leaves_stop(f: Frame, room: int, l: int, a: Scratch, rest: Seq<u8>)
    requires
        l >= LEVELS || !f.reached(room, l),
    ensures
        f.leaves(room, l, a, a),
        f.arena_after(room, l, rest) == rest,
{
    reveal(Frame::leaves);
    reveal(Frame::arena_after);
}

/// Level `l` is the last one that is searched.
proof fn lemma_leaves_last(f: Frame, room: int, l: int, a: Scratch, b: Scratch, rest: Seq<u8>)
    requires
        l < LEVELS,
        f.reached(room, l),
        !f.goes_on(room, l),
        f.level_leaves(l, a, b),
    ensures
        f.leaves(room, l, a, b),
        f.arena_after(room, l, rest) == rest,
{
    reveal(Frame::leaves);
    reveal(Frame::arena_after);
}

/// Level `l` is followed by another one.
proof fn lemma_leaves_step(
    f: Frame,
    room: int,
    l: int,
    a: Scratch,
    m: Scratch,
    b: Scratch,
    rest: Seq<u8>,
)
    requires
        f.goes_on(room, l),
        f.level_leaves(l, a, m),
        f.leaves(
            room,
            l + 1,
            downscale_leaves(
                level_image(f.img, f.w, f.h, l),
                level_size(f.w, l),
                level_size(f.h, l),
                m,
            ),
            b,
        ),
    ensures
        f.leaves(room, l, a, b),
        f.arena_after(room, l, rest) == level_image(f.img, f.w, f.h, l + 1) + f.arena_after(
            room,
            l + 1,
            rest.skip(level_size(f.w, l + 1) * level_size(f.h, l + 1)),
        ),
{
    reveal(Frame::leaves);
    reveal(Frame::arena_after);
}

/// The times where no further level is searched, where level `l` is the last one, and where another
/// one follows.
proof fn lemma_timed<C: Clock>(
    f: Frame,
    room: int,
    l: int,
    a: PyramidProfile<C>,
    m: PyramidProfile<C>,
    d: PyramidProfile<C>,
    b: PyramidProfile<C>,
)
    ensures
        l >= LEVELS || !f.reached(room, l) ==> f.timed(room, l, a, a),
        l < LEVELS && f.reached(room, l) && !f.goes_on(room, l) && f.level_timed(room, l, a, m)
            ==> f.timed(room, l, a, m),
        f.goes_on(room, l) && f.level_timed(room, l, a, m) && downscale_timed(m, d, l) && f.timed(
            room,
            l + 1,
            d,
            b,
        ) ==> f.timed(room, l, a, b),
{
    reveal(Frame::timed);
}

/// Extracts level `l` and the levels after it, from the image of level `l` and the part of the arena
/// that is still free. `total` features are stored already; returns how many there are in the end.
fn extract_from<C: Clock>(
    Ghost(f): Ghost<Frame>,
    cur: &[u8],
    cw: usize,
    ch: usize,
    thr: i32,
    l: usize,
    scale: Binary32,
    rest: &mut [u8],
    work: &mut [u8],
    vcol: &mut [u16],
    corners: &mut [Corner],
    scores: &mut [i32],
    rowidx: &mut [usize],
    nms: &mut [Corner],
    out: &mut [Feature],
    total: usize,
    profile: &mut Option<&mut PyramidProfile<C>>,
) -> (n: usize)
    requires
        l < LEVELS,
        0 <= f.w,
        0 <= f.h,
        f.searchable(l as int) ==> f.w <= i32::MAX && f.h <= i32::MAX,
        cur@ == level_image(f.img, f.w, f.h, l as int),
        cw == level_size(f.w, l as int),
        ch == level_size(f.h, l as int),
        cw * ch <= cur.len(),
        thr == f.thr,
        scale == level_scale(l as int),
        old(rest).len() >= arena_size(f.w, f.h) - arena_upto(f.w, f.h, l + 1),
        old(work).len() >= cw * ch,
        old(vcol).len() >= cw,
        old(corners).len() > 0,
        old(corners).len() == f.raw,
        old(scores).len() >= old(corners).len(),
        old(rowidx).len() == f.rows,
        old(nms).len() == f.kept,
        total == least(f.features_below(l as int).len() as int, old(out).len() as int),
        views(old(out)@.take(total as int)) == f.features_below(l as int).take(total as int),
    ensures
        n == least(f.features().len() as int, old(out)@.len() as int),
        views(final(out)@.take(n as int)) == f.features().take(n as int),
        final(out)@.len() == old(out)@.len(),
        n >= total,
        final(out)@.skip(n as int) == old(out)@.skip(n as int),
        final(rest)@.len() == old(rest)@.len(),
        final(work)@.len() == old(work)@.len(),
        final(vcol)@.len() == old(vcol)@.len(),
        final(corners)@.len() == old(corners)@.len(),
        final(scores)@.len() == old(scores)@.len(),
        final(rowidx)@.len() == old(rowidx)@.len(),
        final(nms)@.len() == old(nms)@.len(),
        final(rest)@ == f.arena_after(old(out)@.len() as int, l as int, old(rest)@),
        f.leaves(
            old(out)@.len() as int,
            l as int,
            Scratch {
                work: old(work)@,
                vcol: old(vcol)@,
                corners: old(corners)@,
                scores: old(scores)@,
                rowidx: old(rowidx)@,
                nms: old(nms)@,
            },
            Scratch {
                work: final(work)@,
                vcol: final(vcol)@,
                corners: final(corners)@,
                scores: final(scores)@,
                rowidx: final(rowidx)@,
                nms: final(nms)@,
            },
        ),
        (*final(profile)) is Some == (*old(profile)) is Some,
        *old(profile) matches Some(a) ==> (*final(profile) matches Some(b) ==> {
            &&& *final(a) == *final(b)
            &&& forall|k: int|
                0 <= k < LEVELS ==> #[trigger] b.corners@[k] == if k >= l && f.reached(
                    old(out)@.len() as int,
                    k,
                ) {
                    f.keypoints(k).len() as usize
                } else {
                    a.corners@[k]
                }
            &&& f.times_kept(old(out)@.len() as int, l as int, *a, *b)
            &&& f.timed(old(out)@.len() as int, l as int, *a, *b)
        }),
    decreases LEVELS - l,
{
    let ghost room = out@.len() as int;
    let ghost start = Scratch {
        work: work@,
        vcol: vcol@,
        corners: corners@,
        scores: scores@,
        rowidx: rowidx@,
        nms: nms@,
    };
    let ghost free = rest@;
    if cw < 7 || ch < 7 || total >= out.len() {
        proof {
            lemma_finished(f, room, l as int);
            lemma_leaves_stop(f, room, l as int, start, free);
            if let Some(a) = held(*profile) {
                lemma_timed(f, room, l as int, a, a, a, a);
            }
        }
        return total;
    }
    let ghost below = f.features_below(l as int);
    let ghost here = f.level_features(l as int);
    assert(below.len() == total);
    proof {
        lemma_level_size(f.w, l as int);
        lemma_level_size(f.h, l as int);
    }
    let added: usize = process_level(
        cur,
        cw,
        ch,
        thr,
        l as u8,
        scale,
        work,
        vcol,
        corners,
        scores,
        rowidx,
        nms,
        out,
        total,
        profile,
    );
    let next: usize = total + added;
    let ghost left = Scratch {
        work: work@,
        vcol: vcol@,
        corners: corners@,
        scores: scores@,
        rowidx: rowidx@,
        nms: nms@,
    };
    assert(f.level_leaves(l as int, start, left));
    proof {
        let all = f.features_below(l + 1);
        assert(all == below + here);
        assert(next == least(all.len() as int, room));
        let mine = views(out@.subrange(total as int, next as int));
        let before = views(old(out)@.take(total as int));
        assert forall|i: int| 0 <= i < next implies #[trigger] views(out@.take(next as int))[i]
            == all[i] by {
            if i < total {
                assert(out@.take(total as int)[i] == old(out)@.take(total as int)[i]);
                assert(before[i] == below[i]);
            } else {
                assert(mine[i - total] == here[i - total]);
            }
        }
        assert(views(out@.take(next as int)) =~= all.take(next as int));
        assert(out@.skip(next as int) == old(out)@.skip(next as int));
        assert(f.reached(room, l as int));
    }
    if l + 1 == LEVELS {
        proof {
            lemma_finished(f, room, l + 1);
            lemma_leaves_last(f, room, l as int, start, left, free);
            if let (Some(a), Some(m)) = (held(*old(profile)), held(*profile)) {
                lemma_timed(f, room, l as int, a, m, m, m);
            }
        }
        return next;
    }
    let dw: usize = downscale_65_size(cw);
    let dh: usize = downscale_65_size(ch);
    if dw < 7 || dh < 7 {
        proof {
            lemma_finished(f, room, l + 1);
            lemma_leaves_last(f, room, l as int, start, left, free);
            if let (Some(a), Some(m)) = (held(*old(profile)), held(*profile)) {
                lemma_timed(f, room, l as int, a, m, m, m);
            }
        }
        return next;
    }
    proof {
        lemma_size_65_area(cw as int, ch as int);
        lemma_arena(f.w, f.h, l + 2, LEVELS as int);
    }
    assert(f.goes_on(room, l as int));
    let (region, tail): (&mut [u8], &mut [u8]) = rest.split_at_mut(dw * dh);
    assert(tail@ =~= free.skip(dw * dh));
    let ghost searched = held(*profile);
    let t0: u64 = tick(profile);
    if !downscale_65(cur, cw, ch, work, region) {
        return next;
    }
    let t1: u64 = tick(profile);
    record(profile, Phase::Downscale, l, t1.wrapping_sub(t0));
    let ghost scaled = held(*profile);
    proof {
        reveal(downscale_timed);
        if let (Some(m), Some(d)) = (searched, scaled) {
            let r0 = m.clock.readings();
            assert(d.clock.readings() =~= r0 + seq![t0, t1]);
            assert(newly_read(r0, r0 + seq![t0, t1]) =~= seq![t0, t1]);
            assert(downscale_timed(m, d, l as int));
        }
    }
    assert(region@ =~= level_image(f.img, f.w, f.h, l + 1));
    let bigger: Binary32 = scale.times(Binary32 { bits: SCALE_BITS });
    let ghost so_far = out@;
    let n: usize = extract_from(
        Ghost(f),
        region,
        dw,
        dh,
        thr,
        l + 1,
        bigger,
        tail,
        work,
        vcol,
        corners,
        scores,
        rowidx,
        nms,
        out,
        next,
        profile,
    );
    proof {
        let end = Scratch {
            work: work@,
            vcol: vcol@,
            corners: corners@,
            scores: scores@,
            rowidx: rowidx@,
            nms: nms@,
        };
        lemma_leaves_step(f, room, l as int, start, left, end, free);
        if let (Some(a), Some(b)) = (held(*old(profile)), held(*profile)) {
            if let (Some(m), Some(d)) = (searched, scaled) {
                lemma_timed(f, room, l as int, a, m, d, b);
            }
        }
    }
    proof {
        assert forall|i: int| n <= i < room implies #[trigger] out@[i] == old(out)@[i] by {
            assert(out@.skip(n as int)[i - n] == so_far.skip(n as int)[i - n]);
            assert(so_far.skip(next as int)[i - next] == old(out)@.skip(next as int)[i - next]);
        }
        assert(out@.skip(n as int) =~= old(out)@.skip(n as int));
    }
    n
}

/// Extracts the whole pyramid of a `w` by `h` image at threshold `thr` and returns how many features
/// were stored in `out`: 0 where a buffer is too small or the image has no interior. The arena takes
/// the downscaled levels. A profile, where one is given, takes the times of each level.
pub fn extract_pyramid<C: Clock>(
    img: &[u8],
    w: usize,
    h: usize,
    thr: i32,
    arena: &mut [u8],
    work: &mut [u8],
    vcol: &mut [u16],
    corners: &mut [Corner],
    scores: &mut [i32],
    rowidx: &mut [usize],
    nms: &mut [Corner],
    out: &mut [Feature],
    mut profile: Option<&mut PyramidProfile<C>>,
) -> (n: usize)
    requires
        w * h <= usize::MAX,
        img.len() >= w * h ==> arena_size(w as int, h as int) <= usize::MAX,
        ({
            &&& img.len() >= w * h
            &&& old(arena).len() >= arena_size(w as int, h as int)
            &&& old(work).len() >= w * h
            &&& old(vcol).len() >= w
            &&& old(corners).len() > 0
            &&& old(scores).len() >= old(corners).len()
            &&& old(rowidx).len() >= h
            &&& old(nms).len() > 0
            &&& old(out).len() > 0
            &&& w >= 7
            &&& h >= 7
        }) ==> w <= i32::MAX && h <= i32::MAX,
    ensures
        forall|i: int| 0 <= i < n ==> !zero(#[trigger] final(out)@[i].desc@),
        w <= 0x100_0000 && h <= 0x100_0000 ==> forall|i: int|
            0 <= i < n ==> placed(
                Frame {
                    img: img@,
                    w: w as int,
                    h: h as int,
                    thr: thr as int,
                    raw: old(corners)@.len() as int,
                    rows: old(rowidx)@.len() as int,
                    kept: old(nms)@.len() as int,
                },
                #[trigger] final(out)@[i]@,
            ),
        ({
            let f = Frame {
                img: img@,
                w: w as int,
                h: h as int,
                thr: thr as int,
                raw: old(corners)@.len() as int,
                rows: old(rowidx)@.len() as int,
                kept: old(nms)@.len() as int,
            };
            let room = old(out)@.len() as int;
            let fits = {
                &&& img@.len() >= w * h
                &&& old(arena)@.len() >= arena_size(w as int, h as int)
                &&& old(work)@.len() >= w * h
                &&& old(vcol)@.len() >= w
                &&& old(corners)@.len() > 0
                &&& old(scores)@.len() >= old(corners)@.len()
                &&& old(rowidx)@.len() >= h
                &&& old(nms)@.len() > 0
                &&& old(out)@.len() > 0
            };
            &&& !fits || w < 7 || h < 7 ==> n == 0 && final(out)@ == old(out)@
            &&& !fits ==> {
                &&& n == 0
                &&& final(arena)@ == old(arena)@
                &&& final(work)@ == old(work)@
                &&& final(vcol)@ == old(vcol)@
                &&& final(corners)@ == old(corners)@
                &&& final(scores)@ == old(scores)@
                &&& final(rowidx)@ == old(rowidx)@
                &&& final(nms)@ == old(nms)@
                &&& profile matches Some(p) ==> *final(p) == *p
            }
            &&& fits ==> {
                &&& n == least(f.features().len() as int, room)
                &&& views(final(out)@.take(n as int)) == f.features().take(n as int)
                &&& profile matches Some(p) ==> forall|l: int|
                    0 <= l < LEVELS ==> #[trigger] final(p).corners@[l] == if f.reached(room, l) {
                        f.keypoints(l).len() as usize
                    } else {
                        p.corners@[l]
                    }
                &&& profile matches Some(p) ==> f.times_kept(room, 0, *p, *final(p))
                &&& profile matches Some(p) ==> f.timed(room, 0, *p, *final(p))
            }
            &&& fits ==> {
                &&& final(arena)@ == f.arena_after(room, 0, old(arena)@)
                &&& f.leaves(
                    room,
                    0,
                    Scratch {
                        work: old(work)@,
                        vcol: old(vcol)@,
                        corners: old(corners)@,
                        scores: old(scores)@,
                        rowidx: old(rowidx)@,
                        nms: old(nms)@,
                    },
                    Scratch {
                        work: final(work)@,
                        vcol: final(vcol)@,
                        corners: final(corners)@,
                        scores: final(scores)@,
                        rowidx: final(rowidx)@,
                        nms: final(nms)@,
                    },
                )
            }
            &&& final(out)@.len() == old(out)@.len()
            &&& final(out)@.skip(n as int) == old(out)@.skip(n as int)
        }),
        final(arena)@.len() == old(arena)@.len(),
        final(work)@.len() == old(work)@.len(),
        final(vcol)@.len() == old(vcol)@.len(),
        final(corners)@.len() == old(corners)@.len(),
        final(scores)@.len() == old(scores)@.len(),
        final(rowidx)@.len() == old(rowidx)@.len(),
        final(nms)@.len() == old(nms)@.len(),
{
    if img.len() < w * h || arena.len() < arena_bytes(w, h) || work.len() < w * h || vcol.len() < w
        || corners.is_empty() || scores.len() < corners.len() || rowidx.len() < h
        || nms.is_empty() || out.is_empty() {
        return 0;
    }
    let ghost f = Frame {
        img: img@,
        w: w as int,
        h: h as int,
        thr: thr as int,
        raw: corners@.len() as int,
        rows: rowidx@.len() as int,
        kept: nms@.len() as int,
    };
    assert(views(out@.take(0)) =~= f.features_below(0).take(0));
    let n: usize = extract_from(
        Ghost(f),
        img,
        w,
        h,
        thr,
        0,
        Binary32 { bits: ONE_BITS },
        arena,
        work,
        vcol,
        corners,
        scores,
        rowidx,
        nms,
        out,
        0,
        &mut profile,
    );
    proof {
        if w < 7 || h < 7 {
            lemma_small_stays_small(f, 0, LEVELS as int);
            assert(out@.skip(0) =~= out@ && old(out)@.skip(0) =~= old(out)@);
        }
        let after = out@;
        let all = views(after.take(n as int));
        assert forall|i: int| 0 <= i < n implies !zero(#[trigger] after[i].desc@) by {
            assert(all[i] == after[i]@);
            features_have_descriptors(f, LEVELS as int, i);
        }
        if w <= 0x100_0000 && h <= 0x100_0000 {
            assert forall|i: int| 0 <= i < n implies placed(f, #[trigger] after[i]@) by {
                assert(all[i] == after[i]@);
                all_features_are_placed(f, LEVELS as int, i);
            }
        }
    }
    n
}

} // verus!
