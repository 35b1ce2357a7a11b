//! Records between the device and the laptop. A record is a little-endian `u32` length and as many
//! payload bytes, of which the first four are its magic.
//!
//! The laptop opens with one command: `STRT` starts a run of frames, `MAPU` uploads a map. The device
//! answers with `VOX2` frames and a final `VOXD`, or with `MAPK`.

use vstd::prelude::*;

use crate::binary32::Binary32;
use crate::localize::MapPoint;
use crate::pyramid::{newly_read, span, Clock};
use crate::words::{half_bytes, pack4, unpack4, word_bytes};

pub mod fields;

verus! {

/// `STRT`, laptop to device: starts a run.
pub const MAGIC_START: [u8; 4] = [0x53, 0x54, 0x52, 0x54];

/// `MAPU`, laptop to device: uploads a map.
pub const MAGIC_MAP_UPLOAD: [u8; 4] = [0x4D, 0x41, 0x50, 0x55];

/// `VOX2`, device to laptop: a frame.
pub const MAGIC_FRAME: [u8; 4] = [0x56, 0x4F, 0x58, 0x32];

/// `VOXD`, device to laptop: the run is done.
pub const MAGIC_DONE: [u8; 4] = [0x56, 0x4F, 0x58, 0x44];

/// `MAPK`, device to laptop: the map is stored.
pub const MAGIC_MAP_OK: [u8; 4] = [0x4D, 0x41, 0x50, 0x4B];

/// Length of a run without a duration, in seconds.
pub const DEFAULT_DURATION_S: u64 = 300;

/// Time between frames of a run without an interval, in milliseconds.
pub const DEFAULT_INTERVAL_MS: u64 = 1000;

/// Time in which a command is expected, in seconds.
pub const START_TIMEOUT_S: u64 = 60;

/// The one camera model that a map may have: focal length, centre and one radial coefficient.
pub const CAMERA_MODEL_SIMPLE_RADIAL: u8 = 1;

/// Largest number of points of a map.
pub const MAX_MAP_POINTS: usize = 100_000;

/// Bytes of a map header: model, four parameters and the number of points.
pub const MAP_HEADER_BYTES: usize = 21;

/// Bytes of a map point: three coordinates and a descriptor.
pub const MAP_POINT_BYTES: usize = 44;

/// Pixel format number of grayscale frames.
pub const FMT_GRAYSCALE: u8 = 3;

/// Width of the streamed frames.
pub const CAM_W: usize = 640;

/// Height of the streamed frames.
pub const CAM_H: usize = 480;

/// Bytes of the timing footer of a frame: three stage times, and for each of seven levels six phase
/// times and a corner count.
pub const VOX2_TIMING_FOOTER_BYTES: usize = 194;

/// Why a command is refused.
#[derive(Clone, Copy, Debug, PartialEq, Eq)]
pub enum CommandError {
    /// Shorter than a magic.
    BadLength(u32),
    /// A start command of the given length.
    BadStartLength(u32),
    /// No known magic.
    Unknown([u8; 4]),
    /// A map upload shorter than its header.
    MapTooShort(u32),
    /// A camera model that is not supported.
    UnsupportedModel(u8),
    /// More points than allowed, or points that do not fill the payload.
    PointCount { n_points: u32, body_bytes: u32 },
}

/// What follows the magic of a command.
#[derive(Clone, Copy, Debug, PartialEq, Eq, Structural)]
pub enum Expect {
    /// The given number of bytes of a start command.
    Start(usize),
    /// The header of a map upload.
    MapUpload,
}

/// An uploaded map: intrinsics and points.
#[derive(Debug, PartialEq, Eq)]
pub struct LocalMap {
    pub model: u8,
    /// Focal length, centre x and y, radial coefficient.
    pub params: [Binary32; 4],
    pub points: Vec<MapPoint>,
}

/// One command of the laptop.
#[derive(Debug, PartialEq, Eq)]
pub enum Command {
    Start { duration_s: u64, interval_ms: u64 },
    MapUpload(LocalMap),
}

/// The number that four little-endian bytes stand for.
pub open spec fn le_u32(b: Seq<u8>) -> u32 {
    crate::words::le4(b[0], b[1], b[2], b[3]) as u32
}

/// The number that the four bytes at `at` stand for.
pub fn read_u32(b: &[u8], at: usize) -> (v: u32)
    requires
        at + 4 <= b.len(),
    ensures
        v == le_u32(b@.subrange(at as int, at + 4)),
{
    pack4(b[at], b[at + 1], b[at + 2], b[at + 3])
}

pub(crate) fn push_u32(buf: &mut Vec<u8>, v: u32)
    ensures
        final(buf)@ == old(buf)@ + word_bytes(v),
{
    let b: [u8; 4] = unpack4(v);
    buf.push(b[0]);
    buf.push(b[1]);
    buf.push(b[2]);
    buf.push(b[3]);
    assert(buf@ =~= old(buf)@ + word_bytes(v));
}

pub(crate) fn push_u16(buf: &mut Vec<u8>, v: u16)
    ensures
        final(buf)@ == old(buf)@ + half_bytes(v),
{
    buf.push((v % 256) as u8);
    buf.push((v / 256) as u8);
    assert(buf@ =~= old(buf)@ + half_bytes(v));
}

pub(crate) fn push_magic(buf: &mut Vec<u8>, m: &[u8; 4])
    ensures
        final(buf)@ == old(buf)@ + m@,
{
    buf.push(m[0]);
    buf.push(m[1]);
    buf.push(m[2]);
    buf.push(m[3]);
    assert(buf@ =~= old(buf)@ + m@);
}

pub(crate) fn push_bytes(buf: &mut Vec<u8>, b: &[u8])
    ensures
        final(buf)@ == old(buf)@ + b@,
{
    buf.extend_from_slice(b);
    assert(buf@ =~= old(buf)@ + b@);
}

/// A 64-bit number cut to its lower 32 bits.
pub open spec fn low32(v: int) -> u32 {
    (v % 0x1_0000_0000) as u32
}

/// A number cut to its lower 16 bits.
pub open spec fn low16(v: int) -> u16 {
    (v % 0x1_0000) as u16
}

pub(crate) fn cut32(v: u64) -> (r: u32)
    ensures
        r == low32(v as int),
{
    (v % 0x1_0000_0000) as u32
}

pub(crate) fn cut16(v: usize) -> (r: u16)
    ensures
        r == low16(v as int),
{
    (v % 0x1_0000) as u16
}

/// What a command of payload length `n` expects after its magic, or why it is refused: `STRT` has 4 to
/// 12 bytes, `MAPU` at least its header.
pub open spec fn expected(n: u32, magic: Seq<u8>) -> Result<Expect, CommandError> {
    if n < 4 {
        Err(CommandError::BadLength(n))
    } else if magic == MAGIC_START@ {
        if n <= 12 {
            Ok(Expect::Start((n - 4) as usize))
        } else {
            Err(CommandError::BadStartLength(n))
        }
    } else if magic == MAGIC_MAP_UPLOAD@ {
        if n < 4 + MAP_HEADER_BYTES {
            Err(CommandError::MapTooShort(n))
        } else {
            Ok(Expect::MapUpload)
        }
    } else {
        Err(CommandError::Unknown([magic[0], magic[1], magic[2], magic[3]]))
    }
}

fn same_magic(a: &[u8; 4], b: &[u8; 4]) -> (r: bool)
    ensures
        r == (a@ == b@),
{
    let r: bool = a[0] == b[0] && a[1] == b[1] && a[2] == b[2] && a[3] == b[3];
    assert(r ==> a@ =~= b@);
    r
}

/// What a command of payload length `n` expects after its magic.
pub fn classify(n: u32, magic: &[u8; 4]) -> (r: Result<Expect, CommandError>)
    ensures
        r == expected(n, magic@),
{
    if n < 4 {
        return Err(CommandError::BadLength(n));
    }
    if same_magic(magic, &MAGIC_START) {
        if n <= 12 {
            Ok(Expect::Start((n - 4) as usize))
        } else {
            Err(CommandError::BadStartLength(n))
        }
    } else if same_magic(magic, &MAGIC_MAP_UPLOAD) {
        if n < 4 + MAP_HEADER_BYTES as u32 {
            Err(CommandError::MapTooShort(n))
        } else {
            Ok(Expect::MapUpload)
        }
    } else {
        Err(CommandError::Unknown([magic[0], magic[1], magic[2], magic[3]]))
    }
}

/// Duration of a run: the first four bytes after the magic. The default where they are missing or 0.
pub open spec fn start_duration(rest: Seq<u8>) -> u64 {
    if rest.len() >= 4 && le_u32(rest.subrange(0, 4)) != 0 {
        le_u32(rest.subrange(0, 4)) as u64
    } else {
        DEFAULT_DURATION_S
    }
}

/// Time between frames: the next four bytes, 0 for as fast as possible. The default where they are
/// missing.
pub open spec fn start_interval(rest: Seq<u8>) -> u64 {
    if rest.len() >= 8 {
        le_u32(rest.subrange(4, 8)) as u64
    } else {
        DEFAULT_INTERVAL_MS
    }
}

/// Duration and interval from the bytes of a start command after its magic.
pub fn parse_start(rest: &[u8]) -> (r: (u64, u64))
    ensures
        r.0 == start_duration(rest@),
        r.1 == start_interval(rest@),
{
    let mut duration_s: u64 = DEFAULT_DURATION_S;
    let mut interval_ms: u64 = DEFAULT_INTERVAL_MS;
    if rest.len() >= 4 {
        let d: u32 = read_u32(rest, 0);
        if d != 0 {
            duration_s = d as u64;
        }
    }
    if rest.len() >= 8 {
        interval_ms = read_u32(rest, 4) as u64;
    }
    (duration_s, interval_ms)
}

/// Duration and interval are read back from their bytes; a duration of 0 stands for the default.
pub proof fn start_is_read_back(duration_s: u32, interval_ms: u32)
    ensures
        ({
            let rest = word_bytes(duration_s) + word_bytes(interval_ms);
            &&& expected((4 + rest.len()) as u32, MAGIC_START@) == Ok::<Expect, CommandError>(
                Expect::Start(8),
            )
            &&& start_duration(rest) == if duration_s == 0 {
                DEFAULT_DURATION_S
            } else {
                duration_s as u64
            }
            &&& start_interval(rest) == interval_ms
        }),
{
    let rest = word_bytes(duration_s) + word_bytes(interval_ms);
    lemma_word_inside(rest, 0, duration_s);
    lemma_word_inside(rest, 4, interval_ms);
}

/// Header of a map upload.
#[derive(Clone, Copy, Debug, PartialEq, Eq)]
pub struct MapHeader {
    pub model: u8,
    pub params: [Binary32; 4],
    pub n_points: u32,
}

/// The header that the given bytes hold.
pub open spec fn header_of(hdr: Seq<u8>) -> MapHeader {
    MapHeader {
        model: hdr[0],
        params: [
            Binary32 { bits: le_u32(hdr.subrange(1, 5)) },
            Binary32 { bits: le_u32(hdr.subrange(5, 9)) },
            Binary32 { bits: le_u32(hdr.subrange(9, 13)) },
            Binary32 { bits: le_u32(hdr.subrange(13, 17)) },
        ],
        n_points: le_u32(hdr.subrange(17, 21)),
    }
}

/// The header of a map upload of payload length `n`, or why it is refused.
pub open spec fn map_header(n: u32, hdr: Seq<u8>) -> Result<MapHeader, CommandError> {
    let h = header_of(hdr);
    let body_bytes = n - 4 - MAP_HEADER_BYTES;
    if h.model != CAMERA_MODEL_SIMPLE_RADIAL {
        Err(CommandError::UnsupportedModel(h.model))
    } else if h.n_points > MAX_MAP_POINTS || body_bytes != h.n_points * MAP_POINT_BYTES {
        Err(CommandError::PointCount { n_points: h.n_points, body_bytes: body_bytes as u32 })
    } else {
        Ok(h)
    }
}

/// Parses the header of a map upload of payload length `n`.
pub fn parse_map_header(n: u32, hdr: &[u8]) -> (r: Result<MapHeader, CommandError>)
    requires
        n >= 4 + MAP_HEADER_BYTES,
        hdr.len() == MAP_HEADER_BYTES,
    ensures
        r == map_header(n, hdr@),
{
    let model: u8 = hdr[0];
    if model != CAMERA_MODEL_SIMPLE_RADIAL {
        return Err(CommandError::UnsupportedModel(model));
    }
    let params: [Binary32; 4] = [
        Binary32 { bits: read_u32(hdr, 1) },
        Binary32 { bits: read_u32(hdr, 5) },
        Binary32 { bits: read_u32(hdr, 9) },
        Binary32 { bits: read_u32(hdr, 13) },
    ];
    let n_points: u32 = read_u32(hdr, 17);
    let body_bytes: u32 = n - 25;
    if n_points > 100_000 || body_bytes != n_points * 44 {
        return Err(CommandError::PointCount { n_points, body_bytes });
    }
    Ok(MapHeader { model, params, n_points })
}

/// The map point that the given bytes hold.
pub open spec fn point_of(b: Seq<u8>) -> MapPoint {
    MapPoint {
        xyz: [
            Binary32 { bits: le_u32(b.subrange(0, 4)) },
            Binary32 { bits: le_u32(b.subrange(4, 8)) },
            Binary32 { bits: le_u32(b.subrange(8, 12)) },
        ],
        desc: [
            le_u32(b.subrange(12, 16)),
            le_u32(b.subrange(16, 20)),
            le_u32(b.subrange(20, 24)),
            le_u32(b.subrange(24, 28)),
            le_u32(b.subrange(28, 32)),
            le_u32(b.subrange(32, 36)),
            le_u32(b.subrange(36, 40)),
            le_u32(b.subrange(40, 44)),
        ],
    }
}

/// Parses one map point.
pub fn parse_map_point(b: &[u8]) -> (p: MapPoint)
    requires
        b.len() == MAP_POINT_BYTES,
    ensures
        p == point_of(b@),
{
    MapPoint {
        xyz: [
            Binary32 { bits: read_u32(b, 0) },
            Binary32 { bits: read_u32(b, 4) },
            Binary32 { bits: read_u32(b, 8) },
        ],
        desc: [
            read_u32(b, 12),
            read_u32(b, 16),
            read_u32(b, 20),
            read_u32(b, 24),
            read_u32(b, 28),
            read_u32(b, 32),
            read_u32(b, 36),
            read_u32(b, 40),
        ],
    }
}

/// Bytes of a map header.
pub open spec fn header_bytes(h: MapHeader) -> Seq<u8> {
    seq![h.model] + word_bytes(h.params[0].bits) + word_bytes(h.params[1].bits) + word_bytes(
        h.params[2].bits,
    ) + word_bytes(h.params[3].bits) + word_bytes(h.n_points)
}

/// Bytes of a map point.
pub open spec fn point_bytes(p: MapPoint) -> Seq<u8> {
    word_bytes(p.xyz[0].bits) + word_bytes(p.xyz[1].bits) + word_bytes(p.xyz[2].bits) + word_bytes(
        p.desc[0],
    ) + word_bytes(p.desc[1]) + word_bytes(p.desc[2]) + word_bytes(p.desc[3]) + word_bytes(
        p.desc[4],
    ) + word_bytes(p.desc[5]) + word_bytes(p.desc[6]) + word_bytes(p.desc[7])
}

pub(crate) proof fn lemma_word_inside(b: Seq<u8>, at: int, w: u32)
    requires
        0 <= at <= at + 4 <= b.len(),
        forall|k: int| 0 <= k < 4 ==> #[trigger] b[at + k] == word_bytes(w)[k],
    ensures
        le_u32(b.subrange(at, at + 4)) == w,
{
    let s = b.subrange(at, at + 4);
    assert(s[0] == b[at + 0] && s[1] == b[at + 1] && s[2] == b[at + 2] && s[3] == b[at + 3]);
    crate::words::lemma_unpack(w);
}

/// A map point is read back from its bytes.
pub proof fn point_is_read_back(p: MapPoint)
    ensures
        point_bytes(p).len() == MAP_POINT_BYTES,
        point_of(point_bytes(p)) == p,
{
    let b = point_bytes(p);
    lemma_word_inside(b, 0, p.xyz[0].bits);
    lemma_word_inside(b, 4, p.xyz[1].bits);
    lemma_word_inside(b, 8, p.xyz[2].bits);
    lemma_word_inside(b, 12, p.desc[0]);
    lemma_word_inside(b, 16, p.desc[1]);
    lemma_word_inside(b, 20, p.desc[2]);
    lemma_word_inside(b, 24, p.desc[3]);
    lemma_word_inside(b, 28, p.desc[4]);
    lemma_word_inside(b, 32, p.desc[5]);
    lemma_word_inside(b, 36, p.desc[6]);
    lemma_word_inside(b, 40, p.desc[7]);
    assert(point_of(b).xyz =~= p.xyz);
    assert(point_of(b).desc =~= p.desc);
}

/// A map header is read back from its bytes, with a length that fits its points.
pub proof fn header_is_read_back(h: MapHeader)
    requires
        h.model == CAMERA_MODEL_SIMPLE_RADIAL,
        h.n_points <= MAX_MAP_POINTS,
    ensures
        header_bytes(h).len() == MAP_HEADER_BYTES,
        map_header((4 + MAP_HEADER_BYTES + 44 * h.n_points) as u32, header_bytes(h)) == Ok::<
            MapHeader,
            CommandError,
        >(h),
{
    let b = header_bytes(h);
    lemma_word_inside(b, 1, h.params[0].bits);
    lemma_word_inside(b, 5, h.params[1].bits);
    lemma_word_inside(b, 9, h.params[2].bits);
    lemma_word_inside(b, 13, h.params[3].bits);
    lemma_word_inside(b, 17, h.n_points);
    assert(header_of(b).params =~= h.params);
}

/// Time per stage of one frame, in microseconds.
#[derive(Clone, Copy, Debug, PartialEq, Eq, Structural)]
pub struct FrameTimings {
    pub capture_us: u64,
    pub downscale_us: u64,
    pub build_us: u64,
    pub send_us: u64,
    pub pace_us: u64,
}

impl Default for FrameTimings {
    fn default() -> (t: FrameTimings)
        ensures
            t == (FrameTimings {
                capture_us: 0,
                downscale_us: 0,
                build_us: 0,
                send_us: 0,
                pace_us: 0,
            }),
    {
        FrameTimings { capture_us: 0, downscale_us: 0, build_us: 0, send_us: 0, pace_us: 0 }
    }
}

/// A frame record without features: length, magic, format, size, feature count 0, pixels, and a footer
/// of three stage times and zeros for the levels.
pub open spec fn frame_record(
    w: int,
    h: int,
    frame: Seq<u8>,
    capture_us: int,
    downscale_us: int,
    build_us: int,
) -> Seq<u8> {
    word_bytes(low32(11 + w * h + VOX2_TIMING_FOOTER_BYTES)) + MAGIC_FRAME@ + seq![FMT_GRAYSCALE]
        + half_bytes(low16(w)) + half_bytes(low16(h)) + half_bytes(0) + frame + word_bytes(
        low32(capture_us),
    ) + word_bytes(low32(downscale_us)) + word_bytes(low32(build_us)) + Seq::new(
        182,
        |i: int| 0u8,
    )
}

fn push_zeros(buf: &mut Vec<u8>, n: usize)
    ensures
        final(buf)@ == old(buf)@ + Seq::new(n as nat, |i: int| 0u8),
{
    for i in 0..n
        invariant
            buf@ == old(buf)@ + Seq::new(i as nat, |k: int| 0u8),
    {
        buf.push(0);
        assert(buf@ =~= old(buf)@ + Seq::new((i + 1) as nat, |k: int| 0u8));
    }
}

/// The clock `a` becomes `b` by two readings, which lie `time` apart.
pub open spec fn timed_once<C: Clock>(a: C, b: C, time: u64) -> bool {
    let r = newly_read(a.readings(), b.readings());
    &&& b.readings() == a.readings() + r
    &&& b.counts() == a.counts()
    &&& r.len() == 2
    &&& time == span(r, 0)
}

/// Replaces `buf` by a frame record and returns the time that took, which is part of the footer.
pub fn build_record<C: Clock>(
    buf: &mut Vec<u8>,
    w: usize,
    h: usize,
    frame: &[u8],
    tm: &FrameTimings,
    clock: &mut C,
) -> (build_us: u64)
    requires
        11 + w * h + VOX2_TIMING_FOOTER_BYTES <= usize::MAX,
    ensures
        final(buf)@ == frame_record(
            w as int,
            h as int,
            frame@,
            tm.capture_us as int,
            tm.downscale_us as int,
            build_us as int,
        ),
        timed_once(*old(clock), *final(clock), build_us),
{
    let t0: u64 = clock.now_us();
    assert(0 <= w * h) by (nonlinear_arith);
    let payload: usize = 11 + w * h + VOX2_TIMING_FOOTER_BYTES;
    buf.clear();
    push_u32(buf, cut32(payload as u64));
    push_magic(buf, &MAGIC_FRAME);
    buf.push(FMT_GRAYSCALE);
    push_u16(buf, cut16(w));
    push_u16(buf, cut16(h));
    push_u16(buf, 0);
    push_bytes(buf, frame);
    let t1: u64 = clock.now_us();
    let build_us: u64 = t1.wrapping_sub(t0);
    proof {
        let r0 = old(clock).readings();
        assert(clock.readings() =~= r0 + seq![t0, t1]);
        assert(newly_read(r0, r0 + seq![t0, t1]) =~= seq![t0, t1]);
    }
    push_u32(buf, cut32(tm.capture_us));
    push_u32(buf, cut32(tm.downscale_us));
    push_u32(buf, cut32(build_us));
    push_zeros(buf, 182);
    assert(buf@ =~= frame_record(
        w as int,
        h as int,
        frame@,
        tm.capture_us as int,
        tm.downscale_us as int,
        build_us as int,
    ));
    build_us
}

/// The length prefix of a frame record of a frame that fills it is the number of bytes after it.
pub proof fn frame_record_length(
    w: int,
    h: int,
    frame: Seq<u8>,
    capture_us: int,
    downscale_us: int,
    build_us: int,
)
    requires
        0 <= w,
        0 <= h,
        frame.len() == w * h,
        w * h + 205 <= u32::MAX,
    ensures
        ({
            let r = frame_record(w, h, frame, capture_us, downscale_us, build_us);
            &&& r.len() == 4 + 11 + w * h + VOX2_TIMING_FOOTER_BYTES
            &&& le_u32(r.subrange(0, 4)) == r.len() - 4
            &&& r.subrange(15, 15 + w * h) == frame
        }),
{
    let r = frame_record(w, h, frame, capture_us, downscale_us, build_us);
    lemma_word_inside(r, 0, low32(11 + w * h + VOX2_TIMING_FOOTER_BYTES));
    assert(r.subrange(15, 15 + w * h) =~= frame);
}

/// The record that ends a run: number of frames and of features.
pub open spec fn done_record(frames: int, features: int) -> Seq<u8> {
    word_bytes(12) + MAGIC_DONE@ + word_bytes(low32(frames)) + word_bytes(low32(features))
}

/// Replaces `buf` by the record that ends a run.
pub fn build_done_record(buf: &mut Vec<u8>, frames: u64, features: u64)
    ensures
        final(buf)@ == done_record(frames as int, features as int),
{
    buf.clear();
    push_u32(buf, 12);
    push_magic(buf, &MAGIC_DONE);
    push_u32(buf, cut32(frames));
    push_u32(buf, cut32(features));
    assert(buf@ =~= done_record(frames as int, features as int));
}

/// The record that acknowledges a map: its number of points.
pub open spec fn map_ok_record(n_points: u32) -> Seq<u8> {
    word_bytes(8) + MAGIC_MAP_OK@ + word_bytes(n_points)
}

/// Replaces `buf` by the record that acknowledges a map.
pub fn build_map_ok_record(buf: &mut Vec<u8>, n_points: u32)
    ensures
        final(buf)@ == map_ok_record(n_points),
{
    buf.clear();
    push_u32(buf, 8);
    push_magic(buf, &MAGIC_MAP_OK);
    push_u32(buf, n_points);
    assert(buf@ =~= map_ok_record(n_points));
}

/// The length prefix of a final record and of an acknowledgement is the number of bytes after it, and
/// their numbers are read back.
pub proof fn reply_records_are_read_back(frames: u32, features: u32, n_points: u32)
    ensures
        ({
            let d = done_record(frames as int, features as int);
            let k = map_ok_record(n_points);
            &&& le_u32(d.subrange(0, 4)) == d.len() - 4
            &&& le_u32(d.subrange(8, 12)) == frames
            &&& le_u32(d.subrange(12, 16)) == features
            &&& le_u32(k.subrange(0, 4)) == k.len() - 4
            &&& le_u32(k.subrange(8, 12)) == n_points
        }),
{
    let d = done_record(frames as int, features as int);
    let k = map_ok_record(n_points);
    lemma_word_inside(d, 0, 12);
    lemma_word_inside(d, 8, frames);
    lemma_word_inside(d, 12, features);
    lemma_word_inside(k, 0, 8);
    lemma_word_inside(k, 8, n_points);
}

/// Why a captured frame is refused.
#[derive(Clone, Copy, Debug, PartialEq, Eq, Structural)]
pub enum FrameError {
    /// The camera gave no frame.
    NoFrame,
    /// The frame has other sides than the pipeline.
    DimsChanged,
    /// The frame does not have one byte per pixel.
    BadLength,
}

/// Buffers of the frame stream, allocated once and reused.
#[derive(Debug)]
pub struct MapPipeline {
    /// Sides of the camera frames.
    pub cam_w: usize,
    pub cam_h: usize,
    /// Sides of the streamed frames, the same.
    pub w: usize,
    pub h: usize,
    /// Copy of the last frame.
    pub frame: Vec<u8>,
    /// The last record.
    pub tx: Vec<u8>,
}

impl MapPipeline {
    /// Both sizes agree, the copy has one byte per pixel, and a record of it can be counted.
    pub open spec fn wf(&self) -> bool {
        &&& self.w == self.cam_w > 0
        &&& self.h == self.cam_h > 0
        &&& self.frame@.len() == self.w * self.h
        &&& 15 + self.w * self.h + VOX2_TIMING_FOOTER_BYTES <= usize::MAX
    }

    /// A pipeline for frames of the given sides.
    pub fn new(cam_w: usize, cam_h: usize) -> (p: MapPipeline)
        requires
            cam_w > 0,
            cam_h > 0,
            15 + cam_w * cam_h + VOX2_TIMING_FOOTER_BYTES <= usize::MAX,
        ensures
            p.wf(),
            p.cam_w == cam_w,
            p.cam_h == cam_h,
            p.frame@ == Seq::new((cam_w * cam_h) as nat, |i: int| 0u8),
            p.tx@.len() == 0,
    {
        assert(0 <= cam_w * cam_h) by (nonlinear_arith);
        let n: usize = cam_w * cam_h;
        let mut frame: Vec<u8> = Vec::with_capacity(n);
        push_zeros(&mut frame, n);
        assert(frame@ =~= Seq::new((cam_w * cam_h) as nat, |i: int| 0u8));
        MapPipeline {
            cam_w,
            cam_h,
            w: cam_w,
            h: cam_h,
            frame,
            tx: Vec::with_capacity(15 + n + VOX2_TIMING_FOOTER_BYTES),
        }
    }

    /// Copies a captured frame; refuses one of other sides, or that is not one byte per pixel.
    pub fn take_frame(&mut self, w: usize, h: usize, data: &[u8]) -> (r: Result<(), FrameError>)
        requires
            old(self).wf(),
        ensures
            final(self).wf(),
            final(self).cam_w == old(self).cam_w,
            final(self).cam_h == old(self).cam_h,
            final(self).tx@ == old(self).tx@,
            r == if w != old(self).cam_w || h != old(self).cam_h {
                Err::<(), FrameError>(FrameError::DimsChanged)
            } else if data@.len() != w * h {
                Err(FrameError::BadLength)
            } else {
                Ok(())
            },
            r is Ok ==> final(self).frame@ == data@,
            r is Err ==> final(self).frame@ == old(self).frame@,
    {
        if w != self.cam_w || h != self.cam_h {
            return Err(FrameError::DimsChanged);
        }
        assert(0 <= w * h) by (nonlinear_arith);
        if data.len() != w * h {
            return Err(FrameError::BadLength);
        }
        self.frame.clear();
        push_bytes(&mut self.frame, data);
        assert(self.frame@ =~= data@);
        Ok(())
    }

    /// Builds the record of the copied frame, with the given capture time; returns the times.
    pub fn map_frame<C: Clock>(&mut self, capture_us: u64, clock: &mut C) -> (tm: FrameTimings)
        requires
            old(self).wf(),
        ensures
            final(self).wf(),
            final(self).cam_w == old(self).cam_w,
            final(self).cam_h == old(self).cam_h,
            final(self).frame@ == old(self).frame@,
            tm.capture_us == capture_us,
            timed_once(*old(clock), *final(clock), tm.build_us),
            tm.downscale_us == 0,
            tm.send_us == 0,
            tm.pace_us == 0,
            final(self).tx@ == frame_record(
                old(self).w as int,
                old(self).h as int,
                old(self).frame@,
                capture_us as int,
                0,
                tm.build_us as int,
            ),
    {
        let mut tm: FrameTimings = FrameTimings {
            capture_us,
            downscale_us: 0,
            build_us: 0,
            send_us: 0,
            pace_us: 0,
        };
        tm.build_us = build_record(&mut self.tx, self.w, self.h, &self.frame, &tm, clock);
        tm
    }
}

/// What the device does after a command.
#[derive(Clone, Copy, Debug, PartialEq, Eq, Structural)]
pub enum Reply {
    /// Run for the given time, one frame per interval.
    Run { duration_s: u64, interval_ms: u64 },
    /// Acknowledge a stored map of the given number of points.
    Acknowledge(u32),
    /// Drop the connection.
    Close,
}

/// What the device keeps between connections: the last uploaded map.
#[derive(Debug)]
pub struct Server {
    pub map: Option<LocalMap>,
}

impl Server {
    /// A server without a map.
    pub fn new() -> (s: Server)
        ensures
            s.map is None,
    {
        Server { map: None }
    }

    /// Takes one command, `None` where the laptop left without one. An upload replaces the map; a run
    /// leaves it as it is.
    pub fn on_command(&mut self, command: Option<Command>) -> (r: Reply)
        ensures
            match command {
                Some(Command::Start { duration_s, interval_ms }) => {
                    &&& r == (Reply::Run { duration_s, interval_ms })
                    &&& *final(self) == *old(self)
                },
                Some(Command::MapUpload(m)) => {
                    &&& r == Reply::Acknowledge(low32(m.points@.len() as int))
                    &&& final(self).map == Some(m)
                },
                None => {
                    &&& r == Reply::Close
                    &&& *final(self) == *old(self)
                },
            },
    {
        match command {
            Some(Command::Start { duration_s, interval_ms }) => {
                Reply::Run { duration_s, interval_ms }
            },
            Some(Command::MapUpload(m)) => {
                let n: u32 = cut32(m.points.len() as u64);
                self.map = Some(m);
                Reply::Acknowledge(n)
            },
            None => Reply::Close,
        }
    }
}

/// A run of frames: how many were sent, and whether the laptop dropped it.
#[derive(Clone, Copy, Debug, PartialEq, Eq, Structural)]
pub struct Run {
    pub interval_ms: u64,
    pub sent: u64,
    pub interrupted: bool,
}

/// What happened in one turn of a run.
#[derive(Clone, Copy, Debug, PartialEq, Eq, Structural)]
pub enum RunEvent {
    /// There is no camera.
    NoCamera,
    /// The frame could not be taken.
    FrameFailed,
    /// The record could not be sent.
    SendFailed,
    /// The record was sent, the given time after the turn began.
    Sent { elapsed_ms: u64 },
}

/// What to do before the next turn.
#[derive(Clone, Copy, Debug, PartialEq, Eq, Structural)]
pub enum RunAction {
    /// Wait for the given number of milliseconds.
    Wait(u64),
    /// End the run.
    Stop,
}

/// Wait after a turn without a frame, in milliseconds.
pub const RETRY_MS: u64 = 200;

/// What is left of the interval.
pub open spec fn pace(interval_ms: int, elapsed_ms: int) -> int {
    if elapsed_ms >= interval_ms {
        0
    } else {
        interval_ms - elapsed_ms
    }
}

impl Run {
    /// A run that has sent nothing.
    pub fn new(interval_ms: u64) -> (r: Run)
        ensures
            r == (Run { interval_ms, sent: 0, interrupted: false }),
    {
        Run { interval_ms, sent: 0, interrupted: false }
    }

    /// One turn of the run.
    pub fn step(&mut self, event: RunEvent) -> (a: RunAction)
        requires
            old(self).sent < u64::MAX,
        ensures
            final(self).interval_ms == old(self).interval_ms,
            match event {
                RunEvent::NoCamera | RunEvent::FrameFailed => {
                    &&& a == RunAction::Wait(RETRY_MS)
                    &&& *final(self) == *old(self)
                },
                RunEvent::SendFailed => {
                    &&& a == RunAction::Stop
                    &&& final(self).interrupted
                    &&& final(self).sent == old(self).sent
                },
                RunEvent::Sent { elapsed_ms } => {
                    &&& a == RunAction::Wait(
                        pace(old(self).interval_ms as int, elapsed_ms as int) as u64,
                    )
                    &&& final(self).sent == old(self).sent + 1
                    &&& final(self).interrupted == old(self).interrupted
                },
            },
    {
        match event {
            RunEvent::NoCamera | RunEvent::FrameFailed => RunAction::Wait(RETRY_MS),
            RunEvent::SendFailed => {
                self.interrupted = true;
                RunAction::Stop
            },
            RunEvent::Sent { elapsed_ms } => {
                self.sent = self.sent + 1;
                let left: u64 = if elapsed_ms >= self.interval_ms {
                    0
                } else {
                    self.interval_ms - elapsed_ms
                };
                RunAction::Wait(left)
            },
        }
    }

    /// Whether a run of `duration_s` seconds goes on after the given time, in microseconds.
    pub fn goes_on(elapsed_us: u64, duration_s: u64) -> (r: bool)
        ensures
            r == (elapsed_us < duration_s * 1_000_000),
    {
        (elapsed_us as u128) < duration_s as u128 * 1_000_000
    }

    /// Whether the turn just finished is worth a line in the log: every one at a given pace, every
    /// twentieth at full speed.
    pub fn is_logged(&self) -> (r: bool)
        ensures
            r == (self.interval_ms > 0 || self.sent % 20 == 0),
    {
        self.interval_ms > 0 || self.sent % 20 == 0
    }

    /// Ends the run: builds the final record unless the laptop dropped the run.
    pub fn finish(&self, buf: &mut Vec<u8>) -> (done: bool)
        ensures
            done == !self.interrupted,
            done ==> final(buf)@ == done_record(self.sent as int, 0),
            !done ==> final(buf)@ == old(buf)@,
    {
        if self.interrupted {
            return false;
        }
        build_done_record(buf, self.sent, 0);
        true
    }
}

/// What came of one read.
#[derive(Clone, Copy, Debug, PartialEq, Eq, Structural)]
pub enum ReadEvent {
    /// The given number of bytes; none where the laptop closed the connection.
    Bytes(usize),
    /// Nothing yet; whether the deadline has passed.
    Nothing { expired: bool },
    /// The connection failed.
    Failed,
}

/// What to do after one read.
#[derive(Clone, Copy, Debug, PartialEq, Eq, Structural)]
pub enum ReadAction {
    /// Read on at the given position.
    ReadAt(usize),
    /// Wait, then read on at the given position.
    PollAt(usize),
    /// All bytes are there.
    Done,
    /// The connection was closed too early.
    UnexpectedEof,
    /// The deadline has passed.
    TimedOut,
    /// The connection failed.
    Abort,
}

/// The next step of reading `len` bytes of which `got` are there.
pub fn read_step(got: usize, len: usize, event: ReadEvent) -> (a: ReadAction)
    requires
        got < len,
        event matches ReadEvent::Bytes(n) ==> got + n <= len,
    ensures
        a == match event {
            ReadEvent::Bytes(n) => if n == 0 {
                ReadAction::UnexpectedEof
            } else if got + n < len {
                ReadAction::ReadAt((got + n) as usize)
            } else {
                ReadAction::Done
            },
            ReadEvent::Nothing { expired } => if expired {
                ReadAction::TimedOut
            } else {
                ReadAction::PollAt(got)
            },
            ReadEvent::Failed => ReadAction::Abort,
        },
{
    match event {
        ReadEvent::Bytes(n) => if n == 0 {
            ReadAction::UnexpectedEof
        } else if got + n < len {
            ReadAction::ReadAt(got + n)
        } else {
            ReadAction::Done
        },
        ReadEvent::Nothing { expired } => if expired {
            ReadAction::TimedOut
        } else {
            ReadAction::PollAt(got)
        },
        ReadEvent::Failed => ReadAction::Abort,
    }
}

/// Progress of sending a record: bytes sent, and the longest single write in milliseconds.
#[derive(Clone, Copy, Debug, PartialEq, Eq, Structural)]
pub struct SendProgress {
    pub off: usize,
    pub max_ms: u64,
}

impl SendProgress {
    /// Nothing sent yet.
    pub fn new() -> (p: SendProgress)
        ensures
            p == (SendProgress { off: 0, max_ms: 0 }),
    {
        SendProgress { off: 0, max_ms: 0 }
    }

    /// Takes in one write of `n` bytes that took `ms`; `None` where nothing could be written.
    pub fn wrote(self, len: usize, n: usize, ms: u64) -> (r: Option<SendProgress>)
        requires
            self.off + n <= len,
        ensures
            r == if n == 0 {
                None::<SendProgress>
            } else {
                Some(
                    SendProgress {
                        off: (self.off + n) as usize,
                        max_ms: if ms > self.max_ms {
                            ms
                        } else {
                            self.max_ms
                        },
                    },
                )
            },
    {
        if n == 0 {
            return None;
        }
        Some(
            SendProgress {
                off: self.off + n,
                max_ms: if ms > self.max_ms {
                    ms
                } else {
                    self.max_ms
                },
            },
        )
    }
}

} // verus!
