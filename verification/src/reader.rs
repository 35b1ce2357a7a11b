//! Reading of one command, piece by piece: the reader says how many bytes come next, and what they
//! amount to once they are there.

use vstd::prelude::*;

use crate::binary32::Binary32;
use crate::localize::MapPoint;
use crate::protocol::{
    classify, expected, header_bytes, header_is_read_back, le_u32, map_header, parse_map_header,
    parse_map_point, parse_start, point_bytes, point_is_read_back, point_of, read_u32,
    start_duration, start_interval, start_is_read_back, Command, CommandError, Expect, LocalMap,
    MapHeader, CAMERA_MODEL_SIMPLE_RADIAL, DEFAULT_DURATION_S, MAGIC_MAP_UPLOAD, MAGIC_START,
    MAP_HEADER_BYTES, MAP_POINT_BYTES, MAX_MAP_POINTS,
};
use crate::words::word_bytes;

verus! {

/// What the reader waits for.
#[derive(Clone, Copy, Debug, PartialEq, Eq)]
pub enum ReaderState {
    /// The length of the command.
    Length,
    /// The magic of a command of the given length.
    Magic(u32),
    /// The given number of bytes of a start command.
    Start(usize),
    /// The header of a map upload of the given length.
    Header(u32),
    /// The next point of a map upload.
    Point(MapHeader),
    /// Nothing more: the command is read or refused.
    Finished,
}

/// What to do next.
#[derive(Debug, PartialEq, Eq)]
pub enum ReaderStep {
    /// Read the given number of bytes before the deadline of the command.
    Poll(usize),
    /// Read the given number of bytes, however long that takes.
    Block(usize),
    /// The command is complete.
    Done(Command),
    /// The command is refused.
    Refused(CommandError),
}

/// A command by its contents.
pub enum CommandView {
    Start { duration_s: u64, interval_ms: u64 },
    MapUpload { model: u8, params: [Binary32; 4], points: Seq<MapPoint> },
}

impl View for Command {
    type V = CommandView;

    open spec fn view(&self) -> CommandView {
        match *self {
            Command::Start { duration_s, interval_ms } => CommandView::Start {
                duration_s,
                interval_ms,
            },
            Command::MapUpload(m) => CommandView::MapUpload {
                model: m.model,
                params: m.params,
                points: m.points@,
            },
        }
    }
}

/// A step by its contents.
pub enum StepView {
    Poll(usize),
    Block(usize),
    Done(CommandView),
    Refused(CommandError),
}

impl View for ReaderStep {
    type V = StepView;

    open spec fn view(&self) -> StepView {
        match *self {
            ReaderStep::Poll(n) => StepView::Poll(n),
            ReaderStep::Block(n) => StepView::Block(n),
            ReaderStep::Done(c) => StepView::Done(c@),
            ReaderStep::Refused(e) => StepView::Refused(e),
        }
    }
}

impl ReaderState {
    /// Number of bytes that the reader waits for.
    pub open spec fn awaited(self) -> int {
        match self {
            ReaderState::Length | ReaderState::Magic(_) => 4,
            ReaderState::Start(len) => len as int,
            ReaderState::Header(_) => MAP_HEADER_BYTES as int,
            ReaderState::Point(_) => MAP_POINT_BYTES as int,
            ReaderState::Finished => 0,
        }
    }
}

/// A reader by its contents: what it waits for, and the points read so far.
pub struct ReaderView {
    pub state: ReaderState,
    pub points: Seq<MapPoint>,
}

impl ReaderView {
    /// What was checked on the way here still holds.
    pub open spec fn wf(self) -> bool {
        match self.state {
            ReaderState::Magic(n) => n >= 4 && self.points.len() == 0,
            ReaderState::Start(len) => 1 <= len <= 8 && self.points.len() == 0,
            ReaderState::Header(n) => n >= 4 + MAP_HEADER_BYTES && self.points.len() == 0,
            ReaderState::Point(h) => self.points.len() < h.n_points <= MAX_MAP_POINTS,
            _ => self.points.len() == 0,
        }
    }
}

/// A reader that waits for the length of a command.
pub open spec fn fresh() -> ReaderView {
    ReaderView { state: ReaderState::Length, points: seq![] }
}

/// A reader that is done.
pub open spec fn finished() -> ReaderView {
    ReaderView { state: ReaderState::Finished, points: seq![] }
}

/// The start command of the given bytes after the magic.
pub open spec fn start_command(rest: Seq<u8>) -> CommandView {
    CommandView::Start { duration_s: start_duration(rest), interval_ms: start_interval(rest) }
}

/// What follows a map header and the given points: another point, or the complete map.
pub open spec fn after_points(h: MapHeader, points: Seq<MapPoint>) -> (ReaderView, StepView) {
    if points.len() < h.n_points {
        (
            ReaderView { state: ReaderState::Point(h), points },
            StepView::Block(MAP_POINT_BYTES),
        )
    } else {
        (
            finished(),
            StepView::Done(CommandView::MapUpload { model: h.model, params: h.params, points }),
        )
    }
}

/// The next reader and step once the awaited bytes are there. Length, magic and the rest of a start
/// command are polled for; a map upload is read without a deadline.
pub open spec fn next(r: ReaderView, b: Seq<u8>) -> (ReaderView, StepView) {
    match r.state {
        ReaderState::Length => {
            let n = le_u32(b);
            if n < 4 {
                (finished(), StepView::Refused(CommandError::BadLength(n)))
            } else {
                (ReaderView { state: ReaderState::Magic(n), points: seq![] }, StepView::Poll(4))
            }
        },
        ReaderState::Magic(n) => match expected(n, b) {
            Err(e) => (finished(), StepView::Refused(e)),
            Ok(Expect::Start(len)) => if len == 0 {
                (finished(), StepView::Done(start_command(seq![])))
            } else {
                (ReaderView { state: ReaderState::Start(len), points: seq![] }, StepView::Poll(len))
            },
            Ok(Expect::MapUpload) => (
                ReaderView { state: ReaderState::Header(n), points: seq![] },
                StepView::Block(MAP_HEADER_BYTES),
            ),
        },
        ReaderState::Start(_) => (finished(), StepView::Done(start_command(b))),
        ReaderState::Header(n) => match map_header(n, b) {
            Err(e) => (finished(), StepView::Refused(e)),
            Ok(h) => after_points(h, seq![]),
        },
        ReaderState::Point(h) => after_points(h, r.points.push(point_of(b))),
        ReaderState::Finished => (finished(), StepView::Block(0)),
    }
}

/// Reader of one command.
#[derive(Debug, PartialEq, Eq)]
pub struct CommandReader {
    pub state: ReaderState,
    pub points: Vec<MapPoint>,
}

impl View for CommandReader {
    type V = ReaderView;

    open spec fn view(&self) -> ReaderView {
        ReaderView { state: self.state, points: self.points@ }
    }
}

impl CommandReader {
    /// A reader that waits for the length of a command.
    pub fn new() -> (r: CommandReader)
        ensures
            r@ == fresh(),
            r@.wf(),
    {
        let r: CommandReader = CommandReader { state: ReaderState::Length, points: Vec::new() };
        assert(r.points@ =~= seq![]);
        r
    }

    /// Whether the laptop may leave here without an error: before the length of a command is read.
    pub fn may_close(&self) -> (r: bool)
        ensures
            r == (self@.state is Length),
    {
        match self.state {
            ReaderState::Length => true,
            _ => false,
        }
    }

    /// Goes on after a header or a point.
    fn after_point(&mut self, h: MapHeader) -> (step: ReaderStep)
        requires
            old(self).points@.len() <= h.n_points <= MAX_MAP_POINTS,
        ensures
            (final(self)@, step@) == after_points(h, old(self).points@),
            final(self)@.wf(),
    {
        if self.points.len() < h.n_points as usize {
            self.state = ReaderState::Point(h);
            return ReaderStep::Block(MAP_POINT_BYTES);
        }
        let mut points: Vec<MapPoint> = Vec::new();
        std::mem::swap(&mut points, &mut self.points);
        self.state = ReaderState::Finished;
        assert(self.points@ =~= seq![]);
        ReaderStep::Done(Command::MapUpload(LocalMap { model: h.model, params: h.params, points }))
    }

    /// Takes the awaited bytes and says what comes next.
    pub fn take(&mut self, bytes: &[u8]) -> (step: ReaderStep)
        requires
            old(self)@.wf(),
            bytes.len() == old(self)@.state.awaited(),
        ensures
            final(self)@.wf(),
            (final(self)@, step@) == next(old(self)@, bytes@),
            step matches ReaderStep::Poll(n) ==> n == final(self)@.state.awaited(),
            step matches ReaderStep::Block(n) ==> n == final(self)@.state.awaited(),
    {
        let state: ReaderState = self.state;
        assert(state !is Point ==> self.points@ =~= seq![]);
        self.state = ReaderState::Finished;
        match state {
            ReaderState::Length => {
                assert(bytes@.subrange(0, 4) =~= bytes@);
                let n: u32 = read_u32(bytes, 0);
                if n < 4 {
                    ReaderStep::Refused(CommandError::BadLength(n))
                } else {
                    self.state = ReaderState::Magic(n);
                    ReaderStep::Poll(4)
                }
            },
            ReaderState::Magic(n) => {
                let magic: [u8; 4] = [bytes[0], bytes[1], bytes[2], bytes[3]];
                assert(magic@ =~= bytes@);
                match classify(n, &magic) {
                    Err(e) => ReaderStep::Refused(e),
                    Ok(Expect::Start(len)) => {
                        if len == 0 {
                            let none: [u8; 0] = [];
                            let (duration_s, interval_ms): (u64, u64) = parse_start(&none);
                            assert(none@ =~= seq![]);
                            ReaderStep::Done(Command::Start { duration_s, interval_ms })
                        } else {
                            self.state = ReaderState::Start(len);
                            ReaderStep::Poll(len)
                        }
                    },
                    Ok(Expect::MapUpload) => {
                        self.state = ReaderState::Header(n);
                        ReaderStep::Block(MAP_HEADER_BYTES)
                    },
                }
            },
            ReaderState::Start(_) => {
                let (duration_s, interval_ms): (u64, u64) = parse_start(bytes);
                ReaderStep::Done(Command::Start { duration_s, interval_ms })
            },
            ReaderState::Header(n) => match parse_map_header(n, bytes) {
                Err(e) => ReaderStep::Refused(e),
                Ok(h) => self.after_point(h),
            },
            ReaderState::Point(h) => {
                self.points.push(parse_map_point(bytes));
                self.after_point(h)
            },
            ReaderState::Finished => ReaderStep::Block(0),
        }
    }
}

/// A start command is read in three pieces: length, magic and numbers.
pub proof fn start_is_taken(duration_s: u32, interval_ms: u32)
    ensures
        ({
            let rest = word_bytes(duration_s) + word_bytes(interval_ms);
            let a = next(fresh(), word_bytes(12));
            let b = next(a.0, MAGIC_START@);
            let c = next(b.0, rest);
            &&& a.1 == StepView::Poll(4)
            &&& b.1 == StepView::Poll(8)
            &&& c.1 == StepView::Done(
                CommandView::Start {
                    duration_s: if duration_s == 0 {
                        DEFAULT_DURATION_S
                    } else {
                        duration_s as u64
                    },
                    interval_ms: interval_ms as u64,
                },
            )
        }),
{
    start_is_read_back(duration_s, interval_ms);
    crate::words::lemma_unpack(12);
}

/// Reader and step after a map header and the bytes of the first `k` points.
pub open spec fn after_point_bytes(h: MapHeader, points: Seq<MapPoint>, k: int) -> (
    ReaderView,
    StepView,
)
    decreases k,
{
    if k <= 0 {
        let n = (4 + MAP_HEADER_BYTES + MAP_POINT_BYTES * h.n_points) as u32;
        let a = next(fresh(), word_bytes(n));
        let b = next(a.0, MAGIC_MAP_UPLOAD@);
        next(b.0, header_bytes(h))
    } else {
        next(after_point_bytes(h, points, k - 1).0, point_bytes(points[k - 1]))
    }
}

proof fn lemma_after_point_bytes(h: MapHeader, points: Seq<MapPoint>, k: int)
    requires
        h.model == CAMERA_MODEL_SIMPLE_RADIAL,
        h.n_points == points.len() <= MAX_MAP_POINTS,
        0 <= k <= points.len(),
    ensures
        after_point_bytes(h, points, k) == after_points(h, points.take(k)),
    decreases k,
{
    if k == 0 {
        let n = (4 + MAP_HEADER_BYTES + MAP_POINT_BYTES * h.n_points) as u32;
        crate::words::lemma_unpack(n);
        header_is_read_back(h);
        assert(MAGIC_START@[0] != MAGIC_MAP_UPLOAD@[0]);
        assert(points.take(0) =~= seq![]);
    } else {
        lemma_after_point_bytes(h, points, k - 1);
        point_is_read_back(points[k - 1]);
        assert(points.take(k - 1).push(points[k - 1]) =~= points.take(k));
    }
}

/// A map upload is read back: after length, magic, header and the bytes of every point, the command is
/// complete and holds the header's parameters and the points.
pub proof fn map_is_taken(h: MapHeader, points: Seq<MapPoint>)
    requires
        h.model == CAMERA_MODEL_SIMPLE_RADIAL,
        h.n_points == points.len() <= MAX_MAP_POINTS,
    ensures
        after_point_bytes(h, points, points.len() as int) == (
            finished(),
            StepView::Done(CommandView::MapUpload { model: h.model, params: h.params, points }),
        ),
{
    lemma_after_point_bytes(h, points, points.len() as int);
    assert(points.take(points.len() as int) =~= points);
}

/// A command is complete or refused exactly where the reader finishes.
pub proof fn finished_means_answered(r: ReaderView, b: Seq<u8>)
    requires
        r.state !is Finished,
    ensures
        next(r, b).0.state is Finished <==> next(r, b).1 is Done || next(r, b).1 is Refused,
{
}

} // verus!
