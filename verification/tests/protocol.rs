use vo_box_lite::binary32::Binary32;
use vo_box_lite::localize::MapPoint;
use vo_box_lite::protocol::{
    build_done_record, build_map_ok_record, build_record, classify, parse_map_header,
    parse_map_point, parse_start, read_step, read_u32, Command, CommandError, Expect, FrameError,
    FrameTimings, LocalMap, MapPipeline, ReadAction, ReadEvent, Reply, Run, RunAction, RunEvent,
    SendProgress, Server, CAM_H, CAM_W, MAGIC_MAP_UPLOAD, MAGIC_START, VOX2_TIMING_FOOTER_BYTES,
};
use vo_box_lite::pyramid::{Clock, LEVELS};
use vo_box_lite::reader::{CommandReader, ReaderState, ReaderStep};

/// A clock that advances by a fixed step with every reading.
struct Steps {
    now: u64,
    step: u64,
}

impl Clock for Steps {
    fn now_us(&mut self) -> u64 {
        self.now += self.step;
        self.now
    }

    fn cycles(&mut self) -> u64 {
        0
    }
}

fn f(x: f32) -> Binary32 {
    Binary32 { bits: x.to_bits() }
}

/// Feeds the payload to a reader, one awaited piece after another.
fn feed(bytes: &[u8]) -> (ReaderStep, usize) {
    let mut reader = CommandReader::new();
    assert!(reader.may_close());
    let mut at = 0;
    let mut want = 4;
    loop {
        let step = reader.take(&bytes[at..at + want]);
        at += want;
        match step {
            ReaderStep::Poll(n) | ReaderStep::Block(n) => {
                assert!(!reader.may_close());
                want = n;
            }
            other => {
                assert_eq!(reader.state, ReaderState::Finished);
                assert!(reader.points.is_empty());
                return (other, at);
            }
        }
    }
}

fn record(magic: &[u8; 4], rest: &[u8]) -> Vec<u8> {
    let mut r = ((4 + rest.len()) as u32).to_le_bytes().to_vec();
    r.extend_from_slice(magic);
    r.extend_from_slice(rest);
    r
}

fn header(model: u8, params: [f32; 4], n: u32) -> Vec<u8> {
    let mut h = vec![model];
    for p in params {
        h.extend_from_slice(&p.to_le_bytes());
    }
    h.extend_from_slice(&n.to_le_bytes());
    h
}

fn point(i: u32) -> (MapPoint, Vec<u8>) {
    let xyz = [i as f32 + 0.5, -2.0, 1e-3 * i as f32];
    let mut desc = [0u32; 8];
    for (k, d) in desc.iter_mut().enumerate() {
        *d = i.wrapping_mul(0x9E37_79B9).wrapping_add(k as u32 * 0x0101_0101);
    }
    let mut bytes = Vec::new();
    for v in xyz {
        bytes.extend_from_slice(&v.to_le_bytes());
    }
    for d in desc {
        bytes.extend_from_slice(&d.to_le_bytes());
    }
    (MapPoint { xyz: xyz.map(f), desc }, bytes)
}

#[test]
fn start_defaults_and_overrides() {
    assert_eq!(parse_start(&[]), (300, 1000));
    assert_eq!(parse_start(&[1, 2, 3]), (300, 1000));
    assert_eq!(parse_start(&20u32.to_le_bytes()), (20, 1000));
    assert_eq!(parse_start(&0u32.to_le_bytes()), (300, 1000));
    let mut both = 7u32.to_le_bytes().to_vec();
    both.extend_from_slice(&0u32.to_le_bytes());
    assert_eq!(parse_start(&both), (7, 0));
    assert_eq!(read_u32(&[9, 1, 2, 0, 128], 1), 0x8000_0201);
}

#[test]
fn start_commands_are_read() {
    for (rest, want) in [
        (vec![], (300, 1000)),
        (vec![1], (300, 1000)),
        (vec![5, 0, 0, 0], (5, 1000)),
        (vec![5, 0, 0, 0, 9, 9], (5, 1000)),
        (vec![0, 0, 0, 0, 250, 0, 0, 0], (300, 250)),
    ] {
        let r = record(&MAGIC_START, &rest);
        let (step, used) = feed(&r);
        assert_eq!(used, r.len());
        assert_eq!(
            step,
            ReaderStep::Done(Command::Start { duration_s: want.0, interval_ms: want.1 })
        );
    }
}

#[test]
fn maps_are_read() {
    for n in [0u32, 1, 7] {
        let params = [267.0, 320.0, 240.0, -0.002];
        let mut rest = header(1, params, n);
        let mut points = Vec::new();
        for i in 0..n {
            let (p, bytes) = point(i);
            assert_eq!(parse_map_point(&bytes), p);
            points.push(p);
            rest.extend_from_slice(&bytes);
        }
        let r = record(&MAGIC_MAP_UPLOAD, &rest);
        let (step, used) = feed(&r);
        assert_eq!(used, r.len());
        let want = LocalMap { model: 1, params: params.map(f), points };
        assert_eq!(step, ReaderStep::Done(Command::MapUpload(want)));
    }
}

#[test]
fn bad_commands_are_refused() {
    assert_eq!(classify(3, &MAGIC_START), Err(CommandError::BadLength(3)));
    assert_eq!(classify(4, &MAGIC_START), Ok(Expect::Start(0)));
    assert_eq!(classify(12, &MAGIC_START), Ok(Expect::Start(8)));
    assert_eq!(classify(13, &MAGIC_START), Err(CommandError::BadStartLength(13)));
    assert_eq!(classify(24, &MAGIC_MAP_UPLOAD), Err(CommandError::MapTooShort(24)));
    assert_eq!(classify(25, &MAGIC_MAP_UPLOAD), Ok(Expect::MapUpload));
    assert_eq!(classify(25, b"NOPE"), Err(CommandError::Unknown(*b"NOPE")));

    let refused = |bytes: &[u8]| match feed(bytes).0 {
        ReaderStep::Refused(e) => e,
        other => panic!("{other:?}"),
    };
    assert_eq!(refused(&[3, 0, 0, 0]), CommandError::BadLength(3));
    assert_eq!(refused(&record(&MAGIC_START, &[0; 9])), CommandError::BadStartLength(13));
    assert_eq!(refused(&record(b"VOX2", &[])), CommandError::Unknown(*b"VOX2"));
    assert_eq!(refused(&record(&MAGIC_MAP_UPLOAD, &[1; 20])), CommandError::MapTooShort(24));
    let two = header(2, [1.0; 4], 0);
    assert_eq!(refused(&record(&MAGIC_MAP_UPLOAD, &two)), CommandError::UnsupportedModel(2));
    let short = header(1, [1.0; 4], 1);
    assert_eq!(
        refused(&record(&MAGIC_MAP_UPLOAD, &short)),
        CommandError::PointCount { n_points: 1, body_bytes: 0 }
    );
    let many = header(1, [1.0; 4], 100_001);
    assert_eq!(
        parse_map_header(25 + 44 * 100_001, &many),
        Err(CommandError::PointCount { n_points: 100_001, body_bytes: 44 * 100_001 })
    );
    let most = header(1, [1.0; 4], 100_000);
    assert_eq!(parse_map_header(25 + 44 * 100_000, &most).unwrap().n_points, 100_000);
}

#[test]
fn frame_records_have_the_documented_layout() {
    assert_eq!(VOX2_TIMING_FOOTER_BYTES, 3 * 4 + LEVELS * (6 * 4 + 2));
    let frame: Vec<u8> = (0..12).collect();
    let tm = FrameTimings { capture_us: 0x1_0000_0002, downscale_us: 3, ..FrameTimings::default() };
    let mut buf = vec![1, 2, 3];
    let mut clock = Steps { now: 100, step: 17 };
    let build_us = build_record(&mut buf, 4, 3, &frame, &tm, &mut clock);
    assert_eq!(build_us, 17);
    let mut want = (11u32 + 12 + 194).to_le_bytes().to_vec();
    want.extend_from_slice(b"VOX2");
    want.push(3);
    want.extend_from_slice(&[4, 0, 3, 0, 0, 0]);
    want.extend_from_slice(&frame);
    want.extend_from_slice(&2u32.to_le_bytes());
    want.extend_from_slice(&3u32.to_le_bytes());
    want.extend_from_slice(&17u32.to_le_bytes());
    want.extend_from_slice(&[0; 182]);
    assert_eq!(buf, want);
    assert_eq!(read_u32(&buf, 0) as usize, buf.len() - 4);
}

#[test]
fn reply_records() {
    let mut buf = vec![7; 40];
    build_done_record(&mut buf, 0x1_0000_0009, 2);
    assert_eq!(buf, [12, 0, 0, 0, b'V', b'O', b'X', b'D', 9, 0, 0, 0, 2, 0, 0, 0]);
    build_map_ok_record(&mut buf, 258);
    assert_eq!(buf, [8, 0, 0, 0, b'M', b'A', b'P', b'K', 2, 1, 0, 0]);
}

#[test]
fn the_pipeline_takes_frames_of_its_size_only() {
    let mut p = MapPipeline::new(4, 3);
    assert_eq!((p.w, p.h, p.frame.len(), p.tx.len()), (4, 3, 12, 0));
    let data: Vec<u8> = (10..22).collect();
    assert_eq!(p.take_frame(3, 4, &data), Err(FrameError::DimsChanged));
    assert_eq!(p.take_frame(4, 3, &data[1..]), Err(FrameError::BadLength));
    assert_eq!(p.frame, [0; 12]);
    assert_eq!(p.take_frame(4, 3, &data), Ok(()));
    assert_eq!(p.frame, data);
    let tm = p.map_frame(5, &mut Steps { now: 0, step: 2 });
    assert_eq!((tm.capture_us, tm.downscale_us, tm.build_us), (5, 0, 2));
    assert_eq!(p.tx.len(), 15 + 12 + 194);
    assert_eq!(p.tx[15..27], data[..]);
    assert_eq!(read_u32(&p.tx, 27), 5);
    assert_eq!((CAM_W, CAM_H), (640, 480));
}

#[test]
fn the_server_keeps_the_last_map() {
    let mut s = Server::new();
    assert_eq!(s.on_command(None), Reply::Close);
    let start = Command::Start { duration_s: 5, interval_ms: 6 };
    assert_eq!(s.on_command(Some(start)), Reply::Run { duration_s: 5, interval_ms: 6 });
    assert!(s.map.is_none());
    let map = LocalMap { model: 1, params: [f(1.0); 4], points: vec![point(3).0, point(4).0] };
    assert_eq!(s.on_command(Some(Command::MapUpload(map))), Reply::Acknowledge(2));
    let start = Command::Start { duration_s: 1, interval_ms: 0 };
    s.on_command(Some(start));
    assert_eq!(s.map.as_ref().unwrap().points.len(), 2);
    let other = LocalMap { model: 1, params: [f(1.0); 4], points: vec![] };
    assert_eq!(s.on_command(Some(Command::MapUpload(other))), Reply::Acknowledge(0));
    assert_eq!(s.map.as_ref().unwrap().points.len(), 0);
}

#[test]
fn a_run_paces_and_counts() {
    let mut run = Run::new(100);
    assert_eq!(run.step(RunEvent::NoCamera), RunAction::Wait(200));
    assert_eq!(run.step(RunEvent::FrameFailed), RunAction::Wait(200));
    assert_eq!(run.step(RunEvent::Sent { elapsed_ms: 30 }), RunAction::Wait(70));
    assert_eq!(run.step(RunEvent::Sent { elapsed_ms: 100 }), RunAction::Wait(0));
    assert_eq!(run.step(RunEvent::Sent { elapsed_ms: 101 }), RunAction::Wait(0));
    assert!(run.is_logged());
    let mut buf = Vec::new();
    assert!(run.finish(&mut buf));
    assert_eq!(read_u32(&buf, 8), 3);
    assert_eq!(run.step(RunEvent::SendFailed), RunAction::Stop);
    let mut kept = vec![1u8];
    assert!(!run.finish(&mut kept));
    assert_eq!(kept, [1]);

    assert!(Run::goes_on(2_999_999, 3));
    assert!(!Run::goes_on(3_000_000, 3));
    assert!(!Run::goes_on(0, 0));
    assert!(Run::goes_on(u64::MAX, u64::MAX));

    let mut fast = Run::new(0);
    for i in 1..=40 {
        assert_eq!(fast.step(RunEvent::Sent { elapsed_ms: 5 }), RunAction::Wait(0));
        assert_eq!(fast.is_logged(), i % 20 == 0);
    }
}

#[test]
fn reads_and_writes_proceed() {
    assert_eq!(read_step(0, 4, ReadEvent::Bytes(0)), ReadAction::UnexpectedEof);
    assert_eq!(read_step(1, 4, ReadEvent::Bytes(2)), ReadAction::ReadAt(3));
    assert_eq!(read_step(1, 4, ReadEvent::Bytes(3)), ReadAction::Done);
    assert_eq!(read_step(1, 4, ReadEvent::Nothing { expired: false }), ReadAction::PollAt(1));
    assert_eq!(read_step(1, 4, ReadEvent::Nothing { expired: true }), ReadAction::TimedOut);
    assert_eq!(read_step(1, 4, ReadEvent::Failed), ReadAction::Abort);
    let p = SendProgress::new();
    assert_eq!(p.wrote(10, 0, 3), None);
    let p = p.wrote(10, 4, 3).unwrap();
    let p = p.wrote(10, 6, 2).unwrap();
    assert_eq!(p, SendProgress { off: 10, max_ms: 3 });
}
