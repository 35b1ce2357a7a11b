use vo_box_lite::binary32::Binary32;
use vo_box_lite::downscale::downscale_4x4;
use vo_box_lite::semantic::{
    build_emb_frame, embed_input, frame_expected, model_fits, EmbedError, EmbedStream,
    StreamAction, StreamEvent, ARENA_BYTES, EMB_DIM, INPUT_H, INPUT_W, SRC_H, SRC_W,
};

#[test]
fn models_and_frames_are_checked() {
    assert!(model_fits(true, 19200, 1, true, 1064));
    assert!(!model_fits(false, 19200, 1, true, 1064));
    assert!(!model_fits(true, 19199, 1, true, 1064));
    assert!(!model_fits(true, 19200, 0, true, 1064));
    assert!(!model_fits(true, 19200, 1, false, 1064));
    assert!(!model_fits(true, 19200, 1, true, 1063));
    assert!(frame_expected(640, 480, 307200));
    assert!(!frame_expected(480, 640, 307200));
    assert!(!frame_expected(640, 480, 307199));
    assert_eq!((INPUT_W * INPUT_H, EMB_DIM, ARENA_BYTES), (19200, 1064, 1024 * 1024));
}

#[test]
fn frames_are_scaled_to_the_input() {
    let gray: Vec<u8> = (0..SRC_W * SRC_H).map(|i| (i * 7 / 3) as u8).collect();
    let mut input = vec![9u8; INPUT_W * INPUT_H + 2];
    assert_eq!(embed_input(&gray, SRC_W, SRC_H, &mut input), Ok(()));
    let mut want = vec![0u8; INPUT_W * INPUT_H];
    assert!(downscale_4x4(&gray, SRC_W, SRC_H, &mut want));
    assert_eq!(input[..19200], want[..]);
    assert_eq!(input[19200..], [9, 9]);

    let mut untouched = vec![1u8; 19200];
    assert_eq!(
        embed_input(&gray[1..], SRC_W, SRC_H, &mut untouched),
        Err(EmbedError::FrameTooShort)
    );
    assert_eq!(embed_input(&gray, 320, 240, &mut untouched), Err(EmbedError::BadSize));
    assert_eq!(
        embed_input(&gray, SRC_W, SRC_H, &mut untouched[1..]),
        Err(EmbedError::InputTooShort)
    );
    assert_eq!(untouched, vec![1u8; 19200]);
}

#[test]
fn records_have_the_documented_layout() {
    let gray = [1u8, 2, 3];
    let emb = [250u8, 251];
    let mut buf = vec![5];
    let scale = 0.037f32;
    build_emb_frame(&mut buf, &gray, &emb, Binary32 { bits: scale.to_bits() }, -128);
    let mut want = 24u32.to_le_bytes().to_vec();
    want.extend_from_slice(b"EMB1");
    want.push(3);
    want.extend_from_slice(&640u16.to_le_bytes());
    want.extend_from_slice(&480u16.to_le_bytes());
    want.extend_from_slice(&2u16.to_le_bytes());
    want.extend_from_slice(&scale.to_le_bytes());
    want.extend_from_slice(&(-128i32).to_le_bytes());
    want.extend_from_slice(&gray);
    want.extend_from_slice(&emb);
    assert_eq!(buf, want);
    build_emb_frame(&mut buf, &[], &[], Binary32 { bits: 0 }, 5);
    assert_eq!(buf[..4], 19u32.to_le_bytes());
    assert_eq!(buf[19..], 5i32.to_le_bytes());
}

#[test]
fn the_stream_serves_one_laptop() {
    let mut s = EmbedStream::new();
    assert_eq!(s.step(StreamEvent::NoFrame), StreamAction::NextFrame(100));
    assert_eq!(s.step(StreamEvent::BadFrame), StreamAction::NextFrame(0));
    assert_eq!(s.step(StreamEvent::EmbedFailed), StreamAction::NextFrame(0));
    assert_eq!(s.step(StreamEvent::Embedded), StreamAction::NextFrame(1));
    assert_eq!(s.step(StreamEvent::Connected), StreamAction::NextFrame(0));
    assert_eq!(s.step(StreamEvent::Embedded), StreamAction::Send);
    assert_eq!(s.step(StreamEvent::Sent), StreamAction::NextFrame(1));
    assert!(s.connected);
    assert_eq!(s.step(StreamEvent::Embedded), StreamAction::Send);
    assert_eq!(s.step(StreamEvent::SendFailed), StreamAction::NextFrame(1));
    assert_eq!(s, EmbedStream { frames: 4, connected: false });
}
