//! Semantic embedding of frames: checks around the encoder, its input, and the records that carry a
//! frame with its embedding.

use vstd::prelude::*;

use crate::binary32::Binary32;
use crate::downscale::{downscale_4x4, downscaled_4x4};
use crate::protocol::{
    cut16, cut32, low16, low32, push_bytes, push_magic, push_u16, push_u32, FMT_GRAYSCALE,
};
use crate::words::{half_bytes, word_bytes};

pub mod fields;

verus! {

/// Width of the encoder input.
pub const INPUT_W: usize = 160;

/// Height of the encoder input.
pub const INPUT_H: usize = 120;

/// Bytes of an embedding.
pub const EMB_DIM: usize = 1064;

/// Width of the captured frames.
pub const SRC_W: usize = 640;

/// Height of the captured frames.
pub const SRC_H: usize = 480;

/// Bytes of the encoder's working memory.
pub const ARENA_BYTES: usize = 1048576;

/// `EMB1`: a frame with its embedding.
pub const MAGIC_EMB: [u8; 4] = [0x45, 0x4D, 0x42, 0x31];

/// Bytes between the length and the pixels of a record.
pub const EMB_HEADER_BYTES: usize = 19;

/// Whether the loaded model has the input and output that the encoder needs: an input of at least one
/// byte per input pixel, and a first output of at least one embedding.
pub fn model_fits(
    has_input: bool,
    in_size: usize,
    n_out: usize,
    has_output: bool,
    out_size: usize,
) -> (ok: bool)
    ensures
        ok == (has_input && in_size >= INPUT_W * INPUT_H && n_out >= 1 && has_output && out_size
            >= EMB_DIM),
{
    has_input && in_size >= 19200 && n_out >= 1 && has_output && out_size >= EMB_DIM
}

/// Whether a captured frame is the expected one: sides and one byte per pixel.
pub fn frame_expected(w: usize, h: usize, len: usize) -> (ok: bool)
    ensures
        ok == (w == SRC_W && h == SRC_H && len == SRC_W * SRC_H),
{
    w == SRC_W && h == SRC_H && len == 307200
}

/// Why a frame cannot be embedded.
#[derive(Clone, Copy, Debug, PartialEq, Eq, Structural)]
pub enum EmbedError {
    /// Fewer bytes than pixels.
    FrameTooShort,
    /// The frame does not scale down to the encoder input.
    BadSize,
    /// The encoder input is too short for the downscaled frame.
    InputTooShort,
}

/// Scales a frame down to the encoder input.
pub fn embed_input(gray: &[u8], src_w: usize, src_h: usize, input: &mut [u8]) -> (r: Result<
    (),
    EmbedError,
>)
    requires
        src_w * src_h <= usize::MAX,
    ensures
        r == if gray@.len() < src_w * src_h {
            Err::<(), EmbedError>(EmbedError::FrameTooShort)
        } else if src_w / 4 != INPUT_W || src_h / 4 != INPUT_H {
            Err(EmbedError::BadSize)
        } else if old(input)@.len() < INPUT_W * INPUT_H {
            Err(EmbedError::InputTooShort)
        } else {
            Ok(())
        },
        r is Ok ==> final(input)@ == downscaled_4x4(gray@, src_w as int, src_h as int) + old(
            input,
        )@.skip(INPUT_W * INPUT_H),
        r is Err ==> final(input)@ == old(input)@,
{
    if gray.len() < src_w * src_h {
        return Err(EmbedError::FrameTooShort);
    }
    if src_w / 4 != INPUT_W || src_h / 4 != INPUT_H {
        return Err(EmbedError::BadSize);
    }
    if !downscale_4x4(gray, src_w, src_h, input) {
        return Err(EmbedError::InputTooShort);
    }
    Ok(())
}

/// A record of a frame with its embedding: length, magic, format, size, number of embedding bytes,
/// scale and zero point of the embedding, pixels, embedding.
pub open spec fn emb_record(gray: Seq<u8>, emb: Seq<u8>, scale: Binary32, zp: u32) -> Seq<u8> {
    word_bytes(low32((EMB_HEADER_BYTES + gray.len() + emb.len()) as int)) + MAGIC_EMB@
        + seq![FMT_GRAYSCALE] + half_bytes(SRC_W as u16) + half_bytes(SRC_H as u16) + half_bytes(
        low16(emb.len() as int),
    ) + word_bytes(scale.bits) + word_bytes(zp) + gray + emb
}

/// A signed number in 32 bits.
pub open spec fn bits_of(v: i32) -> u32 {
    if v >= 0 {
        v as u32
    } else {
        (v + 0x1_0000_0000) as u32
    }
}

/// Replaces `buf` by the record of a frame with its embedding.
pub fn build_emb_frame(buf: &mut Vec<u8>, gray: &[u8], emb: &[u8], scale: Binary32, zp: i32)
    requires
        EMB_HEADER_BYTES + gray.len() + emb.len() <= usize::MAX,
    ensures
        final(buf)@ == emb_record(gray@, emb@, scale, bits_of(zp)),
{
    let payload: usize = EMB_HEADER_BYTES + gray.len() + emb.len();
    let zp_bits: u32 = if zp >= 0 {
        zp as u32
    } else {
        (zp as i64 + 0x1_0000_0000) as u32
    };
    buf.clear();
    push_u32(buf, cut32(payload as u64));
    push_magic(buf, &MAGIC_EMB);
    buf.push(FMT_GRAYSCALE);
    push_u16(buf, 640);
    push_u16(buf, 480);
    push_u16(buf, cut16(emb.len()));
    push_u32(buf, scale.bits);
    push_u32(buf, zp_bits);
    push_bytes(buf, gray);
    push_bytes(buf, emb);
    assert(buf@ =~= emb_record(gray@, emb@, scale, bits_of(zp)));
}

/// The length prefix of a record is the number of bytes after it.
pub proof fn emb_record_length(gray: Seq<u8>, emb: Seq<u8>, scale: Binary32, zp: u32)
    requires
        EMB_HEADER_BYTES + gray.len() + emb.len() <= u32::MAX,
    ensures
        ({
            let r = emb_record(gray, emb, scale, zp);
            &&& crate::protocol::le_u32(r.subrange(0, 4)) == r.len() - 4
            &&& r.subrange(23, (23 + gray.len()) as int) == gray
            &&& r.skip((23 + gray.len()) as int) == emb
        }),
{
    let r = emb_record(gray, emb, scale, zp);
    let w = low32((EMB_HEADER_BYTES + gray.len() + emb.len()) as int);
    let s = r.subrange(0, 4);
    assert(s[0] == word_bytes(w)[0] && s[1] == word_bytes(w)[1] && s[2] == word_bytes(w)[2] && s[3]
        == word_bytes(w)[3]);
    crate::words::lemma_unpack(w);
    assert(r.subrange(23, (23 + gray.len()) as int) =~= gray);
    assert(r.skip((23 + gray.len()) as int) =~= emb);
}

/// The stream of embeddings: frames taken to the encoder so far, and whether a laptop is connected.
#[derive(Clone, Copy, Debug, PartialEq, Eq, Structural)]
pub struct EmbedStream {
    pub frames: u64,
    pub connected: bool,
}

/// What happened in the stream.
#[derive(Clone, Copy, Debug, PartialEq, Eq, Structural)]
pub enum StreamEvent {
    /// A laptop connected.
    Connected,
    /// The camera gave no frame.
    NoFrame,
    /// The frame is not the expected one.
    BadFrame,
    /// The frame could not be embedded.
    EmbedFailed,
    /// The frame was embedded.
    Embedded,
    /// The record could not be sent.
    SendFailed,
    /// The record was sent.
    Sent,
}

/// What to do next.
#[derive(Clone, Copy, Debug, PartialEq, Eq, Structural)]
pub enum StreamAction {
    /// Take the next frame after the given number of milliseconds.
    NextFrame(u64),
    /// Send the record of the frame.
    Send,
}

/// Wait after a failed capture, in milliseconds.
pub const CAPTURE_RETRY_MS: u64 = 100;

/// Wait after a finished frame, in milliseconds, in which the system runs.
pub const YIELD_MS: u64 = 1;

impl EmbedStream {
    /// A stream without frames and without a laptop.
    pub fn new() -> (s: EmbedStream)
        ensures
            s == (EmbedStream { frames: 0, connected: false }),
    {
        EmbedStream { frames: 0, connected: false }
    }

    /// One step of the stream: at most one laptop at a time, dropped where a record cannot be sent; a
    /// frame that fails is skipped.
    pub fn step(&mut self, event: StreamEvent) -> (a: StreamAction)
        requires
            old(self).frames < u64::MAX,
        ensures
            final(self).frames == old(self).frames + if event == StreamEvent::EmbedFailed || event
                == StreamEvent::Embedded {
                1int
            } else {
                0
            },
            final(self).connected == match event {
                StreamEvent::Connected => true,
                StreamEvent::SendFailed => false,
                _ => old(self).connected,
            },
            a == match event {
                StreamEvent::Embedded => if old(self).connected {
                    StreamAction::Send
                } else {
                    StreamAction::NextFrame(YIELD_MS)
                },
                StreamEvent::NoFrame => StreamAction::NextFrame(CAPTURE_RETRY_MS),
                StreamEvent::Sent => StreamAction::NextFrame(YIELD_MS),
                StreamEvent::SendFailed => StreamAction::NextFrame(YIELD_MS),
                _ => StreamAction::NextFrame(0),
            },
    {
        match event {
            StreamEvent::Connected => {
                self.connected = true;
                StreamAction::NextFrame(0)
            },
            StreamEvent::NoFrame => StreamAction::NextFrame(CAPTURE_RETRY_MS),
            StreamEvent::BadFrame => StreamAction::NextFrame(0),
            StreamEvent::EmbedFailed => {
                self.frames = self.frames + 1;
                StreamAction::NextFrame(0)
            },
            StreamEvent::Embedded => {
                self.frames = self.frames + 1;
                if self.connected {
                    StreamAction::Send
                } else {
                    StreamAction::NextFrame(YIELD_MS)
                }
            },
            StreamEvent::SendFailed => {
                self.connected = false;
                StreamAction::NextFrame(YIELD_MS)
            },
            StreamEvent::Sent => StreamAction::NextFrame(YIELD_MS),
        }
    }
}

} // verus!
