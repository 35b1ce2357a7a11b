//! Where the fields of a frame record stand.

use vstd::prelude::*;

use crate::protocol::{frame_record, le_u32, lemma_word_inside, low32};

verus! {

/// The fields of a frame record: magic, gray pixels, the sides, no features, the pixels, the three
/// times, and zeros.
pub proof fn frame_record_fields(
    w: int,
    h: int,
    frame: Seq<u8>,
    capture_us: int,
    downscale_us: int,
    build_us: int,
)
    requires
        0 <= w < 0x1_0000,
        0 <= h < 0x1_0000,
        frame.len() == w * h,
        0 <= capture_us <= u32::MAX,
        0 <= downscale_us <= u32::MAX,
        0 <= build_us <= u32::MAX,
    ensures
        ({
            let r = frame_record(w, h, frame, capture_us, downscale_us, build_us);
            let at = 15 + w * h;
            &&& r.len() == at + 194
            &&& r.subrange(4, 8) == seq![0x56u8, 0x4F, 0x58, 0x32]
            &&& r[8] == 3
            &&& r[9] + 256 * r[10] == w
            &&& r[11] + 256 * r[12] == h
            &&& r[13] == 0 && r[14] == 0
            &&& r.subrange(15, at) == frame
            &&& le_u32(r.subrange(at, at + 4)) == capture_us
            &&& le_u32(r.subrange(at + 4, at + 8)) == downscale_us
            &&& le_u32(r.subrange(at + 8, at + 12)) == build_us
            &&& forall|i: int| at + 12 <= i < at + 194 ==> #[trigger] r[i] == 0
        }),
{
    let r = frame_record(w, h, frame, capture_us, downscale_us, build_us);
    let at = 15 + w * h;
    assert(r.subrange(15, at) =~= frame);
    assert(r.subrange(4, 8) =~= seq![0x56u8, 0x4F, 0x58, 0x32]);
    lemma_word_inside(r, at, low32(capture_us));
    lemma_word_inside(r, at + 4, low32(downscale_us));
    lemma_word_inside(r, at + 8, low32(build_us));
}

} // verus!
