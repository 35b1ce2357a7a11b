//! Where the fields of an embedding record stand.

use vstd::prelude::*;

use crate::binary32::Binary32;
use crate::protocol::{le_u32, lemma_word_inside};
use crate::semantic::{bits_of, emb_record};

verus! {

/// The fields of an embedding record: magic, gray pixels, the sides, the number of embedding bytes, the
/// scale, the zero point as a number in two's complement, the pixels and the embedding.
pub proof fn emb_record_fields(gray: Seq<u8>, emb: Seq<u8>, scale: Binary32, zp: i32)
    requires
        emb.len() < 0x1_0000,
    ensures
        ({
            let r = emb_record(gray, emb, scale, bits_of(zp));
            let stored = le_u32(r.subrange(19, 23)) as int;
            &&& r.len() == 23 + gray.len() + emb.len()
            &&& r.subrange(4, 8) == seq![0x45u8, 0x4D, 0x42, 0x31]
            &&& r[8] == 3
            &&& r[9] + 256 * r[10] == 640
            &&& r[11] + 256 * r[12] == 480
            &&& r[13] + 256 * r[14] == emb.len()
            &&& le_u32(r.subrange(15, 19)) == scale.bits
            &&& stored == zp || stored == zp + 0x1_0000_0000
            &&& r.subrange(23, 23 + gray.len() as int) == gray
            &&& r.skip(23 + gray.len() as int) == emb
        }),
{
    let r = emb_record(gray, emb, scale, bits_of(zp));
    assert(r.subrange(4, 8) =~= seq![0x45u8, 0x4D, 0x42, 0x31]);
    lemma_word_inside(r, 15, scale.bits);
    lemma_word_inside(r, 19, bits_of(zp));
    assert(r.subrange(23, 23 + gray.len() as int) =~= gray);
    assert(r.skip(23 + gray.len() as int) =~= emb);
}

} // verus!
