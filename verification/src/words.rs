//! Little-endian packing of bytes into machine words.

use vstd::prelude::*;

verus! {

/// The number that four little-endian bytes stand for.
pub open spec fn le4(b0: u8, b1: u8, b2: u8, b3: u8) -> int {
    b0 + 256 * b1 + 65536 * b2 + 16777216 * b3
}

/// Byte `k` of a 32-bit word, counted from the least significant one.
pub open spec fn word_byte(w: u32, k: int) -> u8 {
    if k == 0 {
        (w as int % 256) as u8
    } else if k == 1 {
        (w as int / 256 % 256) as u8
    } else if k == 2 {
        (w as int / 65536 % 256) as u8
    } else {
        (w as int / 16777216) as u8
    }
}

/// The four little-endian bytes of a 32-bit word.
pub open spec fn word_bytes(w: u32) -> Seq<u8> {
    Seq::new(4, |k: int| word_byte(w, k))
}

/// The two little-endian bytes of a 16-bit word.
pub open spec fn half_bytes(w: u16) -> Seq<u8> {
    seq![(w as int % 256) as u8, (w as int / 256) as u8]
}

/// Packs four bytes into one word, the first into the lowest eight bits.
pub fn pack4(b0: u8, b1: u8, b2: u8, b3: u8) -> (w: u32)
    ensures
        w == le4(b0, b1, b2, b3),
        word_byte(w, 0) == b0,
        word_byte(w, 1) == b1,
        word_byte(w, 2) == b2,
        word_byte(w, 3) == b3,
{
    proof {
        lemma_pack(b0, b1, b2, b3);
        let bytes = word_bytes(le4(b0, b1, b2, b3) as u32);
        assert(bytes[0] == b0 && bytes[1] == b1 && bytes[2] == b2 && bytes[3] == b3);
    }
    b0 as u32 + 256 * b1 as u32 + 65536 * b2 as u32 + 16777216 * b3 as u32
}

/// Takes one word apart into its four bytes, the lowest eight bits first.
pub fn unpack4(w: u32) -> (b: [u8; 4])
    ensures
        b@ == word_bytes(w),
        le4(b@[0], b@[1], b@[2], b@[3]) == w,
{
    let b: [u8; 4] = [
        (w % 256) as u8,
        (w / 256 % 256) as u8,
        (w / 65536 % 256) as u8,
        (w / 16777216) as u8,
    ];
    proof {
        lemma_unpack(w);
        assert(b@ =~= word_bytes(w));
    }
    b
}

/// The bytes of a word make up the word.
pub proof fn lemma_unpack(w: u32)
    ensures
        le4(word_byte(w, 0), word_byte(w, 1), word_byte(w, 2), word_byte(w, 3)) == w,
{
    let q1 = w as int / 256;
    let q2 = w as int / 65536;
    assert(q2 == q1 / 256);
    assert(w as int / 16777216 == q2 / 256);
}

/// The bytes of a packed word are the bytes it was packed from.
pub proof fn lemma_pack(b0: u8, b1: u8, b2: u8, b3: u8)
    ensures
        0 <= le4(b0, b1, b2, b3) <= u32::MAX,
        word_bytes(le4(b0, b1, b2, b3) as u32) == seq![b0, b1, b2, b3],
{
    let w = le4(b0, b1, b2, b3) as u32;
    assert(w as int / 256 == b1 + 256 * b2 + 65536 * b3);
    assert(w as int / 65536 == b2 + 256 * b3);
    assert(w as int / 16777216 == b3);
    assert(word_bytes(w) =~= seq![b0, b1, b2, b3]);
}

} // verus!
