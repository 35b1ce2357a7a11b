//! Feature lists as text: one row per feature, its position with two decimals and its descriptor in
//! hexadecimal.

use vstd::prelude::*;

use crate::binary32::{hundredths, mag, nearest_even, one_units, Binary32, SIGN_BIT};
use crate::pyramid::Feature;
use crate::words::{unpack4, word_byte};

pub mod reading;

verus! {

/// The decimal digits of a number, in ASCII.
pub open spec fn decimal(n: int) -> Seq<u8>
    decreases n,
{
    if n < 10 {
        seq![(48 + n) as u8]
    } else {
        decimal(n / 10).push((48 + n % 10) as u8)
    }
}

/// A number with two decimals, rounded to the nearest hundredth, ties to even. What is not a number and
/// the infinities are spelled out.
pub open spec fn fixed2(x: Binary32) -> Seq<u8> {
    let c = nearest_even(100 * mag(x.low()), one_units());
    let sign = if x.negative() {
        seq![0x2Du8]
    } else {
        seq![]
    };
    if x.nan() {
        seq![0x4Eu8, 0x61, 0x4E]
    } else if x.inf() {
        sign + seq![0x69u8, 0x6E, 0x66]
    } else {
        sign + decimal(c / 100) + seq![0x2Eu8, (48 + c % 100 / 10) as u8, (48 + c % 10) as u8]
    }
}

/// A hexadecimal digit in ASCII.
pub open spec fn hex_digit(d: int) -> u8 {
    if d < 10 {
        (48 + d) as u8
    } else {
        (87 + d) as u8
    }
}

/// The descriptor as 64 hexadecimal digits: 32 bytes, each word from its lowest byte.
pub open spec fn hex_descriptor(desc: Seq<u32>) -> Seq<u8> {
    Seq::new(
        64,
        |i: int|
            {
                let b = word_byte(desc[i / 8], i / 2 % 4) as int;
                if i % 2 == 0 {
                    hex_digit(b / 16)
                } else {
                    hex_digit(b % 16)
                }
            },
    )
}

/// One row: position, descriptor and a line feed.
pub open spec fn row(f: Feature) -> Seq<u8> {
    fixed2(f.x) + seq![0x2Cu8] + fixed2(f.y) + seq![0x2Cu8] + hex_descriptor(f.desc@) + seq![0x0Au8]
}

/// The rows of the first `n` features.
pub open spec fn rows(feats: Seq<Feature>, n: int) -> Seq<u8>
    decreases n,
{
    if n <= 0 {
        seq![]
    } else {
        rows(feats, n - 1) + row(feats[n - 1])
    }
}

fn push_decimal(buf: &mut Vec<u8>, n: u128)
    ensures
        final(buf)@ == old(buf)@ + decimal(n as int),
    decreases n,
{
    if n >= 10 {
        push_decimal(buf, n / 10);
    }
    buf.push(48 + (n % 10) as u8);
    assert(buf@ =~= old(buf)@ + decimal(n as int));
}

/// Appends a number with two decimals.
pub fn push_fixed2(buf: &mut Vec<u8>, x: Binary32)
    ensures
        final(buf)@ == old(buf)@ + fixed2(x),
{
    if x.is_nan() {
        buf.push(0x4E);
        buf.push(0x61);
        buf.push(0x4E);
        assert(buf@ =~= old(buf)@ + fixed2(x));
        return;
    }
    if x.bits >= SIGN_BIT {
        buf.push(0x2D);
    }
    if !x.is_finite() {
        buf.push(0x69);
        buf.push(0x6E);
        buf.push(0x66);
        assert(buf@ =~= old(buf)@ + fixed2(x));
        return;
    }
    let (whole, rest): (u128, u8) = hundredths(x);
    push_decimal(buf, whole);
    buf.push(0x2E);
    buf.push(48 + rest / 10);
    buf.push(48 + rest % 10);
    assert(buf@ =~= old(buf)@ + fixed2(x));
}

fn hex(d: u8) -> (h: u8)
    requires
        d < 16,
    ensures
        h == hex_digit(d as int),
{
    if d < 10 {
        48 + d
    } else {
        87 + d
    }
}

fn push_hex_descriptor(buf: &mut Vec<u8>, desc: &[u32; 8])
    ensures
        final(buf)@ == old(buf)@ + hex_descriptor(desc@),
{
    let ghost before = buf@;
    for i in 0..8usize
        invariant
            buf@ == before + hex_descriptor(desc@).take(8 * i),
    {
        let w: [u8; 4] = unpack4(desc[i]);
        for k in 0..4usize
            invariant
                i < 8,
                w@[0] == word_byte(desc@[i as int], 0),
                w@[1] == word_byte(desc@[i as int], 1),
                w@[2] == word_byte(desc@[i as int], 2),
                w@[3] == word_byte(desc@[i as int], 3),
                buf@ == before + hex_descriptor(desc@).take(8 * i + 2 * k),
        {
            let b: u8 = w[k];
            assert(b == word_byte(desc@[i as int], k as int));
            buf.push(hex(b / 16));
            buf.push(hex(b % 16));
            proof {
                let all = hex_descriptor(desc@);
                let j = 8 * i + 2 * k;
                assert(j / 8 == i && j / 2 % 4 == k && j % 2 == 0);
                assert((j + 1) / 8 == i && (j + 1) / 2 % 4 == k && (j + 1) % 2 == 1);
                assert(buf@ =~= before + all.take(j + 2));
            }
        }
    }
    assert(hex_descriptor(desc@).take(64) =~= hex_descriptor(desc@));
}

/// The feature list as text, in ASCII.
pub fn format_csv(feats: &[Feature]) -> (text: Vec<u8>)
    ensures
        text@ == rows(feats@, feats@.len() as int),
{
    let mut text: Vec<u8> = Vec::new();
    for i in 0..feats.len()
        invariant
            text@ == rows(feats@, i as int),
    {
        let f: Feature = feats[i];
        push_fixed2(&mut text, f.x);
        text.push(0x2C);
        push_fixed2(&mut text, f.y);
        text.push(0x2C);
        push_hex_descriptor(&mut text, &f.desc);
        text.push(0x0A);
        assert(text@ =~= rows(feats@, i as int) + row(f));
    }
    text
}

} // verus!
