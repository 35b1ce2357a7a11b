//! What the text says: the numbers and descriptors that are read back from it.

use vstd::prelude::*;

use crate::binary32::{mag, nearest_even, one_units, Binary32};
use crate::csv::{decimal, fixed2, hex_descriptor, hex_digit};
use crate::words::word_byte;

verus! {

/// The number that the decimal digits of a text stand for.
pub open spec fn number(digits: Seq<u8>) -> int
    decreases digits.len(),
{
    if digits.len() == 0 {
        0
    } else {
        10 * number(digits.drop_last()) + digits.last() - 48
    }
}

/// The text holds decimal digits only.
pub open spec fn is_digits(digits: Seq<u8>) -> bool {
    forall|i: int| 0 <= i < digits.len() ==> 48 <= #[trigger] digits[i] <= 57
}

/// The digits of a number are read back as that number, and start with 0 only for 0 itself.
pub proof fn decimal_is_read_back(n: int)
    requires
        0 <= n,
    ensures
        number(decimal(n)) == n,
        is_digits(decimal(n)),
        decimal(n).len() >= 1,
        decimal(n)[0] == 48 ==> n == 0,
    decreases n,
{
    let d = decimal(n);
    if n >= 10 {
        decimal_is_read_back(n / 10);
        assert(d.drop_last() =~= decimal(n / 10));
    } else {
        assert(d.drop_last() =~= seq![]);
        assert(number(seq![]) == 0);
    }
}

/// The value of a hexadecimal digit.
pub open spec fn hex_value(c: u8) -> int {
    if 48 <= c <= 57 {
        c - 48
    } else {
        c - 97 + 10
    }
}

/// A descriptor is read back from its digits: the two digits of a byte from the higher one, the four
/// bytes of a word from the lowest one.
pub proof fn descriptor_is_read_back(desc: Seq<u32>, w: int)
    requires
        0 <= w < 8,
    ensures
        ({
            let t = hex_descriptor(desc);
            let o = 8 * w;
            &&& t.len() == 64
            &&& desc[w] == 16 * hex_value(t[o]) + hex_value(t[o + 1]) + 256 * (16 * hex_value(
                t[o + 2],
            ) + hex_value(t[o + 3])) + 65536 * (16 * hex_value(t[o + 4]) + hex_value(t[o + 5]))
                + 16777216 * (16 * hex_value(t[o + 6]) + hex_value(t[o + 7]))
        }),
{
    let t = hex_descriptor(desc);
    let o = 8 * w;
    lemma_byte(desc, w, 0);
    lemma_byte(desc, w, 1);
    lemma_byte(desc, w, 2);
    lemma_byte(desc, w, 3);
    crate::words::lemma_unpack(desc[w]);
}

proof fn lemma_byte(desc: Seq<u32>, w: int, k: int)
    requires
        0 <= w < 8,
        0 <= k < 4,
    ensures
        ({
            let t = hex_descriptor(desc);
            16 * hex_value(t[8 * w + 2 * k]) + hex_value(t[8 * w + 2 * k + 1]) == word_byte(
                desc[w],
                k,
            )
        }),
{
    let i = 8 * w + 2 * k;
    assert(i / 8 == w && i / 2 % 4 == k && i % 2 == 0);
    assert((i + 1) / 8 == w && (i + 1) / 2 % 4 == k && (i + 1) % 2 == 1);
    let b = word_byte(desc[w], k) as int;
    let hi = b / 16;
    let lo = b % 16;
    assert(hex_value(hex_digit(hi)) == hi);
    assert(hex_value(hex_digit(lo)) == lo);
}

/// The text of a finite number is its sign, its whole part, a point and two decimals, and together they
/// stand for the number to the nearest hundredth.
pub proof fn fixed_is_read_back(x: Binary32)
    requires
        x.finite(),
    ensures
        ({
            let t = fixed2(x);
            let s: int = if x.negative() {
                1
            } else {
                0
            };
            let n = t.len() - 3;
            let c = 100 * number(t.subrange(s, n)) + number(t.subrange(n + 1, n + 3));
            &&& n >= s + 1
            &&& x.negative() ==> t[0] == 0x2D
            &&& is_digits(t.subrange(s, n))
            &&& t[n] == 0x2E
            &&& is_digits(t.subrange(n + 1, n + 3))
            &&& -one_units() <= 2 * (c * one_units() - 100 * mag(x.low())) <= one_units()
        }),
{
    let t = fixed2(x);
    let s: int = if x.negative() {
        1
    } else {
        0
    };
    let n = t.len() - 3;
    let u = one_units();
    vstd::arithmetic::power2::lemma_pow2_pos(149);
    let m = 100 * mag(x.low());
    if x.low() > 0 {
        crate::binary32::mag_is_increasing(0, x.low());
    }
    let c = nearest_even(m, u);
    lemma_nearest_even(m, u);
    decimal_is_read_back(c / 100);
    assert(t.subrange(s, n) =~= decimal(c / 100));
    let r = t.subrange(n + 1, n + 3);
    assert(r =~= seq![(48 + c % 100 / 10) as u8, (48 + c % 10) as u8]);
    assert(r.drop_last() =~= seq![(48 + c % 100 / 10) as u8]);
    assert(r.drop_last().drop_last() =~= seq![]);
    reveal_with_fuel(number, 3);
    assert(number(r) == c % 100);
}

proof fn lemma_nearest_even(n: int, d: int)
    requires
        0 <= n,
        0 < d,
    ensures
        0 <= nearest_even(n, d),
        -d <= 2 * (nearest_even(n, d) * d - n) <= d,
{
    vstd::arithmetic::div_mod::lemma_fundamental_div_mod(n, d);
    vstd::arithmetic::div_mod::lemma_mod_bound(n, d);
    vstd::arithmetic::div_mod::lemma_div_pos_is_pos(n, d);
    let q = n / d;
    assert((q + 1) * d == q * d + d) by (nonlinear_arith);
    assert(d * q == q * d) by (nonlinear_arith);
}

} // verus!
