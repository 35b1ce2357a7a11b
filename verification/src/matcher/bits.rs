//! What the distance counts, and which pairs match.

use vstd::prelude::*;

use crate::matcher::{
    accepted, all_matches, distance, distance_upto, matches_are_sound, ones, zero,
};

verus! {

/// Bit `j` of a word.
pub open spec fn bit(w: u32, j: int) -> bool {
    (w >> (j as u32)) & 1 == 1
}

/// The number of the first `n` bits in which the words `a` and `b` differ.
pub open spec fn differing(a: u32, b: u32, n: int) -> int
    decreases n,
{
    if n <= 0 {
        0
    } else {
        differing(a, b, n - 1) + if bit(a, n - 1) != bit(b, n - 1) {
            1int
        } else {
            0
        }
    }
}

/// The number of bits in which the first `n` words differ, bit by bit.
pub open spec fn differing_words(a: Seq<u32>, b: Seq<u32>, n: int) -> int
    decreases n,
{
    if n <= 0 {
        0
    } else {
        differing_words(a, b, n - 1) + differing(a[n - 1], b[n - 1], 32)
    }
}

/// The lowest bit, and the rest.
proof fn lemma_first_bit(a: u32, b: u32, n: int)
    requires
        1 <= n <= 32,
    ensures
        differing(a, b, n) == (if bit(a, 0) != bit(b, 0) {
            1int
        } else {
            0
        }) + differing(a / 2, b / 2, n - 1),
    decreases n,
{
    if n > 1 {
        lemma_first_bit(a, b, n - 1);
        let j: u32 = (n - 1) as u32;
        let k: u32 = (n - 2) as u32;
        assert((a >> j) & 1 == ((a / 2) >> k) & 1) by (bit_vector)
            requires
                1 <= j < 32,
                k == j - 1,
        ;
        assert((b >> j) & 1 == ((b / 2) >> k) & 1) by (bit_vector)
            requires
                1 <= j < 32,
                k == j - 1,
        ;
    } else {
        reveal_with_fuel(differing, 2);
    }
}

proof fn lemma_same(a: u32, n: int)
    ensures
        differing(a, a, n) == 0,
    decreases n,
{
    if n > 0 {
        lemma_same(a, n - 1);
    }
}

proof fn lemma_ones(a: u32, b: u32, n: int)
    requires
        0 <= n <= 32,
        a < vstd::arithmetic::power2::pow2(n as nat),
        b < vstd::arithmetic::power2::pow2(n as nat),
    ensures
        ones(a ^ b) == differing(a, b, n),
    decreases n,
{
    vstd::arithmetic::power2::lemma2_to64();
    if n == 0 {
        assert(a ^ b == 0) by (bit_vector)
            requires
                a == 0,
                b == 0,
        ;
    } else {
        vstd::arithmetic::power2::lemma_pow2_unfold(n as nat);
        lemma_first_bit(a, b, n);
        lemma_ones(a / 2, b / 2, n - 1);
        assert((a ^ b) / 2 == (a / 2) ^ (b / 2)) by (bit_vector);
        assert((a ^ b) % 2 == if (a >> 0u32) & 1 == 1 != ((b >> 0u32) & 1 == 1) {
            1u32
        } else {
            0
        }) by (bit_vector);
        if a ^ b == 0 {
            assert(a == b) by (bit_vector)
                requires
                    a ^ b == 0,
            ;
            lemma_same(a, n);
        }
    }
}

/// The distance of two descriptors counts the bits in which they differ, all 256 of them.
pub proof fn distance_counts_bits(a: Seq<u32>, b: Seq<u32>)
    ensures
        distance(a, b) == differing_words(a, b, 8),
{
    lemma_words(a, b, 8);
}

proof fn lemma_words(a: Seq<u32>, b: Seq<u32>, n: int)
    ensures
        distance_upto(a, b, n) == differing_words(a, b, n),
    decreases n,
{
    if n > 0 {
        lemma_words(a, b, n - 1);
        vstd::arithmetic::power2::lemma2_to64();
        lemma_ones(a[n - 1], b[n - 1], 32);
    }
}

/// A match is the best of its row and of its column and stands out: no descriptor on either side is
/// nearer to its partner, it is at most 100 bits off, and every other point is at least a quarter
/// further away.
pub proof fn matches_stand_out(query: Seq<Seq<u32>>, map: Seq<Seq<u32>>, i: int, q: int, m: int)
    requires
        query.len() <= u32::MAX + 1,
        map.len() <= u32::MAX + 1,
        0 <= i < all_matches(query, map).len(),
        0 <= q < query.len(),
        0 <= m < map.len(),
    ensures
        ({
            let f = all_matches(query, map)[i];
            let mine = query[f.query as int];
            let theirs = map[f.point as int];
            &&& f.dist <= 100
            &&& f.dist == differing_words(mine, theirs, 8)
            &&& !zero(map[m]) ==> f.dist <= differing_words(mine, map[m], 8)
            &&& !zero(query[q]) ==> f.dist <= differing_words(theirs, query[q], 8)
            &&& !zero(map[m]) && m != f.point ==> 4 * differing_words(mine, map[m], 8) >= 5 * f.dist
        }),
{
    matches_are_sound(query, map, i);
    let f = all_matches(query, map)[i];
    let mine = query[f.query as int];
    let theirs = map[f.point as int];
    distance_counts_bits(mine, theirs);
    distance_counts_bits(mine, map[m]);
    distance_counts_bits(theirs, query[q]);
    crate::matcher::distance_is_metric(mine, theirs, theirs);
    assert(accepted(query, map, f.query as int, f.point as int));
}

} // verus!
