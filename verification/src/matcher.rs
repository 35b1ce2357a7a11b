//! Brute-force matching of 256-bit binary descriptors: Hamming distance with an upper limit, Lowe's
//! ratio test and mutual nearest neighbours. Nothing is allocated; the caller owns all buffers.

use vstd::prelude::*;

use crate::store::{least, lemma_stored_push, stored};

pub mod bits;

verus! {

/// Eight words of 32 comparison bits each: bit `k` of word `i` is comparison `i * 32 + k`.
pub type Descriptor = [u32; 8];

/// Largest accepted distance, in bits.
pub const MATCH_MAX_DISTANCE: u32 = 100;

/// Lowe's ratio, 4/5: the numerator.
pub const LOWE_RATIO_NUM: u32 = 4;

/// Lowe's ratio, 4/5: the denominator.
pub const LOWE_RATIO_DEN: u32 = 5;

/// Anything that carries a descriptor.
pub trait DescriptorSource {
    /// The words of the descriptor.
    open spec fn words(&self) -> Seq<u32> {
        arbitrary()
    }

    fn descriptor(&self) -> (d: &Descriptor)
        ensures
            d@ == self.words(),
    ;
}

impl DescriptorSource for Descriptor {
    open spec fn words(&self) -> Seq<u32> {
        self@
    }

    fn descriptor(&self) -> &Descriptor {
        self
    }
}

/// All words are zero.
pub open spec fn zero(d: Seq<u32>) -> bool {
    forall|i: int| 0 <= i < 8 ==> #[trigger] d[i] == 0
}

/// Number of one bits.
pub open spec fn ones(w: u32) -> nat
    decreases w,
{
    if w == 0 {
        0
    } else {
        (w % 2) as nat + ones(w / 2)
    }
}

/// Number of bits in which the first `n` words differ.
pub open spec fn distance_upto(a: Seq<u32>, b: Seq<u32>, n: int) -> nat
    decreases n,
{
    if n <= 0 {
        0
    } else {
        distance_upto(a, b, n - 1) + ones(a[n - 1] ^ b[n - 1])
    }
}

/// Hamming distance: the number of bits in which two descriptors differ.
pub open spec fn distance(a: Seq<u32>, b: Seq<u32>) -> nat {
    distance_upto(a, b, 8)
}

proof fn lemma_ones_bound(w: u32, bits: nat)
    requires
        w < vstd::arithmetic::power2::pow2(bits),
    ensures
        ones(w) <= bits,
        w != 0 ==> ones(w) > 0,
    decreases bits,
{
    vstd::arithmetic::power2::lemma2_to64();
    if w != 0 {
        assert(bits > 0);
        vstd::arithmetic::power2::lemma_pow2_unfold(bits);
        lemma_ones_bound(w / 2, (bits - 1) as nat);
    }
}

proof fn lemma_distance_upto(a: Seq<u32>, b: Seq<u32>, n: int)
    requires
        0 <= n,
    ensures
        distance_upto(a, b, n) <= 32 * n,
        distance_upto(a, b, n) == distance_upto(b, a, n),
        distance_upto(a, b, n) == 0 <==> (forall|i: int| 0 <= i < n ==> #[trigger] a[i] == b[i]),
    decreases n,
{
    vstd::arithmetic::power2::lemma2_to64();
    if n > 0 {
        lemma_distance_upto(a, b, n - 1);
        let x = a[n - 1];
        let y = b[n - 1];
        lemma_ones_bound(x ^ y, 32);
        assert(x ^ y == y ^ x) by (bit_vector);
        assert((x ^ y == 0) == (x == y)) by (bit_vector);
        if distance_upto(a, b, n) == 0 {
            assert forall|i: int| 0 <= i < n implies #[trigger] a[i] == b[i] by {
                if i == n - 1 {
                    assert(ones(x ^ y) == 0);
                }
            }
        }
    }
}

proof fn lemma_ones_xor(p: u32, q: u32)
    ensures
        ones(p ^ q) <= ones(p) + ones(q),
    decreases p + q,
{
    assert((p ^ q) / 2 == (p / 2) ^ (q / 2) && (p ^ q) % 2 <= p % 2 + q % 2 && (p == 0 ==> p ^ q
        == q) && (q == 0 ==> p ^ q == p)) by (bit_vector);
    if p != 0 && q != 0 {
        lemma_ones_xor(p / 2, q / 2);
    }
}

proof fn lemma_triangle(a: Seq<u32>, b: Seq<u32>, c: Seq<u32>, n: int)
    ensures
        distance_upto(a, c, n) <= distance_upto(a, b, n) + distance_upto(b, c, n),
    decreases n,
{
    if n > 0 {
        lemma_triangle(a, b, c, n - 1);
        let x = a[n - 1];
        let y = b[n - 1];
        let z = c[n - 1];
        assert(x ^ z == (x ^ y) ^ (y ^ z)) by (bit_vector);
        lemma_ones_xor(x ^ y, y ^ z);
    }
}

/// The distance is a number of bits out of 256; it is the same both ways, 0 exactly between descriptors
/// with the same words, and never longer than by way of a third descriptor.
pub proof fn distance_is_metric(a: Seq<u32>, b: Seq<u32>, c: Seq<u32>)
    ensures
        distance(a, b) <= 256,
        distance(a, b) == distance(b, a),
        distance(a, b) == 0 <==> (forall|i: int| 0 <= i < 8 ==> #[trigger] a[i] == b[i]),
        distance(a, c) <= distance(a, b) + distance(b, c),
{
    lemma_distance_upto(a, b, 8);
    lemma_triangle(a, b, c, 8);
}

/// True for an all-zero descriptor, which never matches.
pub fn is_zero(d: &Descriptor) -> (r: bool)
    ensures
        r == zero(d@),
{
    for i in 0..8usize
        invariant
            forall|k: int| 0 <= k < i ==> #[trigger] d@[k] == 0,
    {
        if d[i] != 0 {
            return false;
        }
    }
    true
}

/// Number of one bits of a word.
fn count_ones(w: u32) -> (n: u32)
    ensures
        n == ones(w),
        n <= 32,
{
    let mut rest: u32 = w;
    let mut n: u32 = 0;
    proof {
        vstd::arithmetic::power2::lemma2_to64();
        lemma_ones_bound(w, 32);
    }
    while rest != 0
        invariant
            n + ones(rest) == ones(w),
            ones(w) <= 32,
        decreases rest,
    {
        n = n + rest % 2;
        rest = rest / 2;
    }
    n
}

/// Hamming distance between two descriptors.
pub fn hamming(a: &Descriptor, b: &Descriptor) -> (d: u32)
    ensures
        d == distance(a@, b@),
        d <= 256,
{
    let mut d: u32 = 0;
    for i in 0..8usize
        invariant
            d == distance_upto(a@, b@, i as int),
            d <= 32 * i,
    {
        d = d + count_ones(a[i] ^ b[i]);
    }
    d
}

/// One accepted pair; the indices are into the caller's slices.
#[derive(Clone, Copy, Debug, PartialEq, Eq, Structural)]
pub struct Match {
    pub query: u32,
    pub point: u32,
    pub dist: u32,
}

impl Default for Match {
    fn default() -> (m: Match)
        ensures
            m == (Match { query: 0, point: 0, dist: 0 }),
    {
        Match { query: 0, point: 0, dist: 0 }
    }
}

/// Reusable scratch: three slices with one entry per query, two with one entry per map point.
pub struct MatchBuffers<'a> {
    pub best_idx: &'a mut [u32],
    pub best_dist: &'a mut [u32],
    pub second_dist: &'a mut [u32],
    pub point_query: &'a mut [u32],
    pub point_dist: &'a mut [u32],
}

/// The descriptors of the first `n` items.
pub open spec fn descriptors<T: DescriptorSource>(items: Seq<T>, n: int) -> Seq<Seq<u32>> {
    Seq::new(n as nat, |i: int| items[i].words())
}

/// `ds[m]` is not zero, and no other nonzero item of `ds` is nearer to `d`; of equally near items it
/// is the first.
pub open spec fn first_nearest(d: Seq<u32>, ds: Seq<Seq<u32>>, m: int) -> bool {
    &&& 0 <= m < ds.len()
    &&& !zero(ds[m])
    &&& forall|k: int|
        0 <= k < ds.len() && !zero(#[trigger] ds[k]) ==> distance(d, ds[m]) < distance(d, ds[k]) || (
        distance(d, ds[m]) == distance(d, ds[k]) && m <= k)
}

/// All items of `ds` are zero.
pub open spec fn all_zero(ds: Seq<Seq<u32>>) -> bool {
    forall|k: int| 0 <= k < ds.len() ==> zero(#[trigger] ds[k])
}

/// `d2` is the least distance from `d` to a nonzero item of `ds` other than `m`, or `u32::MAX` where
/// there is none.
pub open spec fn is_second(d: Seq<u32>, ds: Seq<Seq<u32>>, m: int, d2: u32) -> bool {
    &&& forall|k: int|
        0 <= k < ds.len() && k != m && !zero(#[trigger] ds[k]) ==> d2 <= distance(d, ds[k])
    &&& d2 == u32::MAX || exists|k: int|
        0 <= k < ds.len() && k != m && !zero(#[trigger] ds[k]) && d2 == distance(d, ds[k])
}

/// What a scan of `ds` finds for `d`: the first nearest item, its distance and the second distance.
pub open spec fn scanned(d: Seq<u32>, ds: Seq<Seq<u32>>, idx: u32, d1: u32, d2: u32) -> bool {
    if all_zero(ds) {
        idx == 0 && d1 == u32::MAX && d2 == u32::MAX
    } else {
        &&& first_nearest(d, ds, idx as int)
        &&& d1 == distance(d, ds[idx as int])
        &&& is_second(d, ds, idx as int, d2)
    }
}

/// Entries of the per-query buffers for a query `d`. A zero query keeps its old index.
pub open spec fn query_entry(
    d: Seq<u32>,
    map: Seq<Seq<u32>>,
    idx: u32,
    d1: u32,
    d2: u32,
    old_idx: u32,
) -> bool {
    if zero(d) {
        idx == old_idx && d1 == u32::MAX && d2 == u32::MAX
    } else {
        scanned(d, map, idx, d1, d2)
    }
}

/// Entries of the per-point buffers for a point `d`. A point that no query was compared with keeps its
/// old index.
pub open spec fn point_entry(
    d: Seq<u32>,
    query: Seq<Seq<u32>>,
    idx: u32,
    d1: u32,
    old_idx: u32,
) -> bool {
    if zero(d) || all_zero(query) {
        idx == old_idx && d1 == u32::MAX
    } else {
        &&& first_nearest(d, query, idx as int)
        &&& d1 == distance(d, query[idx as int])
    }
}

/// The first `n` entries of the per-query buffers.
pub open spec fn query_entries(
    query: Seq<Seq<u32>>,
    map: Seq<Seq<u32>>,
    idx: Seq<u32>,
    d1: Seq<u32>,
    d2: Seq<u32>,
    old_idx: Seq<u32>,
    n: int,
) -> bool {
    forall|q: int|
        0 <= q < n ==> #[trigger] query_entry(query[q], map, idx[q], d1[q], d2[q], old_idx[q])
}

/// Entries `lo..hi` of the per-point buffers.
pub open spec fn point_entries(
    map: Seq<Seq<u32>>,
    query: Seq<Seq<u32>>,
    idx: Seq<u32>,
    d1: Seq<u32>,
    old_idx: Seq<u32>,
    lo: int,
    hi: int,
) -> bool {
    forall|m: int|
        lo <= m < hi ==> #[trigger] point_entry(map[m], query, idx[m], d1[m], old_idx[m])
}

/// Query `q` matches point `m`: each is the first nearest of the other, they are near enough, and by
/// the ratio test no other point is nearly as close.
pub open spec fn accepted(query: Seq<Seq<u32>>, map: Seq<Seq<u32>>, q: int, m: int) -> bool {
    &&& first_nearest(query[q], map, m)
    &&& first_nearest(map[m], query, q)
    &&& distance(query[q], map[m]) <= MATCH_MAX_DISTANCE
    &&& forall|k: int|
        0 <= k < map.len() && k != m && !zero(#[trigger] map[k]) ==> LOWE_RATIO_DEN * distance(
            query[q],
            map[m],
        ) <= LOWE_RATIO_NUM * distance(query[q], map[k])
}

/// Query `q` matches some point.
pub open spec fn has_match(query: Seq<Seq<u32>>, map: Seq<Seq<u32>>, q: int) -> bool {
    exists|m: int| accepted(query, map, q, m)
}

/// The match of query `q`.
pub open spec fn match_of(query: Seq<Seq<u32>>, map: Seq<Seq<u32>>, q: int) -> Match {
    let m = choose|m: int| accepted(query, map, q, m);
    Match { query: q as u32, point: m as u32, dist: distance(query[q], map[m]) as u32 }
}

/// The matches of the first `n` queries, in query order.
pub open spec fn matches_upto(query: Seq<Seq<u32>>, map: Seq<Seq<u32>>, n: int) -> Seq<Match>
    decreases n,
{
    if n <= 0 {
        seq![]
    } else if has_match(query, map, n - 1) {
        matches_upto(query, map, n - 1).push(match_of(query, map, n - 1))
    } else {
        matches_upto(query, map, n - 1)
    }
}

/// All matches, in query order.
pub open spec fn all_matches(query: Seq<Seq<u32>>, map: Seq<Seq<u32>>) -> Seq<Match> {
    matches_upto(query, map, query.len() as int)
}

/// The number of queries: the least of four lengths.
pub open spec fn query_count(len: int, b: MatchBuffers) -> int {
    least(
        least(len, b.best_idx@.len() as int),
        least(b.best_dist@.len() as int, b.second_dist@.len() as int),
    )
}

/// The number of points: the least of three lengths.
pub open spec fn point_count(len: int, b: MatchBuffers) -> int {
    least(len, least(b.point_query@.len() as int, b.point_dist@.len() as int))
}

/// The buffers only clamp: matching with the buffers `a` is matching the first queries and points that
/// they have room for, with any buffers `b` that have room for all of those. Nothing is stored in `out`
/// where there are no queries, no points or no room.
pub proof fn buffers_only_clamp<Q: DescriptorSource, M: DescriptorSource>(
    query: Seq<Q>,
    map: Seq<M>,
    out: Seq<Match>,
    a: MatchBuffers,
    b: MatchBuffers,
)
    requires
        query_count(query.len() as int, a) <= b.best_idx@.len(),
        query_count(query.len() as int, a) <= b.best_dist@.len(),
        query_count(query.len() as int, a) <= b.second_dist@.len(),
        point_count(map.len() as int, a) <= b.point_query@.len(),
        point_count(map.len() as int, a) <= b.point_dist@.len(),
    ensures
        ({
            let nq = query_count(query.len() as int, a);
            let nm = point_count(map.len() as int, a);
            let qs = query.take(nq);
            let ms = map.take(nm);
            let found = all_matches(descriptors(query, nq), descriptors(map, nm));
            &&& query_count(qs.len() as int, b) == nq
            &&& point_count(ms.len() as int, b) == nm
            &&& found == all_matches(
                descriptors(qs, query_count(qs.len() as int, b)),
                descriptors(ms, point_count(ms.len() as int, b)),
            )
            &&& nq == 0 || nm == 0 || out.len() == 0 ==> {
                &&& least(found.len() as int, out.len() as int) == 0
                &&& stored(out, found) == out
            }
        }),
{
    let nq = query_count(query.len() as int, a);
    let nm = point_count(map.len() as int, a);
    assert(descriptors(query.take(nq), nq) =~= descriptors(query, nq));
    assert(descriptors(map.take(nm), nm) =~= descriptors(map, nm));
    if nm == 0 {
        lemma_no_points(descriptors(query, nq), descriptors(map, nm), nq);
    }
    let found = all_matches(descriptors(query, nq), descriptors(map, nm));
    if found.len() == 0 || out.len() == 0 {
        assert(stored(out, found) =~= out);
    }
}

/// The first nearest item is unique.
pub proof fn first_nearest_is_unique(d: Seq<u32>, ds: Seq<Seq<u32>>, m: int, k: int)
    requires
        first_nearest(d, ds, m),
        first_nearest(d, ds, k),
    ensures
        m == k,
{
}

proof fn lemma_match_of(query: Seq<Seq<u32>>, map: Seq<Seq<u32>>, q: int, m: int)
    requires
        accepted(query, map, q, m),
    ensures
        has_match(query, map, q),
        match_of(query, map, q) == (Match {
            query: q as u32,
            point: m as u32,
            dist: distance(query[q], map[m]) as u32,
        }),
{
    let k = choose|k: int| accepted(query, map, q, k);
    first_nearest_is_unique(query[q], map, m, k);
}

proof fn lemma_matches_upto(query: Seq<Seq<u32>>, map: Seq<Seq<u32>>, n: int, i: int)
    requires
        0 <= n <= query.len() <= u32::MAX + 1,
        map.len() <= u32::MAX + 1,
        0 <= i < matches_upto(query, map, n).len(),
    ensures
        ({
            let found = matches_upto(query, map, n)[i];
            &&& found.query < n
            &&& accepted(query, map, found.query as int, found.point as int)
            &&& found.dist == distance(query[found.query as int], map[found.point as int])
        }),
    decreases n,
{
    let before = matches_upto(query, map, n - 1);
    if i < before.len() {
        lemma_matches_upto(query, map, n - 1, i);
    } else {
        let q = n - 1;
        let m = choose|m: int| accepted(query, map, q, m);
        lemma_match_of(query, map, q, m);
        lemma_distance_upto(query[q], map[m], 8);
    }
}

proof fn lemma_matches_ordered(query: Seq<Seq<u32>>, map: Seq<Seq<u32>>, n: int, i: int, j: int)
    requires
        0 <= n <= query.len() <= u32::MAX + 1,
        map.len() <= u32::MAX + 1,
        0 <= i < j < matches_upto(query, map, n).len(),
    ensures
        matches_upto(query, map, n)[i].query < matches_upto(query, map, n)[j].query,
    decreases n,
{
    let before = matches_upto(query, map, n - 1);
    if j < before.len() {
        lemma_matches_ordered(query, map, n - 1, i, j);
    } else {
        lemma_matches_upto(query, map, n - 1, i);
    }
}

/// Every listed match is an accepted pair with its distance: both descriptors are nonzero, each is the
/// first nearest of the other, the distance is within the limit and the ratio test holds.
pub proof fn matches_are_sound(query: Seq<Seq<u32>>, map: Seq<Seq<u32>>, i: int)
    requires
        query.len() <= u32::MAX + 1,
        map.len() <= u32::MAX + 1,
        0 <= i < all_matches(query, map).len(),
    ensures
        ({
            let found = all_matches(query, map)[i];
            let q = found.query as int;
            let m = found.point as int;
            &&& q < query.len() && m < map.len()
            &&& !zero(query[q]) && !zero(map[m])
            &&& accepted(query, map, q, m)
            &&& found.dist == distance(query[q], map[m])
            &&& found.dist <= MATCH_MAX_DISTANCE
        }),
{
    lemma_matches_upto(query, map, query.len() as int, i);
}

proof fn lemma_matches_kept(query: Seq<Seq<u32>>, map: Seq<Seq<u32>>, n: int, i: int)
    requires
        0 <= n <= query.len(),
        0 <= i < matches_upto(query, map, n).len(),
    ensures
        i < all_matches(query, map).len(),
        all_matches(query, map)[i] == matches_upto(query, map, n)[i],
    decreases query.len() - n,
{
    if n < query.len() {
        lemma_matches_kept(query, map, n + 1, i);
    }
}

/// Every accepted pair is listed.
pub proof fn matches_are_complete(query: Seq<Seq<u32>>, map: Seq<Seq<u32>>, q: int, m: int)
    requires
        accepted(query, map, q, m),
    ensures
        all_matches(query, map).contains(
            (Match { query: q as u32, point: m as u32, dist: distance(query[q], map[m]) as u32 }),
        ),
{
    lemma_match_of(query, map, q, m);
    let i = matches_upto(query, map, q).len() as int;
    assert(matches_upto(query, map, q + 1)[i] == match_of(query, map, q));
    lemma_matches_kept(query, map, q + 1, i);
}

/// Matches come in query order, and no query and no point is matched twice.
pub proof fn matches_are_one_to_one(query: Seq<Seq<u32>>, map: Seq<Seq<u32>>, i: int, j: int)
    requires
        query.len() <= u32::MAX + 1,
        map.len() <= u32::MAX + 1,
        0 <= i < j < all_matches(query, map).len(),
    ensures
        all_matches(query, map)[i].query < all_matches(query, map)[j].query,
        all_matches(query, map)[i].point != all_matches(query, map)[j].point,
{
    let a = all_matches(query, map)[i];
    let b = all_matches(query, map)[j];
    lemma_matches_ordered(query, map, query.len() as int, i, j);
    lemma_matches_upto(query, map, query.len() as int, i);
    lemma_matches_upto(query, map, query.len() as int, j);
    if a.point == b.point {
        first_nearest_is_unique(map[a.point as int], query, a.query as int, b.query as int);
    }
}

/// Compares query number `q` with every map point: returns the index of the first nearest point, its
/// distance and the second distance, and enters the query as the nearest of each point that it is
/// nearer to than the queries before it.
fn scan_query<M: DescriptorSource>(
    qd: &Descriptor,
    map: &[M],
    nm: usize,
    q: usize,
    Ghost(query): Ghost<Seq<Seq<u32>>>,
    Ghost(before): Ghost<Seq<u32>>,
    point_query: &mut [u32],
    point_dist: &mut [u32],
) -> (r: (u32, u32, u32))
    requires
        nm <= map.len(),
        nm <= old(point_query).len(),
        nm <= old(point_dist).len(),
        nm <= u32::MAX + 1,
        q <= u32::MAX,
        q < query.len(),
        query[q as int] == qd@,
        !zero(qd@),
        point_entries(
            descriptors(map@, nm as int),
            query.take(q as int),
            old(point_query)@,
            old(point_dist)@,
            before,
            0,
            nm as int,
        ),
    ensures
        scanned(qd@, descriptors(map@, nm as int), r.0, r.1, r.2),
        final(point_query)@.len() == old(point_query)@.len(),
        final(point_dist)@.len() == old(point_dist)@.len(),
        point_entries(
            descriptors(map@, nm as int),
            query.take(q + 1),
            final(point_query)@,
            final(point_dist)@,
            before,
            0,
            nm as int,
        ),
        final(point_query)@.skip(nm as int) == old(point_query)@.skip(nm as int),
        final(point_dist)@.skip(nm as int) == old(point_dist)@.skip(nm as int),
{
    let ghost ms = descriptors(map@, nm as int);
    let mut b1: u32 = u32::MAX;
    let mut b2: u32 = u32::MAX;
    let mut bi: u32 = 0;
    for m in 0..nm
        invariant
            ms == descriptors(map@, nm as int),
            nm <= map.len(),
            nm <= point_query.len(),
            nm <= point_dist.len(),
            nm <= u32::MAX + 1,
            q <= u32::MAX,
            q < query.len(),
            query[q as int] == qd@,
            !zero(qd@),
            point_query@.len() == old(point_query)@.len(),
            point_dist@.len() == old(point_dist)@.len(),
            scanned(qd@, ms.take(m as int), bi, b1, b2),
            point_entries(ms, query.take(q + 1), point_query@, point_dist@, before, 0, m as int),
            point_entries(
                ms,
                query.take(q as int),
                point_query@,
                point_dist@,
                before,
                m as int,
                nm as int,
            ),
            forall|k: int|
                nm <= k < point_query@.len() ==> #[trigger] point_query@[k] == old(point_query)@[k],
            forall|k: int|
                nm <= k < point_dist@.len() ==> #[trigger] point_dist@[k] == old(point_dist)@[k],
    {
        let md: &Descriptor = map[m].descriptor();
        let ghost pq0 = point_query@;
        let ghost pd0 = point_dist@;
        let ghost seen = ms.take(m as int);
        let ghost next = ms.take(m + 1);
        assert(next =~= seen.push(md@));
        assert(point_entry(
            ms[m as int],
            query.take(q as int),
            pq0[m as int],
            pd0[m as int],
            before[m as int],
        ));
        assert(query.take(q + 1) =~= query.take(q as int).push(qd@));
        if is_zero(md) {
            proof {
                lemma_scan_zero(qd@, seen, md@, bi, b1, b2);
                assert(point_entry(
                    ms[m as int],
                    query.take(q + 1),
                    pq0[m as int],
                    pd0[m as int],
                    before[m as int],
                ));
            }
        } else {
            let d: u32 = hamming(qd, md);
            proof {
                lemma_distance_upto(qd@, md@, 8);
                lemma_point_entry_push(
                    md@,
                    query.take(q as int),
                    qd@,
                    pq0[m as int],
                    pd0[m as int],
                    before[m as int],
                );
                lemma_scan_push(qd@, seen, md@, bi, b1, b2);
            }
            if d < point_dist[m] {
                point_dist[m] = d;
                point_query[m] = q as u32;
            }
            if d < b1 {
                b2 = b1;
                b1 = d;
                bi = m as u32;
            } else if d < b2 {
                b2 = d;
            }
        }
        proof {
            let pq = point_query@;
            let pd = point_dist@;
            assert forall|k: int| 0 <= k < m + 1 implies #[trigger] point_entry(
                ms[k],
                query.take(q + 1),
                pq[k],
                pd[k],
                before[k],
            ) by {
                if k < m {
                    assert(point_entry(ms[k], query.take(q + 1), pq0[k], pd0[k], before[k]));
                }
            }
            assert forall|k: int| m + 1 <= k < nm implies #[trigger] point_entry(
                ms[k],
                query.take(q as int),
                pq[k],
                pd[k],
                before[k],
            ) by {
                assert(point_entry(ms[k], query.take(q as int), pq0[k], pd0[k], before[k]));
            }
        }
    }
    proof {
        assert(ms.take(nm as int) =~= ms);
        assert(point_query@.skip(nm as int) =~= old(point_query)@.skip(nm as int));
        assert(point_dist@.skip(nm as int) =~= old(point_dist)@.skip(nm as int));
    }
    (bi, b1, b2)
}

proof fn lemma_scan_zero(d: Seq<u32>, ds: Seq<Seq<u32>>, x: Seq<u32>, idx: u32, d1: u32, d2: u32)
    requires
        scanned(d, ds, idx, d1, d2),
        zero(x),
    ensures
        scanned(d, ds.push(x), idx, d1, d2),
{
    let next = ds.push(x);
    assert(forall|k: int| 0 <= k < ds.len() ==> next[k] == ds[k]);
    if all_zero(ds) {
        assert(all_zero(next));
    } else {
        let k = choose|k: int| 0 <= k < ds.len() && !zero(#[trigger] ds[k]);
        assert(!zero(next[k]));
        if d2 != u32::MAX {
            let k = choose|k: int|
                0 <= k < ds.len() && k != idx && !zero(#[trigger] ds[k]) && d2 == distance(d, ds[k]);
            assert(!zero(next[k]));
        }
    }
}

proof fn lemma_scan_push(d: Seq<u32>, ds: Seq<Seq<u32>>, x: Seq<u32>, idx: u32, d1: u32, d2: u32)
    requires
        scanned(d, ds, idx, d1, d2),
        !zero(x),
        ds.len() <= u32::MAX,
    ensures
        distance(d, x) < d1 ==> scanned(
            d,
            ds.push(x),
            ds.len() as u32,
            distance(d, x) as u32,
            d1,
        ),
        d1 <= distance(d, x) < d2 ==> scanned(d, ds.push(x), idx, d1, distance(d, x) as u32),
        d1 <= distance(d, x) && d2 <= distance(d, x) ==> scanned(d, ds.push(x), idx, d1, d2),
{
    let next = ds.push(x);
    let n = ds.len() as int;
    lemma_distance_upto(d, x, 8);
    assert(forall|k: int| 0 <= k < n ==> next[k] == ds[k]);
    assert(next[n] == x);
    assert(!zero(next[n]));
    if distance(d, x) < d1 {
        if !all_zero(ds) {
            assert(!zero(next[idx as int]));
            assert(is_second(d, next, n, d1));
        } else {
            assert(forall|k: int| 0 <= k < n ==> zero(#[trigger] next[k]));
        }
    } else if distance(d, x) < d2 {
        assert(!all_zero(ds));
        assert(is_second(d, next, idx as int, distance(d, x) as u32));
    } else {
        assert(!all_zero(ds));
        if d2 != u32::MAX {
            let k = choose|k: int|
                0 <= k < ds.len() && k != idx && !zero(#[trigger] ds[k]) && d2 == distance(d, ds[k]);
            assert(!zero(next[k]));
        }
    }
}

proof fn lemma_point_entry_push(
    d: Seq<u32>,
    query: Seq<Seq<u32>>,
    x: Seq<u32>,
    idx: u32,
    d1: u32,
    old_idx: u32,
)
    requires
        point_entry(d, query, idx, d1, old_idx),
        !zero(x),
        !zero(d),
        query.len() <= u32::MAX,
    ensures
        distance(d, x) < d1 ==> point_entry(
            d,
            query.push(x),
            query.len() as u32,
            distance(d, x) as u32,
            old_idx,
        ),
        distance(d, x) >= d1 ==> point_entry(d, query.push(x), idx, d1, old_idx),
{
    let next = query.push(x);
    let n = query.len() as int;
    lemma_distance_upto(d, x, 8);
    assert(forall|k: int| 0 <= k < n ==> next[k] == query[k]);
    assert(next[n] == x);
    assert(!zero(next[n]));
}

/// Matching `qs` against `ms` turns the buffers `a` into `b`: the nearest point and the two smallest
/// distances of each query, and the nearest query and its distance of each point. What lies beyond is
/// kept, and so is everything where there is nothing to match or no room for matches.
pub open spec fn buffers_left(
    qs: Seq<Seq<u32>>,
    ms: Seq<Seq<u32>>,
    room: int,
    a: MatchBuffers,
    b: MatchBuffers,
) -> bool {
    let nq = qs.len() as int;
    let nm = ms.len() as int;
    &&& b.best_idx@.len() == a.best_idx@.len()
    &&& b.best_dist@.len() == a.best_dist@.len()
    &&& b.second_dist@.len() == a.second_dist@.len()
    &&& b.point_query@.len() == a.point_query@.len()
    &&& b.point_dist@.len() == a.point_dist@.len()
    &&& if nq == 0 || nm == 0 || room == 0 {
        &&& b.best_idx@ == a.best_idx@
        &&& b.best_dist@ == a.best_dist@
        &&& b.second_dist@ == a.second_dist@
        &&& b.point_query@ == a.point_query@
        &&& b.point_dist@ == a.point_dist@
    } else {
        &&& query_entries(
            qs,
            ms,
            b.best_idx@,
            b.best_dist@,
            b.second_dist@,
            a.best_idx@,
            nq,
        )
        &&& point_entries(ms, qs, b.point_query@, b.point_dist@, a.point_query@, 0, nm)
        &&& b.best_idx@.skip(nq) == a.best_idx@.skip(nq)
        &&& b.best_dist@.skip(nq) == a.best_dist@.skip(nq)
        &&& b.second_dist@.skip(nq) == a.second_dist@.skip(nq)
        &&& b.point_query@.skip(nm) == a.point_query@.skip(nm)
        &&& b.point_dist@.skip(nm) == a.point_dist@.skip(nm)
    }
}

/// Matches `query` against `map`, stores the accepted matches in `out` and returns how many were
/// stored. The buffers clamp the number of queries and of points to their lengths.
pub fn match_map<Q: DescriptorSource, M: DescriptorSource>(
    query: &[Q],
    map: &[M],
    out: &mut [Match],
    b: &mut MatchBuffers,
) -> (n: usize)
    requires
        query_count(query.len() as int, *old(b)) <= u32::MAX + 1,
        point_count(map.len() as int, *old(b)) <= u32::MAX + 1,
    ensures
        ({
            let nq = query_count(query.len() as int, *old(b));
            let nm = point_count(map.len() as int, *old(b));
            let qs = descriptors(query@, nq);
            let ms = descriptors(map@, nm);
            let found = all_matches(qs, ms);
            &&& n == least(found.len() as int, old(out)@.len() as int)
            &&& final(out)@ == stored(old(out)@, found)
            &&& buffers_left(qs, ms, old(out)@.len() as int, *old(b), *final(b))
        }),
        final(final(b).best_idx)@ == final(old(b).best_idx)@,
        final(final(b).best_dist)@ == final(old(b).best_dist)@,
        final(final(b).second_dist)@ == final(old(b).second_dist)@,
        final(final(b).point_query)@ == final(old(b).point_query)@,
        final(final(b).point_dist)@ == final(old(b).point_dist)@,
{
    let nq: usize = min(
        min(query.len(), b.best_idx.len()),
        min(b.best_dist.len(), b.second_dist.len()),
    );
    let nm: usize = min(map.len(), min(b.point_query.len(), b.point_dist.len()));
    let ghost qs = descriptors(query@, nq as int);
    let ghost ms = descriptors(map@, nm as int);
    if nq == 0 || nm == 0 || out.is_empty() {
        proof {
            if nm == 0 {
                lemma_no_points(qs, ms, nq as int);
            }
            assert(stored(out@, all_matches(qs, ms)) =~= out@);
        }
        return 0;
    }
    match_clamped(
        query,
        map,
        nq,
        nm,
        out,
        b.best_idx,
        b.best_dist,
        b.second_dist,
        b.point_query,
        b.point_dist,
    )
}

proof fn lemma_no_points(qs: Seq<Seq<u32>>, ms: Seq<Seq<u32>>, n: int)
    requires
        ms.len() == 0,
    ensures
        matches_upto(qs, ms, n) == Seq::<Match>::empty(),
    decreases n,
{
    if n > 0 {
        lemma_no_points(qs, ms, n - 1);
    }
}

fn min(a: usize, b: usize) -> (r: usize)
    ensures
        r == least(a as int, b as int),
{
    if a < b {
        a
    } else {
        b
    }
}

fn match_clamped<Q: DescriptorSource, M: DescriptorSource>(
    query: &[Q],
    map: &[M],
    nq: usize,
    nm: usize,
    out: &mut [Match],
    best_idx: &mut [u32],
    best_dist: &mut [u32],
    second_dist: &mut [u32],
    point_query: &mut [u32],
    point_dist: &mut [u32],
) -> (n: usize)
    requires
        nq <= query.len(),
        nq <= old(best_idx).len(),
        nq <= old(best_dist).len(),
        nq <= old(second_dist).len(),
        nm <= map.len(),
        nm <= old(point_query).len(),
        nm <= old(point_dist).len(),
        nq <= u32::MAX + 1,
        nm <= u32::MAX + 1,
    ensures
        ({
            let qs = descriptors(query@, nq as int);
            let ms = descriptors(map@, nm as int);
            let found = all_matches(qs, ms);
            &&& n == least(found.len() as int, old(out)@.len() as int)
            &&& final(out)@ == stored(old(out)@, found)
            &&& query_entries(
                qs,
                ms,
                final(best_idx)@,
                final(best_dist)@,
                final(second_dist)@,
                old(best_idx)@,
                nq as int,
            )
            &&& point_entries(
                ms,
                qs,
                final(point_query)@,
                final(point_dist)@,
                old(point_query)@,
                0,
                nm as int,
            )
        }),
        final(best_idx)@.len() == old(best_idx)@.len(),
        final(best_dist)@.len() == old(best_dist)@.len(),
        final(second_dist)@.len() == old(second_dist)@.len(),
        final(point_query)@.len() == old(point_query)@.len(),
        final(point_dist)@.len() == old(point_dist)@.len(),
        final(best_idx)@.skip(nq as int) == old(best_idx)@.skip(nq as int),
        final(best_dist)@.skip(nq as int) == old(best_dist)@.skip(nq as int),
        final(second_dist)@.skip(nq as int) == old(second_dist)@.skip(nq as int),
        final(point_query)@.skip(nm as int) == old(point_query)@.skip(nm as int),
        final(point_dist)@.skip(nm as int) == old(point_dist)@.skip(nm as int),
{
    let ghost qs = descriptors(query@, nq as int);
    let ghost ms = descriptors(map@, nm as int);
    for m in 0..nm
        invariant
            nm <= point_dist.len(),
            point_dist@.len() == old(point_dist)@.len(),
            forall|k: int| 0 <= k < m ==> #[trigger] point_dist@[k] == u32::MAX,
            forall|k: int|
                m <= k < point_dist@.len() ==> #[trigger] point_dist@[k] == old(point_dist)@[k],
    {
        point_dist[m] = u32::MAX;
    }
    assert(point_dist@.skip(nm as int) =~= old(point_dist)@.skip(nm as int));
    assert(all_zero(qs.take(0)));
    for q in 0..nq
        invariant
            qs == descriptors(query@, nq as int),
            ms == descriptors(map@, nm as int),
            nq <= query.len(),
            nq <= best_idx.len(),
            nq <= best_dist.len(),
            nq <= second_dist.len(),
            nm <= map.len(),
            nm <= point_query.len(),
            nm <= point_dist.len(),
            nq <= u32::MAX + 1,
            nm <= u32::MAX + 1,
            best_idx@.len() == old(best_idx)@.len(),
            best_dist@.len() == old(best_dist)@.len(),
            second_dist@.len() == old(second_dist)@.len(),
            point_query@.len() == old(point_query)@.len(),
            point_dist@.len() == old(point_dist)@.len(),
            point_query@.skip(nm as int) == old(point_query)@.skip(nm as int),
            point_dist@.skip(nm as int) == old(point_dist)@.skip(nm as int),
            forall|k: int| q <= k < best_idx@.len() ==> #[trigger] best_idx@[k] == old(best_idx)@[k],
            forall|k: int|
                nq <= k < best_dist@.len() ==> #[trigger] best_dist@[k] == old(best_dist)@[k],
            forall|k: int|
                nq <= k < second_dist@.len() ==> #[trigger] second_dist@[k] == old(second_dist)@[k],
            query_entries(qs, ms, best_idx@, best_dist@, second_dist@, old(best_idx)@, q as int),
            point_entries(
                ms,
                qs.take(q as int),
                point_query@,
                point_dist@,
                old(point_query)@,
                0,
                nm as int,
            ),
    {
        let qd: &Descriptor = query[q].descriptor();
        let ghost bi0 = best_idx@;
        let ghost bd0 = best_dist@;
        let ghost sd0 = second_dist@;
        if is_zero(qd) {
            best_dist[q] = u32::MAX;
            second_dist[q] = u32::MAX;
            proof {
                let pq = point_query@;
                let pd = point_dist@;
                let before = old(point_query)@;
                assert forall|m: int| 0 <= m < nm implies #[trigger] point_entry(
                    ms[m],
                    qs.take(q + 1),
                    pq[m],
                    pd[m],
                    before[m],
                ) by {
                    assert(point_entry(ms[m], qs.take(q as int), pq[m], pd[m], before[m]));
                    lemma_point_entry_zero(ms[m], qs, q as int, pq[m], pd[m], before[m]);
                }
            }
        } else {
            let (bi, b1, b2): (u32, u32, u32) = scan_query(
                qd,
                map,
                nm,
                q,
                Ghost(qs),
                Ghost(old(point_query)@),
                point_query,
                point_dist,
            );
            best_idx[q] = bi;
            best_dist[q] = b1;
            second_dist[q] = b2;
        }
        proof {
            let bi1 = best_idx@;
            let bd1 = best_dist@;
            let sd1 = second_dist@;
            let before = old(best_idx)@;
            assert forall|k: int| 0 <= k < q + 1 implies #[trigger] query_entry(
                qs[k],
                ms,
                bi1[k],
                bd1[k],
                sd1[k],
                before[k],
            ) by {
                if k < q {
                    assert(query_entry(qs[k], ms, bi0[k], bd0[k], sd0[k], before[k]));
                }
            }
        }
    }
    proof {
        assert(qs.take(nq as int) =~= qs);
        assert(best_idx@.skip(nq as int) =~= old(best_idx)@.skip(nq as int));
        assert(best_dist@.skip(nq as int) =~= old(best_dist)@.skip(nq as int));
        assert(second_dist@.skip(nq as int) =~= old(second_dist)@.skip(nq as int));
        assert(out@ =~= stored(old(out)@, matches_upto(qs, ms, 0)));
    }
    let mut nout: usize = 0;
    for q in 0..nq
        invariant
            qs.len() == nq,
            ms.len() == nm,
            nq <= best_idx.len(),
            nq <= best_dist.len(),
            nq <= second_dist.len(),
            nm <= point_query.len(),
            nq <= u32::MAX + 1,
            nm <= u32::MAX + 1,
            query_entries(qs, ms, best_idx@, best_dist@, second_dist@, old(best_idx)@, nq as int),
            point_entries(ms, qs, point_query@, point_dist@, old(point_query)@, 0, nm as int),
            out@.len() == old(out)@.len(),
            nout == least(matches_upto(qs, ms, q as int).len() as int, out@.len() as int),
            out@ == stored(old(out)@, matches_upto(qs, ms, q as int)),
    {
        let b1: u32 = best_dist[q];
        let b2: u32 = second_dist[q];
        assert(query_entry(
            qs[q as int],
            ms,
            best_idx@[q as int],
            b1,
            b2,
            old(best_idx)@[q as int],
        ));
        if is_match(
            q,
            b1,
            b2,
            best_idx[q],
            Ghost(qs),
            Ghost(ms),
            Ghost(old(point_query)@),
            point_query,
            point_dist,
        ) {
            let m: u32 = best_idx[q];
            proof {
                lemma_match_of(qs, ms, q as int, m as int);
                lemma_stored_push(
                    old(out)@,
                    matches_upto(qs, ms, q as int),
                    match_of(qs, ms, q as int),
                );
            }
            if nout < out.len() {
                out[nout] = Match { query: q as u32, point: m, dist: b1 };
                nout = nout + 1;
            }
        }
    }
    nout
}

proof fn lemma_point_entry_zero(
    d: Seq<u32>,
    query: Seq<Seq<u32>>,
    n: int,
    idx: u32,
    d1: u32,
    old_idx: u32,
)
    requires
        0 <= n < query.len(),
        zero(query[n]),
        point_entry(d, query.take(n), idx, d1, old_idx),
    ensures
        point_entry(d, query.take(n + 1), idx, d1, old_idx),
{
    let seen = query.take(n);
    let next = query.take(n + 1);
    assert(next =~= seen.push(query[n]));
    assert(forall|k: int| 0 <= k < n ==> next[k] == seen[k]);
    if !all_zero(seen) {
        let k = choose|k: int| 0 <= k < seen.len() && !zero(#[trigger] seen[k]);
        assert(!zero(next[k]));
    } else {
        assert(all_zero(next));
    }
}

/// Decides whether query `q` matches its nearest point.
fn is_match(
    q: usize,
    b1: u32,
    b2: u32,
    m: u32,
    Ghost(qs): Ghost<Seq<Seq<u32>>>,
    Ghost(ms): Ghost<Seq<Seq<u32>>>,
    Ghost(before): Ghost<Seq<u32>>,
    point_query: &[u32],
    point_dist: &[u32],
) -> (r: bool)
    requires
        q < qs.len(),
        qs.len() <= u32::MAX + 1,
        ms.len() <= point_query.len(),
        zero(qs[q as int]) ==> b1 == u32::MAX,
        !zero(qs[q as int]) ==> scanned(qs[q as int], ms, m, b1, b2),
        point_entries(ms, qs, point_query@, point_dist@, before, 0, ms.len() as int),
    ensures
        r ==> accepted(qs, ms, q as int, m as int) && b1 == distance(qs[q as int], ms[m as int]),
        !r ==> !has_match(qs, ms, q as int),
{
    let ghost d = qs[q as int];
    proof {
        assert forall|k: int| accepted(qs, ms, q as int, k) implies !zero(d) && k == m by {
            first_nearest_is_unique(d, ms, k, m as int);
        }
    }
    if b1 > MATCH_MAX_DISTANCE {
        return false;
    }
    assert(!all_zero(ms));
    if b2 != u32::MAX {
        proof {
            let k = choose|k: int|
                0 <= k < ms.len() && k != m && !zero(#[trigger] ms[k]) && b2 == distance(d, ms[k]);
            lemma_distance_upto(d, ms[k], 8);
        }
        if LOWE_RATIO_DEN * b1 > LOWE_RATIO_NUM * b2 {
            return false;
        }
    } else {
        proof {
            assert forall|k: int| 0 <= k < ms.len() && k != m implies zero(#[trigger] ms[k]) by {
                lemma_distance_upto(d, ms[k], 8);
            }
        }
    }
    assert(point_entry(
        ms[m as int],
        qs,
        point_query@[m as int],
        point_dist@[m as int],
        before[m as int],
    ));
    assert(!all_zero(qs));
    if point_query[m as usize] as usize != q {
        proof {
            assert forall|k: int| !accepted(qs, ms, q as int, k) by {
                if accepted(qs, ms, q as int, k) {
                    first_nearest_is_unique(ms[k], qs, q as int, point_query@[m as int] as int);
                }
            }
        }
        return false;
    }
    true
}

} // verus!
