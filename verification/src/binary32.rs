//! Single-precision floating point in integer arithmetic: sums, products, quotients, comparisons and
//! conversions of IEEE 754 binary32 numbers, each the exact result rounded to the nearest
//! representable number, ties to even.
//!
//! Magnitudes are measured in units of 2^-149, the smallest positive number of the format: every
//! finite number is a whole number of units.

use vstd::arithmetic::power2::{
    lemma2_to64, lemma2_to64_rest, lemma_pow2_adds, lemma_pow2_pos, lemma_pow2_strictly_increases,
    lemma_pow2_unfold, pow2,
};
use vstd::prelude::*;

verus! {

/// A binary32 number by its encoding.
#[derive(Clone, Copy, Debug, PartialEq, Eq, Structural)]
pub struct Binary32 {
    pub bits: u32,
}

/// Encoding of positive infinity: the encodings below it are the finite magnitudes in order.
pub const INF_BITS: u32 = 0x7F80_0000;

/// Encoding of the not-a-number that every invalid operation yields.
pub const NAN_BITS: u32 = 0x7FC0_0000;

/// Encoding of the sign.
pub const SIGN_BIT: u32 = 0x8000_0000;

/// Number of values of the fraction field.
pub const FRACTION: u32 = 0x80_0000;

/// The magnitude with encoding `k`, in units of 2^-149. Infinity stands for 2^128, the first power of
/// two that is too large.
pub open spec fn mag(k: int) -> int {
    if k < FRACTION {
        k
    } else {
        (FRACTION + k % (FRACTION as int)) * pow2((k / (FRACTION as int) - 1) as nat)
    }
}

/// `n / d` units round to the magnitude with encoding `k`: twice the quotient lies between the sums of
/// that magnitude and its neighbours, and on a sum itself only where `k` is even.
pub open spec fn rounds_to(n: int, d: int, k: int) -> bool {
    &&& 0 <= k <= INF_BITS
    &&& k == 0 || (mag(k - 1) + mag(k)) * d < 2 * n || ((mag(k - 1) + mag(k)) * d == 2 * n && k % 2
        == 0)
    &&& k == INF_BITS || 2 * n < (mag(k) + mag(k + 1)) * d || (2 * n == (mag(k) + mag(k + 1)) * d
        && k % 2 == 0)
}

/// Encoding of the magnitude that `n / d` units round to.
pub open spec fn rounded(n: int, d: int) -> u32 {
    choose|k: u32| rounds_to(n, d, k as int)
}

/// Units in 1.
pub open spec fn one_units() -> int {
    pow2(149) as int
}

impl Binary32 {
    /// The sign bit is set.
    pub open spec fn negative(self) -> bool {
        self.bits >= SIGN_BIT
    }

    /// Encoding without the sign.
    pub open spec fn low(self) -> int {
        self.bits as int % (SIGN_BIT as int)
    }

    /// Not a number.
    pub open spec fn nan(self) -> bool {
        self.low() > INF_BITS
    }

    /// An infinity.
    pub open spec fn inf(self) -> bool {
        self.low() == INF_BITS
    }

    /// A finite number.
    pub open spec fn finite(self) -> bool {
        self.low() < INF_BITS
    }

    /// Signed value in units of 2^-149; an infinity counts as 2^128.
    pub open spec fn units(self) -> int {
        if self.negative() {
            -mag(self.low())
        } else {
            mag(self.low())
        }
    }
}

/// The number with the given sign and magnitude encoding.
pub open spec fn signed(negative: bool, k: u32) -> Binary32 {
    Binary32 {
        bits: if negative {
            (k + SIGN_BIT) as u32
        } else {
            k
        },
    }
}

/// The not-a-number that every invalid operation yields.
pub open spec fn not_a_number() -> Binary32 {
    Binary32 { bits: NAN_BITS }
}

/// The product of two numbers.
#[verifier::opaque]
pub open spec fn product(a: Binary32, b: Binary32) -> Binary32 {
    let negative = a.negative() != b.negative();
    if a.nan() || b.nan() || (a.inf() && b.low() == 0) || (b.inf() && a.low() == 0) {
        not_a_number()
    } else if a.inf() || b.inf() {
        signed(negative, INF_BITS)
    } else {
        signed(negative, rounded(mag(a.low()) * mag(b.low()), one_units()))
    }
}

/// The quotient of two numbers.
#[verifier::opaque]
pub open spec fn quotient(a: Binary32, b: Binary32) -> Binary32 {
    let negative = a.negative() != b.negative();
    if a.nan() || b.nan() || (a.inf() && b.inf()) || (a.low() == 0 && b.low() == 0) {
        not_a_number()
    } else if a.inf() || b.low() == 0 {
        signed(negative, INF_BITS)
    } else if b.inf() {
        signed(negative, 0)
    } else {
        signed(negative, rounded(mag(a.low()) * one_units(), mag(b.low())))
    }
}

/// The sum of two numbers. A sum of zero is negative only where both numbers are.
#[verifier::opaque]
pub open spec fn sum(a: Binary32, b: Binary32) -> Binary32 {
    if a.nan() || b.nan() || (a.inf() && b.inf() && a.negative() != b.negative()) {
        not_a_number()
    } else if a.inf() {
        a
    } else if b.inf() {
        b
    } else {
        let t = a.units() + b.units();
        if t == 0 {
            signed(a.negative() && b.negative(), 0)
        } else if t < 0 {
            signed(true, rounded(-t, 1))
        } else {
            signed(false, rounded(t, 1))
        }
    }
}

/// The number with the opposite sign.
pub open spec fn opposite(a: Binary32) -> Binary32 {
    signed(!a.negative(), a.low() as u32)
}

/// The difference of two numbers.
pub open spec fn difference(a: Binary32, b: Binary32) -> Binary32 {
    sum(a, opposite(b))
}

/// The number nearest to an integer.
pub open spec fn nearest_int(v: int) -> Binary32 {
    if v < 0 {
        signed(true, rounded(-v * one_units(), 1))
    } else {
        signed(false, rounded(v * one_units(), 1))
    }
}

/// `a` is less than `b`.
pub open spec fn less(a: Binary32, b: Binary32) -> bool {
    !a.nan() && !b.nan() && a.units() < b.units()
}

/// `a` is at most `b`.
pub open spec fn at_most(a: Binary32, b: Binary32) -> bool {
    !a.nan() && !b.nan() && a.units() <= b.units()
}

/// The number without its sign.
pub open spec fn magnitude(a: Binary32) -> Binary32 {
    signed(false, a.low() as u32)
}

/// The larger of two numbers; the other one where one is not a number.
pub open spec fn larger(a: Binary32, b: Binary32) -> Binary32 {
    if a.nan() || less(a, b) {
        b
    } else {
        a
    }
}

/// The smaller of two numbers; the other one where one is not a number.
pub open spec fn smaller(a: Binary32, b: Binary32) -> Binary32 {
    if a.nan() || less(b, a) {
        b
    } else {
        a
    }
}

/// The whole part of a number, toward zero, held to the range of `i32`; 0 for a not-a-number.
pub open spec fn truncated(a: Binary32) -> int {
    let whole = mag(a.low()) / one_units();
    if a.nan() {
        0
    } else if a.negative() {
        if whole > 0x8000_0000 {
            i32::MIN as int
        } else {
            -whole
        }
    } else {
        if whole > 0x7FFF_FFFF {
            i32::MAX as int
        } else {
            whole
        }
    }
}

/// The integer nearest to `n / d`, ties to even.
pub open spec fn nearest_even(n: int, d: int) -> int {
    let whole = n / d;
    let rest = n % d;
    if 2 * rest > d || (2 * rest == d && whole % 2 == 1) {
        whole + 1
    } else {
        whole
    }
}

/// The integer nearest to a number, ties to even.
pub open spec fn half_even(x: Binary32) -> int {
    if x.negative() {
        -nearest_even(mag(x.low()), one_units())
    } else {
        nearest_even(mag(x.low()), one_units())
    }
}

/// Encoding of 2^31.
pub const TWO_31_BITS: u32 = 0x4F00_0000;

/// The magnitude encoded as `m + e * 2^23` is `m * 2^e`.
proof fn lemma_mag(m: int, e: int)
    requires
        0 <= m <= 2 * FRACTION,
        0 <= e <= 254,
        e > 0 ==> m >= FRACTION,
    ensures
        mag(m + e * FRACTION) == m * pow2(e as nat),
{
    let k = m + e * FRACTION;
    lemma2_to64();
    if m < FRACTION {
        assert(e == 0);
        assert(m * pow2(e as nat) == m) by (nonlinear_arith)
            requires
                pow2(e as nat) == 1,
        ;
    } else if m < 2 * FRACTION {
        assert(k / (FRACTION as int) == e + 1);
        assert(k % (FRACTION as int) == m - FRACTION);
    } else {
        assert(k / (FRACTION as int) == e + 2);
        assert(k % (FRACTION as int) == 0);
        lemma_pow2_unfold((e + 1) as nat);
        assert(m * pow2(e as nat) == FRACTION * pow2((e + 1) as nat)) by (nonlinear_arith)
            requires
                m == 2 * FRACTION,
                pow2((e + 1) as nat) == 2 * pow2(e as nat),
        ;
    }
}

/// Larger encodings stand for larger magnitudes.
pub proof fn mag_is_increasing(j: int, k: int)
    requires
        0 <= j < k <= INF_BITS,
    ensures
        mag(j) < mag(k),
    decreases k - j,
{
    if j < k - 1 {
        mag_is_increasing(j, k - 1);
    }
    let p = k - 1;
    if p < FRACTION {
        lemma_mag(p, 0);
        lemma_mag(k, 0);
        lemma2_to64();
    } else {
        let e = p / (FRACTION as int) - 1;
        let m = FRACTION + p % (FRACTION as int);
        lemma_mag(m, e);
        lemma_mag(m + 1, e);
        lemma_pow2_pos(e as nat);
        assert(m * pow2(e as nat) < (m + 1) * pow2(e as nat)) by (nonlinear_arith)
            requires
                pow2(e as nat) > 0,
        ;
    }
}

/// Rounding has one result.
pub proof fn rounding_is_unique(n: int, d: int, j: int, k: int)
    requires
        d > 0,
        rounds_to(n, d, j),
        rounds_to(n, d, k),
    ensures
        j == k,
{
    lemma_rounding_order(n, d, j, k);
    lemma_rounding_order(n, d, k, j);
}

proof fn lemma_rounding_order(n: int, d: int, j: int, k: int)
    requires
        d > 0,
        rounds_to(n, d, j),
        rounds_to(n, d, k),
    ensures
        j >= k,
{
    let a = mag(j) + mag(j + 1);
    let b = mag(k - 1) + mag(k);
    if j + 1 < k {
        mag_is_increasing(j, k - 1);
        mag_is_increasing(j + 1, k);
        assert(a < b);
        assert(a * d < b * d) by (nonlinear_arith)
            requires
                a < b,
                d > 0,
        ;
    }
}

/// A rounded result is named by `rounded`.
proof fn lemma_rounded(n: int, d: int, k: u32)
    requires
        d > 0,
        rounds_to(n, d, k as int),
    ensures
        rounded(n, d) == k,
{
    rounding_is_unique(n, d, k as int, rounded(n, d) as int);
}

proof fn lemma_floor(n: int, d: int, top: int) -> (k: int)
    requires
        n >= 0,
        d > 0,
        0 <= top <= INF_BITS,
        top == INF_BITS || n < mag(top + 1) * d,
    ensures
        0 <= k <= top,
        mag(k) * d <= n,
        k == INF_BITS || n < mag(k + 1) * d,
    decreases top,
{
    if top == 0 {
        lemma_mag(0, 0);
        assert(mag(0) == 0);
        assert(0 * d == 0);
        0
    } else if mag(top) * d <= n {
        top
    } else {
        lemma_floor(n, d, top - 1)
    }
}

/// Every nonnegative quotient rounds to some magnitude, and `rounded` names it.
pub proof fn rounding_is_total(n: int, d: int)
    requires
        n >= 0,
        d > 0,
    ensures
        rounds_to(n, d, rounded(n, d) as int),
        rounded(n, d) <= INF_BITS,
{
    let j = lemma_floor(n, d, INF_BITS as int);
    let x = mag(j);
    if j == INF_BITS {
        mag_is_increasing(j - 1, j);
        let w = mag(j - 1);
        assert((w + x) * d < 2 * n) by (nonlinear_arith)
            requires
                w < x,
                x * d <= n,
                d > 0,
        ;
        assert(rounds_to(n, d, j));
        lemma_rounded(n, d, j as u32);
    } else {
        let y = mag(j + 1);
        let mid = (x + y) * d;
        assert(mid == x * d + y * d) by (nonlinear_arith)
            requires
                mid == (x + y) * d,
        ;
        if 2 * n < mid || (2 * n == mid && j % 2 == 0) {
            if j > 0 {
                mag_is_increasing(j - 1, j);
                let w = mag(j - 1);
                assert((w + x) * d < 2 * n) by (nonlinear_arith)
                    requires
                        w < x,
                        x * d <= n,
                        d > 0,
                ;
            }
            assert(rounds_to(n, d, j));
            lemma_rounded(n, d, j as u32);
        } else {
            let k = j + 1;
            if k < INF_BITS {
                mag_is_increasing(k, k + 1);
                let z = mag(k + 1);
                assert(2 * n < (y + z) * d) by (nonlinear_arith)
                    requires
                        n < y * d,
                        y < z,
                        d > 0,
                ;
            }
            assert(rounds_to(n, d, k));
            lemma_rounded(n, d, k as u32);
        }
    }
}

/// Distance from a magnitude to the next one.
proof fn lemma_gap(k: int)
    requires
        0 <= k < INF_BITS,
    ensures
        (mag(k + 1) - mag(k)) * FRACTION <= mag(k) + FRACTION,
        mag(k) >= 0,
{
    lemma2_to64();
    if k < FRACTION {
        lemma_mag(k, 0);
        lemma_mag(k + 1, 0);
    } else {
        let e = k / (FRACTION as int) - 1;
        let m = FRACTION + k % (FRACTION as int);
        let p = pow2(e as nat) as int;
        lemma_mag(m, e);
        lemma_mag(m + 1, e);
        lemma_pow2_pos(e as nat);
        assert(((m + 1) * p - m * p) * FRACTION <= m * p && m * p >= 0) by (nonlinear_arith)
            requires
                m >= FRACTION,
                p > 0,
        ;
    }
}

/// Below 2^127 a rounded result is off by at most one part in 2^24, or half the smallest number.
pub proof fn rounding_error(n: int, d: int)
    requires
        n >= 0,
        d > 0,
        n < pow2(276) * d,
    ensures
        rounded(n, d) < INF_BITS,
        2 * FRACTION * (mag(rounded(n, d) as int) * d - n) <= n + FRACTION * d,
        2 * FRACTION * (n - mag(rounded(n, d) as int) * d) <= n + FRACTION * d,
{
    rounding_is_total(n, d);
    let k = rounded(n, d) as int;
    let x = mag(k);
    if k == INF_BITS {
        lemma_mag(FRACTION as int, 254);
        lemma_pow2_adds(23, 254);
        lemma_pow2_unfold(277);
        lemma2_to64();
        mag_is_increasing(0, k - 1);
        lemma_mag(0, 0);
        let w = mag(k - 1);
        let t = pow2(276) as int;
        assert((w + x) * d > 2 * n) by (nonlinear_arith)
            requires
                x == 2 * t,
                w > 0,
                n < t * d,
                d > 0,
        ;
    }
    lemma_gap(k);
    let y = mag(k + 1);
    if n >= x * d {
        assert(2 * FRACTION * (n - x * d) <= n + FRACTION * d) by (nonlinear_arith)
            requires
                2 * n <= (x + y) * d,
                (y - x) * FRACTION <= x + FRACTION,
                n >= x * d,
                d > 0,
        ;
    } else {
        assert(k > 0) by {
            if k == 0 {
                lemma_mag(0, 0);
                assert(0 * d == 0);
            }
        }
        lemma_gap(k - 1);
        let w = mag(k - 1);
        assert(2 * FRACTION * (x * d - n) <= n + FRACTION * d) by (nonlinear_arith)
            requires
                2 * n >= (w + x) * d,
                (x - w) * FRACTION <= w + FRACTION,
                n < x * d,
                d > 0,
        ;
    }
}

/// A number with at most 24 significant bits is representable.
proof fn lemma_representable(m: int, e: int) -> (k: u32)
    requires
        0 <= m < 2 * FRACTION,
        0 <= e <= 253,
    ensures
        k < INF_BITS,
        mag(k as int) == m * pow2(e as nat),
    decreases e,
{
    if e == 0 || m >= FRACTION {
        lemma_mag(m, e);
        (m + e * FRACTION) as u32
    } else {
        lemma_pow2_unfold(e as nat);
        let p = pow2((e - 1) as nat) as int;
        assert(m * (2 * p) == (2 * m) * p) by (nonlinear_arith);
        lemma_representable(2 * m, e - 1)
    }
}

/// A representable magnitude rounds to itself.
pub(crate) proof fn lemma_exact(n: int, d: int, k: u32)
    requires
        d > 0,
        k < INF_BITS,
        n == mag(k as int) * d,
    ensures
        rounded(n, d) == k,
{
    let x = mag(k as int);
    if k > 0 {
        mag_is_increasing(k - 1, k as int);
        let w = mag(k - 1);
        assert((w + x) * d < 2 * n) by (nonlinear_arith)
            requires
                w < x,
                n == x * d,
                d > 0,
        ;
    }
    mag_is_increasing(k as int, k + 1);
    let y = mag(k + 1);
    assert(2 * n < (x + y) * d) by (nonlinear_arith)
        requires
            x < y,
            n == x * d,
            d > 0,
    ;
    lemma_rounded(n, d, k);
}

/// A whole number of less than 25 bits, times a power of two, is not changed by rounding.
proof fn lemma_short_is_exact(m: int, e: int)
    requires
        0 <= m < 2 * FRACTION,
        0 <= e <= 253,
    ensures
        mag(rounded(m * pow2(e as nat), 1) as int) == m * pow2(e as nat),
        rounded(m * pow2(e as nat), 1) < INF_BITS,
{
    let k = lemma_representable(m, e);
    lemma_exact(m * pow2(e as nat), 1, k);
}

/// No representable magnitude is nearer to `n / d` than the one it rounds to, where 2^128 counts as
/// representable.
pub proof fn rounding_is_nearest(n: int, d: int, k: int, j: int)
    requires
        d > 0,
        rounds_to(n, d, k),
        0 <= j <= INF_BITS,
    ensures
        mag(k) * d - n <= vstd::math::abs(mag(j) * d - n),
        n - mag(k) * d <= vstd::math::abs(mag(j) * d - n),
{
    let a = mag(k);
    let b = mag(j);
    if j < k {
        let p = mag(k - 1);
        if j < k - 1 {
            mag_is_increasing(j, k - 1);
        }
        mag_is_increasing(k - 1, k);
        assert(b * d <= p * d <= a * d) by (nonlinear_arith)
            requires
                b <= p <= a,
                d > 0,
        ;
        assert((p + a) * d == p * d + a * d) by (nonlinear_arith);
    } else if j > k {
        let p = mag(k + 1);
        if j > k + 1 {
            mag_is_increasing(k + 1, j);
        }
        mag_is_increasing(k, k + 1);
        assert(a * d <= p * d <= b * d) by (nonlinear_arith)
            requires
                a <= p <= b,
                d > 0,
        ;
        assert((a + p) * d == a * d + p * d) by (nonlinear_arith);
    }
}

/// Rounding of `nn / b` to the mantissa `m` or `m + 1` at exponent `e`, where `n / d` is
/// `nn / b * 2^e`.
proof fn lemma_round(n: int, d: int, nn: int, b: int, e: int, m: int, up: bool)
    requires
        d > 0,
        b > 0,
        0 <= e <= 253,
        0 <= m < 2 * FRACTION,
        e > 0 ==> m >= FRACTION,
        n * b == nn * d * pow2(e as nat),
        m * b <= nn < (m + 1) * b,
        up == (2 * nn > (2 * m + 1) * b || (2 * nn == (2 * m + 1) * b && m % 2 == 1)),
    ensures
        rounds_to(
            n,
            d,
            m + e * FRACTION + if up {
                1int
            } else {
                0
            },
        ),
{
    let p = pow2(e as nat) as int;
    lemma_pow2_pos(e as nat);
    lemma_mag(m, e);
    lemma_mag(m + 1, e);
    let u = d * p;
    assert(u > 0) by (nonlinear_arith)
        requires
            u == d * p,
            d > 0,
            p > 0,
    ;
    assert(n * b == nn * u) by (nonlinear_arith)
        requires
            n * b == nn * d * p,
            u == d * p,
    ;
    // The midpoint of the two candidates, scaled as `2 * n` is.
    let mid = (2 * m + 1) * u;
    assert((mag(m + e * FRACTION) + mag(m + 1 + e * FRACTION)) * d == mid) by (nonlinear_arith)
        requires
            mag(m + e * FRACTION) == m * p,
            mag(m + 1 + e * FRACTION) == (m + 1) * p,
            u == d * p,
            mid == (2 * m + 1) * u,
    ;
    assert((2 * n) * b == (2 * nn) * u) by (nonlinear_arith)
        requires
            n * b == nn * u,
    ;
    lemma_scale(2 * n, b, 2 * nn, u, 2 * m + 1);
    let k = m + e * FRACTION;
    if up {
        assert(n < (m + 1) * u) by (nonlinear_arith)
            requires
                n * b == nn * u,
                nn < (m + 1) * b,
                b > 0,
                u > 0,
        ;
        if k + 1 < INF_BITS {
            mag_is_increasing(k + 1, k + 2);
            assert(2 * n < (mag(k + 1) + mag(k + 2)) * d) by (nonlinear_arith)
                requires
                    n < (m + 1) * u,
                    u == d * p,
                    mag(k + 1) == (m + 1) * p,
                    mag(k + 1) < mag(k + 2),
                    d > 0,
            ;
        }
        assert(2 * nn == (2 * m + 1) * b ==> (k + 1) % 2 == 0);
    } else {
        assert(n >= m * u) by (nonlinear_arith)
            requires
                n * b == nn * u,
                nn >= m * b,
                b > 0,
                u > 0,
        ;
        if k > 0 {
            mag_is_increasing(k - 1, k);
            assert(2 * n > (mag(k - 1) + mag(k)) * d) by (nonlinear_arith)
                requires
                    n >= m * u,
                    u == d * p,
                    mag(k) == m * p,
                    mag(k - 1) < mag(k),
                    d > 0,
            ;
        }
        assert(2 * nn == (2 * m + 1) * b ==> k % 2 == 0);
    }
}

/// `x / b == y / u` in proportion: both compare with `c` alike.
proof fn lemma_scale(x: int, b: int, y: int, u: int, c: int)
    requires
        b > 0,
        u > 0,
        x * b == y * u,
    ensures
        y > c * b <==> x > c * u,
        y == c * b <==> x == c * u,
        y < c * b <==> x < c * u,
{
    if y > c * b {
        assert(x > c * u) by (nonlinear_arith)
            requires
                y > c * b,
                x * b == y * u,
                b > 0,
                u > 0,
        ;
    } else if y < c * b {
        assert(x < c * u) by (nonlinear_arith)
            requires
                y < c * b,
                x * b == y * u,
                b > 0,
                u > 0,
        ;
    } else {
        assert(x == c * u) by (nonlinear_arith)
            requires
                y == c * b,
                x * b == y * u,
                b > 0,
        ;
    }
}

/// A product that stays below 2^127: its sign, and its magnitude up to the rounding error.
pub proof fn product_error(a: Binary32, b: Binary32)
    requires
        a.finite(),
        b.finite(),
        mag(a.low()) * mag(b.low()) < pow2(276) * one_units(),
    ensures
        ({
            let r = product(a, b);
            let n = mag(a.low()) * mag(b.low());
            &&& r.finite()
            &&& r.negative() == (a.negative() != b.negative())
            &&& 2 * FRACTION * (mag(r.low()) * one_units() - n) <= n + FRACTION * one_units()
            &&& 2 * FRACTION * (n - mag(r.low()) * one_units()) <= n + FRACTION * one_units()
        }),
{
    reveal(product);
    lemma_mag_nonnegative(a.low());
    lemma_mag_nonnegative(b.low());
    let n = mag(a.low()) * mag(b.low());
    assert(n >= 0) by (nonlinear_arith)
        requires
            n == mag(a.low()) * mag(b.low()),
            mag(a.low()) >= 0,
            mag(b.low()) >= 0,
    ;
    lemma_pow2_pos(149);
    rounding_error(n, one_units());
}

/// A quotient that stays below 2^127: its sign, and its magnitude up to the rounding error.
pub proof fn quotient_error(a: Binary32, b: Binary32)
    requires
        a.finite(),
        b.finite(),
        b.low() > 0,
        mag(a.low()) * one_units() < pow2(276) * mag(b.low()),
    ensures
        ({
            let r = quotient(a, b);
            let n = mag(a.low()) * one_units();
            let d = mag(b.low());
            &&& r.finite()
            &&& r.negative() == (a.negative() != b.negative())
            &&& 2 * FRACTION * (mag(r.low()) * d - n) <= n + FRACTION * d
            &&& 2 * FRACTION * (n - mag(r.low()) * d) <= n + FRACTION * d
        }),
{
    reveal(quotient);
    lemma_mag_nonnegative(a.low());
    mag_is_increasing(0, b.low());
    lemma_mag_nonnegative(0);
    lemma_pow2_pos(149);
    let n = mag(a.low()) * one_units();
    assert(n >= 0) by (nonlinear_arith)
        requires
            n == mag(a.low()) * one_units(),
            mag(a.low()) >= 0,
            one_units() > 0,
    ;
    rounding_error(n, mag(b.low()));
}

/// A sum that stays below 2^127: its value up to the rounding error.
pub proof fn sum_error(a: Binary32, b: Binary32)
    requires
        a.finite(),
        b.finite(),
        -pow2(276) < a.units() + b.units() < pow2(276),
    ensures
        ({
            let r = sum(a, b);
            let t = a.units() + b.units();
            &&& r.finite()
            &&& 2 * FRACTION * (r.units() - t) <= vstd::math::abs(t) + FRACTION
            &&& 2 * FRACTION * (t - r.units()) <= vstd::math::abs(t) + FRACTION
            &&& t > 0 ==> !r.negative()
        }),
{
    reveal(sum);
    let t = a.units() + b.units();
    lemma_mag_nonnegative(0);
    if t > 0 {
        rounding_error(t, 1);
    } else if t < 0 {
        rounding_error(-t, 1);
    }
}

/// An integer of less than 25 bits is held exactly.
pub proof fn small_int_is_exact(v: int)
    requires
        -(2 * FRACTION) < v < 2 * FRACTION,
    ensures
        nearest_int(v).finite(),
        nearest_int(v).units() == v * one_units(),
        nearest_int(v).negative() == (v < 0),
{
    let a = if v < 0 {
        -v
    } else {
        v
    };
    lemma_short_is_exact(a, 149);
    assert(a * pow2(149) * 1 == a * one_units());
    if v < 0 {
        assert((-v) * one_units() == -(v * one_units())) by (nonlinear_arith);
    }
}

proof fn lemma_mag_nonnegative(k: int)
    requires
        0 <= k <= INF_BITS,
    ensures
        mag(k) >= 0,
        mag(0) == 0,
{
    if k > 0 {
        mag_is_increasing(0, k);
    }
}

/// The power of two `2^e`.
fn two_to(e: u32) -> (p: u128)
    requires
        e < 128,
    ensures
        p == pow2(e as nat),
        p > 0,
{
    proof {
        lemma_pow2_pos(e as nat);
        lemma2_to64();
    }
    if e < 64 {
        proof {
            vstd::bits::lemma_u64_pow2_no_overflow(e as nat);
            vstd::bits::lemma_u64_shl_is_mul(1, e as u64);
        }
        (1u64 << e as u64) as u128
    } else {
        let h: u64 = (e - 64) as u64;
        proof {
            vstd::bits::lemma_u64_pow2_no_overflow(h as nat);
            vstd::bits::lemma_u64_shl_is_mul(1, h);
            lemma_pow2_adds(h as nat, 64);
        }
        (1u64 << h) as u128 * 0x1_0000_0000_0000_0000
    }
}

proof fn lemma_pow2_128()
    ensures
        pow2(127) == u128::MAX / 2 + 1,
        pow2(126) == u128::MAX / 4 + 1,
{
    lemma2_to64();
    lemma_pow2_adds(64, 63);
    lemma_pow2_adds(64, 62);
    lemma2_to64_rest();
    assert(0x1_0000_0000_0000_0000int * 0x8000_0000_0000_0000int
        == 0x8000_0000_0000_0000_0000_0000_0000_0000int);
    assert(0x1_0000_0000_0000_0000int * 0x4000_0000_0000_0000int
        == 0x4000_0000_0000_0000_0000_0000_0000_0000int);
}

proof fn lemma_pow2_monotone(a: nat, b: nat)
    requires
        a <= b,
    ensures
        pow2(a) <= pow2(b),
{
    if a < b {
        lemma_pow2_strictly_increases(a, b);
    }
}

/// Number of bits of a nonzero word.
fn bit_len64(q: u64) -> (n: u32)
    requires
        q > 0,
    ensures
        1 <= n <= 64,
        pow2((n - 1) as nat) <= q < pow2(n as nat),
{
    let z: u32 = q.leading_zeros();
    proof {
        vstd::std_specs::bits::axiom_u64_leading_zeros(q);
        lemma2_to64();
        let t = (63 - z) as u64;
        vstd::bits::lemma_u64_shr_is_div(q, t);
        assert((q >> t) & 1u64 != 0u64 ==> q >> t != 0u64) by (bit_vector);
        lemma_pow2_pos(t as nat);
        vstd::arithmetic::div_mod::lemma_fundamental_div_mod(q as int, pow2(t as nat) as int);
        vstd::arithmetic::mul::lemma_mul_inequality(
            1,
            q as int / pow2(t as nat) as int,
            pow2(t as nat) as int,
        );
        if z > 0 {
            let u = (64 - z) as u64;
            vstd::bits::lemma_u64_shr_is_div(q, u);
            lemma_pow2_pos(u as nat);
            vstd::arithmetic::div_mod::lemma_fundamental_div_mod(q as int, pow2(u as nat) as int);
            assert(pow2(u as nat) * 0 == 0);
        }
    }
    64 - z
}

/// Number of bits of a nonzero number.
fn bit_len(q: u128) -> (n: u32)
    requires
        0 < q < pow2(126),
    ensures
        1 <= n <= 126,
        pow2((n - 1) as nat) <= q < pow2(n as nat),
{
    let hi: u64 = (q / 0x1_0000_0000_0000_0000) as u64;
    proof {
        lemma2_to64();
        lemma_pow2_128();
    }
    if hi == 0 {
        bit_len64(q as u64)
    } else {
        let h: u32 = bit_len64(hi);
        proof {
            lemma_pow2_adds((h - 1) as nat, 64);
            lemma_pow2_adds(h as nat, 64);
            if h + 64 > 126 {
                lemma_pow2_monotone(126, (h + 63) as nat);
            }
        }
        h + 64
    }
}

/// The value `n / d` lies in the cell `q` of width `2^s`: it is `nn / a * 2^s`, and `nn / a` has the
/// whole part `q`, with a remainder exactly where `sticky` is set.
spec fn in_cell(n: int, d: int, nn: int, a: int, q: int, sticky: bool, s: int) -> bool {
    &&& d > 0
    &&& a > 0
    &&& q * a <= nn < (q + 1) * a
    &&& sticky == (nn != q * a)
    &&& s >= 0 ==> n * a == nn * d * pow2(s as nat)
    &&& s < 0 ==> n * a * pow2((-s) as nat) == nn * d
}

/// The scale of a cell after `sh` more bits are cut off its whole part.
proof fn lemma_cell_scale(
    n: int,
    d: int,
    nn: int,
    a: int,
    q: int,
    sticky: bool,
    s: int,
    sh: nat,
    e: nat,
)
    requires
        in_cell(n, d, nn, a, q, sticky, s),
        e == s + sh,
    ensures
        n * (a * pow2(sh)) == nn * d * pow2(e),
{
    if s >= 0 {
        lemma_pow2_adds(s as nat, sh);
        let x = pow2(s as nat) as int;
        let y = pow2(sh) as int;
        assert(n * (a * y) == nn * d * (x * y)) by (nonlinear_arith)
            requires
                n * a == nn * d * x,
        ;
    } else {
        let t = (-s) as nat;
        lemma_pow2_adds(t, e);
        let x = pow2(t) as int;
        let y = pow2(e) as int;
        assert(n * (a * (x * y)) == nn * d * y) by (nonlinear_arith)
            requires
                n * a * x == nn * d,
        ;
    }
}

/// Rounds a value that is known up to a cell.
fn round_cell(
    q: u128,
    sticky: bool,
    s: i32,
    Ghost(n): Ghost<int>,
    Ghost(d): Ghost<int>,
    Ghost(nn): Ghost<int>,
    Ghost(a): Ghost<int>,
) -> (k: u32)
    requires
        in_cell(n, d, nn, a, q as int, sticky, s as int),
        q < pow2(126),
        sticky ==> q >= pow2(25),
        -1000 < s < 1000,
    ensures
        k == rounded(n, d),
        k <= INF_BITS,
        rounds_to(n, d, k as int),
{
    proof {
        lemma2_to64();
        assert(0 * a == 0);
    }
    if q == 0 {
        proof {
            assert(nn == 0);
            if s < 0 {
                lemma_pow2_pos((-s) as nat);
            }
            assert(n == 0) by (nonlinear_arith)
                requires
                    nn == 0,
                    a > 0,
                    s >= 0 ==> n * a == nn * d * pow2(s as nat),
                    s < 0 ==> n * a * pow2((-s) as nat) == nn * d,
                    s < 0 ==> pow2((-s) as nat) > 0,
            ;
            lemma_rounded(n, d, 0);
        }
        return 0;
    }
    let len: u32 = bit_len(q);
    let top: i32 = len as i32 - 24 + s;
    let e: i32 = if top > 0 {
        top
    } else {
        0
    };
    if e >= 254 {
        proof {
            lemma_overflow(n, d, nn, a, q as int, sticky, s as int, len as int);
            lemma_rounded(n, d, INF_BITS);
        }
        return INF_BITS;
    }
    if e <= s {
        // All of the value fits in the mantissa.
        let t: u32 = (s - e) as u32;
        assert(len <= 24);
        proof {
            if sticky {
                lemma_pow2_monotone(len as nat, 24);
            }
            lemma_pow2_adds(len as nat, t as nat);
            lemma_pow2_adds((len - 1) as nat, t as nat);
            lemma_pow2_monotone((len + t) as nat, 24);
            if e > 0 {
                assert(len - 1 + t == 23);
            }
            lemma_pow2_pos(t as nat);
        }
        let p: u128 = two_to(t);
        assert(q * p < pow2(24)) by (nonlinear_arith)
            requires
                q < pow2(len as nat),
                p > 0,
                pow2(len as nat) * p == pow2((len + t) as nat),
                pow2((len + t) as nat) <= pow2(24),
        ;
        assert(q * p >= pow2((len - 1 + t) as nat)) by (nonlinear_arith)
            requires
                q >= pow2((len - 1) as nat),
                p > 0,
                pow2((len - 1) as nat) * p == pow2((len - 1 + t) as nat),
        ;
        let m: u32 = (q * p) as u32;
        proof {
            lemma_pow2_adds(t as nat, e as nat);
            let w = nn * p;
            assert(n * a == w * d * pow2(e as nat)) by (nonlinear_arith)
                requires
                    n * a == nn * d * pow2(s as nat),
                    pow2(s as nat) == p * pow2(e as nat),
                    w == nn * p,
            ;
            assert(w == m * a) by (nonlinear_arith)
                requires
                    w == nn * p,
                    nn == q * a,
                    m == q * p,
            ;
            assert((m + 1) * a == m * a + a) by (nonlinear_arith);
            assert((2 * m + 1) * a == 2 * (m * a) + a) by (nonlinear_arith);
            lemma_round(n, d, w, a, e as int, m as int, false);
        }
        let k: u32 = m + e as u32 * FRACTION;
        proof {
            lemma_rounded(n, d, k);
        }
        return k;
    }
    let sh: u32 = (e - s) as u32;
    proof {
        lemma_cell_scale(n, d, nn, a, q as int, sticky, s as int, sh as nat, e as nat);
        lemma_pow2_pos(sh as nat);
    }
    if sh > len {
        // Less than half the smallest positive number.
        proof {
            let b = a * pow2(sh as nat);
            lemma_pow2_unfold(sh as nat);
            lemma_pow2_monotone(len as nat, (sh - 1) as nat);
            assert(2 * nn < b) by (nonlinear_arith)
                requires
                    nn < (q + 1) * a,
                    q + 1 <= pow2(len as nat),
                    2 * pow2(len as nat) <= pow2(sh as nat),
                    b == a * pow2(sh as nat),
                    a > 0,
            ;
            assert(nn >= 0) by (nonlinear_arith)
                requires
                    q * a <= nn,
                    a > 0,
                    q >= 0,
            ;
            lemma_round(n, d, nn, b, 0, 0, false);
            lemma_rounded(n, d, 0);
        }
        return 0;
    }
    let p: u128 = two_to(sh);
    let half: u128 = two_to(sh - 1);
    let m: u128 = q / p;
    let rest: u128 = q % p;
    let up: bool = rest > half || (rest == half && (sticky || m % 2 == 1));
    proof {
        lemma_pow2_unfold(sh as nat);
        vstd::arithmetic::div_mod::lemma_fundamental_div_mod(q as int, p as int);
        lemma_mantissa(q as int, p as int, m as int, len as int, sh as int, e as int);
        lemma_half(q as int, sticky, nn, a, p as int, half as int, m as int, rest as int);
        lemma_round(n, d, nn, a * p, e as int, m as int, up);
    }
    let k: u32 = m as u32 + e as u32 * FRACTION + if up {
        1
    } else {
        0
    };
    proof {
        lemma_rounded(n, d, k);
    }
    k
}

/// A value of at least 2^128 rounds to infinity.
proof fn lemma_overflow(n: int, d: int, nn: int, a: int, q: int, sticky: bool, s: int, len: int)
    requires
        in_cell(n, d, nn, a, q, sticky, s),
        1 <= len <= 126,
        pow2((len - 1) as nat) <= q,
        len - 24 + s >= 254,
    ensures
        rounds_to(n, d, INF_BITS as int),
{
    assert(s >= 0);
    let x = pow2(s as nat) as int;
    let y = pow2((len - 1) as nat) as int;
    lemma_pow2_adds((len - 1) as nat, s as nat);
    lemma_pow2_monotone(277, (len - 1 + s) as nat);
    lemma_pow2_pos(s as nat);
    assert(n >= q * (d * x)) by (nonlinear_arith)
        requires
            n * a == nn * d * x,
            nn >= q * a,
            a > 0,
            d > 0,
            x > 0,
    ;
    assert(q * (d * x) >= d * (y * x)) by (nonlinear_arith)
        requires
            q >= y,
            d > 0,
            x > 0,
    ;
    lemma_mag(FRACTION as int, 254);
    lemma_pow2_adds(23, 254);
    lemma2_to64();
    let top = mag(INF_BITS as int);
    assert(top == pow2(277));
    mag_is_increasing(INF_BITS - 1, INF_BITS as int);
    let below = mag(INF_BITS - 1);
    assert((below + top) * d < 2 * n) by (nonlinear_arith)
        requires
            n >= d * (y * x),
            y * x >= top,
            below < top,
            d > 0,
    ;
}

/// Range of a mantissa that was cut to at most 24 bits.
proof fn lemma_mantissa(q: int, p: int, m: int, len: int, sh: int, e: int)
    requires
        1 <= sh <= len,
        e >= 0,
        e > 0 ==> sh == len - 24,
        e == 0 ==> sh >= len - 24,
        p == pow2(sh as nat),
        m == q / p,
        pow2((len - 1) as nat) <= q < pow2(len as nat),
    ensures
        0 <= m < 2 * FRACTION,
        e > 0 ==> m >= FRACTION,
{
    lemma2_to64();
    lemma_pow2_pos(sh as nat);
    vstd::arithmetic::div_mod::lemma_fundamental_div_mod(q, p);
    let r = q % p;
    lemma_pow2_adds(sh as nat, (len - sh) as nat);
    lemma_pow2_monotone((len - sh) as nat, 24);
    assert(m < pow2(24)) by (nonlinear_arith)
        requires
            q == p * m + r,
            r >= 0,
            p > 0,
            q < pow2(len as nat),
            pow2(len as nat) == p * pow2((len - sh) as nat),
            pow2((len - sh) as nat) <= pow2(24),
    ;
    assert(m >= 0) by (nonlinear_arith)
        requires
            q == p * m + r,
            r < p,
            q >= 0,
            p > 0,
    ;
    if e > 0 {
        lemma_pow2_adds(sh as nat, 23);
        assert(m >= pow2(23)) by (nonlinear_arith)
            requires
                q == p * m + r,
                r < p,
                q >= p * pow2(23),
                p > 0,
        ;
    }
}

/// Comparing the bits cut off with one half compares the exact value with the midpoint.
proof fn lemma_half(q: int, sticky: bool, nn: int, a: int, p: int, half: int, m: int, rest: int)
    requires
        a > 0,
        half > 0,
        p == 2 * half,
        q == p * m + rest,
        0 <= rest < p,
        q * a <= nn < (q + 1) * a,
        sticky == (nn != q * a),
    ensures
        a * p > 0,
        m * (a * p) <= nn < (m + 1) * (a * p),
        (rest > half || (rest == half && sticky)) <==> 2 * nn > (2 * m + 1) * (a * p),
        rest == half && !sticky <==> 2 * nn == (2 * m + 1) * (a * p),
{
    let b = a * p;
    assert(b > 0) by (nonlinear_arith)
        requires
            b == a * p,
            a > 0,
            p > 0,
    ;
    assert((q + 1) * a == q * a + a) by (nonlinear_arith);
    assert(q * a == m * b + rest * a) by (nonlinear_arith)
        requires
            q == p * m + rest,
            b == a * p,
    ;
    assert((m + 1) * b == m * b + b) by (nonlinear_arith);
    assert((2 * m + 1) * b == 2 * (m * b) + b) by (nonlinear_arith);
    assert(b == 2 * (half * a)) by (nonlinear_arith)
        requires
            b == a * p,
            p == 2 * half,
    ;
    assert(rest * a >= 0 && rest * a + a <= b) by (nonlinear_arith)
        requires
            0 <= rest,
            rest + 1 <= p,
            b == a * p,
            a > 0,
    ;
    if rest > half {
        assert(rest * a >= half * a + a) by (nonlinear_arith)
            requires
                rest >= half + 1,
                a > 0,
        ;
    } else if rest < half {
        assert(rest * a + a <= half * a) by (nonlinear_arith)
            requires
                rest + 1 <= half,
                a > 0,
        ;
    }
}

/// Mantissa and exponent of a finite magnitude.
fn parts(low: u32) -> (r: (u32, u32))
    requires
        low < INF_BITS,
    ensures
        mag(low as int) == r.0 * pow2(r.1 as nat),
        r.0 < 2 * FRACTION,
        r.1 <= 253,
        r.1 > 0 ==> r.0 >= FRACTION,
        r.0 == 0 <==> low == 0,
        r.1 == 0 ==> r.0 == low,
{
    if low < FRACTION {
        proof {
            lemma_mag(low as int, 0);
        }
        (low, 0)
    } else {
        let e: u32 = low / FRACTION - 1;
        let m: u32 = FRACTION + low % FRACTION;
        proof {
            lemma_mag(m as int, e as int);
        }
        (m, e)
    }
}

impl Binary32 {
    fn split(self) -> (r: (bool, u32))
        ensures
            r.0 == self.negative(),
            r.1 == self.low(),
    {
        if self.bits >= SIGN_BIT {
            (true, self.bits - SIGN_BIT)
        } else {
            (false, self.bits)
        }
    }

    fn join(negative: bool, k: u32) -> (r: Binary32)
        requires
            k < SIGN_BIT,
        ensures
            r == signed(negative, k),
    {
        if negative {
            Binary32 { bits: k + SIGN_BIT }
        } else {
            Binary32 { bits: k }
        }
    }

    /// Whether this is not a number.
    pub fn is_nan(self) -> (r: bool)
        ensures
            r == self.nan(),
    {
        self.split().1 > INF_BITS
    }

    /// Whether this is neither infinite nor a not-a-number.
    pub fn is_finite(self) -> (r: bool)
        ensures
            r == self.finite(),
    {
        self.split().1 < INF_BITS
    }

    /// The product `self * b`.
    pub fn times(self, b: Binary32) -> (r: Binary32)
        ensures
            r == product(self, b),
    {
        reveal(product);
        let (sa, la): (bool, u32) = self.split();
        let (sb, lb): (bool, u32) = b.split();
        if la > INF_BITS || lb > INF_BITS || (la == INF_BITS && lb == 0) || (lb == INF_BITS && la
            == 0) {
            return Binary32 { bits: NAN_BITS };
        }
        if la == INF_BITS || lb == INF_BITS {
            return Binary32::join(sa != sb, INF_BITS);
        }
        let (ma, ea): (u32, u32) = parts(la);
        let (mb, eb): (u32, u32) = parts(lb);
        assert(ma * mb < 0x1000000 * 0x1000000) by (nonlinear_arith)
            requires
                0 <= ma < 0x1000000,
                0 <= mb < 0x1000000,
        ;
        let q: u128 = ma as u128 * mb as u128;
        let s: i32 = ea as i32 + eb as i32 - 149;
        let ghost n = mag(la as int) * mag(lb as int);
        proof {
            lemma2_to64();
            lemma2_to64_rest();
            lemma_pow2_monotone(48, 126);
            lemma_pow2_pos(149);
            lemma_pow2_adds(ea as nat, eb as nat);
            let x = pow2(ea as nat) as int;
            let y = pow2(eb as nat) as int;
            let u = one_units();
            assert(n == q * (x * y)) by (nonlinear_arith)
                requires
                    n == (ma * x) * (mb * y),
                    q == ma * mb,
            ;
            if s >= 0 {
                lemma_pow2_adds(149, s as nat);
                assert(n * 1 == q * u * pow2(s as nat)) by (nonlinear_arith)
                    requires
                        n == q * (x * y),
                        x * y == u * pow2(s as nat),
                ;
            } else {
                lemma_pow2_adds((ea + eb) as nat, (-s) as nat);
                assert(n * 1 * pow2((-s) as nat) == q * u) by (nonlinear_arith)
                    requires
                        n == q * (x * y),
                        (x * y) * pow2((-s) as nat) == u,
                ;
            }
            assert(q * 1 == q && (q + 1) * 1 == q + 1);
        }
        let k: u32 = round_cell(
            q,
            false,
            s,
            Ghost(n),
            Ghost(one_units()),
            Ghost(q as int),
            Ghost(1int),
        );
        Binary32::join(sa != sb, k)
    }

    /// The quotient `self / b`.
    pub fn over(self, b: Binary32) -> (r: Binary32)
        ensures
            r == quotient(self, b),
    {
        reveal(quotient);
        let (sa, la): (bool, u32) = self.split();
        let (sb, lb): (bool, u32) = b.split();
        if la > INF_BITS || lb > INF_BITS || (la == INF_BITS && lb == INF_BITS) || (la == 0 && lb
            == 0) {
            return Binary32 { bits: NAN_BITS };
        }
        if la == INF_BITS || lb == 0 {
            return Binary32::join(sa != sb, INF_BITS);
        }
        if lb == INF_BITS {
            return Binary32::join(sa != sb, 0);
        }
        let (ma, ea): (u32, u32) = parts(la);
        let (mb, eb): (u32, u32) = parts(lb);
        let nn: u128 = ma as u128 * 0x4_0000_0000_0000;
        let q: u128 = nn / mb as u128;
        let sticky: bool = nn % mb as u128 != 0;
        let s: i32 = ea as i32 - eb as i32 + 99;
        let ghost n = mag(la as int) * one_units();
        let ghost d = mag(lb as int);
        proof {
            lemma2_to64();
            lemma2_to64_rest();
            lemma_pow2_monotone(74, 126);
            lemma_pow2_adds(24, 50);
            let x = pow2(ea as nat) as int;
            let y = pow2(eb as nat) as int;
            let u = one_units();
            lemma_pow2_pos(eb as nat);
            lemma_pow2_pos(ea as nat);
            assert(d > 0) by (nonlinear_arith)
                requires
                    d == mb * y,
                    mb > 0,
                    y > 0,
            ;
            let rest = nn as int % mb as int;
            vstd::arithmetic::div_mod::lemma_fundamental_div_mod(nn as int, mb as int);
            assert(q * mb <= nn < (q + 1) * mb && (rest != 0 <==> nn != q * mb)) by (nonlinear_arith)
                requires
                    nn == mb * q + rest,
                    0 <= rest < mb,
            ;
            assert(q <= nn) by (nonlinear_arith)
                requires
                    q * mb <= nn,
                    mb >= 1,
            ;
            if sticky {
                assert(ma > 0);
                assert(q >= 0x400_0000 - 1) by (nonlinear_arith)
                    requires
                        nn < (q + 1) * mb,
                        nn >= 0x4_0000_0000_0000,
                        mb <= 0x100_0000,
                        q >= 0,
                ;
            }
            let h = pow2(50) as int;
            if s >= 0 {
                lemma_pow2_adds(ea as nat, 149);
                lemma_pow2_adds(50, eb as nat);
                lemma_pow2_adds((50 + eb) as nat, s as nat);
                let w = pow2(s as nat) as int;
                assert(n * mb == nn * d * w) by (nonlinear_arith)
                    requires
                        n == (ma * x) * u,
                        nn == ma * h,
                        d == mb * y,
                        x * u == (h * y) * w,
                ;
            } else {
                lemma_pow2_adds(ea as nat, 149);
                lemma_pow2_adds((ea + 149) as nat, (-s) as nat);
                lemma_pow2_adds(50, eb as nat);
                let w = pow2((-s) as nat) as int;
                assert(n * mb * w == nn * d) by (nonlinear_arith)
                    requires
                        n == (ma * x) * u,
                        nn == ma * h,
                        d == mb * y,
                        (x * u) * w == h * y,
                ;
            }
        }
        let k: u32 = round_cell(
            q,
            sticky,
            s,
            Ghost(n),
            Ghost(d),
            Ghost(nn as int),
            Ghost(mb as int),
        );
        Binary32::join(sa != sb, k)
    }

    /// The number with the opposite sign.
    pub fn negated(self) -> (r: Binary32)
        ensures
            r == opposite(self),
    {
        let (sa, la): (bool, u32) = self.split();
        Binary32::join(!sa, la)
    }

    /// The number without its sign.
    pub fn abs(self) -> (r: Binary32)
        ensures
            r == magnitude(self),
    {
        let (_, la): (bool, u32) = self.split();
        Binary32::join(false, la)
    }

    /// The sum `self + b`.
    pub fn plus(self, b: Binary32) -> (r: Binary32)
        ensures
            r == sum(self, b),
    {
        reveal(sum);
        let (sa, la): (bool, u32) = self.split();
        let (sb, lb): (bool, u32) = b.split();
        if la > INF_BITS || lb > INF_BITS || (la == INF_BITS && lb == INF_BITS && sa != sb) {
            return Binary32 { bits: NAN_BITS };
        }
        if la == INF_BITS {
            return self;
        }
        if lb == INF_BITS {
            return b;
        }
        if la >= lb {
            add_ordered(sa, la, sb, lb)
        } else {
            add_ordered(sb, lb, sa, la)
        }
    }

    /// The difference `self - b`.
    pub fn minus(self, b: Binary32) -> (r: Binary32)
        ensures
            r == difference(self, b),
    {
        self.plus(b.negated())
    }
}

/// Exponents of two magnitudes are ordered as the magnitudes are.
proof fn lemma_parts_ordered(la: u32, ma: u32, ea: u32, lb: u32, mb: u32, eb: u32)
    requires
        lb <= la < INF_BITS,
        mag(la as int) == ma * pow2(ea as nat),
        mag(lb as int) == mb * pow2(eb as nat),
        ma < 2 * FRACTION,
        mb < 2 * FRACTION,
        eb > 0 ==> mb >= FRACTION,
    ensures
        ea >= eb,
{
    if lb < la {
        mag_is_increasing(lb as int, la as int);
    }
    if ea < eb {
        let x = pow2(ea as nat) as int;
        let y = pow2(eb as nat) as int;
        lemma_pow2_monotone((ea + 1) as nat, eb as nat);
        lemma_pow2_unfold((ea + 1) as nat);
        lemma_pow2_pos(ea as nat);
        assert(ma * x < mb * y) by (nonlinear_arith)
            requires
                ma < 2 * FRACTION,
                mb >= FRACTION,
                y >= 2 * x,
                x > 0,
        ;
    }
}

/// Adds two finite numbers, the one of the larger magnitude first.
fn add_ordered(sa: bool, la: u32, sb: bool, lb: u32) -> (r: Binary32)
    requires
        lb <= la < INF_BITS,
    ensures
        r == sum(signed(sa, la), signed(sb, lb)),
{
    reveal(sum);
    let (ma, ea): (u32, u32) = parts(la);
    let (mb, eb): (u32, u32) = parts(lb);
    let ghost x = mag(la as int);
    let ghost y = mag(lb as int);
    proof {
        lemma_parts_ordered(la, ma, ea, lb, mb, eb);
        lemma2_to64();
        lemma2_to64_rest();
        lemma_pow2_pos(eb as nat);
        if lb < la {
            mag_is_increasing(lb as int, la as int);
        }
    }
    let shift: u32 = ea - eb;
    if la == lb && sa != sb {
        return Binary32 { bits: 0 };
    }
    if la == 0 {
        assert(x == 0 && y == 0) by {
            lemma_mag(0, 0);
        }
        return Binary32::join(sa && sb, 0);
    }
    let ghost n = if sa == sb {
        x + y
    } else {
        x - y
    };
    proof {
        mag_is_increasing(0, la as int);
        lemma_mag(0, 0);
        lemma_pow2_adds(shift as nat, eb as nat);
    }
    if shift <= 100 {
        let wide: u128 = two_to(shift);
        proof {
            lemma_pow2_monotone(shift as nat, 100);
            lemma_pow2_adds(100, 24);
            lemma_pow2_monotone(125, 126);
            lemma_pow2_unfold(125);
            assert(ma * wide < pow2(124)) by (nonlinear_arith)
                requires
                    ma < pow2(24),
                    wide <= pow2(100),
                    wide > 0,
                    pow2(100) * pow2(24) == pow2(124),
            ;
            lemma_pow2_128();
            lemma_pow2_monotone(24, 124);
            lemma_pow2_monotone(124, 126);
            let e = pow2(eb as nat) as int;
            assert(x == (ma * wide) * e) by (nonlinear_arith)
                requires
                    x == ma * pow2(ea as nat),
                    wide * e == pow2(ea as nat),
            ;
            assert(ma * wide >= mb) by (nonlinear_arith)
                requires
                    x >= y,
                    x == (ma * wide) * e,
                    y == mb * e,
                    e > 0,
            ;
        }
        let big: u128 = ma as u128 * wide;
        let q: u128 = if sa == sb {
            big + mb as u128
        } else {
            big - mb as u128
        };
        proof {
            let e = pow2(eb as nat) as int;
            assert(n * 1 == q * 1 * e) by (nonlinear_arith)
                requires
                    x == big * e,
                    y == mb * e,
                    sa == sb ==> n == x + y && q == big + mb,
                    sa != sb ==> n == x - y && q == big - mb,
            ;
        }
        let k: u32 = round_cell(
            q,
            false,
            eb as i32,
            Ghost(n),
            Ghost(1int),
            Ghost(q as int),
            Ghost(1int),
        );
        return Binary32::join(sa, k);
    }
    // The smaller number only decides which way the larger one rounds.
    let big: u128 = ma as u128 * 0x40_0000_0000;
    let s: i32 = ea as i32 - 38;
    let (q, sticky): (u128, bool) = if mb == 0 {
        (big, false)
    } else if sa == sb {
        (big, true)
    } else {
        (big - 1, true)
    };
    let ghost a = pow2((shift - 38) as nat) as int;
    let ghost nn = if sa == sb {
        ma * pow2(shift as nat) + mb
    } else {
        ma * pow2(shift as nat) - mb
    };
    proof {
        lemma_pow2_adds(38, (shift - 38) as nat);
        lemma_pow2_monotone(24, (shift - 38) as nat);
        lemma_pow2_monotone(62, 126);
        lemma_pow2_strictly_increases(24, (shift - 38) as nat);
        let w = pow2(shift as nat) as int;
        let e = pow2(eb as nat) as int;
        assert(ma * w == big * a) by (nonlinear_arith)
            requires
                big == ma * 0x40_0000_0000,
                w == 0x40_0000_0000 * a,
        ;
        assert((big + 1) * a == big * a + a && (big - 1) * a == big * a - a) by (nonlinear_arith);
        assert(n == nn * e) by (nonlinear_arith)
            requires
                x == ma * pow2(ea as nat),
                y == mb * e,
                w * e == pow2(ea as nat),
                sa == sb ==> n == x + y && nn == ma * w + mb,
                sa != sb ==> n == x - y && nn == ma * w - mb,
        ;
        lemma_pow2_adds(eb as nat, (shift - 38) as nat);
        assert(n * a == nn * 1 * pow2(s as nat)) by (nonlinear_arith)
            requires
                n == nn * e,
                e * a == pow2(s as nat),
        ;
    }
    let k: u32 = round_cell(q, sticky, s, Ghost(n), Ghost(1int), Ghost(nn), Ghost(a));
    Binary32::join(sa, k)
}

/// The number nearest to an unsigned integer.
pub fn from_u64(v: u64) -> (r: Binary32)
    ensures
        r == nearest_int(v as int),
        r.bits <= INF_BITS,
{
    proof {
        lemma2_to64();
        lemma_pow2_monotone(64, 126);
        assert(v * 1 == v && (v + 1) * 1 == v + 1);
        assert(v * one_units() * 1 == v * 1 * pow2(149));
    }
    let k: u32 = round_cell(
        v as u128,
        false,
        149,
        Ghost(v * one_units()),
        Ghost(1int),
        Ghost(v as int),
        Ghost(1int),
    );
    Binary32::join(false, k)
}

/// The number nearest to a signed integer.
pub fn from_i32(v: i32) -> (r: Binary32)
    ensures
        r == nearest_int(v as int),
{
    if v < 0 {
        let w: u64 = (-(v as i64)) as u64;
        let r: Binary32 = from_u64(w);
        r.negated()
    } else {
        from_u64(v as u64)
    }
}

/// Whether `a` is less than `b`.
pub fn is_less(a: Binary32, b: Binary32) -> (r: bool)
    ensures
        r == less(a, b),
{
    let (sa, la): (bool, u32) = a.split();
    let (sb, lb): (bool, u32) = b.split();
    if la > INF_BITS || lb > INF_BITS {
        return false;
    }
    proof {
        lemma_mag(0, 0);
        if la > 0 {
            mag_is_increasing(0, la as int);
        }
        if lb > 0 {
            mag_is_increasing(0, lb as int);
        }
        if la < lb {
            mag_is_increasing(la as int, lb as int);
        } else if lb < la {
            mag_is_increasing(lb as int, la as int);
        }
    }
    if sa && sb {
        lb < la
    } else if sa {
        la > 0 || lb > 0
    } else if sb {
        false
    } else {
        la < lb
    }
}

/// Whether `a` is at most `b`.
pub fn is_at_most(a: Binary32, b: Binary32) -> (r: bool)
    ensures
        r == at_most(a, b),
{
    !a.is_nan() && !b.is_nan() && !is_less(b, a)
}

/// The larger of two numbers; the other one where one is not a number.
pub fn larger_of(a: Binary32, b: Binary32) -> (r: Binary32)
    ensures
        r == larger(a, b),
{
    if a.is_nan() || is_less(a, b) {
        b
    } else {
        a
    }
}

/// The smaller of two numbers; the other one where one is not a number.
pub fn smaller_of(a: Binary32, b: Binary32) -> (r: Binary32)
    ensures
        r == smaller(a, b),
{
    if a.is_nan() || is_less(b, a) {
        b
    } else {
        a
    }
}

/// The whole part of `a`, toward zero, held to the range of `i32`; 0 for a not-a-number.
pub fn to_i32(a: Binary32) -> (r: i32)
    ensures
        r == truncated(a),
{
    let (sa, la): (bool, u32) = a.split();
    if la > INF_BITS {
        return 0;
    }
    let ghost u = one_units();
    proof {
        lemma2_to64();
        lemma_pow2_pos(149);
    }
    if la >= TWO_31_BITS {
        // At least 2^31.
        proof {
            lemma_mag(FRACTION as int, 157);
            lemma_pow2_adds(23, 157);
            lemma_pow2_adds(31, 149);
            assert(TWO_31_BITS == FRACTION + 157 * FRACTION);
            if la > TWO_31_BITS {
                mag_is_increasing(TWO_31_BITS as int, la as int);
            }
            assert(mag(la as int) >= 0x8000_0000 * u);
            assert(mag(la as int) / u >= 0x8000_0000) by (nonlinear_arith)
                requires
                    mag(la as int) >= 0x8000_0000 * u,
                    u > 0,
            ;
        }
        return if sa {
            i32::MIN
        } else {
            i32::MAX
        };
    }
    let (m, e): (u32, u32) = parts(la);
    proof {
        lemma_below_two_31(la, m, e);
    }
    let whole: u64 = if e >= 149 {
        let p: u128 = two_to(e - 149);
        proof {
            lemma_pow2_monotone((e - 149) as nat, 7);
            lemma_pow2_adds(149, (e - 149) as nat);
            assert(m * p < 0x8000_0000) by (nonlinear_arith)
                requires
                    m < 0x100_0000,
                    0 < p <= 128,
            ;
            assert(mag(la as int) == (m * p) * u) by (nonlinear_arith)
                requires
                    mag(la as int) == m * pow2(e as nat),
                    u * p == pow2(e as nat),
            ;
            vstd::arithmetic::div_mod::lemma_div_by_multiple((m * p) as int, u);
        }
        (m as u128 * p) as u64
    } else if e >= 125 {
        let p: u128 = two_to(149 - e);
        proof {
            lemma_pow2_adds(e as nat, (149 - e) as nat);
            let z = pow2(e as nat) as int;
            lemma_pow2_pos(e as nat);
            vstd::arithmetic::div_mod::lemma_div_denominator(m * z, z, p as int);
            vstd::arithmetic::div_mod::lemma_div_by_multiple(m as int, z);
        }
        (m as u128 / p) as u64
    } else {
        proof {
            lemma_pow2_monotone((e + 24) as nat, 149);
            lemma_pow2_adds(24, e as nat);
            lemma_pow2_pos(e as nat);
            let z = pow2(e as nat) as int;
            assert(0 <= m * z < u) by (nonlinear_arith)
                requires
                    0 <= m < pow2(24),
                    z > 0,
                    pow2(24) * z <= u,
            ;
            vstd::arithmetic::div_mod::lemma_basic_div(m * z, u);
        }
        0
    };
    assert(whole == mag(la as int) / u);
    if sa {
        -(whole as i64) as i32
    } else {
        whole as i32
    }
}

/// The exponent of a magnitude below 2^31.
proof fn lemma_below_two_31(low: u32, m: u32, e: u32)
    requires
        low < TWO_31_BITS,
        mag(low as int) == m * pow2(e as nat),
        e > 0 ==> m >= FRACTION,
    ensures
        e <= 156,
{
    if e >= 157 {
        lemma_mag(FRACTION as int, 157);
        lemma_pow2_monotone(157, e as nat);
        lemma_pow2_pos(157);
        mag_is_increasing(low as int, TWO_31_BITS as int);
        let w = pow2(157) as int;
        let z = pow2(e as nat) as int;
        assert(m * z >= FRACTION * w) by (nonlinear_arith)
            requires
                m >= FRACTION,
                z >= w,
                w > 0,
        ;
    }
}

/// The integer nearest to a number below 2^31 in magnitude, ties to even.
pub fn lrint_half_even(x: Binary32) -> (r: i32)
    requires
        x.low() < TWO_31_BITS,
    ensures
        r == half_even(x),
{
    let (sx, lx): (bool, u32) = x.split();
    let (m, e): (u32, u32) = parts(lx);
    let ghost u = one_units();
    let ghost n = mag(lx as int);
    proof {
        lemma_below_two_31(lx, m, e);
        lemma2_to64();
        lemma_pow2_pos(149);
    }
    let near: u64 = if e >= 149 {
        let p: u128 = two_to(e - 149);
        proof {
            lemma_pow2_monotone((e - 149) as nat, 7);
            lemma_pow2_adds(149, (e - 149) as nat);
            assert(m * p < 0x8000_0000) by (nonlinear_arith)
                requires
                    m < 0x100_0000,
                    0 < p <= 128,
            ;
            assert(n == (m * p) * u) by (nonlinear_arith)
                requires
                    n == m * pow2(e as nat),
                    u * p == pow2(e as nat),
            ;
            vstd::arithmetic::div_mod::lemma_div_by_multiple((m * p) as int, u);
            vstd::arithmetic::div_mod::lemma_mod_multiples_basic((m * p) as int, u);
        }
        (m as u128 * p) as u64
    } else if e >= 125 {
        let p: u128 = two_to(149 - e);
        let half: u128 = two_to(148 - e);
        let whole: u128 = m as u128 / p;
        let rest: u128 = m as u128 % p;
        proof {
            lemma_pow2_adds(e as nat, (149 - e) as nat);
            lemma_pow2_unfold((149 - e) as nat);
            lemma_pow2_pos(e as nat);
            let z = pow2(e as nat) as int;
            vstd::arithmetic::div_mod::lemma_fundamental_div_mod(m as int, p as int);
            assert(n == whole * u + rest * z && 0 <= rest * z < u) by (nonlinear_arith)
                requires
                    n == m * z,
                    m == p * whole + rest,
                    0 <= rest < p,
                    z * p == u,
                    z > 0,
            ;
            vstd::arithmetic::div_mod::lemma_fundamental_div_mod_converse(
                n,
                u,
                whole as int,
                rest * z,
            );
            assert((2 * (rest * z) > u <==> rest > half) && (2 * (rest * z) == u <==> rest == half))
                by (nonlinear_arith)
                requires
                    z * p == u,
                    p == 2 * half,
                    z > 0,
            ;
            vstd::arithmetic::div_mod::lemma_div_is_ordered_by_denominator(m as int, 1, p as int);
            vstd::arithmetic::div_mod::lemma_div_basics(m as int);
        }
        if rest > half || (rest == half && whole % 2 == 1) {
            whole as u64 + 1
        } else {
            whole as u64
        }
    } else {
        proof {
            lemma_pow2_monotone((e + 24) as nat, 148);
            lemma_pow2_adds(24, e as nat);
            lemma_pow2_pos(e as nat);
            lemma_pow2_unfold(149);
            let z = pow2(e as nat) as int;
            assert(0 <= n && 2 * n < u) by (nonlinear_arith)
                requires
                    n == m * z,
                    0 <= m < pow2(24),
                    z > 0,
                    2 * (pow2(24) * z) <= u,
            ;
            vstd::arithmetic::div_mod::lemma_fundamental_div_mod_converse(n, u, 0, n);
        }
        0
    };
    if sx {
        (-(near as i64)) as i32
    } else {
        near as i32
    }
}

/// The magnitude of a finite number in hundredths, rounded to the nearest, ties to even: the whole part
/// and the hundredths after it.
pub fn hundredths(x: Binary32) -> (r: (u128, u8))
    requires
        x.finite(),
    ensures
        ({
            let c = nearest_even(100 * mag(x.low()), one_units());
            r.0 == c / 100 && r.1 == c % 100
        }),
{
    let (_, lx): (bool, u32) = x.split();
    let (m, e): (u32, u32) = parts(lx);
    let k: u128 = m as u128 * 100;
    let ghost u = one_units();
    let ghost z = pow2(e as nat) as int;
    let ghost n = 100 * mag(lx as int);
    proof {
        lemma2_to64();
        lemma2_to64_rest();
        lemma_pow2_pos(149);
        lemma_pow2_pos(e as nat);
        assert(n == k * z) by (nonlinear_arith)
            requires
                n == 100 * (m * z),
                k == m * 100,
        ;
    }
    if e >= 149 {
        let p: u128 = two_to(e - 149);
        proof {
            lemma_pow2_monotone((e - 149) as nat, 104);
            lemma_pow2_adds(149, (e - 149) as nat);
            lemma_pow2_adds(64, 40);
            assert(m * p <= 0xFF_FFFF * 0x100_0000_0000_0000_0000_0000_0000) by (nonlinear_arith)
                requires
                    0 <= m <= 0xFF_FFFF,
                    0 < p <= 0x100_0000_0000_0000_0000_0000_0000,
            ;
            assert(n == (100 * (m * p)) * u) by (nonlinear_arith)
                requires
                    n == k * z,
                    k == m * 100,
                    u * p == z,
            ;
            vstd::arithmetic::div_mod::lemma_div_by_multiple(100 * (m * p), u);
            vstd::arithmetic::div_mod::lemma_mod_multiples_basic(100 * (m * p), u);
        }
        return (m as u128 * p, 0);
    }
    let c: u128 = if e >= 109 {
        let p: u128 = two_to(149 - e);
        let half: u128 = two_to(148 - e);
        let whole: u128 = k / p;
        let rest: u128 = k % p;
        proof {
            lemma_pow2_adds(e as nat, (149 - e) as nat);
            lemma_pow2_unfold((149 - e) as nat);
            vstd::arithmetic::div_mod::lemma_fundamental_div_mod(k as int, p as int);
            assert(n == whole * u + rest * z && 0 <= rest * z < u) by (nonlinear_arith)
                requires
                    n == k * z,
                    k == p * whole + rest,
                    0 <= rest < p,
                    z * p == u,
                    z > 0,
            ;
            vstd::arithmetic::div_mod::lemma_fundamental_div_mod_converse(
                n,
                u,
                whole as int,
                rest * z,
            );
            assert((2 * (rest * z) > u <==> rest > half) && (2 * (rest * z) == u <==> rest == half))
                by (nonlinear_arith)
                requires
                    z * p == u,
                    p == 2 * half,
                    z > 0,
            ;
            vstd::arithmetic::div_mod::lemma_div_is_ordered_by_denominator(k as int, 1, p as int);
            vstd::arithmetic::div_mod::lemma_div_basics(k as int);
        }
        if rest > half || (rest == half && whole % 2 == 1) {
            whole + 1
        } else {
            whole
        }
    } else {
        proof {
            lemma_pow2_monotone((e + 40) as nat, 148);
            lemma_pow2_adds(40, e as nat);
            lemma_pow2_unfold(149);
            assert(0 <= n && 2 * n < u) by (nonlinear_arith)
                requires
                    n == k * z,
                    0 <= k < pow2(40),
                    z > 0,
                    2 * (pow2(40) * z) <= u,
            ;
            vstd::arithmetic::div_mod::lemma_fundamental_div_mod_converse(n, u, 0, n);
        }
        0
    };
    (c / 100, (c % 100) as u8)
}

} // verus!
