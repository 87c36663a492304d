//! IEEE 754 binary64 numbers by their bit patterns, and rounding to the nearest
//! of them.
//!
//! Times are binary64, and azimuth bins are found in it. A magnitude pattern
//! stands for an integer number of units of 2^-1074; rounding works as it does
//! in [`crate::rounding`].

use vstd::prelude::*;
use vstd::arithmetic::power2::{lemma_pow2_adds, lemma_pow2_pos, lemma_pow2_strictly_increases, lemma_pow2_unfold, pow2};
use crate::rounding::{bit_length, lemma_scales, up};

verus! {

/// A binary64 number by its bit pattern: sign, eleven exponent bits, 52
/// fraction bits. `==` compares the patterns.
#[derive(Clone, Copy, Debug, PartialEq, Eq, Structural)]
pub struct Double {
    pub bits: u64,
}

/// Pattern of positive infinity.
pub const INFINITY: u64 = 0x7ff0_0000_0000_0000;

/// Pattern of the quiet NaN that invalid operations give.
pub const NAN: u64 = 0x7ff8_0000_0000_0000;

/// What a magnitude pattern (the bits below the sign) stands for, in units of
/// 2^-1074. Infinity takes the value just above the largest finite one's binade.
pub open spec fn magnitude_value(m: int) -> int {
    if m / 0x10_0000_0000_0000 == 0 {
        m
    } else {
        (0x10_0000_0000_0000 + m % 0x10_0000_0000_0000) * pow2((m / 0x10_0000_0000_0000 - 1) as nat)
    }
}

/// Larger magnitude patterns stand for larger magnitudes.
pub proof fn lemma_magnitude_increases(a: int, b: int)
    requires
        0 <= a < b,
    ensures
        magnitude_value(a) < magnitude_value(b),
        magnitude_value(0) == 0,
{
    let ea = a / 0x10_0000_0000_0000;
    let eb = b / 0x10_0000_0000_0000;
    let fa = a % 0x10_0000_0000_0000;
    let fb = b % 0x10_0000_0000_0000;
    if eb > 0 {
        let pb = pow2((eb - 1) as nat) as int;
        vstd::arithmetic::power2::lemma_pow2_pos((eb - 1) as nat);
        assert((0x10_0000_0000_0000 + fb) * pb >= 0x10_0000_0000_0000 * pb) by (nonlinear_arith)
            requires
                fb >= 0,
                pb > 0,
        ;
        if ea == 0 {
            assert(0x10_0000_0000_0000 * pb >= 0x10_0000_0000_0000);
        } else if ea == eb {
            assert((0x10_0000_0000_0000 + fa) * pb < (0x10_0000_0000_0000 + fb) * pb) by (nonlinear_arith)
                requires
                    fa < fb,
                    pb > 0,
            ;
        } else {
            let pa = pow2((ea - 1) as nat) as int;
            vstd::arithmetic::power2::lemma_pow2_pos((ea - 1) as nat);
            vstd::arithmetic::power2::lemma_pow2_unfold(ea as nat);
            if ea < eb - 1 {
                vstd::arithmetic::power2::lemma_pow2_strictly_increases(ea as nat, (eb - 1) as nat);
            }
            assert(2 * pa <= pb);
            assert((0x10_0000_0000_0000 + fa) * pa < 0x10_0000_0000_0000 * pb) by (nonlinear_arith)
                requires
                    fa < 0x10_0000_0000_0000,
                    pa > 0,
                    2 * pa <= pb,
            ;
        }
    }
}

impl Double {
    /// The pattern without its sign bit.
    pub open spec fn magnitude(self) -> int {
        self.bits as int % 0x8000_0000_0000_0000
    }

    /// The sign bit is set.
    pub open spec fn negative(self) -> bool {
        self.bits >= 0x8000_0000_0000_0000
    }

    /// Not a number.
    pub open spec fn nan(self) -> bool {
        self.magnitude() > INFINITY
    }

    /// Infinite, of either sign.
    pub open spec fn infinite(self) -> bool {
        self.magnitude() == INFINITY
    }

    /// Zero, of either sign.
    pub open spec fn zero(self) -> bool {
        self.magnitude() == 0
    }

    /// The number that a pattern other than a NaN stands for, in units of
    /// 2^-1074.
    pub open spec fn value(self) -> int {
        if self.negative() {
            -magnitude_value(self.magnitude())
        } else {
            magnitude_value(self.magnitude())
        }
    }

    /// `self >= other`: false where either is a NaN.
    pub open spec fn at_least(self, other: Double) -> bool {
        !self.nan() && !other.nan() && self.value() >= other.value()
    }

    /// The pattern of the negated number.
    pub open spec fn negated(self) -> Double {
        Double {
            bits: (if self.negative() {
                self.bits - 0x8000_0000_0000_0000
            } else {
                self.bits + 0x8000_0000_0000_0000
            }) as u64,
        }
    }

    /// True for a NaN.
    pub fn is_nan(self) -> (r: bool)
        ensures
            r == self.nan(),
    {
        self.bits % 0x8000_0000_0000_0000 > INFINITY
    }

    /// `-self`.
    pub fn neg(self) -> (r: Double)
        ensures
            r == self.negated(),
    {
        if self.bits >= 0x8000_0000_0000_0000 {
            Double { bits: self.bits - 0x8000_0000_0000_0000 }
        } else {
            Double { bits: self.bits + 0x8000_0000_0000_0000 }
        }
    }

    /// `self >= other`.
    pub fn ge(self, other: Double) -> (r: bool)
        ensures
            r == self.at_least(other),
    {
        let a: u64 = self.bits % 0x8000_0000_0000_0000;
        let b: u64 = other.bits % 0x8000_0000_0000_0000;
        proof {
            lemma_magnitudes_ordered(0, a as int);
            lemma_magnitudes_ordered(0, b as int);
            assert(magnitude_value(0) == 0);
            if a <= b {
                lemma_magnitudes_ordered(a as int, b as int);
            } else {
                lemma_magnitudes_ordered(b as int, a as int);
            }
        }
        if self.is_nan() || other.is_nan() {
            false
        } else if a == 0 && b == 0 {
            true
        } else if self.bits >= 0x8000_0000_0000_0000 {
            other.bits >= 0x8000_0000_0000_0000 && a <= b
        } else {
            other.bits >= 0x8000_0000_0000_0000 || a >= b
        }
    }
}

/// Pattern `m` is the one nearest to `num / den` units of 2^-1074, ties to the
/// even pattern; infinity from the midpoint above the largest finite number on.
pub open spec fn is_nearest(m: int, num: int, den: int) -> bool {
    &&& 0 <= m <= INFINITY
    &&& m > 0 ==> {
        let mid = (magnitude_value(m - 1) + magnitude_value(m)) * den;
        mid < 2 * num || (mid == 2 * num && m % 2 == 0)
    }
    &&& m < INFINITY ==> {
        let mid = (magnitude_value(m) + magnitude_value(m + 1)) * den;
        2 * num < mid || (2 * num == mid && m % 2 == 0)
    }
}

/// The pattern nearest to `num / den` units of 2^-1074.
pub open spec fn nearest(num: int, den: int) -> int {
    choose|m: int| is_nearest(m, num, den)
}

/// Pattern `m` is right for `sig * 2^exp`, or with `more` for every number
/// strictly between `sig * 2^exp` and `(sig + 1) * 2^exp`.
pub open spec fn brackets(m: int, sig: int, exp: int, more: bool) -> bool {
    &&& 0 <= m <= INFINITY
    &&& m > 0 ==> {
        let mid = (magnitude_value(m - 1) + magnitude_value(m)) * up(-exp);
        mid < 2 * sig * up(exp) || (mid == 2 * sig * up(exp) && (more || m % 2 == 0))
    }
    &&& m < INFINITY ==> {
        let mid = (magnitude_value(m) + magnitude_value(m + 1)) * up(-exp);
        if more {
            2 * (sig + 1) * up(exp) <= mid
        } else {
            2 * sig * up(exp) < mid || (2 * sig * up(exp) == mid && m % 2 == 0)
        }
    }
}

/// Patterns are ordered as the magnitudes they stand for.
pub proof fn lemma_magnitudes_ordered(a: int, b: int)
    requires
        0 <= a <= b,
    ensures
        0 <= magnitude_value(a) <= magnitude_value(b),
        a < b ==> magnitude_value(a) < magnitude_value(b),
{
    if a < b {
        lemma_magnitude_increases(a, b);
    }
    if 0 < a {
        lemma_magnitude_increases(0, a);
    }
    assert(magnitude_value(0) == 0);
}

/// No two patterns are nearest to the same number.
pub proof fn lemma_nearest_unique(m: int, n: int, num: int, den: int)
    requires
        den > 0,
        is_nearest(m, num, den),
        is_nearest(n, num, den),
    ensures
        m == n,
{
    lemma_nearest_ordered(m, n, num, den);
    lemma_nearest_ordered(n, m, num, den);
}

proof fn lemma_nearest_ordered(m: int, n: int, num: int, den: int)
    requires
        den > 0,
        is_nearest(m, num, den),
        is_nearest(n, num, den),
    ensures
        m >= n,
{
    if m < n {
        let a = magnitude_value(m) + magnitude_value(m + 1);
        let b = magnitude_value(n - 1) + magnitude_value(n);
        lemma_magnitudes_ordered(m, n - 1);
        lemma_magnitudes_ordered(m + 1, n);
        assert(a * den <= b * den) by (nonlinear_arith)
            requires
                a <= b,
                den > 0,
        ;
        if m + 1 < n {
            assert(a * den < b * den) by (nonlinear_arith)
                requires
                    a < b,
                    den > 0,
            ;
        }
    }
}

/// The pattern with significand `q` and exponent `e`, and the one after it.
pub proof fn lemma_pattern_values(q: int, e: int)
    requires
        0 <= e,
        0 <= q < 0x20_0000_0000_0000,
        e > 0 ==> q >= 0x10_0000_0000_0000,
    ensures
        magnitude_value(e * 0x10_0000_0000_0000 + q) == q * pow2(e as nat),
        magnitude_value(e * 0x10_0000_0000_0000 + q + 1) == (q + 1) * pow2(e as nat),
{
    lemma_pow2_unfold((e + 1) as nat);
    assert(pow2(0) == 1) by {
        vstd::arithmetic::power2::lemma2_to64();
    }
    let m = e * 0x10_0000_0000_0000 + q;
    if q < 0x10_0000_0000_0000 {
        assert(m / 0x10_0000_0000_0000 == 0 && m % 0x10_0000_0000_0000 == q);
        if q + 1 == 0x10_0000_0000_0000 {
            assert((m + 1) / 0x10_0000_0000_0000 == 1 && (m + 1) % 0x10_0000_0000_0000 == 0);
        }
    } else {
        assert(m / 0x10_0000_0000_0000 == e + 1 && m % 0x10_0000_0000_0000 == q - 0x10_0000_0000_0000);
        if q + 1 == 0x20_0000_0000_0000 {
            assert((m + 1) / 0x10_0000_0000_0000 == e + 2 && (m + 1) % 0x10_0000_0000_0000 == 0);
            assert(0x10_0000_0000_0000 * (2 * pow2(e as nat)) == 0x20_0000_0000_0000 * pow2(e as nat));
        } else {
            assert((m + 1) / 0x10_0000_0000_0000 == e + 1 && (m + 1) % 0x10_0000_0000_0000 == q + 1 - 0x10_0000_0000_0000);
        }
    }
}

/// A result that needs no rounding.
proof fn lemma_exact(sig: int, exp: int, q: int, e: int)
    requires
        0 <= e <= exp,
        e < 2046,
        0 <= q < 0x20_0000_0000_0000,
        e > 0 ==> q >= 0x10_0000_0000_0000,
        q == sig * pow2((exp - e) as nat),
    ensures
        brackets(e * 0x10_0000_0000_0000 + q, sig, exp, false),
{
    let m = e * 0x10_0000_0000_0000 + q;
    lemma_pattern_values(q, e);
    lemma_pow2_adds((exp - e) as nat, e as nat);
    let (p, pe) = (pow2((exp - e) as nat) as int, pow2(e as nat) as int);
    assert(sig * (p * pe) == (sig * p) * pe) by (nonlinear_arith);
    assert(up(-exp) == 1) by {
        vstd::arithmetic::power2::lemma2_to64();
    }
    assert(magnitude_value(m) == sig * up(exp));
    assert(2 * sig * up(exp) == 2 * (sig * up(exp))) by (nonlinear_arith);
    lemma_magnitudes_ordered(m, m + 1);
    if m > 0 {
        lemma_magnitudes_ordered(m - 1, m);
    }
}

/// A result between two patterns, cut at their midpoint.
proof fn lemma_cut(sig: int, exp: int, more: bool, q: int, rem: int, half: int, e: int, next: bool)
    requires
        0 <= e < 2046,
        exp < e,
        0 <= q < 0x20_0000_0000_0000,
        e > 0 ==> q >= 0x10_0000_0000_0000,
        half == pow2((e - exp - 1) as nat),
        sig == q * (2 * half) + rem,
        0 <= rem < 2 * half,
        next == (rem > half || (rem == half && (more || q % 2 == 1))),
    ensures
        brackets(e * 0x10_0000_0000_0000 + q + if next { 1int } else { 0int }, sig, exp, more),
{
    let m = e * 0x10_0000_0000_0000 + q;
    let p = 2 * half;
    let (u, d) = (up(exp), up(-exp));
    lemma_pattern_values(q, e);
    lemma_scales(e, exp);
    lemma_pow2_unfold((e - exp) as nat);
    assert(pow2((e - exp) as nat) == p);
    let pe = pow2(e as nat) as int;
    assert(pe * d == p * u);
    let mid = (magnitude_value(m) + magnitude_value(m + 1)) * d;
    assert(mid == (2 * q + 1) * p * u) by (nonlinear_arith)
        requires
            mid == (q * pe + (q + 1) * pe) * d,
            pe * d == p * u,
    ;
    let lo = magnitude_value(m) * d;
    assert(lo == q * p * u) by (nonlinear_arith)
        requires
            lo == q * pe * d,
            pe * d == p * u,
    ;
    let hi = magnitude_value(m + 1) * d;
    assert(hi == (q + 1) * p * u) by (nonlinear_arith)
        requires
            hi == (q + 1) * pe * d,
            pe * d == p * u,
    ;
    assert(m % 2 == q % 2);
    lemma_magnitudes_ordered(m + 1, m + 2);
    if next {
        let above = (magnitude_value(m + 1) + magnitude_value(m + 2)) * d;
        assert(2 * hi < above) by (nonlinear_arith)
            requires
                hi == magnitude_value(m + 1) * d,
                above == (magnitude_value(m + 1) + magnitude_value(m + 2)) * d,
                magnitude_value(m + 1) < magnitude_value(m + 2),
                d > 0,
        ;
        assert(2 * sig * u >= mid) by (nonlinear_arith)
            requires
                sig == q * p + rem,
                2 * rem >= p,
                mid == (2 * q + 1) * p * u,
                u > 0,
        ;
        if 2 * rem > p {
            assert(2 * sig * u > mid) by (nonlinear_arith)
                requires
                    sig == q * p + rem,
                    2 * rem > p,
                    mid == (2 * q + 1) * p * u,
                    u > 0,
            ;
        }
        assert(2 * (sig + 1) * u <= 2 * hi) by (nonlinear_arith)
            requires
                sig == q * p + rem,
                rem + 1 <= p,
                hi == (q + 1) * p * u,
                u > 0,
        ;
        assert(2 * sig * u < 2 * (sig + 1) * u) by (nonlinear_arith)
            requires
                u > 0,
        ;
    } else {
        if m > 0 {
            lemma_magnitudes_ordered(m - 1, m);
            let below = (magnitude_value(m - 1) + magnitude_value(m)) * d;
            assert(below < 2 * lo) by (nonlinear_arith)
                requires
                    lo == magnitude_value(m) * d,
                    below == (magnitude_value(m - 1) + magnitude_value(m)) * d,
                    magnitude_value(m - 1) < magnitude_value(m),
                    d > 0,
            ;
        }
        assert(2 * lo <= 2 * sig * u) by (nonlinear_arith)
            requires
                sig == q * p + rem,
                rem >= 0,
                lo == q * p * u,
                u > 0,
        ;
        if more {
            assert(2 * (sig + 1) * u <= mid) by (nonlinear_arith)
                requires
                    sig == q * p + rem,
                    2 * (rem + 1) <= p,
                    mid == (2 * q + 1) * p * u,
                    u > 0,
            ;
        } else if rem < half {
            assert(2 * sig * u < mid) by (nonlinear_arith)
                requires
                    sig == q * p + rem,
                    2 * rem < p,
                    mid == (2 * q + 1) * p * u,
                    u > 0,
            ;
        } else {
            assert(2 * sig * u == mid) by (nonlinear_arith)
                requires
                    sig == q * p + rem,
                    2 * rem == p,
                    mid == (2 * q + 1) * p * u,
            ;
        }
    }
}

/// A result past the largest finite number.
proof fn lemma_overflow(sig: int, exp: int, more: bool, n: int)
    requires
        n >= 1,
        pow2((n - 1) as nat) <= sig,
        exp + n - 53 >= 2046,
    ensures
        brackets(INFINITY as int, sig, exp, more),
{
    let inf = INFINITY as int;
    lemma_pattern_values(0x10_0000_0000_0000, 2046);
    assert(2046 * 0x10_0000_0000_0000 + 0x10_0000_0000_0000 == inf);
    lemma_magnitudes_ordered(inf - 1, inf);
    vstd::arithmetic::power2::lemma2_to64();
    let big = magnitude_value(inf);
    assert(big == pow2(2098)) by {
        vstd::arithmetic::power2::lemma2_to64_rest();
        lemma_pow2_adds(52, 2046);
    }
    // sig * 2^exp >= 2^(n - 1 + exp) >= 2^2098
    if exp >= 0 {
        assert(up(-exp) == 1);
        lemma_pow2_adds((n - 1) as nat, exp as nat);
        lemma_pow2_pos(exp as nat);
        if n - 1 + exp > 2098 {
            lemma_pow2_strictly_increases(2098, (n - 1 + exp) as nat);
        }
        let (a, b) = (pow2((n - 1) as nat) as int, pow2(exp as nat) as int);
        assert(sig * b >= a * b) by (nonlinear_arith)
            requires
                sig >= a,
                b > 0,
        ;
        assert(2 * sig * up(exp) == 2 * (sig * b)) by (nonlinear_arith)
            requires
                up(exp) == b,
        ;
    } else {
        lemma_pow2_adds(2098, (-exp) as nat);
        if n - 1 > 2098 - exp {
            lemma_pow2_strictly_increases((2098 - exp) as nat, (n - 1) as nat);
        }
        lemma_pow2_pos((-exp) as nat);
        let d = up(-exp);
        let low = magnitude_value(inf - 1);
        assert((low + big) * d < 2 * (big * d)) by (nonlinear_arith)
            requires
                low < big,
                d > 0,
        ;
    }
}

/// A result below half the smallest positive number.
proof fn lemma_underflow(sig: int, exp: int, more: bool)
    requires
        0 <= sig < pow2(128),
        exp <= -129,
    ensures
        brackets(0, sig, exp, more),
{
    assert(magnitude_value(0) == 0 && magnitude_value(1) == 1);
    if -exp > 129 {
        lemma_pow2_strictly_increases(129, (-exp) as nat);
    }
    lemma_pow2_unfold(129);
}

/// A power of two.
pub fn power(k: u32) -> (r: u128)
    requires
        k <= 127,
    ensures
        r == pow2(k as nat),
{
    proof {
        vstd::arithmetic::power2::lemma2_to64();
    }
    if k < 64 {
        proof {
            vstd::bits::lemma_u64_pow2_no_overflow(k as nat);
            vstd::bits::lemma_u64_shl_is_mul(1, k as u64);
        }
        (1u64 << (k as u64)) as u128
    } else {
        let j: u64 = (k - 64) as u64;
        proof {
            vstd::bits::lemma_u64_pow2_no_overflow(j as nat);
            vstd::bits::lemma_u64_shl_is_mul(1, j);
            lemma_pow2_adds(j as nat, 64);
        }
        let high: u64 = 1u64 << j;
        high as u128 * 0x1_0000_0000_0000_0000u128
    }
}

/// Number of bits of `x`.
pub fn bits_of(x: u128) -> (n: u32)
    requires
        x > 0,
    ensures
        1 <= n <= 128,
        pow2((n - 1) as nat) <= x < pow2(n as nat),
{
    let high: u64 = (x / 0x1_0000_0000_0000_0000u128) as u64;
    let low: u64 = (x % 0x1_0000_0000_0000_0000u128) as u64;
    proof {
        vstd::arithmetic::power2::lemma2_to64();
    }
    if high == 0 {
        bit_length(low)
    } else {
        let n = bit_length(high);
        proof {
            lemma_pow2_adds((n - 1) as nat, 64);
            lemma_pow2_adds(n as nat, 64);
            assert(x == high * 0x1_0000_0000_0000_0000 + low);
            assert(high + 1 <= pow2(n as nat));
        }
        n + 64
    }
}

/// The pattern for `sig * 2^exp` units, or with `more` for what lies strictly
/// between that and `(sig + 1) * 2^exp`.
pub fn round(sig: u128, exp: i32, more: bool) -> (m: u64)
    requires
        -8000 <= exp <= 8000,
        more ==> sig >= 0x40_0000_0000_0000,
    ensures
        brackets(m as int, sig as int, exp as int, more),
{
    if sig == 0 {
        proof {
            lemma_magnitudes_ordered(0, 1);
            assert(magnitude_value(0) == 0 && magnitude_value(1) == 1);
            lemma_scales(if exp >= 0 { exp as int } else { 0 }, exp as int);
            assert(2 * 0 * up(exp as int) == 0) by (nonlinear_arith);
        }
        return 0;
    }
    let n: i32 = bits_of(sig) as i32;
    let e: i32 = if exp + n > 53 {
        exp + n - 53
    } else {
        0
    };
    if e >= 2046 {
        proof {
            lemma_overflow(sig as int, exp as int, more, n as int);
        }
        return INFINITY;
    }
    let s: i32 = e - exp;
    proof {
        vstd::arithmetic::power2::lemma2_to64();
        vstd::arithmetic::power2::lemma2_to64_rest();
    }
    if s <= 0 {
        let k = (-s) as u32;
        proof {
            // n + k <= 53
            lemma_pow2_adds(n as nat, k as nat);
            lemma_pow2_adds((n - 1) as nat, k as nat);
            lemma_pow2_pos(k as nat);
            if n + k < 53 {
                lemma_pow2_strictly_increases((n + k) as nat, 53);
            }
            let p = pow2(k as nat) as int;
            assert(sig * p < pow2(n as nat) * p) by (nonlinear_arith)
                requires
                    sig < pow2(n as nat),
                    p > 0,
            ;
            assert(sig * p >= pow2((n - 1) as nat) * p) by (nonlinear_arith)
                requires
                    sig >= pow2((n - 1) as nat),
                    p > 0,
            ;
            assert(more ==> n >= 55) by {
                if more && n < 55 {
                    if n < 54 {
                        lemma_pow2_strictly_increases(n as nat, 54);
                    }
                }
            }
            lemma_exact(sig as int, exp as int, sig * p, e as int);
        }
        let q: u128 = sig * power(k);
        return e as u64 * 0x10_0000_0000_0000 + q as u64;
    }
    if s > 128 {
        proof {
            lemma_pow2_adds(64, 64);
            lemma_underflow(sig as int, exp as int, more);
        }
        return 0;
    }
    let half: u128 = power((s - 1) as u32);
    let (q, rem): (u128, u128) = if s == 128 {
        (0, sig)
    } else {
        let p: u128 = power(s as u32);
        proof {
            lemma_pow2_pos(s as nat);
            vstd::arithmetic::div_mod::lemma_fundamental_div_mod(sig as int, p as int);
            let q = sig as int / p as int;
            assert(q * p == p * q) by (nonlinear_arith);
        }
        (sig / p, sig % p)
    };
    let next = rem > half || (rem == half && (more || q % 2 == 1));
    proof {
        lemma_pow2_unfold(s as nat);
        let p = 2 * half as int;
        assert(p == pow2(s as nat));
        assert(sig < pow2(128)) by {
            lemma_pow2_adds(64, 64);
        }
        assert(sig == q * p + rem);
        // q has at most 53 bits, and 53 where the exponent is not the least
        if e > 0 {
            assert(s == n - 53);
            lemma_pow2_adds(52, s as nat);
            lemma_pow2_adds(53, s as nat);
            assert(sig >= 0x10_0000_0000_0000 * p);
            assert(sig < 0x20_0000_0000_0000 * p);
        } else {
            assert(n <= 53 + s);
            if n < 53 + s {
                lemma_pow2_strictly_increases(n as nat, (53 + s) as nat);
            }
            lemma_pow2_adds(53, s as nat);
            assert(sig < 0x20_0000_0000_0000 * p);
        }
        assert(q < 0x20_0000_0000_0000) by (nonlinear_arith)
            requires
                sig < 0x20_0000_0000_0000 * p,
                sig == q * p + rem,
                rem >= 0,
                p > 0,
        ;
        if e > 0 {
            assert(q >= 0x10_0000_0000_0000) by (nonlinear_arith)
                requires
                    sig >= 0x10_0000_0000_0000 * p,
                    sig == q * p + rem,
                    rem < p,
                    p > 0,
            ;
        }
        lemma_cut(
            sig as int,
            exp as int,
            more,
            q as int,
            rem as int,
            half as int,
            e as int,
            next,
        );
    }
    let m: u64 = e as u64 * 0x10_0000_0000_0000 + q as u64;
    if next {
        m + 1
    } else {
        m
    }
}

/// The number lies above the midpoint below pattern `m`, or on it and `m` is
/// even.
spec fn reaches(m: int, num: int, den: int) -> bool {
    m > 0 ==> {
        let mid = (magnitude_value(m - 1) + magnitude_value(m)) * den;
        mid < 2 * num || (mid == 2 * num && m % 2 == 0)
    }
}

proof fn lemma_nearest_from(m: int, num: int, den: int)
    requires
        0 <= m <= INFINITY,
        reaches(m, num, den),
    ensures
        exists|n: int| is_nearest(n, num, den),
    decreases INFINITY - m,
{
    if m < INFINITY && reaches(m + 1, num, den) {
        lemma_nearest_from(m + 1, num, den);
    } else {
        assert(is_nearest(m, num, den));
    }
}

/// Every number has exactly one nearest pattern.
pub proof fn law_nearest_exists(num: int, den: int)
    requires
        den > 0,
    ensures
        is_nearest(nearest(num, den), num, den),
        forall|m: int| is_nearest(m, num, den) ==> m == nearest(num, den),
{
    lemma_nearest_from(0, num, den);
    assert forall|m: int| is_nearest(m, num, den) implies m == nearest(num, den) by {
        lemma_nearest_unique(m, nearest(num, den), num, den);
    }
}

/// A number that has a pattern of its own is not changed by rounding.
pub proof fn law_representable_stays(m: int)
    requires
        0 <= m < INFINITY,
    ensures
        nearest(magnitude_value(m), 1) == m,
{
    let v = magnitude_value(m);
    lemma_magnitudes_ordered(m, m + 1);
    if m > 0 {
        lemma_magnitudes_ordered(m - 1, m);
    }
    assert(is_nearest(m, v, 1));
    lemma_nearest_unique(m, nearest(v, 1), v, 1);
}

/// Rounding keeps the order of numbers.
pub proof fn law_rounding_monotone(a: int, b: int, den: int)
    requires
        den > 0,
        a <= b,
    ensures
        nearest(a, den) <= nearest(b, den),
{
    law_nearest_exists(a, den);
    law_nearest_exists(b, den);
    let (m, n) = (nearest(b, den), nearest(a, den));
    if m < n {
        // b lies above the midpoint above m, or on it: not nearest to m
        let p = magnitude_value(m) + magnitude_value(m + 1);
        let q = magnitude_value(n - 1) + magnitude_value(n);
        lemma_magnitudes_ordered(m, n - 1);
        lemma_magnitudes_ordered(m + 1, n);
        assert(p * den <= q * den) by (nonlinear_arith)
            requires
                p <= q,
                den > 0,
        ;
        if m + 1 < n {
            assert(p * den < q * den) by (nonlinear_arith)
                requires
                    p < q,
                    den > 0,
            ;
        }
    }
}

} // verus!
