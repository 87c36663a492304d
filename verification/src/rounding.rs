//! Rounding to the nearest binary32 number.
//!
//! A magnitude pattern `m` stands for [`magnitude_value`]`(m)` units of 2^-149,
//! and the pattern of infinity for the first value past the largest finite
//! one. Rounding an exact result means to find the pattern between whose two
//! midpoints it lies; on a midpoint the even pattern wins.

use vstd::prelude::*;
use vstd::arithmetic::power2::{lemma_pow2_adds, lemma_pow2_pos, lemma_pow2_strictly_increases, lemma_pow2_unfold, pow2};
use crate::single::{lemma_magnitude_increases, magnitude_value, INFINITY_BITS};

verus! {

/// Pattern `m` is the one nearest to `num / den` units of 2^-149, ties to the
/// even pattern; infinity from the midpoint above the largest finite number on.
pub open spec fn is_nearest(m: int, num: int, den: int) -> bool {
    &&& 0 <= m <= INFINITY_BITS
    &&& m > 0 ==> {
        let mid = (magnitude_value(m - 1) + magnitude_value(m)) * den;
        mid < 2 * num || (mid == 2 * num && m % 2 == 0)
    }
    &&& m < INFINITY_BITS ==> {
        let mid = (magnitude_value(m) + magnitude_value(m + 1)) * den;
        2 * num < mid || (2 * num == mid && m % 2 == 0)
    }
}

/// The pattern nearest to `num / den` units of 2^-149.
pub open spec fn nearest(num: int, den: int) -> int {
    choose|m: int| is_nearest(m, num, den)
}

/// Pattern `m` is the one nearest to the square root of `x`, in units of
/// 2^-149, ties to the even pattern.
pub open spec fn is_nearest_root(m: int, x: int) -> bool {
    &&& 0 <= m <= INFINITY_BITS
    &&& m > 0 ==> {
        let mid = magnitude_value(m - 1) + magnitude_value(m);
        mid * mid < 4 * x || (mid * mid == 4 * x && m % 2 == 0)
    }
    &&& m < INFINITY_BITS ==> {
        let mid = magnitude_value(m) + magnitude_value(m + 1);
        4 * x < mid * mid || (4 * x == mid * mid && m % 2 == 0)
    }
}

/// The pattern nearest to the square root of `x`, in units of 2^-149.
pub open spec fn nearest_root(x: int) -> int {
    choose|m: int| is_nearest_root(m, x)
}

/// `2^e`, and 1 for a negative `e`.
pub open spec fn up(e: int) -> int {
    if e >= 0 {
        pow2(e as nat) as int
    } else {
        1
    }
}

/// Pattern `m` is right for `sig * 2^exp`, or with `more` for every number
/// strictly between `sig * 2^exp` and `(sig + 1) * 2^exp`.
pub open spec fn brackets(m: int, sig: int, exp: int, more: bool) -> bool {
    &&& 0 <= m <= INFINITY_BITS
    &&& m > 0 ==> {
        let mid = (magnitude_value(m - 1) + magnitude_value(m)) * up(-exp);
        mid < 2 * sig * up(exp) || (mid == 2 * sig * up(exp) && (more || m % 2 == 0))
    }
    &&& m < INFINITY_BITS ==> {
        let mid = (magnitude_value(m) + magnitude_value(m + 1)) * up(-exp);
        if more {
            2 * (sig + 1) * up(exp) <= mid
        } else {
            2 * sig * up(exp) < mid || (2 * sig * up(exp) == mid && m % 2 == 0)
        }
    }
}

/// Patterns are ordered as the magnitudes they stand for.
pub proof fn lemma_magnitudes_ordered(a: int, b: int)
    requires
        0 <= a <= b,
    ensures
        0 <= magnitude_value(a) <= magnitude_value(b),
        a < b ==> magnitude_value(a) < magnitude_value(b),
{
    if a < b {
        lemma_magnitude_increases(a, b);
    }
    if 0 < a {
        lemma_magnitude_increases(0, a);
    }
    assert(magnitude_value(0) == 0);
}

/// No two patterns are nearest to the same number.
pub proof fn lemma_nearest_unique(m: int, n: int, num: int, den: int)
    requires
        den > 0,
        is_nearest(m, num, den),
        is_nearest(n, num, den),
    ensures
        m == n,
{
    lemma_nearest_ordered(m, n, num, den);
    lemma_nearest_ordered(n, m, num, den);
}

proof fn lemma_nearest_ordered(m: int, n: int, num: int, den: int)
    requires
        den > 0,
        is_nearest(m, num, den),
        is_nearest(n, num, den),
    ensures
        m >= n,
{
    if m < n {
        let a = magnitude_value(m) + magnitude_value(m + 1);
        let b = magnitude_value(n - 1) + magnitude_value(n);
        lemma_magnitudes_ordered(m, n - 1);
        lemma_magnitudes_ordered(m + 1, n);
        assert(a * den <= b * den) by (nonlinear_arith)
            requires
                a <= b,
                den > 0,
        ;
        if m + 1 < n {
            assert(a * den < b * den) by (nonlinear_arith)
                requires
                    a < b,
                    den > 0,
            ;
        }
    }
}

/// No two patterns are nearest to the same square root.
pub proof fn lemma_nearest_root_unique(m: int, n: int, x: int)
    requires
        is_nearest_root(m, x),
        is_nearest_root(n, x),
    ensures
        m == n,
{
    lemma_nearest_root_ordered(m, n, x);
    lemma_nearest_root_ordered(n, m, x);
}

proof fn lemma_nearest_root_ordered(m: int, n: int, x: int)
    requires
        is_nearest_root(m, x),
        is_nearest_root(n, x),
    ensures
        m >= n,
{
    if m < n {
        let a = magnitude_value(m) + magnitude_value(m + 1);
        let b = magnitude_value(n - 1) + magnitude_value(n);
        lemma_magnitudes_ordered(m, n - 1);
        lemma_magnitudes_ordered(m + 1, n);
        assert(a * a <= b * b) by (nonlinear_arith)
            requires
                0 <= a <= b,
        ;
        if m + 1 < n {
            assert(a * a < b * b) by (nonlinear_arith)
                requires
                    0 <= a < b,
            ;
        }
    }
}

/// The pattern with significand `q` and exponent `e`, and the one after it.
proof fn lemma_pattern_values(q: int, e: int)
    requires
        0 <= e,
        0 <= q < 0x100_0000,
        e > 0 ==> q >= 0x80_0000,
    ensures
        magnitude_value(e * 0x80_0000 + q) == q * pow2(e as nat),
        magnitude_value(e * 0x80_0000 + q + 1) == (q + 1) * pow2(e as nat),
{
    lemma_pow2_unfold((e + 1) as nat);
    assert(pow2(0) == 1) by {
        vstd::arithmetic::power2::lemma2_to64();
    }
    let m = e * 0x80_0000 + q;
    if q < 0x80_0000 {
        assert(m / 0x80_0000 == 0 && m % 0x80_0000 == q);
        if q + 1 == 0x80_0000 {
            assert((m + 1) / 0x80_0000 == 1 && (m + 1) % 0x80_0000 == 0);
        }
    } else {
        assert(m / 0x80_0000 == e + 1 && m % 0x80_0000 == q - 0x80_0000);
        if q + 1 == 0x100_0000 {
            assert((m + 1) / 0x80_0000 == e + 2 && (m + 1) % 0x80_0000 == 0);
            assert(0x80_0000 * (2 * pow2(e as nat)) == 0x100_0000 * pow2(e as nat));
        } else {
            assert((m + 1) / 0x80_0000 == e + 1 && (m + 1) % 0x80_0000 == q + 1 - 0x80_0000);
        }
    }
}

/// Number of bits of `x`.
pub fn bit_length(x: u64) -> (n: u32)
    requires
        x > 0,
    ensures
        1 <= n <= 64,
        pow2((n - 1) as nat) <= x,
        n < 64 ==> x < pow2(n as nat),
        x < pow2(64),
{
    let z: u32 = x.leading_zeros();
    proof {
        broadcast use vstd::std_specs::bits::axiom_u64_leading_zeros;
        vstd::arithmetic::power2::lemma2_to64_rest();
        assert(0 <= z < 64);
        let top = (63 - z) as u64;
        assert((x >> top) & 1u64 != 0 ==> x >> top >= 1) by (bit_vector);
        vstd::bits::lemma_u64_shr_is_div(x, top);
        lemma_pow2_pos(top as nat);
        assert(x as nat / pow2(top as nat) >= 1);
        assert(x >= pow2(top as nat)) by (nonlinear_arith)
            requires
                x as nat / pow2(top as nat) >= 1,
                pow2(top as nat) > 0,
        ;
        if z > 0 {
            let all = (64 - z) as u64;
            vstd::bits::lemma_u64_shr_is_div(x, all);
            lemma_pow2_pos(all as nat);
            assert(x as nat / pow2(all as nat) == 0);
            assert(x < pow2(all as nat)) by (nonlinear_arith)
                requires
                    x as nat / pow2(all as nat) == 0,
                    pow2(all as nat) > 0,
            ;
        }
    }
    64 - z
}

/// The unit in the last place of the result, scaled to the common unit.
pub proof fn lemma_scales(e: int, exp: int)
    requires
        0 <= e,
        exp <= e,
    ensures
        up(exp) > 0,
        up(-exp) > 0,
        pow2(e as nat) * up(-exp) == pow2((e - exp) as nat) * up(exp),
{
    if exp >= 0 {
        lemma_pow2_pos(exp as nat);
        lemma_pow2_adds((e - exp) as nat, exp as nat);
        assert(up(-exp) == 1) by {
            vstd::arithmetic::power2::lemma2_to64();
        }
    } else {
        lemma_pow2_pos((-exp) as nat);
        lemma_pow2_adds(e as nat, (-exp) as nat);
    }
}

/// A result that needs no rounding.
proof fn lemma_exact(sig: int, exp: int, q: int, e: int)
    requires
        0 <= e <= exp,
        e < 254,
        0 <= q < 0x100_0000,
        e > 0 ==> q >= 0x80_0000,
        q == sig * pow2((exp - e) as nat),
    ensures
        brackets(e * 0x80_0000 + q, sig, exp, false),
{
    let m = e * 0x80_0000 + q;
    lemma_pattern_values(q, e);
    lemma_pow2_adds((exp - e) as nat, e as nat);
    let (p, pe) = (pow2((exp - e) as nat) as int, pow2(e as nat) as int);
    assert(sig * (p * pe) == (sig * p) * pe) by (nonlinear_arith);
    assert(up(-exp) == 1) by {
        vstd::arithmetic::power2::lemma2_to64();
    }
    assert(magnitude_value(m) == sig * up(exp));
    assert(2 * sig * up(exp) == 2 * (sig * up(exp))) by (nonlinear_arith);
    lemma_magnitudes_ordered(m, m + 1);
    if m > 0 {
        lemma_magnitudes_ordered(m - 1, m);
    }
}

/// A result between two patterns, cut at their midpoint.
proof fn lemma_cut(sig: int, exp: int, more: bool, q: int, rem: int, half: int, e: int, next: bool)
    requires
        0 <= e < 254,
        exp < e,
        0 <= q < 0x100_0000,
        e > 0 ==> q >= 0x80_0000,
        half == pow2((e - exp - 1) as nat),
        sig == q * (2 * half) + rem,
        0 <= rem < 2 * half,
        next == (rem > half || (rem == half && (more || q % 2 == 1))),
    ensures
        brackets(e * 0x80_0000 + q + if next { 1int } else { 0int }, sig, exp, more),
{
    let m = e * 0x80_0000 + q;
    let p = 2 * half;
    let (u, d) = (up(exp), up(-exp));
    lemma_pattern_values(q, e);
    lemma_scales(e, exp);
    lemma_pow2_unfold((e - exp) as nat);
    assert(pow2((e - exp) as nat) == p);
    let pe = pow2(e as nat) as int;
    assert(pe * d == p * u);
    let mid = (magnitude_value(m) + magnitude_value(m + 1)) * d;
    assert(mid == (2 * q + 1) * p * u) by (nonlinear_arith)
        requires
            mid == (q * pe + (q + 1) * pe) * d,
            pe * d == p * u,
    ;
    let lo = magnitude_value(m) * d;
    assert(lo == q * p * u) by (nonlinear_arith)
        requires
            lo == q * pe * d,
            pe * d == p * u,
    ;
    let hi = magnitude_value(m + 1) * d;
    assert(hi == (q + 1) * p * u) by (nonlinear_arith)
        requires
            hi == (q + 1) * pe * d,
            pe * d == p * u,
    ;
    assert(m % 2 == q % 2);
    lemma_magnitudes_ordered(m + 1, m + 2);
    if next {
        let above = (magnitude_value(m + 1) + magnitude_value(m + 2)) * d;
        assert(2 * hi < above) by (nonlinear_arith)
            requires
                hi == magnitude_value(m + 1) * d,
                above == (magnitude_value(m + 1) + magnitude_value(m + 2)) * d,
                magnitude_value(m + 1) < magnitude_value(m + 2),
                d > 0,
        ;
        assert(2 * sig * u >= mid) by (nonlinear_arith)
            requires
                sig == q * p + rem,
                2 * rem >= p,
                mid == (2 * q + 1) * p * u,
                u > 0,
        ;
        if 2 * rem > p {
            assert(2 * sig * u > mid) by (nonlinear_arith)
                requires
                    sig == q * p + rem,
                    2 * rem > p,
                    mid == (2 * q + 1) * p * u,
                    u > 0,
            ;
        }
        assert(2 * (sig + 1) * u <= 2 * hi) by (nonlinear_arith)
            requires
                sig == q * p + rem,
                rem + 1 <= p,
                hi == (q + 1) * p * u,
                u > 0,
        ;
        assert(2 * sig * u < 2 * (sig + 1) * u) by (nonlinear_arith)
            requires
                u > 0,
        ;
    } else {
        if m > 0 {
            lemma_magnitudes_ordered(m - 1, m);
            let below = (magnitude_value(m - 1) + magnitude_value(m)) * d;
            assert(below < 2 * lo) by (nonlinear_arith)
                requires
                    lo == magnitude_value(m) * d,
                    below == (magnitude_value(m - 1) + magnitude_value(m)) * d,
                    magnitude_value(m - 1) < magnitude_value(m),
                    d > 0,
            ;
        }
        assert(2 * lo <= 2 * sig * u) by (nonlinear_arith)
            requires
                sig == q * p + rem,
                rem >= 0,
                lo == q * p * u,
                u > 0,
        ;
        if more {
            assert(2 * (sig + 1) * u <= mid) by (nonlinear_arith)
                requires
                    sig == q * p + rem,
                    2 * (rem + 1) <= p,
                    mid == (2 * q + 1) * p * u,
                    u > 0,
            ;
        } else if rem < half {
            assert(2 * sig * u < mid) by (nonlinear_arith)
                requires
                    sig == q * p + rem,
                    2 * rem < p,
                    mid == (2 * q + 1) * p * u,
                    u > 0,
            ;
        } else {
            assert(2 * sig * u == mid) by (nonlinear_arith)
                requires
                    sig == q * p + rem,
                    2 * rem == p,
                    mid == (2 * q + 1) * p * u,
            ;
        }
    }
}

/// A result past the largest finite number.
proof fn lemma_overflow(sig: int, exp: int, more: bool, n: int)
    requires
        n >= 1,
        pow2((n - 1) as nat) <= sig,
        exp + n - 24 >= 254,
    ensures
        brackets(INFINITY_BITS as int, sig, exp, more),
{
    let inf = INFINITY_BITS as int;
    lemma_pattern_values(0x80_0000, 254);
    assert(254 * 0x80_0000 + 0x80_0000 == inf);
    lemma_magnitudes_ordered(inf - 1, inf);
    vstd::arithmetic::power2::lemma2_to64();
    let big = magnitude_value(inf);
    assert(big == pow2(277)) by {
        lemma_pow2_adds(23, 254);
    }
    // sig * 2^exp >= 2^(n - 1 + exp) >= 2^277
    if exp >= 0 {
        assert(up(-exp) == 1);
        lemma_pow2_adds((n - 1) as nat, exp as nat);
        lemma_pow2_pos(exp as nat);
        if n - 1 + exp > 277 {
            lemma_pow2_strictly_increases(277, (n - 1 + exp) as nat);
        }
        let (a, b) = (pow2((n - 1) as nat) as int, pow2(exp as nat) as int);
        assert(sig * b >= a * b) by (nonlinear_arith)
            requires
                sig >= a,
                b > 0,
        ;
        assert(2 * sig * up(exp) == 2 * (sig * b)) by (nonlinear_arith)
            requires
                up(exp) == b,
        ;
    } else {
        lemma_pow2_adds(277, (-exp) as nat);
        if n - 1 > 277 - exp {
            lemma_pow2_strictly_increases((277 - exp) as nat, (n - 1) as nat);
        }
        lemma_pow2_pos((-exp) as nat);
        let d = up(-exp);
        let low = magnitude_value(inf - 1);
        assert((low + big) * d < 2 * (big * d)) by (nonlinear_arith)
            requires
                low < big,
                d > 0,
        ;
    }
}

/// A result below half the smallest positive number.
proof fn lemma_underflow(sig: int, exp: int, more: bool)
    requires
        0 <= sig < pow2(64),
        exp <= -65,
    ensures
        brackets(0, sig, exp, more),
{
    assert(magnitude_value(0) == 0 && magnitude_value(1) == 1);
    if -exp > 65 {
        lemma_pow2_strictly_increases(65, (-exp) as nat);
    }
    lemma_pow2_unfold(65);
}

/// The pattern for `sig * 2^exp` units, or with `more` for what lies strictly
/// between that and `(sig + 1) * 2^exp`.
pub fn round(sig: u64, exp: i32, more: bool) -> (m: u32)
    requires
        -2000 <= exp <= 2000,
        more ==> sig >= 0x200_0000,
    ensures
        brackets(m as int, sig as int, exp as int, more),
{
    if sig == 0 {
        proof {
            lemma_magnitudes_ordered(0, 1);
            assert(magnitude_value(0) == 0 && magnitude_value(1) == 1);
            lemma_scales(if exp >= 0 { exp as int } else { 0 }, exp as int);
            assert(2 * 0 * up(exp as int) == 0) by (nonlinear_arith);
        }
        return 0;
    }
    let n: i32 = bit_length(sig) as i32;
    let e: i32 = if exp + n > 24 {
        exp + n - 24
    } else {
        0
    };
    if e >= 254 {
        proof {
            lemma_overflow(sig as int, exp as int, more, n as int);
        }
        return INFINITY_BITS;
    }
    let s: i32 = e - exp;
    proof {
        vstd::arithmetic::power2::lemma2_to64();
        vstd::arithmetic::power2::lemma2_to64_rest();
    }
    if s <= 0 {
        let k = (-s) as u64;
        proof {
            // n + k <= 24
            lemma_pow2_adds(n as nat, k as nat);
            lemma_pow2_adds((n - 1) as nat, k as nat);
            lemma_pow2_pos(k as nat);
            if n + k < 24 {
                lemma_pow2_strictly_increases((n + k) as nat, 24);
            }
            let p = pow2(k as nat) as int;
            assert(sig * p < pow2(n as nat) * p) by (nonlinear_arith)
                requires
                    sig < pow2(n as nat),
                    p > 0,
            ;
            assert(sig * p >= pow2((n - 1) as nat) * p) by (nonlinear_arith)
                requires
                    sig >= pow2((n - 1) as nat),
                    p > 0,
            ;
            vstd::bits::lemma_u64_shl_is_mul(sig, k);
            assert(more ==> n >= 26) by {
                if more && n < 26 {
                    if n < 25 {
                        lemma_pow2_strictly_increases(n as nat, 25);
                    }
                }
            }
            lemma_exact(sig as int, exp as int, sig * p, e as int);
        }
        let q: u64 = sig << k;
        return e as u32 * 0x80_0000 + q as u32;
    }
    if s > 64 {
        proof {
            lemma_underflow(sig as int, exp as int, more);
        }
        return 0;
    }
    let (q, rem, half): (u64, u64, u64) = if s == 64 {
        (0, sig, 0x8000_0000_0000_0000)
    } else {
        proof {
            vstd::bits::lemma_u64_shr_is_div(sig, s as u64);
            lemma_pow2_pos(s as nat);
            vstd::bits::lemma_u64_pow2_no_overflow(s as nat);
            vstd::bits::lemma_u64_pow2_no_overflow((s - 1) as nat);
            vstd::bits::lemma_u64_shl_is_mul(1, (s - 1) as u64);
            vstd::arithmetic::div_mod::lemma_fundamental_div_mod(sig as int, pow2(s as nat) as int);
            let (q, p) = (sig as int / pow2(s as nat) as int, pow2(s as nat) as int);
            assert(q * p == p * q) by (nonlinear_arith);
            assert(0 <= q * p) by (nonlinear_arith)
                requires
                    q >= 0,
                    p > 0,
            ;
            vstd::bits::lemma_u64_shl_is_mul((sig >> (s as u64)), s as u64);
        }
        let q: u64 = sig >> (s as u64);
        let whole: u64 = q << (s as u64);
        (q, sig - whole, 1u64 << ((s - 1) as u64))
    };
    let next = rem > half || (rem == half && (more || q % 2 == 1));
    proof {
        lemma_pow2_unfold(s as nat);
        assert(half == pow2((s - 1) as nat));
        let p = 2 * half as int;
        assert(sig == q * p + rem);
        // q has at most 24 bits, and 24 where the exponent is not the least
        if e > 0 {
            assert(s == n - 24);
            lemma_pow2_adds(23, s as nat);
            lemma_pow2_adds(24, s as nat);
            assert(sig >= 0x80_0000 * p);
            assert(sig < 0x100_0000 * p);
        } else {
            assert(n <= 24 + s);
            if n < 24 + s {
                lemma_pow2_strictly_increases(n as nat, (24 + s) as nat);
            }
            lemma_pow2_adds(24, s as nat);
            assert(sig < 0x100_0000 * p);
        }
        assert(q < 0x100_0000) by (nonlinear_arith)
            requires
                sig < 0x100_0000 * p,
                sig == q * p + rem,
                rem >= 0,
                p > 0,
        ;
        if e > 0 {
            assert(q >= 0x80_0000) by (nonlinear_arith)
                requires
                    sig >= 0x80_0000 * p,
                    sig == q * p + rem,
                    rem < p,
                    p > 0,
            ;
        }
        lemma_cut(
            sig as int,
            exp as int,
            more,
            q as int,
            rem as int,
            half as int,
            e as int,
            next,
        );
    }
    let m: u32 = e as u32 * 0x80_0000 + q as u32;
    if next {
        m + 1
    } else {
        m
    }
}

/// The number lies above the midpoint below pattern `m`, or on it and `m` is
/// even.
spec fn reaches(m: int, num: int, den: int) -> bool {
    m > 0 ==> {
        let mid = (magnitude_value(m - 1) + magnitude_value(m)) * den;
        mid < 2 * num || (mid == 2 * num && m % 2 == 0)
    }
}

proof fn lemma_nearest_from(m: int, num: int, den: int)
    requires
        0 <= m <= INFINITY_BITS,
        reaches(m, num, den),
    ensures
        exists|n: int| is_nearest(n, num, den),
    decreases INFINITY_BITS - m,
{
    if m < INFINITY_BITS && reaches(m + 1, num, den) {
        lemma_nearest_from(m + 1, num, den);
    } else {
        assert(is_nearest(m, num, den));
    }
}

/// Every number has exactly one nearest pattern.
pub proof fn law_nearest_exists(num: int, den: int)
    requires
        den > 0,
    ensures
        is_nearest(nearest(num, den), num, den),
        forall|m: int| is_nearest(m, num, den) ==> m == nearest(num, den),
{
    lemma_nearest_from(0, num, den);
    assert forall|m: int| is_nearest(m, num, den) implies m == nearest(num, den) by {
        lemma_nearest_unique(m, nearest(num, den), num, den);
    }
}

/// Rounding gives a pattern up to that of infinity.
pub proof fn lemma_nearest_in_range(num: int, den: int)
    requires
        den > 0,
    ensures
        0 <= nearest(num, den) <= INFINITY_BITS,
{
    law_nearest_exists(num, den);
}

/// A number that has a pattern of its own is not changed by rounding.
pub proof fn law_representable_stays(m: int)
    requires
        0 <= m < INFINITY_BITS,
    ensures
        nearest(magnitude_value(m), 1) == m,
{
    let v = magnitude_value(m);
    lemma_magnitudes_ordered(m, m + 1);
    if m > 0 {
        lemma_magnitudes_ordered(m - 1, m);
    }
    assert(is_nearest(m, v, 1));
    lemma_nearest_unique(m, nearest(v, 1), v, 1);
}

/// A number that has a pattern of its own is what its ratio to one rounds to.
pub proof fn law_multiple_rounds_back(m: int, den: int)
    requires
        0 <= m < INFINITY_BITS,
        den > 0,
    ensures
        nearest(magnitude_value(m) * den, den) == m,
{
    let v = magnitude_value(m);
    lemma_magnitudes_ordered(m, m + 1);
    let above = magnitude_value(m + 1);
    assert(2 * (v * den) < (v + above) * den) by (nonlinear_arith)
        requires
            v < above,
            den > 0,
    ;
    if m > 0 {
        lemma_magnitudes_ordered(m - 1, m);
        let below = magnitude_value(m - 1);
        assert((below + v) * den < 2 * (v * den)) by (nonlinear_arith)
            requires
                below < v,
                den > 0,
        ;
    }
    assert(is_nearest(m, v * den, den));
    lemma_nearest_unique(m, nearest(v * den, den), v * den, den);
}

/// Rounding keeps the order of numbers.
pub proof fn law_rounding_monotone(a: int, b: int, den: int)
    requires
        den > 0,
        a <= b,
    ensures
        nearest(a, den) <= nearest(b, den),
{
    law_nearest_exists(a, den);
    law_nearest_exists(b, den);
    let (m, n) = (nearest(b, den), nearest(a, den));
    if m < n {
        // b lies above the midpoint above m, or on it: not nearest to m
        let p = magnitude_value(m) + magnitude_value(m + 1);
        let q = magnitude_value(n - 1) + magnitude_value(n);
        lemma_magnitudes_ordered(m, n - 1);
        lemma_magnitudes_ordered(m + 1, n);
        assert(p * den <= q * den) by (nonlinear_arith)
            requires
                p <= q,
                den > 0,
        ;
        if m + 1 < n {
            assert(p * den < q * den) by (nonlinear_arith)
                requires
                    p < q,
                    den > 0,
            ;
        }
    }
}

} // verus!
