//! Binary64 arithmetic on bit patterns, rounded as in [`crate::arith`].

use vstd::prelude::*;
use vstd::arithmetic::power2::{lemma_pow2_adds, lemma_pow2_pos, lemma_pow2_strictly_increases, lemma_pow2_unfold, pow2};
use crate::arith::{absolute, lemma_near_sum, lemma_two_scales, scaled};
use crate::double::{bits_of, brackets, is_nearest, law_representable_stays, lemma_magnitudes_ordered, lemma_nearest_unique, lemma_pattern_values, magnitude_value, nearest, power, round, Double, INFINITY, NAN};
use crate::conversion::{into_usize, lemma_scaled_mod};
use crate::rounding::up;
use crate::single::{Single, INFINITY_BITS};

verus! {

/// The units of 2^-1074 in one.
pub open spec fn one() -> int {
    pow2(1074) as int
}

/// The number with this sign and magnitude pattern.
pub open spec fn signed(negative: bool, m: int) -> Double {
    Double {
        bits: if negative {
            (m + 0x8000_0000_0000_0000) as u64
        } else {
            m as u64
        },
    }
}

/// The NaN that invalid operations give.
pub open spec fn no_number() -> Double {
    Double { bits: NAN }
}

impl Double {
    /// `self + other`.
    #[verifier::opaque]
    pub open spec fn plus(self, other: Double) -> Double {
        if self.nan() || other.nan() || (self.infinite() && other.infinite() && self.negative()
            != other.negative()) {
            no_number()
        } else if self.infinite() {
            self
        } else if other.infinite() {
            other
        } else {
            let v = self.value() + other.value();
            if v == 0 {
                signed(self.negative() && other.negative(), 0)
            } else {
                signed(v < 0, nearest(absolute(v), 1))
            }
        }
    }

    /// `self - other`.
    pub open spec fn minus(self, other: Double) -> Double {
        self.plus(other.negated())
    }

    /// `self * other`.
    #[verifier::opaque]
    pub open spec fn times(self, other: Double) -> Double {
        let negative = self.negative() != other.negative();
        if self.nan() || other.nan() || (self.infinite() && other.zero()) || (self.zero()
            && other.infinite()) {
            no_number()
        } else if self.infinite() || other.infinite() {
            signed(negative, INFINITY as int)
        } else {
            signed(negative, nearest(absolute(self.value()) * absolute(other.value()), one()))
        }
    }

    /// `self / other`.
    #[verifier::opaque]
    pub open spec fn over(self, other: Double) -> Double {
        let negative = self.negative() != other.negative();
        if self.nan() || other.nan() || (self.infinite() && other.infinite()) || (self.zero()
            && other.zero()) {
            no_number()
        } else if self.infinite() || other.zero() {
            signed(negative, INFINITY as int)
        } else if other.infinite() {
            signed(negative, 0)
        } else {
            signed(negative, nearest(absolute(self.value()) * one(), absolute(other.value())))
        }
    }
}

/// A finite magnitude pattern as significand and exponent.
pub fn parts(m: u64) -> (r: (u128, i32))
    requires
        m < INFINITY,
    ensures
        magnitude_value(m as int) == r.0 * pow2(r.1 as nat),
        0 <= r.0 < 0x20_0000_0000_0000,
        0 <= r.1 <= 2045,
        r.1 > 0 ==> r.0 >= 0x10_0000_0000_0000,
        r.0 == 0 <==> m == 0,
        magnitude_value(m as int) >= 0,
        magnitude_value(m as int) == 0 <==> m == 0,
{
    proof {
        vstd::arithmetic::power2::lemma2_to64();
        lemma_magnitudes_ordered(0, m as int);
        assert(magnitude_value(0) == 0);
    }
    let e: u64 = m / 0x10_0000_0000_0000;
    let f: u64 = m % 0x10_0000_0000_0000;
    assert(m as int / 0x10_0000_0000_0000 == e && m as int % 0x10_0000_0000_0000 == f);
    if e == 0 {
        assert(f as u128 * pow2(0) == f);
        (f as u128, 0)
    } else {
        assert((e as i32 - 1) as nat == (e as int - 1) as nat);
        ((f + 0x10_0000_0000_0000) as u128, e as i32 - 1)
    }
}

/// What rounding gives for `sig * 2^exp`, or for a number just above it, is
/// what is nearest to `num / den` where that is the same number.
pub proof fn lemma_rounded(m: int, sig: int, exp: int, more: bool, num: int, den: int)
    requires
        brackets(m, sig, exp, more),
        den > 0,
        up(exp) > 0,
        up(-exp) > 0,
        !more ==> num * up(-exp) == sig * up(exp) * den,
        more ==> sig * up(exp) * den < num * up(-exp) < (sig + 1) * up(exp) * den,
    ensures
        is_nearest(m, num, den),
        m == nearest(num, den),
{
    let (u, d) = (up(exp), up(-exp));
    if m > 0 {
        let s = magnitude_value(m - 1) + magnitude_value(m);
        let mid = s * d;
        if mid < 2 * sig * u || more {
            assert(s * den < 2 * num) by (nonlinear_arith)
                requires
                    mid == s * d,
                    mid < 2 * sig * u && sig * u * den <= num * d || mid <= 2 * sig * u && sig * u
                        * den < num * d,
                    d > 0,
                    den > 0,
            ;
        } else {
            assert(s * den == 2 * num) by (nonlinear_arith)
                requires
                    mid == s * d,
                    mid == 2 * sig * u,
                    num * d == sig * u * den,
                    d > 0,
            ;
        }
    }
    if m < INFINITY {
        let s = magnitude_value(m) + magnitude_value(m + 1);
        let mid = s * d;
        if more {
            assert(2 * num < s * den) by (nonlinear_arith)
                requires
                    mid == s * d,
                    2 * (sig + 1) * u <= mid,
                    num * d < (sig + 1) * u * den,
                    d > 0,
                    den > 0,
            ;
        } else if 2 * sig * u < mid {
            assert(2 * num < s * den) by (nonlinear_arith)
                requires
                    mid == s * d,
                    2 * sig * u < mid,
                    num * d == sig * u * den,
                    d > 0,
                    den > 0,
            ;
        } else {
            assert(s * den == 2 * num) by (nonlinear_arith)
                requires
                    mid == s * d,
                    mid == 2 * sig * u,
                    num * d == sig * u * den,
                    d > 0,
            ;
        }
    }
    assert(is_nearest(m, num, den));
    let n = nearest(num, den);
    lemma_nearest_unique(m, n, num, den);
}

/// The absolute value is what the magnitude pattern stands for.
pub proof fn lemma_absolute(a: Double)
    ensures
        absolute(a.value()) == magnitude_value(a.magnitude()),
        a.value() == if a.negative() {
            -absolute(a.value())
        } else {
            absolute(a.value())
        },
        a.zero() <==> a.value() == 0,
{
    lemma_magnitudes_ordered(0, a.magnitude());
    assert(magnitude_value(0) == 0);
}

/// The number with this sign and magnitude pattern.
pub fn make(negative: bool, m: u64) -> (r: Double)
    requires
        m <= INFINITY,
    ensures
        r == signed(negative, m as int),
{
    if negative {
        Double { bits: m + 0x8000_0000_0000_0000 }
    } else {
        Double { bits: m }
    }
}

/// The exact product, scaled for rounding.
proof fn lemma_product(fa: int, ea: int, fb: int, eb: int)
    requires
        0 <= ea,
        0 <= eb,
    ensures
        up(ea + eb - 1074) > 0,
        up(1074 - ea - eb) > 0,
        (fa * pow2(ea as nat)) * (fb * pow2(eb as nat)) * up(-(ea + eb - 1074)) == (fa * fb) * up(
            ea + eb - 1074,
        ) * one(),
{
    let exp = ea + eb - 1074;
    lemma_two_scales(ea + eb, 1074, exp);
    lemma_pow2_adds(ea as nat, eb as nat);
    let (pa, pb, u, d, o) = (pow2(ea as nat) as int, pow2(eb as nat) as int, up(exp), up(-exp), one());
    assert((fa * pa) * (fb * pb) * d == (fa * fb) * u * o) by (nonlinear_arith)
        requires
            (pa * pb) * d == o * u,
    ;
}

impl Double {
    /// `self * other`.
    pub fn mul(self, other: Double) -> (r: Double)
        ensures
            r == self.times(other),
    {
        reveal(Double::times);
        let negative = (self.bits >= 0x8000_0000_0000_0000) != (other.bits >= 0x8000_0000_0000_0000);
        let a: u64 = self.bits % 0x8000_0000_0000_0000;
        let b: u64 = other.bits % 0x8000_0000_0000_0000;
        if self.is_nan() || other.is_nan() || (a == INFINITY && b == 0) || (a == 0 && b
            == INFINITY) {
            return Double { bits: NAN };
        }
        if a == INFINITY || b == INFINITY {
            return make(negative, INFINITY);
        }
        let (fa, ea) = parts(a);
        let (fb, eb) = parts(b);
        assert(0 <= fa * fb < 0x400_0000_0000_0000_0000_0000_0000) by (nonlinear_arith)
            requires
                0 <= fa < 0x20_0000_0000_0000,
                0 <= fb < 0x20_0000_0000_0000,
        ;
        let m = round(fa * fb, ea + eb - 1074, false);
        proof {
            lemma_absolute(self);
            lemma_absolute(other);
            lemma_product(fa as int, ea as int, fb as int, eb as int);
            lemma_pow2_pos(1074);
            lemma_rounded(
                m as int,
                fa * fb,
                ea + eb - 1074,
                false,
                absolute(self.value()) * absolute(other.value()),
                one(),
            );
        }
        make(negative, m)
    }
}

/// A number far below another is less than one in its guard bits.
proof fn lemma_far(fa: int, ea: int, fb: int, eb: int)
    requires
        0 <= eb,
        eb + 71 <= ea,
        0 < fb < 0x20_0000_0000_0000,
    ensures
        0 < fb * pow2(eb as nat) < pow2((ea - 14) as nat),
        fa * pow2(ea as nat) == (fa * 0x4000) * pow2((ea - 14) as nat),
{
    vstd::arithmetic::power2::lemma2_to64();
    vstd::arithmetic::power2::lemma2_to64_rest();
    lemma_pow2_pos(eb as nat);
    lemma_pow2_adds(53, eb as nat);
    lemma_pow2_strictly_increases((53 + eb) as nat, (ea - 14) as nat);
    let q = pow2(eb as nat) as int;
    assert(0 < fb * q < 0x20_0000_0000_0000 * q) by (nonlinear_arith)
        requires
            0 < fb < 0x20_0000_0000_0000,
            q > 0,
    ;
    lemma_pow2_adds(14, (ea - 14) as nat);
    let p = pow2((ea - 14) as nat) as int;
    assert(fa * (0x4000 * p) == (fa * 0x4000) * p) by (nonlinear_arith);
}

/// Rounds the sum of two finite numbers that is not zero, given with their
/// signs, significands and exponents; `None` for a sum of zero.
fn sum_parts(na: bool, fa: u128, ea: i32, nb: bool, fb: u128, eb: i32) -> (r: Option<(bool, u64)>)
    requires
        0 <= eb <= ea <= 2045,
        fa < 0x20_0000_0000_0000,
        fb < 0x20_0000_0000_0000,
        ea > 0 ==> fa >= 0x10_0000_0000_0000,
    ensures
        ({
            let v = scaled(na, fa as int, ea as int) + scaled(nb, fb as int, eb as int);
            match r {
                None => v == 0,
                Some(p) => v != 0 && p.0 == (v < 0) && p.1 <= INFINITY && p.1 == nearest(
                    absolute(v),
                    1,
                ),
            }
        }),
{
    let d = (ea - eb) as u32;
    let ghost v = scaled(na, fa as int, ea as int) + scaled(nb, fb as int, eb as int);
    proof {
        vstd::arithmetic::power2::lemma2_to64();
        lemma_pow2_pos(eb as nat);
        lemma_pow2_pos(ea as nat);
    }
    if d <= 70 {
        proof {
            lemma_near_sum(na, fa as int, ea as int, nb, fb as int, eb as int);
            if d < 70 {
                lemma_pow2_strictly_increases(d as nat, 70);
            }
            let p = pow2(d as nat) as int;
            vstd::arithmetic::power2::lemma2_to64_rest();
            lemma_pow2_pos(d as nat);
            assert(0 <= fa * p < 0x20_0000_0000_0000 * pow2(70)) by (nonlinear_arith)
                requires
                    0 <= fa < 0x20_0000_0000_0000,
                    0 < p <= pow2(70),
            ;
            lemma_pow2_adds(64, 6);
        }
        let x: u128 = fa * power(d);
        let (negative, sig): (bool, u128) = if na == nb {
            (na, x + fb)
        } else if x >= fb {
            (na, x - fb)
        } else {
            (nb, fb - x)
        };
        let ghost q = pow2(eb as nat) as int;
        assert(v == (if negative {
            -(sig as int)
        } else {
            sig as int
        }) * q);
        if sig == 0 {
            assert(0 * q == 0) by (nonlinear_arith);
            return None;
        }
        assert(sig * q > 0 && -(sig as int) * q == -(sig * q)) by (nonlinear_arith)
            requires
                sig > 0,
                q > 0,
        ;
        let m = round(sig, eb, false);
        proof {
            assert(up(-(eb as int)) == 1);
            assert(sig * q * 1 == absolute(v) * 1);
            lemma_rounded(m as int, sig as int, eb as int, false, absolute(v), 1);
        }
        Some((negative, m))
    } else {
        let exp = ea - 14;
        let ghost p = pow2(exp as nat) as int;
        let ghost small = fb * pow2(eb as nat);
        let guard: u128 = fa * 0x4000;
        proof {
            lemma_pow2_pos(exp as nat);
            assert(up(exp as int) == p && up(-(exp as int)) == 1);
            if fb > 0 {
                lemma_far(fa as int, ea as int, fb as int, eb as int);
            } else {
                lemma_pow2_adds(14, exp as nat);
                assert(fa * (0x4000 * p) == (fa * 0x4000) * p) by (nonlinear_arith);
                assert(0 * pow2(eb as nat) == 0);
            }
            assert(guard * p >= p) by (nonlinear_arith)
                requires
                    guard >= 1,
                    p > 0,
            ;
            assert((guard + 1) * p == guard * p + p) by (nonlinear_arith);
            assert((guard - 1) * p == guard * p - p) by (nonlinear_arith);
        }
        let (sig, more): (u128, bool) = if fb == 0 {
            (guard, false)
        } else if na == nb {
            (guard, true)
        } else {
            (guard - 1, true)
        };
        let m = round(sig, exp, more);
        proof {
            let w = absolute(v);
            assert(v != 0 && (v < 0) == na);
            assert(sig * p * 1 == sig * p && (sig + 1) * p * 1 == (sig + 1) * p && w * 1 == w);
            lemma_rounded(m as int, sig as int, exp as int, more, w, 1);
        }
        Some((na, m))
    }
}

impl Double {
    /// `self + other`.
    pub fn add(self, other: Double) -> (r: Double)
        ensures
            r == self.plus(other),
    {
        reveal(Double::plus);
        let na = self.bits >= 0x8000_0000_0000_0000;
        let nb = other.bits >= 0x8000_0000_0000_0000;
        let a: u64 = self.bits % 0x8000_0000_0000_0000;
        let b: u64 = other.bits % 0x8000_0000_0000_0000;
        if self.is_nan() || other.is_nan() || (a == INFINITY && b == INFINITY && na
            != nb) {
            return Double { bits: NAN };
        }
        if a == INFINITY {
            return self;
        }
        if b == INFINITY {
            return other;
        }
        let (fa, ea) = parts(a);
        let (fb, eb) = parts(b);
        proof {
            lemma_absolute(self);
            lemma_absolute(other);
        }
        let sum = if ea >= eb {
            sum_parts(na, fa, ea, nb, fb, eb)
        } else {
            sum_parts(nb, fb, eb, na, fa, ea)
        };
        match sum {
            None => make(na && nb, 0),
            Some((negative, m)) => make(negative, m),
        }
    }

    /// `self - other`.
    pub fn sub(self, other: Double) -> (r: Double)
        ensures
            r == self.minus(other),
    {
        self.add(other.neg())
    }
}

/// A significand shifted up to its full 53 bits.
fn full(f: u128) -> (r: (u128, i32))
    requires
        0 < f < 0x20_0000_0000_0000,
    ensures
        0x10_0000_0000_0000 <= r.0 < 0x20_0000_0000_0000,
        0 <= r.1 <= 52,
        r.0 == f * pow2(r.1 as nat),
{
    let n: u32 = bits_of(f);
    proof {
        vstd::arithmetic::power2::lemma2_to64();
        vstd::arithmetic::power2::lemma2_to64_rest();
        if n > 53 {
            if n > 54 {
                lemma_pow2_strictly_increases(53, (n - 1) as nat);
            }
        }
    }
    let k: u32 = 53 - n;
    proof {
        let p = pow2(k as nat) as int;
        lemma_pow2_pos(k as nat);
        lemma_pow2_adds(n as nat, k as nat);
        lemma_pow2_adds((n - 1) as nat, k as nat);
        assert(pow2((n - 1) as nat) * p <= f * p < pow2(n as nat) * p) by (nonlinear_arith)
            requires
                pow2((n - 1) as nat) <= f < pow2(n as nat),
                p > 0,
        ;
    }
    (f * power(k), k as i32)
}

/// The exact quotient, scaled for rounding.
proof fn lemma_quotient(fa: int, ea: int, k: int, fb: int, eb: int, q: int, rem: int)
    requires
        0 <= ea,
        0 <= eb,
        0 <= k,
        0 < fb,
        fa * pow2((k + 60) as nat) == q * fb + rem,
        0 <= rem < fb,
    ensures
        ({
            let exp = ea - eb - k + 1014;
            let num = (fa * pow2(ea as nat)) * one();
            let den = fb * pow2(eb as nat);
            &&& up(exp) > 0
            &&& up(-exp) > 0
            &&& den > 0
            &&& rem == 0 ==> num * up(-exp) == q * up(exp) * den
            &&& rem > 0 ==> q * up(exp) * den < num * up(-exp) < (q + 1) * up(exp) * den
        }),
{
    let exp = ea - eb - k + 1014;
    lemma_two_scales(ea + 1074, eb + k + 60, exp);
    lemma_pow2_adds(ea as nat, 1074);
    lemma_pow2_adds(eb as nat, (k + 60) as nat);
    lemma_pow2_pos(eb as nat);
    let (pa, o, pb, w) = (
        pow2(ea as nat) as int,
        one(),
        pow2(eb as nat) as int,
        pow2((k + 60) as nat) as int,
    );
    let (u, d) = (up(exp), up(-exp));
    let num = (fa * pa) * o;
    let den = fb * pb;
    assert(den > 0) by (nonlinear_arith)
        requires
            fb > 0,
            pb > 0,
            den == fb * pb,
    ;
    assert(num * d == (fa * w) * (pb * u)) by (nonlinear_arith)
        requires
            num == (fa * pa) * o,
            (pa * o) * d == (pb * w) * u,
    ;
    let t = pb * u;
    assert(t > 0) by (nonlinear_arith)
        requires
            pb > 0,
            u > 0,
            t == pb * u,
    ;
    assert(q * u * den == (q * fb) * t) by (nonlinear_arith)
        requires
            den == fb * pb,
            t == pb * u,
    ;
    assert((q + 1) * u * den == (q * fb + fb) * t) by (nonlinear_arith)
        requires
            den == fb * pb,
            t == pb * u,
    ;
    assert((q * fb) * t <= (q * fb + rem) * t < (q * fb + fb) * t) by (nonlinear_arith)
        requires
            0 <= rem < fb,
            t > 0,
    ;
    if rem > 0 {
        assert((q * fb) * t < (q * fb + rem) * t) by (nonlinear_arith)
            requires
                0 < rem,
                t > 0,
        ;
    }
}

impl Double {
    /// `self / other`.
    pub fn div(self, other: Double) -> (r: Double)
        ensures
            r == self.over(other),
    {
        reveal(Double::over);
        let negative = (self.bits >= 0x8000_0000_0000_0000) != (other.bits >= 0x8000_0000_0000_0000);
        let a: u64 = self.bits % 0x8000_0000_0000_0000;
        let b: u64 = other.bits % 0x8000_0000_0000_0000;
        if self.is_nan() || other.is_nan() || (a == INFINITY && b == INFINITY) || (a == 0
            && b == 0) {
            return Double { bits: NAN };
        }
        if a == INFINITY || b == 0 {
            return make(negative, INFINITY);
        }
        if b == INFINITY {
            return make(negative, 0);
        }
        let (fa, ea) = parts(a);
        let (fb, eb) = parts(b);
        proof {
            lemma_absolute(self);
            lemma_absolute(other);
        }
        if a == 0 {
            proof {
                // zero over a number is zero
                lemma_pow2_pos(1074);
                assert(0 * one() == 0);
                lemma_magnitudes_ordered(0, 1);
                let den = absolute(other.value());
                assert(magnitude_value(0) == 0 && magnitude_value(1) == 1);
                assert(is_nearest(0, 0, den));
                lemma_nearest_unique(0, nearest(0, den), 0, den);
            }
            return make(negative, 0);
        }
        let (f, k) = full(fa);
        let n: u128 = f * 0x1000_0000_0000_0000;
        let q: u128 = n / fb;
        let rem: u128 = n % fb;
        let exp: i32 = ea - eb - k + 1014;
        proof {
            vstd::arithmetic::power2::lemma2_to64_rest();
            lemma_pow2_adds(k as nat, 60);
            let p = pow2(k as nat) as int;
            assert(fa * (p * 0x1000_0000_0000_0000) == (fa * p) * 0x1000_0000_0000_0000) by (nonlinear_arith);
            vstd::arithmetic::div_mod::lemma_fundamental_div_mod(n as int, fb as int);
            assert(fb * q == q * fb) by (nonlinear_arith);
            assert(q >= 0x40_0000_0000_0000) by (nonlinear_arith)
                requires
                    n >= 0x10_0000_0000_0000 * 0x1000_0000_0000_0000,
                    n == q * fb + rem,
                    rem < fb,
                    0 < fb < 0x20_0000_0000_0000,
            ;
            lemma_quotient(
                fa as int,
                ea as int,
                k as int,
                fb as int,
                eb as int,
                q as int,
                rem as int,
            );
        }
        let m = round(q, exp, rem > 0);
        proof {
            lemma_rounded(
                m as int,
                q as int,
                exp as int,
                rem > 0,
                absolute(self.value()) * one(),
                absolute(other.value()),
            );
        }
        make(negative, m)
    }
}

// ---- Conversions ------------------------------------------------------------

/// The binary64 number that a whole number rounds to.
#[verifier::opaque]
pub open spec fn rounded(n: int) -> Double {
    signed(false, nearest(n * one(), 1))
}

/// The binary64 number equal to a binary32 number. A unit of 2^-149 is 2^925
/// units of 2^-1074.
#[verifier::opaque]
pub open spec fn widened(a: Single) -> Double {
    if a.nan() {
        no_number()
    } else if a.infinite() {
        signed(a.negative(), INFINITY as int)
    } else {
        signed(a.negative(), nearest(absolute(a.value()) * pow2(925), 1))
    }
}

impl Double {
    /// Rounded toward zero; 0 for a NaN and below zero, the largest `usize`
    /// above its range.
    #[verifier::opaque]
    pub open spec fn as_usize(self) -> usize {
        if self.nan() || self.negative() {
            0
        } else {
            into_usize(self.value() / one())
        }
    }

    /// The number nearest to `n`.
    pub fn from_u64(n: u64) -> (r: Double)
        ensures
            r == rounded(n as int),
    {
        reveal(rounded);
        let m = round(n as u128, 1074, false);
        proof {
            vstd::arithmetic::power2::lemma2_to64();
            lemma_pow2_pos(1074);
            assert(up(1074) == one() && up(-1074) == 1);
            lemma_rounded(m as int, n as int, 1074, false, n * one(), 1);
        }
        make(false, m)
    }

    /// The number equal to `a`.
    pub fn from_single(a: Single) -> (r: Double)
        ensures
            r == widened(a),
    {
        reveal(widened);
        let negative = a.bits >= 0x8000_0000;
        if a.is_nan() {
            return Double { bits: NAN };
        }
        let m: u32 = a.bits % 0x8000_0000;
        if m == INFINITY_BITS {
            return make(negative, INFINITY);
        }
        let (f, e) = crate::arith::parts(m);
        let w = round(f as u128, e + 925, false);
        proof {
            crate::arith::lemma_absolute(a);
            lemma_pow2_adds(e as nat, 925);
            lemma_pow2_pos((e + 925) as nat);
            vstd::arithmetic::power2::lemma2_to64();
            let (p, c) = (pow2(e as nat) as int, pow2(925) as int);
            assert((f * p) * c == f * (p * c)) by (nonlinear_arith);
            assert(up(e + 925) == pow2((e + 925) as nat) && up(-(e + 925)) == 1);
            lemma_rounded(w as int, f as int, e + 925, false, absolute(a.value()) * c, 1);
        }
        make(negative, w)
    }

    /// Rounded toward zero; 0 for a NaN and below zero, the largest `usize`
    /// above its range.
    pub fn to_usize(self) -> (r: usize)
        ensures
            r == self.as_usize(),
    {
        reveal(Double::as_usize);
        if self.is_nan() || self.bits >= 0x8000_0000_0000_0000 {
            return 0;
        }
        let w = whole_part(self.bits);
        if w >= usize::MAX as u64 {
            usize::MAX
        } else {
            w as usize
        }
    }
}

/// Whole part of a magnitude; the largest `u64` for more than that.
fn whole_part(m: u64) -> (r: u64)
    requires
        m <= INFINITY,
    ensures
        ({
            let w = magnitude_value(m as int) / one();
            r == if w <= u64::MAX {
                w
            } else {
                u64::MAX as int
            }
        }),
{
    let ghost v = magnitude_value(m as int);
    proof {
        lemma_pow2_pos(1074);
        vstd::arithmetic::power2::lemma2_to64();
        vstd::arithmetic::power2::lemma2_to64_rest();
    }
    if m == INFINITY {
        proof {
            assert(m as int / 0x10_0000_0000_0000 == 2047 && m as int % 0x10_0000_0000_0000 == 0);
            lemma_large(0x10_0000_0000_0000, 972, v);
        }
        return u64::MAX;
    }
    let (f, e) = parts(m);
    if e <= 1074 {
        let s: u32 = (1074 - e) as u32;
        proof {
            lemma_pow2_pos(e as nat);
            lemma_pow2_pos(s as nat);
            lemma_pow2_adds(s as nat, e as nat);
            lemma_scaled_mod(f as int, pow2(s as nat) as int, pow2(e as nat) as int);
        }
        if s >= 64 {
            proof {
                if s > 64 {
                    lemma_pow2_strictly_increases(64, s as nat);
                }
                vstd::arithmetic::div_mod::lemma_basic_div(f as int, pow2(s as nat) as int);
            }
            return 0;
        }
        let p: u128 = power(s);
        proof {
            vstd::arithmetic::div_mod::lemma_div_is_ordered_by_denominator(f as int, 1, p as int);
            assert(f as int / 1 == f);
        }
        (f / p) as u64
    } else {
        let k: u32 = (e - 1074) as u32;
        proof {
            lemma_large(f as int, k as int, v);
        }
        if k > 11 {
            return u64::MAX;
        }
        proof {
            if k < 11 {
                lemma_pow2_strictly_increases(k as nat, 11);
            }
            let p = pow2(k as nat) as int;
            assert(0 <= f * p <= 0x1f_ffff_ffff_ffff * 0x800) by (nonlinear_arith)
                requires
                    0 <= f <= 0x1f_ffff_ffff_ffff,
                    0 < p <= 0x800,
            ;
        }
        (f * power(k)) as u64
    }
}

/// A magnitude without fractional bits.
proof fn lemma_large(f: int, k: int, v: int)
    requires
        0x10_0000_0000_0000 <= f,
        0 <= k,
        v == f * pow2((1074 + k) as nat),
    ensures
        v / one() == f * pow2(k as nat),
        pow2(k as nat) > 0,
        k >= 12 ==> v / one() > u64::MAX,
{
    lemma_pow2_pos(1074);
    lemma_pow2_adds(1074, k as nat);
    lemma_pow2_pos(k as nat);
    let (o, p) = (one(), pow2(k as nat) as int);
    assert(v == (f * p) * o) by (nonlinear_arith)
        requires
            v == f * (o * p),
    ;
    vstd::arithmetic::div_mod::lemma_fundamental_div_mod_converse(v, o, f * p, 0);
    if k >= 12 {
        vstd::arithmetic::power2::lemma2_to64();
        if k > 12 {
            lemma_pow2_strictly_increases(12, k as nat);
        }
        assert(f * p >= 0x10_0000_0000_0000 * 0x1000) by (nonlinear_arith)
            requires
                f >= 0x10_0000_0000_0000,
                p >= 0x1000,
        ;
    }
}

/// Widening a finite number changes nothing of its value.
pub proof fn law_widening_is_exact(a: Single)
    requires
        a.finite(),
    ensures
        widened(a).value() == a.value() * pow2(925),
        !widened(a).nan(),
{
    reveal(widened);
    let m = a.magnitude();
    crate::arith::lemma_absolute(a);
    vstd::arithmetic::power2::lemma2_to64();
    vstd::arithmetic::power2::lemma2_to64_rest();
    assert(crate::single::magnitude_value(0) == 0 && magnitude_value(0) == 0);
    let (f, e) = if m / 0x80_0000 == 0 {
        (m, 0)
    } else {
        (0x80_0000 + m % 0x80_0000, m / 0x80_0000 - 1)
    };
    assert(crate::single::magnitude_value(m) == f * pow2(e as nat)) by {
        assert(f * pow2(0) == f);
    }
    let t = absolute(a.value()) * pow2(925);
    let mut w = 0;
    if f == 0 {
        assert(0 * pow2(925) == 0);
        assert(0 * pow2(e as nat) == 0);
    } else {
        assert(f * pow2(29) < 0x20_0000_0000_0000) by (nonlinear_arith)
            requires
                0 <= f < 0x100_0000,
                pow2(29) == 0x2000_0000,
        ;
        let (q, k) = lemma_full(f, 29);
        lemma_pattern_values(q, e + 925 - k);
        w = (e + 925 - k) * 0x10_0000_0000_0000 + q;
        let (p, c, x, y) = (
            pow2(e as nat) as int,
            pow2(925) as int,
            pow2(k as nat) as int,
            pow2((e + 925 - k) as nat) as int,
        );
        lemma_pow2_adds(e as nat, 925);
        lemma_pow2_adds(k as nat, (e + 925 - k) as nat);
        assert((f * x) * y == (f * p) * c) by (nonlinear_arith)
            requires
                p * c == x * y,
        ;
    }
    assert(magnitude_value(w) == t && 0 <= w < INFINITY);
    law_representable_stays(w);
    assert((-absolute(a.value())) * pow2(925) == -t) by (nonlinear_arith)
        requires
            t == absolute(a.value()) * pow2(925),
    ;
}

/// A significand shifted up to its full 53 bits, by at least `least` places.
proof fn lemma_full(f: int, least: int) -> (r: (int, int))
    requires
        0 < f,
        0 <= least,
        f * pow2(least as nat) < 0x20_0000_0000_0000,
    ensures
        0x10_0000_0000_0000 <= r.0 < 0x20_0000_0000_0000,
        least <= r.1 <= 53,
        r.0 == f * pow2(r.1 as nat),
    decreases 53 - least,
{
    let p = pow2(least as nat) as int;
    vstd::arithmetic::power2::lemma2_to64();
    vstd::arithmetic::power2::lemma2_to64_rest();
    if least > 53 {
        lemma_pow2_strictly_increases(53, least as nat);
    }
    assert(f * p >= p) by (nonlinear_arith)
        requires
            f >= 1,
            p > 0,
    ;
    if f * p >= 0x10_0000_0000_0000 {
        (f * p, least)
    } else {
        lemma_pow2_unfold((least + 1) as nat);
        assert(f * (2 * p) == 2 * (f * p)) by (nonlinear_arith);
        lemma_full(f, least + 1)
    }
}

} // verus!
