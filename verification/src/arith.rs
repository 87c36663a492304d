//! Binary32 arithmetic on bit patterns.
//!
//! Each operation rounds its exact result to the nearest number, ties to even,
//! as IEEE 754 defines it. Which NaN an invalid operation gives is left open by
//! the standard; here it is always the same one.

use vstd::prelude::*;
use vstd::arithmetic::power2::{lemma_pow2_adds, lemma_pow2_pos, lemma_pow2_strictly_increases, pow2};
use crate::rounding::{law_rounding_monotone, lemma_nearest_in_range};
use crate::rounding::{brackets, is_nearest, is_nearest_root, lemma_magnitudes_ordered, lemma_nearest_root_unique, lemma_nearest_unique, nearest, nearest_root, bit_length, round, up};
use crate::single::{magnitude_value, Single, INFINITY_BITS, NAN_BITS, ONE_BITS, ZERO_BITS};

verus! {

/// The units of 2^-149 in one.
pub open spec fn one() -> int {
    pow2(149) as int
}

/// Absolute value.
pub open spec fn absolute(v: int) -> int {
    if v < 0 {
        -v
    } else {
        v
    }
}

/// The number with this sign and magnitude pattern.
pub open spec fn signed(negative: bool, m: int) -> Single {
    Single {
        bits: if negative {
            (m + 0x8000_0000) as u32
        } else {
            m as u32
        },
    }
}

/// The NaN that invalid operations give.
pub open spec fn no_number() -> Single {
    Single { bits: NAN_BITS }
}

/// Positive zero.
pub open spec fn zero() -> Single {
    Single { bits: ZERO_BITS }
}

/// The number one.
pub open spec fn unit() -> Single {
    Single { bits: ONE_BITS }
}

impl Single {
    /// Infinite, of either sign.
    pub open spec fn infinite(self) -> bool {
        self.magnitude() == INFINITY_BITS
    }

    /// Zero, of either sign.
    pub open spec fn zero(self) -> bool {
        self.magnitude() == 0
    }

    /// `self + other`.
    #[verifier::opaque]
    pub open spec fn plus(self, other: Single) -> Single {
        if self.nan() || other.nan() || (self.infinite() && other.infinite() && self.negative()
            != other.negative()) {
            no_number()
        } else if self.infinite() {
            self
        } else if other.infinite() {
            other
        } else {
            let v = self.value() + other.value();
            if v == 0 {
                signed(self.negative() && other.negative(), 0)
            } else {
                signed(v < 0, nearest(absolute(v), 1))
            }
        }
    }

    /// `self - other`.
    pub open spec fn minus(self, other: Single) -> Single {
        self.plus(other.negated())
    }

    /// `self * other`.
    #[verifier::opaque]
    pub open spec fn times(self, other: Single) -> Single {
        let negative = self.negative() != other.negative();
        if self.nan() || other.nan() || (self.infinite() && other.zero()) || (self.zero()
            && other.infinite()) {
            no_number()
        } else if self.infinite() || other.infinite() {
            signed(negative, INFINITY_BITS as int)
        } else {
            signed(negative, nearest(absolute(self.value()) * absolute(other.value()), one()))
        }
    }

    /// `self / other`.
    #[verifier::opaque]
    pub open spec fn over(self, other: Single) -> Single {
        let negative = self.negative() != other.negative();
        if self.nan() || other.nan() || (self.infinite() && other.infinite()) || (self.zero()
            && other.zero()) {
            no_number()
        } else if self.infinite() || other.zero() {
            signed(negative, INFINITY_BITS as int)
        } else if other.infinite() {
            signed(negative, 0)
        } else {
            signed(negative, nearest(absolute(self.value()) * one(), absolute(other.value())))
        }
    }

    /// The square root.
    #[verifier::opaque]
    pub open spec fn root(self) -> Single {
        if self.nan() || (self.negative() && !self.zero()) {
            no_number()
        } else if self.zero() || self.infinite() {
            self
        } else {
            signed(false, nearest_root(self.value() * one()))
        }
    }
}

/// A finite magnitude pattern as significand and exponent.
pub fn parts(m: u32) -> (r: (u64, i32))
    requires
        m < INFINITY_BITS,
    ensures
        magnitude_value(m as int) == r.0 * pow2(r.1 as nat),
        0 <= r.0 < 0x100_0000,
        0 <= r.1 <= 253,
        r.1 > 0 ==> r.0 >= 0x80_0000,
        r.0 == 0 <==> m == 0,
        magnitude_value(m as int) >= 0,
        magnitude_value(m as int) == 0 <==> m == 0,
{
    proof {
        vstd::arithmetic::power2::lemma2_to64();
        lemma_magnitudes_ordered(0, m as int);
        assert(magnitude_value(0) == 0);
    }
    let e: u32 = m / 0x80_0000;
    let f: u32 = m % 0x80_0000;
    assert(m as int / 0x80_0000 == e && m as int % 0x80_0000 == f);
    if e == 0 {
        assert(f as u64 * pow2(0) == f);
        (f as u64, 0)
    } else {
        assert((e as i32 - 1) as nat == (e as int - 1) as nat);
        ((f + 0x80_0000) as u64, e as i32 - 1)
    }
}

/// Two scales whose exponents differ by `exp`.
pub proof fn lemma_two_scales(x: int, y: int, exp: int)
    requires
        0 <= x,
        0 <= y,
        exp == x - y,
    ensures
        up(exp) > 0,
        up(-exp) > 0,
        pow2(x as nat) * up(-exp) == pow2(y as nat) * up(exp),
{
    vstd::arithmetic::power2::lemma2_to64();
    if exp >= 0 {
        lemma_pow2_pos(exp as nat);
        lemma_pow2_adds(y as nat, exp as nat);
    } else {
        lemma_pow2_pos((-exp) as nat);
        lemma_pow2_adds(x as nat, (-exp) as nat);
    }
}

/// What rounding gives for `sig * 2^exp`, or for a number just above it, is
/// what is nearest to `num / den` where that is the same number.
pub proof fn lemma_rounded(m: int, sig: int, exp: int, more: bool, num: int, den: int)
    requires
        brackets(m, sig, exp, more),
        den > 0,
        up(exp) > 0,
        up(-exp) > 0,
        !more ==> num * up(-exp) == sig * up(exp) * den,
        more ==> sig * up(exp) * den < num * up(-exp) < (sig + 1) * up(exp) * den,
    ensures
        is_nearest(m, num, den),
        m == nearest(num, den),
{
    let (u, d) = (up(exp), up(-exp));
    if m > 0 {
        let s = magnitude_value(m - 1) + magnitude_value(m);
        let mid = s * d;
        if mid < 2 * sig * u || more {
            assert(s * den < 2 * num) by (nonlinear_arith)
                requires
                    mid == s * d,
                    mid < 2 * sig * u && sig * u * den <= num * d || mid <= 2 * sig * u && sig * u
                        * den < num * d,
                    d > 0,
                    den > 0,
            ;
        } else {
            assert(s * den == 2 * num) by (nonlinear_arith)
                requires
                    mid == s * d,
                    mid == 2 * sig * u,
                    num * d == sig * u * den,
                    d > 0,
            ;
        }
    }
    if m < INFINITY_BITS {
        let s = magnitude_value(m) + magnitude_value(m + 1);
        let mid = s * d;
        if more {
            assert(2 * num < s * den) by (nonlinear_arith)
                requires
                    mid == s * d,
                    2 * (sig + 1) * u <= mid,
                    num * d < (sig + 1) * u * den,
                    d > 0,
                    den > 0,
            ;
        } else if 2 * sig * u < mid {
            assert(2 * num < s * den) by (nonlinear_arith)
                requires
                    mid == s * d,
                    2 * sig * u < mid,
                    num * d == sig * u * den,
                    d > 0,
                    den > 0,
            ;
        } else {
            assert(s * den == 2 * num) by (nonlinear_arith)
                requires
                    mid == s * d,
                    mid == 2 * sig * u,
                    num * d == sig * u * den,
                    d > 0,
            ;
        }
    }
    assert(is_nearest(m, num, den));
    let n = nearest(num, den);
    lemma_nearest_unique(m, n, num, den);
}

/// The absolute value is what the magnitude pattern stands for.
pub proof fn lemma_absolute(a: Single)
    ensures
        absolute(a.value()) == magnitude_value(a.magnitude()),
        a.value() == if a.negative() {
            -absolute(a.value())
        } else {
            absolute(a.value())
        },
        a.zero() <==> a.value() == 0,
{
    lemma_magnitudes_ordered(0, a.magnitude());
    assert(magnitude_value(0) == 0);
}

/// The number with this sign and magnitude pattern.
pub fn make(negative: bool, m: u32) -> (r: Single)
    requires
        m <= INFINITY_BITS,
    ensures
        r == signed(negative, m as int),
{
    if negative {
        Single { bits: m + 0x8000_0000 }
    } else {
        Single { bits: m }
    }
}

/// The exact product, scaled for rounding.
proof fn lemma_product(fa: int, ea: int, fb: int, eb: int)
    requires
        0 <= ea,
        0 <= eb,
    ensures
        up(ea + eb - 149) > 0,
        up(149 - ea - eb) > 0,
        (fa * pow2(ea as nat)) * (fb * pow2(eb as nat)) * up(-(ea + eb - 149)) == (fa * fb) * up(
            ea + eb - 149,
        ) * one(),
{
    let exp = ea + eb - 149;
    lemma_two_scales(ea + eb, 149, exp);
    lemma_pow2_adds(ea as nat, eb as nat);
    let (pa, pb, u, d, o) = (pow2(ea as nat) as int, pow2(eb as nat) as int, up(exp), up(-exp), one());
    assert((fa * pa) * (fb * pb) * d == (fa * fb) * u * o) by (nonlinear_arith)
        requires
            (pa * pb) * d == o * u,
    ;
}

impl Single {
    /// `self * other`.
    pub fn mul(self, other: Single) -> (r: Single)
        ensures
            r == self.times(other),
    {
        reveal(Single::times);
        let negative = (self.bits >= 0x8000_0000) != (other.bits >= 0x8000_0000);
        let a: u32 = self.bits % 0x8000_0000;
        let b: u32 = other.bits % 0x8000_0000;
        if self.is_nan() || other.is_nan() || (a == INFINITY_BITS && b == 0) || (a == 0 && b
            == INFINITY_BITS) {
            return Single { bits: NAN_BITS };
        }
        if a == INFINITY_BITS || b == INFINITY_BITS {
            return make(negative, INFINITY_BITS);
        }
        let (fa, ea) = parts(a);
        let (fb, eb) = parts(b);
        assert(0 <= fa * fb < 0x1_0000_0000_0000) by (nonlinear_arith)
            requires
                0 <= fa < 0x100_0000,
                0 <= fb < 0x100_0000,
        ;
        let m = round(fa * fb, ea + eb - 149, false);
        proof {
            lemma_absolute(self);
            lemma_absolute(other);
            lemma_product(fa as int, ea as int, fb as int, eb as int);
            lemma_pow2_pos(149);
            lemma_rounded(
                m as int,
                fa * fb,
                ea + eb - 149,
                false,
                absolute(self.value()) * absolute(other.value()),
                one(),
            );
        }
        make(negative, m)
    }
}

/// `f * 2^e`, negated where asked.
pub open spec fn scaled(negative: bool, f: int, e: int) -> int {
    if negative {
        -(f * pow2(e as nat))
    } else {
        f * pow2(e as nat)
    }
}

/// The exact sum of two numbers whose exponents are close.
pub proof fn lemma_near_sum(na: bool, fa: int, ea: int, nb: bool, fb: int, eb: int)
    requires
        0 <= eb <= ea,
    ensures
        scaled(na, fa, ea) + scaled(nb, fb, eb) == ((if na {
            -(fa * pow2((ea - eb) as nat))
        } else {
            fa * pow2((ea - eb) as nat)
        }) + (if nb {
            -fb
        } else {
            fb
        })) * pow2(eb as nat),
{
    lemma_pow2_adds((ea - eb) as nat, eb as nat);
    let (p, q) = (pow2((ea - eb) as nat) as int, pow2(eb as nat) as int);
    assert(fa * (p * q) == (fa * p) * q) by (nonlinear_arith);
    let x = fa * p;
    assert((x + fb) * q == x * q + fb * q) by (nonlinear_arith);
    assert((-x + fb) * q == -(x * q) + fb * q) by (nonlinear_arith);
    assert((x - fb) * q == x * q - fb * q) by (nonlinear_arith);
    assert((-x - fb) * q == -(x * q) - fb * q) by (nonlinear_arith);
}

/// A number far below another is less than one in its guard bits.
proof fn lemma_far(fa: int, ea: int, fb: int, eb: int)
    requires
        0 <= eb,
        eb + 39 <= ea,
        0 < fb < 0x100_0000,
    ensures
        0 < fb * pow2(eb as nat) < pow2((ea - 14) as nat),
        fa * pow2(ea as nat) == (fa * 0x4000) * pow2((ea - 14) as nat),
{
    vstd::arithmetic::power2::lemma2_to64();
    lemma_pow2_pos(eb as nat);
    lemma_pow2_adds(24, eb as nat);
    lemma_pow2_strictly_increases((24 + eb) as nat, (ea - 14) as nat);
    let q = pow2(eb as nat) as int;
    assert(0 < fb * q < 0x100_0000 * q) by (nonlinear_arith)
        requires
            0 < fb < 0x100_0000,
            q > 0,
    ;
    lemma_pow2_adds(14, (ea - 14) as nat);
    let p = pow2((ea - 14) as nat) as int;
    assert(fa * (0x4000 * p) == (fa * 0x4000) * p) by (nonlinear_arith);
}

/// Rounds the sum of two finite numbers that is not zero, given with their
/// signs, significands and exponents; `None` for a sum of zero.
fn sum_parts(na: bool, fa: u64, ea: i32, nb: bool, fb: u64, eb: i32) -> (r: Option<(bool, u32)>)
    requires
        0 <= eb <= ea <= 253,
        fa < 0x100_0000,
        fb < 0x100_0000,
        ea > 0 ==> fa >= 0x80_0000,
    ensures
        ({
            let v = scaled(na, fa as int, ea as int) + scaled(nb, fb as int, eb as int);
            match r {
                None => v == 0,
                Some(p) => v != 0 && p.0 == (v < 0) && p.1 <= INFINITY_BITS && p.1 == nearest(
                    absolute(v),
                    1,
                ),
            }
        }),
{
    let d = (ea - eb) as u64;
    let ghost v = scaled(na, fa as int, ea as int) + scaled(nb, fb as int, eb as int);
    proof {
        vstd::arithmetic::power2::lemma2_to64();
        lemma_pow2_pos(eb as nat);
        lemma_pow2_pos(ea as nat);
    }
    if d <= 38 {
        proof {
            lemma_near_sum(na, fa as int, ea as int, nb, fb as int, eb as int);
            if d < 38 {
                lemma_pow2_strictly_increases(d as nat, 38);
            }
            let p = pow2(d as nat) as int;
            vstd::arithmetic::power2::lemma2_to64_rest();
            assert(0 <= fa * p < 0x100_0000 * pow2(38)) by (nonlinear_arith)
                requires
                    0 <= fa < 0x100_0000,
                    0 < p <= pow2(38),
            ;
            vstd::bits::lemma_u64_shl_is_mul(fa, d);
        }
        let x: u64 = fa << d;
        let (negative, sig): (bool, u64) = if na == nb {
            (na, x + fb)
        } else if x >= fb {
            (na, x - fb)
        } else {
            (nb, fb - x)
        };
        let ghost q = pow2(eb as nat) as int;
        assert(v == (if negative {
            -(sig as int)
        } else {
            sig as int
        }) * q);
        if sig == 0 {
            assert(0 * q == 0) by (nonlinear_arith);
            return None;
        }
        assert(sig * q > 0 && -(sig as int) * q == -(sig * q)) by (nonlinear_arith)
            requires
                sig > 0,
                q > 0,
        ;
        let m = round(sig, eb, false);
        proof {
            assert(up(-(eb as int)) == 1);
            assert(sig * q * 1 == absolute(v) * 1);
            lemma_rounded(m as int, sig as int, eb as int, false, absolute(v), 1);
        }
        Some((negative, m))
    } else {
        let exp = ea - 14;
        let ghost p = pow2(exp as nat) as int;
        let ghost small = fb * pow2(eb as nat);
        let guard: u64 = fa * 0x4000;
        proof {
            lemma_pow2_pos(exp as nat);
            assert(up(exp as int) == p && up(-(exp as int)) == 1);
            if fb > 0 {
                lemma_far(fa as int, ea as int, fb as int, eb as int);
            } else {
                lemma_pow2_adds(14, exp as nat);
                assert(fa * (0x4000 * p) == (fa * 0x4000) * p) by (nonlinear_arith);
                assert(0 * pow2(eb as nat) == 0);
            }
            assert(guard * p >= p) by (nonlinear_arith)
                requires
                    guard >= 1,
                    p > 0,
            ;
            assert((guard + 1) * p == guard * p + p) by (nonlinear_arith);
            assert((guard - 1) * p == guard * p - p) by (nonlinear_arith);
        }
        let (sig, more): (u64, bool) = if fb == 0 {
            (guard, false)
        } else if na == nb {
            (guard, true)
        } else {
            (guard - 1, true)
        };
        let m = round(sig, exp, more);
        proof {
            let w = absolute(v);
            assert(v != 0 && (v < 0) == na);
            assert(sig * p * 1 == sig * p && (sig + 1) * p * 1 == (sig + 1) * p && w * 1 == w);
            lemma_rounded(m as int, sig as int, exp as int, more, w, 1);
        }
        Some((na, m))
    }
}

impl Single {
    /// `self + other`.
    pub fn add(self, other: Single) -> (r: Single)
        ensures
            r == self.plus(other),
    {
        reveal(Single::plus);
        let na = self.bits >= 0x8000_0000;
        let nb = other.bits >= 0x8000_0000;
        let a: u32 = self.bits % 0x8000_0000;
        let b: u32 = other.bits % 0x8000_0000;
        if self.is_nan() || other.is_nan() || (a == INFINITY_BITS && b == INFINITY_BITS && na
            != nb) {
            return Single { bits: NAN_BITS };
        }
        if a == INFINITY_BITS {
            return self;
        }
        if b == INFINITY_BITS {
            return other;
        }
        let (fa, ea) = parts(a);
        let (fb, eb) = parts(b);
        proof {
            lemma_absolute(self);
            lemma_absolute(other);
        }
        let sum = if ea >= eb {
            sum_parts(na, fa, ea, nb, fb, eb)
        } else {
            sum_parts(nb, fb, eb, na, fa, ea)
        };
        match sum {
            None => make(na && nb, 0),
            Some((negative, m)) => make(negative, m),
        }
    }

    /// `self - other`.
    pub fn sub(self, other: Single) -> (r: Single)
        ensures
            r == self.minus(other),
    {
        self.add(other.neg())
    }
}

/// A significand shifted up to its full 24 bits.
fn full(f: u64) -> (r: (u64, i32))
    requires
        0 < f < 0x100_0000,
    ensures
        0x80_0000 <= r.0 < 0x100_0000,
        0 <= r.1 <= 23,
        r.0 == f * pow2(r.1 as nat),
{
    let n: u32 = bit_length(f);
    proof {
        vstd::arithmetic::power2::lemma2_to64();
        if n > 24 {
            if n > 25 {
                lemma_pow2_strictly_increases(24, (n - 1) as nat);
            }
        }
    }
    let k: u32 = 24 - n;
    proof {
        let p = pow2(k as nat) as int;
        lemma_pow2_pos(k as nat);
        lemma_pow2_adds(n as nat, k as nat);
        lemma_pow2_adds((n - 1) as nat, k as nat);
        assert(pow2((n - 1) as nat) * p <= f * p < pow2(n as nat) * p) by (nonlinear_arith)
            requires
                pow2((n - 1) as nat) <= f < pow2(n as nat),
                p > 0,
        ;
        vstd::bits::lemma_u64_shl_is_mul(f, k as u64);
    }
    (f << (k as u64), k as i32)
}

/// The exact quotient, scaled for rounding.
proof fn lemma_quotient(fa: int, ea: int, k: int, fb: int, eb: int, q: int, rem: int)
    requires
        0 <= ea,
        0 <= eb,
        0 <= k,
        0 < fb,
        fa * pow2((k + 39) as nat) == q * fb + rem,
        0 <= rem < fb,
    ensures
        ({
            let exp = ea - eb - k + 110;
            let num = (fa * pow2(ea as nat)) * one();
            let den = fb * pow2(eb as nat);
            &&& up(exp) > 0
            &&& up(-exp) > 0
            &&& den > 0
            &&& rem == 0 ==> num * up(-exp) == q * up(exp) * den
            &&& rem > 0 ==> q * up(exp) * den < num * up(-exp) < (q + 1) * up(exp) * den
        }),
{
    let exp = ea - eb - k + 110;
    lemma_two_scales(ea + 149, eb + k + 39, exp);
    lemma_pow2_adds(ea as nat, 149);
    lemma_pow2_adds(eb as nat, (k + 39) as nat);
    lemma_pow2_pos(eb as nat);
    let (pa, o, pb, w) = (
        pow2(ea as nat) as int,
        one(),
        pow2(eb as nat) as int,
        pow2((k + 39) as nat) as int,
    );
    let (u, d) = (up(exp), up(-exp));
    let num = (fa * pa) * o;
    let den = fb * pb;
    assert(den > 0) by (nonlinear_arith)
        requires
            fb > 0,
            pb > 0,
            den == fb * pb,
    ;
    assert(num * d == (fa * w) * (pb * u)) by (nonlinear_arith)
        requires
            num == (fa * pa) * o,
            (pa * o) * d == (pb * w) * u,
    ;
    let t = pb * u;
    assert(t > 0) by (nonlinear_arith)
        requires
            pb > 0,
            u > 0,
            t == pb * u,
    ;
    assert(q * u * den == (q * fb) * t) by (nonlinear_arith)
        requires
            den == fb * pb,
            t == pb * u,
    ;
    assert((q + 1) * u * den == (q * fb + fb) * t) by (nonlinear_arith)
        requires
            den == fb * pb,
            t == pb * u,
    ;
    assert((q * fb) * t <= (q * fb + rem) * t < (q * fb + fb) * t) by (nonlinear_arith)
        requires
            0 <= rem < fb,
            t > 0,
    ;
    if rem > 0 {
        assert((q * fb) * t < (q * fb + rem) * t) by (nonlinear_arith)
            requires
                0 < rem,
                t > 0,
        ;
    }
}

impl Single {
    /// `self / other`.
    pub fn div(self, other: Single) -> (r: Single)
        ensures
            r == self.over(other),
    {
        reveal(Single::over);
        let negative = (self.bits >= 0x8000_0000) != (other.bits >= 0x8000_0000);
        let a: u32 = self.bits % 0x8000_0000;
        let b: u32 = other.bits % 0x8000_0000;
        if self.is_nan() || other.is_nan() || (a == INFINITY_BITS && b == INFINITY_BITS) || (a == 0
            && b == 0) {
            return Single { bits: NAN_BITS };
        }
        if a == INFINITY_BITS || b == 0 {
            return make(negative, INFINITY_BITS);
        }
        if b == INFINITY_BITS {
            return make(negative, 0);
        }
        let (fa, ea) = parts(a);
        let (fb, eb) = parts(b);
        proof {
            lemma_absolute(self);
            lemma_absolute(other);
        }
        if a == 0 {
            proof {
                // zero over a number is zero
                lemma_pow2_pos(149);
                assert(0 * one() == 0);
                lemma_magnitudes_ordered(0, 1);
                let den = absolute(other.value());
                assert(magnitude_value(0) == 0 && magnitude_value(1) == 1);
                assert(is_nearest(0, 0, den));
                lemma_nearest_unique(0, nearest(0, den), 0, den);
            }
            return make(negative, 0);
        }
        let (f, k) = full(fa);
        let n: u64 = f * 0x80_0000_0000;
        let q: u64 = n / fb;
        let rem: u64 = n % fb;
        let exp: i32 = ea - eb - k + 110;
        proof {
            vstd::arithmetic::power2::lemma2_to64_rest();
            lemma_pow2_adds(k as nat, 39);
            let p = pow2(k as nat) as int;
            assert(fa * (p * 0x80_0000_0000) == (fa * p) * 0x80_0000_0000) by (nonlinear_arith);
            vstd::arithmetic::div_mod::lemma_fundamental_div_mod(n as int, fb as int);
            assert(fb * q == q * fb) by (nonlinear_arith);
            assert(q >= 0x200_0000) by (nonlinear_arith)
                requires
                    n >= 0x80_0000 * 0x80_0000_0000,
                    n == q * fb + rem,
                    rem < fb,
                    0 < fb < 0x100_0000,
            ;
            lemma_quotient(
                fa as int,
                ea as int,
                k as int,
                fb as int,
                eb as int,
                q as int,
                rem as int,
            );
        }
        let m = round(q, exp, rem > 0);
        proof {
            lemma_rounded(
                m as int,
                q as int,
                exp as int,
                rem > 0,
                absolute(self.value()) * one(),
                absolute(other.value()),
            );
        }
        make(negative, m)
    }
}

/// The largest whole number whose square is at most `n`.
fn whole_root(n: u64) -> (r: u64)
    requires
        n < 0x8000_0000_0000_0000,
    ensures
        r * r <= n < (r + 1) * (r + 1),
        r < 0x1_0000_0000,
{
    let mut lo: u64 = 0;
    let mut hi: u64 = 0x1_0000_0000;
    while hi - lo > 1
        invariant
            lo < hi <= 0x1_0000_0000,
            lo * lo <= n,
            n < hi * hi,
            n < 0x8000_0000_0000_0000,
        decreases hi - lo,
    {
        let mid: u64 = lo + (hi - lo) / 2;
        assert(mid < 0x1_0000_0000);
        assert(mid * mid <= 0xffff_ffff_ffff_ffff) by (nonlinear_arith)
            requires
                0 <= mid < 0x1_0000_0000,
        ;
        if mid * mid <= n {
            lo = mid;
        } else {
            hi = mid;
        }
    }
    lo
}

/// What rounding gives for a whole root is what is nearest to the exact one.
proof fn lemma_root(m: int, r: int, exp: int, more: bool, n: int, x: int)
    requires
        brackets(m, r, exp, more),
        exp >= 0,
        r >= 0,
        x == n * (pow2(exp as nat) * pow2(exp as nat)),
        more == (r * r < n),
        r * r <= n < (r + 1) * (r + 1),
    ensures
        is_nearest_root(m, x),
        m == nearest_root(x),
{
    vstd::arithmetic::power2::lemma2_to64();
    let u = pow2(exp as nat) as int;
    lemma_pow2_pos(exp as nat);
    let uu = u * u;
    assert(uu > 0) by (nonlinear_arith)
        requires
            u > 0,
            uu == u * u,
    ;
    let low = 2 * r * u;
    let high = 2 * (r + 1) * u;
    assert(low * low == 4 * ((r * r) * uu)) by (nonlinear_arith)
        requires
            low == 2 * r * u,
            uu == u * u,
    ;
    assert(high * high == 4 * (((r + 1) * (r + 1)) * uu)) by (nonlinear_arith)
        requires
            high == 2 * (r + 1) * u,
            uu == u * u,
    ;
    assert((r * r) * uu <= n * uu < ((r + 1) * (r + 1)) * uu) by (nonlinear_arith)
        requires
            r * r <= n < (r + 1) * (r + 1),
            uu > 0,
    ;
    if more {
        assert((r * r) * uu < n * uu) by (nonlinear_arith)
            requires
                r * r < n,
                uu > 0,
        ;
    }
    assert(low >= 0) by (nonlinear_arith)
        requires
            low == 2 * r * u,
            r >= 0,
            u > 0,
    ;
    if m > 0 {
        lemma_magnitudes_ordered(0, m - 1);
        lemma_magnitudes_ordered(m - 1, m);
        let mid = magnitude_value(m - 1) + magnitude_value(m);
        assert(mid * 1 == mid);
        assert(mid * mid <= low * low) by (nonlinear_arith)
            requires
                0 <= mid <= low,
        ;
        if mid < low {
            assert(mid * mid < low * low) by (nonlinear_arith)
                requires
                    0 <= mid < low,
            ;
        }
    }
    if m < INFINITY_BITS {
        lemma_magnitudes_ordered(0, m);
        lemma_magnitudes_ordered(m, m + 1);
        let mid = magnitude_value(m) + magnitude_value(m + 1);
        assert(mid * 1 == mid);
        if more {
            assert(high * high <= mid * mid) by (nonlinear_arith)
                requires
                    0 <= high <= mid,
            ;
        } else {
            assert(low * low <= mid * mid) by (nonlinear_arith)
                requires
                    0 <= low <= mid,
            ;
            if low < mid {
                assert(low * low < mid * mid) by (nonlinear_arith)
                    requires
                        0 <= low < mid,
                ;
            }
        }
    }
    assert(is_nearest_root(m, x));
    lemma_nearest_root_unique(m, nearest_root(x), x);
}

impl Single {
    /// The square root.
    pub fn sqrt(self) -> (r: Single)
        ensures
            r == self.root(),
    {
        reveal(Single::root);
        let a: u32 = self.bits % 0x8000_0000;
        if self.is_nan() || (self.bits >= 0x8000_0000 && a != 0) {
            return Single { bits: NAN_BITS };
        }
        if a == 0 || a == INFINITY_BITS {
            return self;
        }
        let (fa, ea) = parts(a);
        let (f, k) = full(fa);
        // the exact square is f * 2^(ea - k + 149); make the exponent even
        let j: i32 = if (ea - k + 149) % 2 == 0 {
            38
        } else {
            39
        };
        let exp: i32 = (ea - k + 149 - j) / 2;
        let n: u64 = if j == 38 {
            f * 0x40_0000_0000
        } else {
            f * 0x80_0000_0000
        };
        let r = whole_root(n);
        proof {
            vstd::arithmetic::power2::lemma2_to64_rest();
            assert(r >= 0x200_0000) by (nonlinear_arith)
                requires
                    n >= 0x80_0000 * 0x40_0000_0000,
                    n < (r + 1) * (r + 1),
                    r >= 0,
            ;
            assert(r * r <= 0xffff_ffff_ffff_ffff) by (nonlinear_arith)
                requires
                    0 <= r < 0x1_0000_0000,
            ;
        }
        let more = r * r < n;
        let m = round(r, exp, more);
        proof {
            lemma_absolute(self);
            let x = self.value() * one();
            assert(2 * exp == ea - k + 149 - j);
            lemma_pow2_adds(exp as nat, exp as nat);
            lemma_pow2_adds(ea as nat, 149);
            // 2^ea * 2^149 == 2^k * 2^j * 2^(2 exp)
            lemma_pow2_adds(k as nat, j as nat);
            lemma_pow2_adds((k + j) as nat, (2 * exp) as nat);
            let (pa, pk, pj, pe) = (
                pow2(ea as nat) as int,
                pow2(k as nat) as int,
                pow2(j as nat) as int,
                pow2(exp as nat) as int,
            );
            assert(n == f * pj);
            assert(x == n * (pe * pe)) by (nonlinear_arith)
                requires
                    x == (fa * pa) * one(),
                    pa * one() == (pk * pj) * (pe * pe),
                    n == f * pj,
                    f == fa * pk,
            ;
            lemma_root(m as int, r as int, exp as int, more, n as int, x);
        }
        make(false, m)
    }
}

// ---- Laws -------------------------------------------------------------------

/// Addition and multiplication commute.
pub proof fn law_commutes(a: Single, b: Single)
    ensures
        a.plus(b) == b.plus(a),
        a.times(b) == b.times(a),
{
    reveal(Single::plus);
    reveal(Single::times);
    assert(absolute(a.value()) * absolute(b.value()) == absolute(b.value()) * absolute(a.value()))
        by (nonlinear_arith);
}

/// Products of larger factors are not smaller.
pub proof fn law_products_ordered(a: Single, b: Single, c: Single)
    requires
        a.finite(),
        b.finite(),
        c.finite(),
        a.magnitude() <= b.magnitude(),
    ensures
        a.times(c).magnitude() <= b.times(c).magnitude() <= INFINITY_BITS,
        a.times(c).negative() == (a.negative() != c.negative()),
        b.times(c).negative() == (b.negative() != c.negative()),
{
    reveal(Single::times);
    lemma_absolute(a);
    lemma_absolute(b);
    lemma_absolute(c);
    lemma_magnitudes_ordered(a.magnitude(), b.magnitude());
    lemma_pow2_pos(149);
    let (x, y, z) = (absolute(a.value()), absolute(b.value()), absolute(c.value()));
    assert(x * z <= y * z) by (nonlinear_arith)
        requires
            x <= y,
            0 <= z,
    ;
    law_rounding_monotone(x * z, y * z, one());
    lemma_nearest_in_range(x * z, one());
    lemma_nearest_in_range(y * z, one());
}

/// Quotients of larger dividends are not smaller.
pub proof fn law_quotients_ordered(a: Single, b: Single, c: Single)
    requires
        a.finite(),
        b.finite(),
        c.finite(),
        !c.zero(),
        a.magnitude() <= b.magnitude(),
    ensures
        a.over(c).magnitude() <= b.over(c).magnitude() <= INFINITY_BITS,
        a.over(c).negative() == (a.negative() != c.negative()),
        b.over(c).negative() == (b.negative() != c.negative()),
{
    reveal(Single::over);
    lemma_absolute(a);
    lemma_absolute(b);
    lemma_absolute(c);
    lemma_magnitudes_ordered(a.magnitude(), b.magnitude());
    lemma_pow2_pos(149);
    let (x, y, z, o) = (absolute(a.value()), absolute(b.value()), absolute(c.value()), one());
    assert(x * o <= y * o) by (nonlinear_arith)
        requires
            x <= y,
            0 < o,
    ;
    law_rounding_monotone(x * o, y * o, z);
    lemma_nearest_in_range(x * o, z);
    lemma_nearest_in_range(y * o, z);
}

/// Taking a finite number off itself leaves zero.
pub proof fn law_difference_with_itself(a: Single)
    requires
        a.finite(),
    ensures
        a.minus(a) == signed(false, 0),
{
    reveal(Single::plus);
    crate::single::law_negation(a);
    assert(a.negated().magnitude() == a.magnitude());
}

/// Adding zero leaves a number as it is.
pub proof fn law_zero_is_neutral(a: Single)
    requires
        a.finite(),
        !a.zero(),
    ensures
        a.plus(signed(false, 0)) == a,
{
    reveal(Single::plus);
    lemma_absolute(a);
    assert(magnitude_value(0) == 0);
    assert(signed(false, 0).value() == 0);
    crate::rounding::law_representable_stays(a.magnitude());
    assert(signed(a.negative(), a.magnitude()) == a);
}

/// Multiplying and dividing by one leaves a number as it is.
pub proof fn law_one_is_neutral(a: Single)
    requires
        a.finite(),
    ensures
        a.times(unit()) == a,
        unit().times(a) == a,
        a.over(unit()) == a,
{
    reveal(Single::times);
    reveal(Single::over);
    lemma_absolute(a);
    lemma_unit();
    lemma_absolute(unit());
    law_commutes(a, unit());
    crate::rounding::law_multiple_rounds_back(a.magnitude(), one());
    assert(signed(a.negative(), a.magnitude()) == a);
}

/// One in units.
pub proof fn lemma_unit()
    ensures
        unit().value() == one(),
        magnitude_value(ONE_BITS as int) == one(),
        one() > 0,
{
    let m = ONE_BITS as int;
    assert(m / 0x80_0000 == 127 && m % 0x80_0000 == 0);
    assert(magnitude_value(m) == 0x80_0000 * pow2(126));
    vstd::arithmetic::power2::lemma2_to64();
    vstd::arithmetic::power2::lemma_pow2_adds(23, 126);
    lemma_pow2_pos(149);
}

/// What zero is multiplied with is lost.
pub proof fn law_zero_absorbs(a: Single, b: Single)
    requires
        a.zero(),
        b.finite(),
    ensures
        a.times(b).zero(),
        b.times(a).zero(),
{
    reveal(Single::times);
    lemma_absolute(a);
    lemma_pow2_pos(149);
    law_commutes(a, b);
    let (x, y) = (absolute(a.value()), absolute(b.value()));
    assert(x * y == 0) by (nonlinear_arith)
        requires
            x == 0,
    ;
    assert(magnitude_value(0) == 0);
    crate::rounding::law_multiple_rounds_back(0, one());
    assert(0 * one() == 0);
}

/// Adding zero of either sign leaves the value of a number.
pub proof fn law_zero_adds_nothing(a: Single, b: Single)
    requires
        a.finite(),
        b.zero(),
    ensures
        a.plus(b).value() == a.value(),
        a.plus(b).magnitude() == a.magnitude(),
        !a.zero() ==> a.plus(b) == a,
        a.minus(b).value() == a.value(),
        a.minus(b).magnitude() == a.magnitude(),
        !a.zero() ==> a.minus(b) == a,
{
    reveal(Single::plus);
    lemma_absolute(a);
    lemma_absolute(b);
    crate::single::law_negation(b);
    assert(b.negated().magnitude() == 0);
    assert(magnitude_value(0) == 0);
    crate::rounding::law_representable_stays(a.magnitude());
    if !a.zero() {
        assert(signed(a.negative(), a.magnitude()) == a);
    }
}

/// The square root of a number is not negative.
pub proof fn law_root_not_negative(a: Single)
    requires
        !a.nan(),
        !a.negative(),
    ensures
        !a.root().nan(),
        !a.root().negative(),
{
    reveal(Single::root);
    if a.finite() && !a.zero() {
        law_root_exists(a.value() * one());
    }
}

/// Every number that is not negative has a nearest square root.
pub proof fn law_root_exists(x: int)
    ensures
        is_nearest_root(nearest_root(x), x),
{
    lemma_root_from(0, x);
}

/// The root lies above the midpoint below pattern `m`, or on it and `m` is even.
spec fn root_reaches(m: int, x: int) -> bool {
    m > 0 ==> {
        let mid = magnitude_value(m - 1) + magnitude_value(m);
        mid * mid < 4 * x || (mid * mid == 4 * x && m % 2 == 0)
    }
}

proof fn lemma_root_from(m: int, x: int)
    requires
        0 <= m <= INFINITY_BITS,
        root_reaches(m, x),
    ensures
        exists|n: int| is_nearest_root(n, x),
    decreases INFINITY_BITS - m,
{
    if m < INFINITY_BITS && root_reaches(m + 1, x) {
        lemma_root_from(m + 1, x);
    } else {
        assert(is_nearest_root(m, x));
    }
}

} // verus!
