//! Conversions between binary32 numbers and integers, remainders and angles.

use vstd::prelude::*;
use vstd::arithmetic::power2::{lemma_pow2_adds, lemma_pow2_pos, lemma_pow2_strictly_increases, lemma_pow2_unfold, pow2};
use crate::arith::{absolute, lemma_absolute, lemma_rounded, make, no_number, one, parts, signed};
use crate::rounding::{law_nearest_exists, law_representable_stays, law_rounding_monotone, lemma_magnitudes_ordered, nearest, round, up};
use crate::single::{law_negation, magnitude_value, Single, INFINITY_BITS, NAN_BITS};

verus! {

/// Pattern of the binary32 number nearest to pi.
pub const PI_BITS: u32 = 0x4049_0fdb;

/// Pattern of twice that number.
pub const TWO_PI_BITS: u32 = 0x40c9_0fdb;

impl Single {
    /// The whole number nearest to it below, of the absolute value.
    pub open spec fn whole(self) -> int {
        absolute(self.value()) / one()
    }

    /// The number has a fractional part.
    pub open spec fn fractional(self) -> bool {
        absolute(self.value()) % one() != 0
    }

    /// Rounded toward zero; the nearest `i32` outside its range, 0 for a NaN.
    #[verifier::opaque]
    pub open spec fn as_i32(self) -> i32 {
        if self.nan() {
            0
        } else {
            into_i32(if self.negative() {
                -self.whole()
            } else {
                self.whole()
            })
        }
    }

    /// Rounded down; the nearest `i32` outside its range, 0 for a NaN.
    #[verifier::opaque]
    pub open spec fn floor_i32(self) -> i32 {
        if self.nan() {
            0
        } else if !self.negative() {
            into_i32(self.whole())
        } else if self.fractional() {
            into_i32(-self.whole() - 1)
        } else {
            into_i32(-self.whole())
        }
    }

    /// Rounded toward zero; 0 for a NaN and below zero, the largest `usize`
    /// above its range.
    #[verifier::opaque]
    pub open spec fn as_usize(self) -> usize {
        if self.nan() || self.negative() {
            0
        } else {
            into_usize(self.whole())
        }
    }

    /// Rounded up; 0 for a NaN and below zero, the largest `usize` above its
    /// range.
    #[verifier::opaque]
    pub open spec fn ceil_usize(self) -> usize {
        if self.nan() || self.negative() {
            0
        } else if self.fractional() {
            into_usize(self.whole() + 1)
        } else {
            into_usize(self.whole())
        }
    }

    /// `self % other`: what is left of `self` after taking off `other` as often
    /// as goes, with the sign of `self`.
    #[verifier::opaque]
    pub open spec fn left_over(self, other: Single) -> Single {
        if self.nan() || other.nan() || self.infinite() || other.zero() {
            no_number()
        } else if other.infinite() {
            self
        } else {
            signed(
                self.negative(),
                nearest(absolute(self.value()) % absolute(other.value()), 1),
            )
        }
    }

    /// The remainder that is not negative.
    pub open spec fn wrapped(self, other: Single) -> Single {
        let r = self.left_over(other);
        if r.below(signed(false, 0)) {
            r.plus(other.unsigned())
        } else {
            r
        }
    }

    /// The larger of two numbers; where one is a NaN, the other.
    pub open spec fn larger(self, other: Single) -> Single {
        if self.nan() || self.below(other) {
            other
        } else {
            self
        }
    }
}

/// The number that a whole number rounds to.
#[verifier::opaque]
pub open spec fn rounded(n: int) -> Single {
    signed(false, nearest(n * one(), 1))
}

/// The nearest `i32`.
pub open spec fn into_i32(v: int) -> i32 {
    if v < i32::MIN {
        i32::MIN
    } else if v > i32::MAX {
        i32::MAX
    } else {
        v as i32
    }
}

/// The nearest `usize`.
pub open spec fn into_usize(v: int) -> usize {
    if v < 0 {
        0
    } else if v > usize::MAX {
        usize::MAX
    } else {
        v as usize
    }
}

/// The angle brought into `[-pi, pi)`.
pub open spec fn wrapped_angle(a: Single) -> Single {
    let pi = Single { bits: PI_BITS };
    let y = a.plus(pi).wrapped(Single { bits: TWO_PI_BITS }).minus(pi);
    if y == pi {
        pi.negated()
    } else {
        y
    }
}

/// Whole part of a magnitude, and whether anything is left; the largest `u64`
/// for more than that.
fn whole_part(m: u32) -> (r: (u64, bool))
    requires
        m <= INFINITY_BITS,
    ensures
        ({
            let v = magnitude_value(m as int);
            if v / one() <= u64::MAX {
                r.0 == v / one() && r.1 == (v % one() != 0)
            } else {
                r.0 == u64::MAX && v % one() == 0 && !r.1
            }
        }),
        r.1 ==> r.0 < 0x100_0000,
{
    let ghost v = magnitude_value(m as int);
    proof {
        lemma_pow2_pos(149);
        vstd::arithmetic::power2::lemma2_to64();
        vstd::arithmetic::power2::lemma2_to64_rest();
    }
    if m == INFINITY_BITS {
        proof {
            assert(m as int / 0x80_0000 == 255 && m as int % 0x80_0000 == 0);
            lemma_pow2_adds(149, 105);
            lemma_large(0x80_0000, 105, v);
        }
        return (u64::MAX, false);
    }
    let (f, e) = parts(m);
    if e <= 149 {
        let s: i32 = 149 - e;
        proof {
            lemma_pow2_adds(e as nat, s as nat);
            lemma_small(f as int, e as int, s as int, v);
        }
        if s >= 64 {
            proof {
                if s > 64 {
                    lemma_pow2_strictly_increases(64, s as nat);
                }
                let p = pow2(s as nat) as int;
                assert(f as int / p == 0 && f as int % p == f) by {
                    vstd::arithmetic::div_mod::lemma_small_mod(f as nat, p as nat);
                    vstd::arithmetic::div_mod::lemma_basic_div(f as int, p);
                }
            }
            return (0, f != 0);
        }
        proof {
            vstd::bits::lemma_u64_shr_is_div(f, s as u64);
            vstd::bits::lemma_u64_pow2_no_overflow(s as nat);
            vstd::bits::lemma_u64_shl_is_mul(1, s as u64);
        }
        let unit: u64 = 1u64 << (s as u64);
        (f >> (s as u64), f % unit != 0)
    } else {
        let k: i32 = e - 149;
        proof {
            lemma_pow2_adds(149, k as nat);
            lemma_large(f as int, k as int, v);
        }
        if k > 40 {
            return (u64::MAX, false);
        }
        proof {
            if k < 40 {
                lemma_pow2_strictly_increases(k as nat, 40);
            }
            let p = pow2(k as nat) as int;
            assert(0 <= f * p < 0x100_0000 * pow2(40)) by (nonlinear_arith)
                requires
                    0 <= f < 0x100_0000,
                    0 < p <= pow2(40),
            ;
            vstd::bits::lemma_u64_shl_is_mul(f, k as u64);
        }
        (f << (k as u64), false)
    }
}

/// A magnitude below 2^24 with its binary point inside.
proof fn lemma_small(f: int, e: int, s: int, v: int)
    requires
        0 <= f < 0x100_0000,
        0 <= e,
        0 <= s,
        e + s == 149,
        v == f * pow2(e as nat),
    ensures
        pow2(s as nat) > 0,
        v / one() == f / (pow2(s as nat) as int),
        v % one() != 0 <==> f % (pow2(s as nat) as int) != 0,
        f / (pow2(s as nat) as int) < 0x100_0000,
{
    lemma_pow2_pos(e as nat);
    lemma_pow2_pos(s as nat);
    lemma_pow2_adds(e as nat, s as nat);
    let (c, n) = (pow2(e as nat) as int, pow2(s as nat) as int);
    lemma_scaled_mod(f, n, c);
    assert(n * c == one()) by (nonlinear_arith)
        requires
            c * n == one(),
    ;
    vstd::arithmetic::div_mod::lemma_div_is_ordered_by_denominator(f, 1, n);
    vstd::arithmetic::div_mod::lemma_div_by_self(1);
    assert(f / 1 == f);
    assert((f % n) * c == 0 <==> f % n == 0) by (nonlinear_arith)
        requires
            c > 0,
    ;
}

/// A magnitude without fractional bits.
proof fn lemma_large(f: int, k: int, v: int)
    requires
        0x80_0000 <= f,
        0 <= k,
        v == f * pow2((149 + k) as nat),
    ensures
        v / one() == f * pow2(k as nat),
        v % one() == 0,
        k >= 41 ==> v / one() > u64::MAX,
{
    lemma_pow2_pos(149);
    lemma_pow2_adds(149, k as nat);
    lemma_pow2_pos(k as nat);
    let (o, p) = (one(), pow2(k as nat) as int);
    assert(v == (f * p) * o) by (nonlinear_arith)
        requires
            v == f * (o * p),
    ;
    vstd::arithmetic::div_mod::lemma_fundamental_div_mod_converse(v, o, f * p, 0);
    if k >= 41 {
        vstd::arithmetic::power2::lemma2_to64_rest();
        if k > 41 {
            lemma_pow2_strictly_increases(41, k as nat);
        }
        assert(f * p >= 0x80_0000 * 0x200_0000_0000) by (nonlinear_arith)
            requires
                f >= 0x80_0000,
                p >= 0x200_0000_0000,
        ;
    }
}

/// Scaling dividend and divisor scales the remainder and keeps the quotient.
pub proof fn lemma_scaled_mod(x: int, n: int, c: int)
    requires
        n > 0,
        c > 0,
        x >= 0,
    ensures
        n * c > 0,
        (x * c) / (n * c) == x / n,
        (x * c) % (n * c) == (x % n) * c,
{
    let (q, r) = (x / n, x % n);
    vstd::arithmetic::div_mod::lemma_fundamental_div_mod(x, n);
    assert(n * c > 0) by (nonlinear_arith)
        requires
            n > 0,
            c > 0,
    ;
    assert(x * c == q * (n * c) + r * c && 0 <= r * c < n * c) by (nonlinear_arith)
        requires
            x == n * q + r,
            0 <= r < n,
            c > 0,
    ;
    vstd::arithmetic::div_mod::lemma_fundamental_div_mod_converse(x * c, n * c, q, r * c);
}

impl Single {
    /// The number nearest to `n`.
    pub fn from_u64(n: u64) -> (r: Single)
        ensures
            r == rounded(n as int),
    {
        reveal(rounded);
        let m = round(n, 149, false);
        proof {
            vstd::arithmetic::power2::lemma2_to64();
            lemma_pow2_pos(149);
            assert(up(149) == one() && up(-149) == 1);
            lemma_rounded(m as int, n as int, 149, false, n * one(), 1);
        }
        make(false, m)
    }

    /// Rounded toward zero; the nearest `i32` outside its range, 0 for a NaN.
    pub fn to_i32(self) -> (r: i32)
        ensures
            r == self.as_i32(),
    {
        reveal(Single::as_i32);
        if self.is_nan() {
            return 0;
        }
        let (w, rest) = whole_part(self.bits % 0x8000_0000);
        proof {
            lemma_absolute(self);
        }
        narrow(self.bits >= 0x8000_0000, w)
    }

    /// Rounded down; the nearest `i32` outside its range, 0 for a NaN.
    pub fn floor_to_i32(self) -> (r: i32)
        ensures
            r == self.floor_i32(),
    {
        reveal(Single::floor_i32);
        if self.is_nan() {
            return 0;
        }
        let (w, rest) = whole_part(self.bits % 0x8000_0000);
        proof {
            lemma_absolute(self);
        }
        if self.bits >= 0x8000_0000 && rest {
            narrow(true, w + 1)
        } else {
            narrow(self.bits >= 0x8000_0000, w)
        }
    }

    /// Rounded toward zero; 0 for a NaN and below zero, the largest `usize`
    /// above its range.
    pub fn to_usize(self) -> (r: usize)
        ensures
            r == self.as_usize(),
    {
        reveal(Single::as_usize);
        if self.is_nan() || self.bits >= 0x8000_0000 {
            return 0;
        }
        let (w, rest) = whole_part(self.bits);
        proof {
            lemma_absolute(self);
        }
        if w >= usize::MAX as u64 {
            usize::MAX
        } else {
            w as usize
        }
    }

    /// Rounded up; 0 for a NaN and below zero, the largest `usize` above its
    /// range.
    pub fn ceil_to_usize(self) -> (r: usize)
        ensures
            r == self.ceil_usize(),
    {
        reveal(Single::ceil_usize);
        if self.is_nan() || self.bits >= 0x8000_0000 {
            return 0;
        }
        let (w, rest) = whole_part(self.bits);
        proof {
            lemma_absolute(self);
        }
        if rest {
            (w + 1) as usize
        } else if w >= usize::MAX as u64 {
            usize::MAX
        } else {
            w as usize
        }
    }

    /// `self % other`.
    pub fn rem(self, other: Single) -> (r: Single)
        ensures
            r == self.left_over(other),
    {
        reveal(Single::left_over);
        let a: u32 = self.bits % 0x8000_0000;
        let b: u32 = other.bits % 0x8000_0000;
        if self.is_nan() || other.is_nan() || a == INFINITY_BITS || b == 0 {
            return Single { bits: NAN_BITS };
        }
        if b == INFINITY_BITS {
            return self;
        }
        let (fa, ea) = parts(a);
        let (fb, eb) = parts(b);
        proof {
            lemma_absolute(self);
            lemma_absolute(other);
        }
        if ea < eb {
            proof {
                // the divisor is larger
                vstd::arithmetic::power2::lemma2_to64();
                let (x, y) = (magnitude_value(a as int), magnitude_value(b as int));
                lemma_pow2_pos(ea as nat);
                lemma_pow2_unfold((ea + 1) as nat);
                if ea + 1 < eb {
                    lemma_pow2_strictly_increases((ea + 1) as nat, eb as nat);
                }
                let (pa, pb) = (pow2(ea as nat) as int, pow2(eb as nat) as int);
                assert(fa * pa < fb * pb) by (nonlinear_arith)
                    requires
                        0 <= fa < 0x100_0000,
                        fb >= 0x80_0000,
                        pa > 0,
                        pb >= 2 * pa,
                ;
                vstd::arithmetic::div_mod::lemma_small_mod(x as nat, y as nat);
                law_representable_stays(a as int);
            }
            return self;
        }
        let d: i32 = ea - eb;
        let mut r: u64 = fa % fb;
        let mut k: i32 = 0;
        proof {
            vstd::arithmetic::power2::lemma2_to64();
            assert(fa * pow2(0) == fa);
        }
        while k < d
            invariant
                0 <= k <= d <= 253,
                0 < fb < 0x100_0000,
                r < fb,
                r as int == (fa * pow2(k as nat)) % (fb as int),
            decreases d - k,
        {
            proof {
                let x = fa * pow2(k as nat);
                lemma_pow2_unfold((k + 1) as nat);
                assert(fa * (2 * pow2(k as nat)) == 2 * x) by (nonlinear_arith)
                    requires
                        x == fa * pow2(k as nat),
                ;
                vstd::arithmetic::div_mod::lemma_mul_mod_noop_right(2, x, fb as int);
            }
            r = (2 * r) % fb;
            k = k + 1;
        }
        let m = round(r, eb, false);
        proof {
            lemma_pow2_pos(eb as nat);
            lemma_pow2_adds(d as nat, eb as nat);
            let (x, n, c) = (fa * pow2(d as nat), fb as int, pow2(eb as nat) as int);
            lemma_pow2_pos(d as nat);
            assert(x >= 0) by (nonlinear_arith)
                requires
                    x == fa * pow2(d as nat),
                    fa >= 0,
                    pow2(d as nat) > 0,
            ;
            lemma_scaled_mod(x, n, c);
            assert(fa * (pow2(d as nat) * c) == x * c) by (nonlinear_arith)
                requires
                    x == fa * pow2(d as nat),
            ;
            let v = absolute(self.value()) % absolute(other.value());
            assert(v == r * c);
            vstd::arithmetic::power2::lemma2_to64();
            assert(up(-(eb as int)) == 1 && up(eb as int) == c);
            assert(v * 1 == r * c * 1);
            lemma_rounded(m as int, r as int, eb as int, false, v, 1);
        }
        make(self.bits >= 0x8000_0000, m)
    }

    /// The remainder that is not negative.
    pub fn rem_euclid(self, other: Single) -> (r: Single)
        ensures
            r == self.wrapped(other),
    {
        let r = self.rem(other);
        if r.lt(Single { bits: 0 }) {
            r.add(other.abs())
        } else {
            r
        }
    }

    /// The larger of two numbers; where one is a NaN, the other.
    pub fn max(self, other: Single) -> (r: Single)
        ensures
            r == self.larger(other),
    {
        if self.is_nan() || self.lt(other) {
            other
        } else {
            self
        }
    }
}

/// Brings an angle into `[-pi, pi)`.
pub fn wrap_pi(a: Single) -> (r: Single)
    ensures
        r == wrapped_angle(a),
{
    let pi = Single { bits: PI_BITS };
    let y = a.add(pi).rem_euclid(Single { bits: TWO_PI_BITS }).sub(pi);
    if y == pi {
        pi.neg()
    } else {
        y
    }
}

/// The nearest `i32` to a magnitude with a sign.
fn narrow(negative: bool, w: u64) -> (r: i32)
    ensures
        r == into_i32(if negative {
            -(w as int)
        } else {
            w as int
        }),
{
    if negative {
        if w >= 0x8000_0000 {
            i32::MIN
        } else {
            -(w as i32)
        }
    } else if w >= 0x7fff_ffff {
        i32::MAX
    } else {
        w as i32
    }
}

// ---- Laws -------------------------------------------------------------------

/// A magnitude no larger than a pattern's rounds to no larger pattern.
proof fn lemma_rounds_within(v: int, m: int)
    requires
        0 <= v <= magnitude_value(m),
        0 <= m < INFINITY_BITS,
    ensures
        0 <= nearest(v, 1) <= m,
        magnitude_value(nearest(v, 1)) <= magnitude_value(m),
{
    law_representable_stays(m);
    law_rounding_monotone(v, magnitude_value(m), 1);
    law_nearest_exists(v, 1);
    lemma_magnitudes_ordered(nearest(v, 1), m);
}

/// A sum whose exact value is no larger than a pattern's rounds to no larger
/// pattern, and to the same side of zero.
pub proof fn lemma_sum_within(a: Single, b: Single, m: int)
    requires
        a.finite(),
        b.finite(),
        absolute(a.value() + b.value()) <= magnitude_value(m),
        0 <= m < INFINITY_BITS,
    ensures
        a.plus(b).magnitude() <= m,
        absolute(a.plus(b).value()) <= magnitude_value(m),
        a.value() + b.value() >= 0 ==> a.plus(b).value() >= 0,
        a.value() + b.value() <= 0 ==> a.plus(b).value() <= 0,
{
    reveal(Single::plus);
    let v = a.value() + b.value();
    lemma_rounds_within(absolute(v), m);
    lemma_absolute(a.plus(b));
    lemma_magnitudes_ordered(a.plus(b).magnitude(), m);
    lemma_magnitudes_ordered(0, m);
    assert(magnitude_value(0) == 0);
}

/// A turn is twice pi, also as binary32 has them.
pub proof fn lemma_turn()
    ensures
        magnitude_value(TWO_PI_BITS as int) == 2 * magnitude_value(PI_BITS as int),
        magnitude_value(PI_BITS as int) > 0,
{
    let (p, t) = (PI_BITS as int, TWO_PI_BITS as int);
    assert(p / 0x80_0000 == 128 && p % 0x80_0000 == 0x49_0fdb);
    assert(t / 0x80_0000 == 129 && t % 0x80_0000 == 0x49_0fdb);
    assert(magnitude_value(p) == 0xc9_0fdb * pow2(127));
    assert(magnitude_value(t) == 0xc9_0fdb * pow2(128));
    lemma_pow2_unfold(128);
    lemma_pow2_pos(127);
}

/// Adding to a finite number something no larger than a whole turn does not
/// overflow.
proof fn lemma_turn_added(a: Single, b: Single)
    requires
        a.finite(),
        b.magnitude() <= TWO_PI_BITS,
    ensures
        a.plus(b).finite(),
{
    reveal(Single::plus);
    lemma_absolute(a);
    lemma_absolute(b);
    let v = a.value() + b.value();
    let inf = INFINITY_BITS as int;
    let (top, turn) = (magnitude_value(inf - 1), magnitude_value(TWO_PI_BITS as int));
    lemma_magnitudes_ordered(a.magnitude(), inf - 1);
    lemma_magnitudes_ordered(b.magnitude(), TWO_PI_BITS as int);
    assert(absolute(v) <= top + turn);
    assert(2 * turn < magnitude_value(inf) - top) by {
        assert((inf - 1) / 0x80_0000 == 254 && (inf - 1) % 0x80_0000 == 0x7f_ffff);
        assert(inf / 0x80_0000 == 255 && inf % 0x80_0000 == 0);
        let t = TWO_PI_BITS as int;
        assert(t / 0x80_0000 == 129 && t % 0x80_0000 == 0x49_0fdb);
        assert(turn == 0xc9_0fdb * pow2(128));
        assert(top == 0xff_ffff * pow2(253));
        assert(magnitude_value(inf) == 0x80_0000 * pow2(254));
        lemma_pow2_unfold(254);
        lemma_pow2_adds(128, 125);
        lemma_pow2_strictly_increases(26, 125);
        vstd::arithmetic::power2::lemma2_to64();
        let (p, q) = (pow2(128) as int, pow2(125) as int);
        lemma_pow2_pos(128);
        assert(p * q > p * 0x400_0000) by (nonlinear_arith)
            requires
                p > 0,
                q > 0x400_0000,
        ;
    }
    law_nearest_exists(absolute(v), 1);
    if v != 0 {
        assert(nearest(absolute(v), 1) < inf);
    }
}

/// A finite angle is brought into one turn: never below minus pi, always below
/// pi.
pub proof fn law_angle_within_turn(a: Single)
    requires
        a.finite(),
    ensures
        (Single { bits: PI_BITS }).negated().at_most(wrapped_angle(a)),
        wrapped_angle(a).below(Single { bits: PI_BITS }),
{
    let pi = Single { bits: PI_BITS };
    let turn = Single { bits: TWO_PI_BITS };
    let half = magnitude_value(PI_BITS as int);
    lemma_turn();
    assert(magnitude_value(0) == 0);
    let x = a.plus(pi);
    lemma_turn_added(a, pi);
    // what is left of whole turns
    let r = x.left_over(turn);
    assert(r.magnitude() <= TWO_PI_BITS) by {
        reveal(Single::left_over);
        let (v, m) = (absolute(x.value()), absolute(turn.value()));
        vstd::arithmetic::div_mod::lemma_mod_bound(v, m);
        lemma_rounds_within(v % m, TWO_PI_BITS as int);
    }
    lemma_absolute(r);
    lemma_magnitudes_ordered(r.magnitude(), TWO_PI_BITS as int);
    // the remainder that is not negative
    let w = x.wrapped(turn);
    assert(!w.nan() && 0 <= w.value() <= 2 * half) by {
        if r.below(signed(false, 0)) {
            assert(turn.unsigned() == turn);
            lemma_absolute(turn);
            lemma_sum_within(r, turn, TWO_PI_BITS as int);
        }
    }
    // half a turn back
    let y = w.minus(pi);
    assert(y.magnitude() <= PI_BITS) by {
        law_negation(pi);
        lemma_magnitude_below(w);
        lemma_sum_within(w, pi.negated(), PI_BITS as int);
    }
    lemma_absolute(y);
    lemma_magnitudes_ordered(y.magnitude(), PI_BITS as int);
    law_negation(pi);
    if y.magnitude() == PI_BITS && !y.negative() {
        assert(y == pi);
    }
}

/// A number of at most a turn is finite.
proof fn lemma_magnitude_below(w: Single)
    requires
        !w.nan(),
        absolute(w.value()) <= magnitude_value(TWO_PI_BITS as int),
    ensures
        w.finite(),
{
    lemma_absolute(w);
    if w.magnitude() == INFINITY_BITS {
        lemma_magnitudes_ordered(TWO_PI_BITS as int, INFINITY_BITS as int);
    }
}

} // verus!
