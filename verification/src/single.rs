//! IEEE 754 binary32 numbers held as their bit patterns.
//!
//! Poses, ranges and thresholds are binary32 numbers. A [`Single`] is such a
//! number by its bits. Finite values are integer multiples of 2^-149, so what a
//! comparison means can be said on integers, and so can the exact result that
//! an operation of [`crate::arith`] rounds.

use vstd::prelude::*;
use vstd::arithmetic::power2::pow2;

verus! {

/// A binary32 number by its bit pattern: sign, eight exponent bits, 23
/// fraction bits. `==` compares the patterns.
#[derive(Clone, Copy, Debug, PartialEq, Eq, Structural)]
pub struct Single {
    pub bits: u32,
}

/// Pattern of positive zero.
pub const ZERO_BITS: u32 = 0;

/// Pattern of one half.
pub const HALF_BITS: u32 = 0x3f00_0000;

/// Pattern of one.
pub const ONE_BITS: u32 = 0x3f80_0000;

/// Pattern of two.
pub const TWO_BITS: u32 = 0x4000_0000;

/// Pattern of the quiet NaN that stands for "no reading".
pub const NAN_BITS: u32 = 0x7fc0_0000;

/// Pattern of positive infinity.
pub const INFINITY_BITS: u32 = 0x7f80_0000;

/// Pattern of negative infinity.
pub const NEG_INFINITY_BITS: u32 = 0xff80_0000;

/// What a magnitude pattern (the bits below the sign) stands for, in units of
/// 2^-149. Infinity takes the value just above the largest finite one's binade.
pub open spec fn magnitude_value(m: int) -> int {
    if m / 0x80_0000 == 0 {
        m
    } else {
        (0x80_0000 + m % 0x80_0000) * pow2((m / 0x80_0000 - 1) as nat)
    }
}

/// Larger magnitude patterns stand for larger magnitudes.
pub proof fn lemma_magnitude_increases(a: int, b: int)
    requires
        0 <= a < b,
    ensures
        magnitude_value(a) < magnitude_value(b),
        magnitude_value(0) == 0,
{
    let ea = a / 0x80_0000;
    let eb = b / 0x80_0000;
    let fa = a % 0x80_0000;
    let fb = b % 0x80_0000;
    if eb > 0 {
        let pb = pow2((eb - 1) as nat) as int;
        vstd::arithmetic::power2::lemma_pow2_pos((eb - 1) as nat);
        assert((0x80_0000 + fb) * pb >= 0x80_0000 * pb) by (nonlinear_arith)
            requires
                fb >= 0,
                pb > 0,
        ;
        if ea == 0 {
            assert(0x80_0000 * pb >= 0x80_0000);
        } else if ea == eb {
            assert((0x80_0000 + fa) * pb < (0x80_0000 + fb) * pb) by (nonlinear_arith)
                requires
                    fa < fb,
                    pb > 0,
            ;
        } else {
            let pa = pow2((ea - 1) as nat) as int;
            vstd::arithmetic::power2::lemma_pow2_pos((ea - 1) as nat);
            vstd::arithmetic::power2::lemma_pow2_unfold(ea as nat);
            if ea < eb - 1 {
                vstd::arithmetic::power2::lemma_pow2_strictly_increases(ea as nat, (eb - 1) as nat);
            }
            assert(2 * pa <= pb);
            assert((0x80_0000 + fa) * pa < 0x80_0000 * pb) by (nonlinear_arith)
                requires
                    fa < 0x80_0000,
                    pa > 0,
                    2 * pa <= pb,
            ;
        }
    }
}

impl Single {
    /// The pattern without its sign bit.
    pub open spec fn magnitude(self) -> int {
        self.bits as int % 0x8000_0000
    }

    /// The sign bit is set.
    pub open spec fn negative(self) -> bool {
        self.bits >= 0x8000_0000
    }

    /// Not a number.
    pub open spec fn nan(self) -> bool {
        self.magnitude() > 0x7f80_0000
    }

    /// Neither infinite nor a NaN.
    pub open spec fn finite(self) -> bool {
        self.magnitude() < 0x7f80_0000
    }

    /// The number that a pattern other than a NaN stands for, in units of
    /// 2^-149.
    pub open spec fn value(self) -> int {
        if self.negative() {
            -magnitude_value(self.magnitude())
        } else {
            magnitude_value(self.magnitude())
        }
    }

    /// `self < other`: false where either is a NaN.
    pub open spec fn below(self, other: Single) -> bool {
        !self.nan() && !other.nan() && self.value() < other.value()
    }

    /// `self <= other`: false where either is a NaN.
    pub open spec fn at_most(self, other: Single) -> bool {
        !self.nan() && !other.nan() && self.value() <= other.value()
    }

    /// The pattern of the negated number.
    pub open spec fn negated(self) -> Single {
        Single {
            bits: (if self.negative() {
                self.bits - 0x8000_0000
            } else {
                self.bits + 0x8000_0000
            }) as u32,
        }
    }

    /// The pattern of the absolute value.
    pub open spec fn unsigned(self) -> Single {
        Single { bits: self.magnitude() as u32 }
    }

    /// A reading that a beam can be drawn with: finite and above zero.
    pub open spec fn usable(self) -> bool {
        self.finite() && (Single { bits: ZERO_BITS }).below(self)
    }

    /// The magnitude pattern with the sign of the number.
    pub open spec fn signed_pattern(self) -> int {
        if self.negative() {
            -self.magnitude()
        } else {
            self.magnitude()
        }
    }

    /// The magnitude pattern with the sign of the number.
    fn rank(self) -> (r: i64)
        ensures
            r == self.signed_pattern(),
    {
        if self.bits >= 0x8000_0000 {
            -((self.bits - 0x8000_0000) as i64)
        } else {
            self.bits as i64
        }
    }

    /// True for a NaN.
    pub fn is_nan(self) -> (r: bool)
        ensures
            r == self.nan(),
    {
        self.bits % 0x8000_0000 > 0x7f80_0000
    }

    /// True for a number that is neither infinite nor a NaN.
    pub fn is_finite(self) -> (r: bool)
        ensures
            r == self.finite(),
    {
        self.bits % 0x8000_0000 < 0x7f80_0000
    }

    /// `self < other`.
    pub fn lt(self, other: Single) -> (r: bool)
        ensures
            r == self.below(other),
    {
        proof {
            law_order(self, other);
        }
        !self.is_nan() && !other.is_nan() && self.rank() < other.rank()
    }

    /// `self <= other`.
    pub fn le(self, other: Single) -> (r: bool)
        ensures
            r == self.at_most(other),
    {
        proof {
            law_order(self, other);
        }
        !self.is_nan() && !other.is_nan() && self.rank() <= other.rank()
    }

    /// Finite and above zero.
    pub fn is_usable(self) -> (r: bool)
        ensures
            r == self.usable(),
    {
        self.is_finite() && (Single { bits: ZERO_BITS }).lt(self)
    }

    /// The negated number.
    pub fn neg(self) -> (r: Single)
        ensures
            r == self.negated(),
    {
        if self.bits >= 0x8000_0000 {
            Single { bits: self.bits - 0x8000_0000 }
        } else {
            Single { bits: self.bits + 0x8000_0000 }
        }
    }

    /// The absolute value.
    pub fn abs(self) -> (r: Single)
        ensures
            r == self.unsigned(),
    {
        Single { bits: self.bits % 0x8000_0000 }
    }

    /// The smaller of two numbers; where one is a NaN, the other.
    pub open spec fn smaller(self, other: Single) -> Single {
        if self.nan() || other.below(self) {
            other
        } else {
            self
        }
    }

    /// The smaller of two numbers; where one is a NaN, the other.
    pub fn min(self, other: Single) -> (r: Single)
        ensures
            r == self.smaller(other),
    {
        if self.is_nan() || other.lt(self) {
            other
        } else {
            self
        }
    }

    /// `self` held between two bounds.
    pub open spec fn held(self, lo: Single, hi: Single) -> Single {
        if self.below(lo) {
            lo
        } else if hi.below(self) {
            hi
        } else {
            self
        }
    }

    /// `self` held between `lo` and `hi`; a NaN stays a NaN.
    pub fn clamp(self, lo: Single, hi: Single) -> (r: Single)
        requires
            lo.at_most(hi),
        ensures
            r == self.held(lo, hi),
    {
        if self.lt(lo) {
            lo
        } else if hi.lt(self) {
            hi
        } else {
            self
        }
    }
}

/// Numbers are ordered as their signed magnitude patterns are.
pub proof fn law_order(x: Single, y: Single)
    ensures
        x.value() < y.value() <==> x.signed_pattern() < y.signed_pattern(),
        x.value() == y.value() <==> x.signed_pattern() == y.signed_pattern(),
{
    let a = x.magnitude();
    let b = y.magnitude();
    if a > 0 {
        lemma_magnitude_increases(0, a);
    }
    if b > 0 {
        lemma_magnitude_increases(0, b);
    }
    assert(magnitude_value(0) == 0);
    if a < b {
        lemma_magnitude_increases(a, b);
    }
    if b < a {
        lemma_magnitude_increases(b, a);
    }
}

/// Negation mirrors every number about zero and keeps NaNs.
pub proof fn law_negation(a: Single)
    ensures
        a.negated().nan() == a.nan(),
        a.negated().value() == -a.value(),
        a.negated().negated() == a,
        a.unsigned().value() == if a.value() < 0 { -a.value() } else { a.value() },
{
    if a.magnitude() > 0 {
        lemma_magnitude_increases(0, a.magnitude());
    }
    assert(magnitude_value(0) == 0);
    assert(a.negated().magnitude() == a.magnitude());
}

/// A usable reading is exactly a pattern between the smallest positive number
/// and the largest finite one.
pub proof fn law_usable_patterns(a: Single)
    ensures
        a.usable() <==> 1 <= a.bits <= 0x7f7f_ffff,
{
    law_order(Single { bits: ZERO_BITS }, a);
}

} // verus!
