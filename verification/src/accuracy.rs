//! How far binary32 arithmetic is off the exact results.
//!
//! Numbers are taken as reals here. Rounding moves a result by at most half the
//! distance between the numbers around it, which for results up to a power of
//! two is a fixed, small distance.

use vstd::arithmetic::power2::{lemma2_to64, lemma_pow2_adds, lemma_pow2_pos, lemma_pow2_strictly_increases, lemma_pow2_unfold, pow2};
use vstd::prelude::*;
use crate::arith::{absolute, law_root_exists, lemma_absolute, one};
use crate::conversion::{lemma_sum_within, rounded, wrapped_angle, PI_BITS, TWO_PI_BITS};
use crate::rounding::{law_nearest_exists, law_representable_stays, lemma_magnitudes_ordered, nearest, nearest_root};
use crate::single::{law_negation, law_order, magnitude_value, Single, INFINITY_BITS};

verus! {

/// The number that a finite pattern stands for.
pub open spec fn exact(a: Single) -> real {
    a.value() as real / one() as real
}

/// Two to the power of `k`.
pub open spec fn limit(k: nat) -> real {
    pow2(k) as real
}

/// How far rounding moves a result of at most `limit(k)`: `2^(k - 25)`.
pub open spec fn slack(k: nat) -> real {
    pow2(k) as real / 33_554_432 as real
}

/// `x` and `y` are at most `d` apart.
pub open spec fn within(x: real, y: real, d: real) -> bool {
    x - y <= d && y - x <= d
}

// ---- Distances between patterns ---------------------------------------------

/// Below pattern `e * 2^23` neighbours are at most `2^(e - 2)` units apart.
proof fn lemma_step(m: int, e: int)
    requires
        2 <= e,
        0 <= m < e * 0x80_0000,
    ensures
        0 < magnitude_value(m + 1) - magnitude_value(m) <= pow2((e - 2) as nat),
{
    lemma_magnitudes_ordered(m, m + 1);
    let q = m / 0x80_0000;
    assert(q <= e - 1);
    let p = if q >= 1 {
        (q - 1) as nat
    } else {
        0nat
    };
    lemma_pow2_pos(p);
    assert(magnitude_value(m + 1) - magnitude_value(m) == pow2(p)) by {
        lemma2_to64();
        if m % 0x80_0000 == 0x7f_ffff {
            assert((m + 1) / 0x80_0000 == q + 1 && (m + 1) % 0x80_0000 == 0);
            if q >= 1 {
                lemma_pow2_unfold((q) as nat);
                assert(magnitude_value(m) == 0xff_ffff * pow2(p));
                assert(magnitude_value(m + 1) == 0x80_0000 * pow2(q as nat));
            } else {
                assert(magnitude_value(m + 1) == 0x80_0000 * pow2(0));
            }
        } else {
            assert((m + 1) / 0x80_0000 == q && (m + 1) % 0x80_0000 == m % 0x80_0000 + 1);
            if q >= 1 {
                let f = 0x80_0000 + m % 0x80_0000;
                assert(magnitude_value(m) == f * pow2(p));
                assert(magnitude_value(m + 1) == (f + 1) * pow2(p));
                assert((f + 1) * pow2(p) == f * pow2(p) + pow2(p)) by (nonlinear_arith);
            }
        }
    }
    if p < (e - 2) as nat {
        lemma_pow2_strictly_increases(p, (e - 2) as nat);
    }
}

/// Pattern of `limit(k)`, in units.
proof fn lemma_limit(k: nat)
    ensures
        magnitude_value((127 + k as int) * 0x80_0000) == pow2(k) * one(),
        pow2(k) * one() == pow2(k + 149),
        pow2(k) > 0,
        one() > 0,
{
    let m: int = (127 + k as int) * 0x80_0000;
    assert(m / 0x80_0000 == 127 + k && m % 0x80_0000 == 0);
    assert(magnitude_value(m) == 0x80_0000 * pow2((126 + k) as nat));
    lemma2_to64();
    lemma_pow2_adds(23, 126 + k);
    lemma_pow2_adds(k, 149);
    lemma_pow2_pos(k);
    lemma_pow2_pos(149);
}

/// Rounding a ratio of at most `limit(k)` moves it by at most half a step.
pub proof fn lemma_nearest_error(num: int, den: int, k: nat)
    requires
        den > 0,
        0 <= num <= pow2(k + 149) * den,
        k <= 100,
    ensures
        0 <= nearest(num, den) < INFINITY_BITS,
        ({
            let v = magnitude_value(nearest(num, den)) * den;
            &&& 2 * (v - num) <= pow2(k + 125) * den
            &&& 2 * (num - v) <= pow2(k + 125) * den
        }),
{
    let top: int = (127 + k as int) * 0x80_0000;
    let n = nearest(num, den);
    lemma_limit(k);
    law_nearest_exists(num, den);
    lemma_magnitudes_ordered(top, top + 1);
    let (t, u) = (magnitude_value(top), magnitude_value(top + 1));
    if n > top {
        lemma_magnitudes_ordered(top, n - 1);
        lemma_magnitudes_ordered(top + 1, n);
        let mid = magnitude_value(n - 1) + magnitude_value(n);
        assert(mid * den > 2 * t * den) by (nonlinear_arith)
            requires
                mid >= t + u,
                u > t,
                den > 0,
        ;
        assert(2 * t * den == 2 * (t * den)) by (nonlinear_arith);
        assert(false);
    }
    let s = pow2(k + 125) as int;
    let w = magnitude_value(n);
    if n > 0 {
        lemma_step(n - 1, 127 + k as int);
        let below = magnitude_value(n - 1);
        assert(2 * (w * den) - (below + w) * den <= s * den) by (nonlinear_arith)
            requires
                w - below <= s,
                den > 0,
        ;
    }
    if n < top {
        lemma_step(n, 127 + k as int);
        let above = magnitude_value(n + 1);
        assert((w + above) * den - 2 * (w * den) <= s * den) by (nonlinear_arith)
            requires
                above - w <= s,
                den > 0,
        ;
    } else {
        lemma_pow2_pos(k + 125);
        assert(s * den >= 0) by (nonlinear_arith)
            requires
                s > 0,
                den > 0,
        ;
    }
    lemma_pow2_pos(k + 125);
    assert(s * den >= 0) by (nonlinear_arith)
        requires
            s > 0,
            den > 0,
    ;
    if n == 0 {
        assert(magnitude_value(0) == 0);
        assert(w * den == 0) by (nonlinear_arith)
            requires
                w == 0,
        ;
    }
}

/// Half a step in units, as a real.
pub proof fn lemma_slack(x: int, k: nat)
    requires
        -(pow2(k + 125) as int) <= 2 * x <= pow2(k + 125),
    ensures
        -slack(k) <= x as real / one() as real <= slack(k),
{
    lemma_pow2_adds(k, 125);
    lemma_pow2_adds(24, 125);
    lemma2_to64();
    lemma_pow2_pos(125);
    let (p, b) = (pow2(k) as int, pow2(125) as int);
    assert(one() == 16_777_216 * b);
    assert(pow2(k + 125) as int == p * b);
    let o = one();
    assert(-(p as real / 33_554_432 as real) <= x as real / o as real <= p as real
        / 33_554_432 as real) by (nonlinear_arith)
        requires
            -(p * b) <= 2 * x <= p * b,
            o == 16_777_216 * b,
            b > 0,
    ;
}

// ---- Laws -------------------------------------------------------------------

/// A sum of at most `limit(k)` is off by at most `slack(k)`.
pub proof fn law_sum_error(a: Single, b: Single, k: nat)
    requires
        a.finite(),
        b.finite(),
        k <= 100,
        -limit(k) <= exact(a) + exact(b) <= limit(k),
    ensures
        a.plus(b).finite(),
        within(exact(a.plus(b)), exact(a) + exact(b), slack(k)),
{
    reveal(Single::plus);
    lemma_limit(k);
    let v = a.value() + b.value();
    let (p, o) = (pow2(k) as int, one());
    assert(-(p * o) <= v <= p * o) by (nonlinear_arith)
        requires
            -(p as real) <= a.value() as real / o as real + b.value() as real / o as real <= p as real,
            v == a.value() + b.value(),
            o > 0,
    ;
    let r = a.plus(b);
    lemma_nearest_error(absolute(v), 1, k);
    assert(magnitude_value(0) == 0);
    lemma_absolute(r);
    if v == 0 {
        lemma_pow2_pos(k + 125);
        assert(r.value() == 0);
    }
    lemma_slack(r.value() - v, k);
    assert(exact(r) - (exact(a) + exact(b)) == (r.value() - v) as real / o as real)
        by (nonlinear_arith)
        requires
            exact(r) == r.value() as real / o as real,
            exact(a) == a.value() as real / o as real,
            exact(b) == b.value() as real / o as real,
            v == a.value() + b.value(),
            o > 0,
    ;
}

/// A product of at most `limit(k)` is off by at most `slack(k)`.
pub proof fn law_product_error(a: Single, b: Single, k: nat)
    requires
        a.finite(),
        b.finite(),
        k <= 100,
        -limit(k) <= exact(a) * exact(b) <= limit(k),
    ensures
        a.times(b).finite(),
        within(exact(a.times(b)), exact(a) * exact(b), slack(k)),
{
    reveal(Single::times);
    lemma_limit(k);
    let (x, y) = (a.value(), b.value());
    let (p, o) = (pow2(k) as int, one());
    assert(-(p * o * o) <= x * y <= p * o * o) by (nonlinear_arith)
        requires
            -(p as real) <= (x as real / o as real) * (y as real / o as real) <= p as real,
            o > 0,
    ;
    lemma_absolute(a);
    lemma_absolute(b);
    let (ax, ay) = (absolute(x), absolute(y));
    let num = ax * ay;
    let negative = a.negative() != b.negative();
    assert(x * y == if negative {
        -num
    } else {
        num
    }) by (nonlinear_arith)
        requires
            x == if a.negative() {
                -ax
            } else {
                ax
            },
            y == if b.negative() {
                -ay
            } else {
                ay
            },
            num == ax * ay,
            negative == (a.negative() != b.negative()),
    ;
    assert(num >= 0) by (nonlinear_arith)
        requires
            num == ax * ay,
            ax >= 0,
            ay >= 0,
    ;
    let r = a.times(b);
    lemma_nearest_error(num, o, k);
    let w = magnitude_value(nearest(num, o));
    assert(r.value() == if negative {
        -w
    } else {
        w
    });
    let s = pow2(k + 125) as int;
    let d = r.value() * o - x * y;
    assert(-(s * o) <= 2 * d <= s * o) by (nonlinear_arith)
        requires
            d == r.value() * o - x * y,
            (r.value() == w && x * y == num) || (r.value() == -w && x * y == -num),
            2 * (w * o - num) <= s * o,
            2 * (num - w * o) <= s * o,
    ;
    lemma_ratio_error(r.value(), x, y, s, k);
}

/// From units to reals.
proof fn lemma_ratio_error(r: int, x: int, y: int, s: int, k: nat)
    requires
        s == pow2(k + 125),
        -(s * one()) <= 2 * (r * one() - x * y) <= s * one(),
    ensures
        within(
            r as real / one() as real,
            (x as real / one() as real) * (y as real / one() as real),
            slack(k),
        ),
{
    lemma_pow2_adds(k, 125);
    lemma_pow2_adds(24, 125);
    lemma2_to64();
    lemma_pow2_pos(125);
    let (p, b, o) = (pow2(k) as int, pow2(125) as int, one());
    let d = r * o - x * y;
    let oo = o as real * o as real;
    assert(o > 0);
    assert(oo > 0 as real) by (nonlinear_arith)
        requires
            o > 0,
            oo == o as real * o as real,
    ;
    let (re, xe, ye) = (r as real / o as real, x as real / o as real, y as real / o as real);
    assert(re - xe * ye == d as real / oo) by (nonlinear_arith)
        requires
            d == r * o - x * y,
            oo == o as real * o as real,
            o > 0,
            re == r as real / o as real,
            xe == x as real / o as real,
            ye == y as real / o as real,
    ;
    let t = p as real / 33_554_432 as real;
    assert((s * o) as real == 2 as real * t * oo) by (nonlinear_arith)
        requires
            s == p * b,
            o == 16_777_216 * b,
            oo == o as real * o as real,
            t == p as real / 33_554_432 as real,
    ;
    assert(-t <= d as real / oo <= t) by (nonlinear_arith)
        requires
            (s * o) as real == 2 as real * t * oo,
            -(s * o) <= 2 * d <= s * o,
            oo > 0 as real,
    ;
}

/// A quotient of at most `limit(k)` is off by at most `slack(k)`.
pub proof fn law_quotient_error(a: Single, b: Single, k: nat)
    requires
        a.finite(),
        b.finite(),
        !b.zero(),
        k <= 100,
        -limit(k) <= exact(a) / exact(b) <= limit(k),
    ensures
        a.over(b).finite(),
        within(exact(a.over(b)), exact(a) / exact(b), slack(k)),
{
    reveal(Single::over);
    lemma_limit(k);
    lemma_absolute(a);
    lemma_absolute(b);
    let (x, y) = (a.value(), b.value());
    let (ax, ay) = (absolute(x), absolute(y));
    let (p, o) = (pow2(k) as int, one());
    let q = x as real / y as real;
    assert(exact(a) / exact(b) == q) by (nonlinear_arith)
        requires
            exact(a) == x as real / o as real,
            exact(b) == y as real / o as real,
            q == x as real / y as real,
            y != 0,
            o > 0,
    ;
    let negative = a.negative() != b.negative();
    assert(q == if negative {
        -(ax as real / ay as real)
    } else {
        ax as real / ay as real
    }) by (nonlinear_arith)
        requires
            q == x as real / y as real,
            x == if a.negative() {
                -ax
            } else {
                ax
            },
            y == if b.negative() {
                -ay
            } else {
                ay
            },
            ay > 0,
            negative == (a.negative() != b.negative()),
    ;
    assert(ax * o <= p * o * ay) by (nonlinear_arith)
        requires
            ax as real / ay as real <= p as real,
            ay > 0,
            o > 0,
    ;
    assert(0 <= ax * o) by (nonlinear_arith)
        requires
            ax >= 0,
            o > 0,
    ;
    let num = ax * o;
    lemma_nearest_error(num, ay, k);
    let r = a.over(b);
    let w = magnitude_value(nearest(num, ay));
    assert(r.value() == if negative {
        -w
    } else {
        w
    });
    let s = pow2(k + 125) as int;
    lemma_pow2_adds(k, 125);
    lemma_pow2_adds(24, 125);
    lemma2_to64();
    lemma_pow2_pos(125);
    let c = pow2(125) as int;
    let (we, qe, t) = (
        w as real / o as real,
        ax as real / ay as real,
        p as real / 33_554_432 as real,
    );
    assert(-t <= we - qe <= t) by (nonlinear_arith)
        requires
            2 * (w * ay - ax * o) <= s * ay,
            2 * (ax * o - w * ay) <= s * ay,
            s == p * c,
            o == 16_777_216 * c,
            c > 0,
            ay > 0,
            we == w as real / o as real,
            qe == ax as real / ay as real,
            t == p as real / 33_554_432 as real,
    ;
    assert(exact(r) == if negative {
        -we
    } else {
        we
    }) by (nonlinear_arith)
        requires
            exact(r) == r.value() as real / o as real,
            r.value() == if negative {
                -w
            } else {
                w
            },
            we == w as real / o as real,
            o > 0,
    ;
}

/// Negation is exact.
pub proof fn law_negation_exact(a: Single)
    ensures
        exact(a.negated()) == -exact(a),
        a.negated().finite() == a.finite(),
{
    law_negation(a);
    lemma_pow2_pos(149);
    let (x, o) = (a.value(), one());
    assert((-x) as real / o as real == -(x as real / o as real)) by (nonlinear_arith)
        requires
            o > 0,
    ;
}

/// A whole number of at most `limit(k)` is taken with an error of at most
/// `slack(k)`.
pub proof fn law_whole_error(n: int, k: nat)
    requires
        0 <= n <= pow2(k),
        k <= 100,
    ensures
        rounded(n).finite(),
        within(exact(rounded(n)), n as real, slack(k)),
{
    reveal(rounded);
    lemma_limit(k);
    let (p, o) = (pow2(k) as int, one());
    assert(0 <= n * o <= p * o) by (nonlinear_arith)
        requires
            0 <= n <= p,
            o > 0,
    ;
    lemma_nearest_error(n * o, 1, k);
    let r = rounded(n);
    let w = magnitude_value(nearest(n * o, 1));
    assert(r.value() == w);
    lemma_slack(w - n * o, k);
    assert((w - n * o) as real / o as real == w as real / o as real - n as real)
        by (nonlinear_arith)
        requires
            o > 0,
    ;
}

/// The square of a root, of a number of at most four, is off by at most
/// `slack(4)`; the root itself is at most two.
pub proof fn law_root_error(a: Single)
    requires
        a.finite(),
        0 as real <= exact(a) <= limit(2),
    ensures
        a.root().finite(),
        0 as real <= exact(a.root()) <= limit(1),
        within(exact(a.root()) * exact(a.root()), exact(a), slack(4)),
{
    reveal(Single::root);
    lemma_absolute(a);
    lemma2_to64();
    lemma_limit(1);
    let o = one();
    let v = a.value();
    assert(0 <= v <= 4 * o) by (nonlinear_arith)
        requires
            0 as real <= v as real / o as real <= 4 as real,
            o > 0,
    ;
    if v == 0 {
        assert(a.root() == a);
        assert(exact(a) == 0 as real) by (nonlinear_arith)
            requires
                exact(a) == v as real / o as real,
                v == 0,
                o > 0,
        ;
    } else {
        let n = nearest_root(v * o);
        lemma_root_units(v);
        let r = a.root();
        let w = magnitude_value(n);
        assert(r.value() == w);
        assert(0 as real <= w as real / o as real <= 2 as real) by (nonlinear_arith)
            requires
                0 <= w <= 2 * o,
                o > 0,
        ;
        let (re, ve) = (w as real / o as real, v as real / o as real);
        lemma_pow2_adds(23, 126);
        let s = pow2(126) as int;
        assert(within(re * re, ve, slack(4))) by (nonlinear_arith)
            requires
                -(3 * s * o) <= w * w - v * o <= 3 * s * o,
                o == 8_388_608 * s,
                s > 0,
                re == w as real / o as real,
                ve == v as real / o as real,
                slack(4) == 16 as real / 33_554_432 as real,
        ;
    }
}

/// The nearest root in units.
proof fn lemma_root_units(v: int)
    requires
        0 < v <= 4 * one(),
    ensures
        0 <= nearest_root(v * one()) < INFINITY_BITS,
        0 <= magnitude_value(nearest_root(v * one())) <= 2 * one(),
        ({
            let w = magnitude_value(nearest_root(v * one()));
            let s = pow2(126) as int;
            &&& s > 0
            &&& -(3 * s * one()) <= w * w - v * one() <= 3 * s * one()
        }),
{
    let o = one();
    let x = v * o;
    let n = nearest_root(x);
    law_root_exists(x);
    lemma_limit(1);
    lemma2_to64();
    lemma_pow2_pos(126);
    lemma_pow2_adds(23, 126);
    let s = pow2(126) as int;
    let top: int = 0x4000_0000;
    assert(magnitude_value(top) == 2 * o);
    lemma_magnitudes_ordered(top, top + 1);
    assert(x <= 4 * (o * o)) by (nonlinear_arith)
        requires
            x == v * o,
            v <= 4 * o,
            o > 0,
    ;
    if n > top {
        lemma_magnitudes_ordered(top, n - 1);
        lemma_magnitudes_ordered(top + 1, n);
        let mid = magnitude_value(n - 1) + magnitude_value(n);
        assert(mid * mid > 16 * (o * o)) by (nonlinear_arith)
            requires
                mid > 4 * o,
                o > 0,
        ;
        assert(false);
    }
    lemma_magnitudes_ordered(n, top);
    lemma_magnitudes_ordered(0, n);
    assert(magnitude_value(0) == 0);
    let w = magnitude_value(n);
    if n > 0 {
        lemma_step(n - 1, 128);
        lemma_magnitudes_ordered(0, n - 1);
        let below = magnitude_value(n - 1);
        assert(4 * (w * w) - 4 * x <= 4 * (s * w)) by (nonlinear_arith)
            requires
                (below + w) * (below + w) <= 4 * x,
                0 <= below,
                0 < w - below <= s,
        ;
        assert(s * w <= 2 * (s * o)) by (nonlinear_arith)
            requires
                w <= 2 * o,
                s > 0,
        ;
    }
    if n < top {
        lemma_step(n, 128);
        let above = magnitude_value(n + 1);
        assert(4 * x - 4 * (w * w) <= s * (4 * w + s)) by (nonlinear_arith)
            requires
                4 * x <= (w + above) * (w + above),
                0 <= w,
                0 < above - w <= s,
        ;
        assert(s * (4 * w + s) <= 12 * (s * o)) by (nonlinear_arith)
            requires
                0 <= w <= 2 * o,
                0 < s <= o,
        ;
    } else {
        assert(w * w == 4 * (o * o)) by (nonlinear_arith)
            requires
                w == 2 * o,
        ;
    }
    assert(3 * s * o == 3 * (s * o)) by (nonlinear_arith);
    assert(0 <= s * o) by (nonlinear_arith)
        requires
            s > 0,
            o > 0,
    ;
    if n == 0 {
        assert(w * w == 0) by (nonlinear_arith)
            requires
                w == 0,
        ;
        assert(x >= 0) by (nonlinear_arith)
            requires
                x == v * o,
                v > 0,
                o > 0,
        ;
    }
}

/// An angle within one turn, half a turn on, is less than a turn.
proof fn lemma_half_turn_on(a: Single)
    requires
        a.finite(),
        (Single { bits: PI_BITS }).negated().at_most(a),
        a.below(Single { bits: PI_BITS }),
    ensures
        ({
            let x = a.plus(Single { bits: PI_BITS });
            &&& x.magnitude() <= TWO_PI_BITS - 1
            &&& 0 <= x.value() <= magnitude_value(TWO_PI_BITS - 1)
        }),
{
    let pi = Single { bits: PI_BITS };
    let (p, t) = (PI_BITS as int, TWO_PI_BITS as int);
    lemma_pi();
    law_negation(pi);
    let x = a.plus(pi);
    let v = a.value() + pi.value();
    let top = Single { bits: (p - 1) as u32 };
    law_order(a, pi);
    law_order(top, a);
    assert(top.value() == magnitude_value(p - 1));
    assert(0 <= v <= magnitude_value(p - 1) + magnitude_value(p));
    law_nearest_exists(absolute(v), 1);
    let n = nearest(absolute(v), 1);
    if n >= t {
        lemma_magnitudes_ordered(t - 1, n - 1);
        lemma_magnitudes_ordered(t, n);
        if n > t {
            lemma_magnitudes_ordered(t, n - 1);
            lemma_magnitudes_ordered(t - 1, t);
        }
        assert(false);
    }
    assert(x.magnitude() <= t - 1 && !x.negative() || x.magnitude() == 0) by {
        reveal(Single::plus);
    }
    lemma_absolute(x);
    lemma_magnitudes_ordered(x.magnitude(), t - 1);
}

/// Less than a turn has no turn to take off.
proof fn lemma_no_turn(x: Single)
    requires
        x.magnitude() <= TWO_PI_BITS - 1,
        0 <= x.value() <= magnitude_value(TWO_PI_BITS - 1),
    ensures
        x.wrapped(Single { bits: TWO_PI_BITS }).finite(),
        x.wrapped(Single { bits: TWO_PI_BITS }).value() == x.value(),
{
    let turn = Single { bits: TWO_PI_BITS };
    let t = TWO_PI_BITS as int;
    lemma_pi();
    lemma_absolute(x);
    lemma_magnitudes_ordered(t - 1, t);
    assert(magnitude_value(0) == 0);
    let r = x.left_over(turn);
    vstd::arithmetic::div_mod::lemma_small_mod(x.value() as nat, magnitude_value(t) as nat);
    law_representable_stays(x.magnitude());
    assert(r == crate::arith::signed(x.negative(), x.magnitude())) by {
        reveal(Single::left_over);
    }
    lemma_absolute(r);
    assert(crate::arith::signed(false, 0).value() == 0);
}

/// An angle that is within one turn already stays as it is, up to rounding.
pub proof fn law_wrapping_keeps_angle(a: Single)
    requires
        a.finite(),
        (Single { bits: PI_BITS }).negated().at_most(a),
        a.below(Single { bits: PI_BITS }),
    ensures
        wrapped_angle(a).finite(),
        within(exact(wrapped_angle(a)), exact(a), 1 as real / 1_048_576 as real),
{
    let pi = Single { bits: PI_BITS };
    let p = PI_BITS as int;
    let x = a.plus(pi);
    lemma_half_turn_on(a);
    lemma_no_turn(x);
    let r = x.wrapped(Single { bits: TWO_PI_BITS });
    let y = r.minus(pi);
    lemma2_to64();
    lemma_pi();
    law_negation(pi);
    let o = one();
    let (ae, pe) = (exact(a), exact(pi));
    assert(0 as real <= pe <= 4 as real) by (nonlinear_arith)
        requires
            pe == pi.value() as real / o as real,
            0 <= pi.value() <= 4 * o,
            o > 0,
    ;
    assert(-pe <= ae <= pe) by (nonlinear_arith)
        requires
            ae == a.value() as real / o as real,
            pe == pi.value() as real / o as real,
            -pi.value() <= a.value() <= pi.value(),
            o > 0,
    ;
    law_sum_error(a, pi, 3);
    assert(exact(r) == exact(x));
    law_negation_exact(pi);
    law_sum_error(r, pi.negated(), 3);
    assert(y.magnitude() < p || y.negative() || y.magnitude() == 0) by {
        lemma_not_pi(r);
    }
    assert(y != pi);
}

/// Half a turn off less than a turn is not half a turn.
proof fn lemma_not_pi(r: Single)
    requires
        r.finite(),
        0 <= r.value() <= magnitude_value(TWO_PI_BITS - 1),
    ensures
        ({
            let y = r.minus(Single { bits: PI_BITS });
            y.magnitude() < PI_BITS || y.negative() || y.magnitude() == 0
        }),
{
    let pi = Single { bits: PI_BITS };
    let p = PI_BITS as int;
    lemma_pi();
    law_negation(pi);
    lemma_magnitudes_ordered(p - 1, p);
    let y = r.minus(pi);
    lemma_absolute(y);
    assert(magnitude_value(0) == 0);
    if r.value() >= magnitude_value(p) {
        lemma_sum_within(r, pi.negated(), p - 1);
    } else {
        lemma_sum_within(r, pi.negated(), p);
    }
}

/// Pi and its neighbours in units.
proof fn lemma_pi()
    ensures
        ({
            let (p, t) = (PI_BITS as int, TWO_PI_BITS as int);
            &&& (Single { bits: PI_BITS }).value() == magnitude_value(p)
            &&& (Single { bits: TWO_PI_BITS }).value() == magnitude_value(t)
            &&& 0 < magnitude_value(p) <= 4 * one()
            &&& magnitude_value(p) + magnitude_value(p) == magnitude_value(t)
            &&& 2 * (magnitude_value(p - 1) + magnitude_value(p)) == magnitude_value(t - 1)
                + magnitude_value(t)
            &&& magnitude_value(t - 1) - magnitude_value(p) <= magnitude_value(p - 1)
            &&& one() > 0
        }),
{
    let (p, t) = (PI_BITS as int, TWO_PI_BITS as int);
    assert(p / 0x80_0000 == 128 && p % 0x80_0000 == 0x49_0fdb);
    assert((p - 1) / 0x80_0000 == 128 && (p - 1) % 0x80_0000 == 0x49_0fda);
    assert(t / 0x80_0000 == 129 && t % 0x80_0000 == 0x49_0fdb);
    assert((t - 1) / 0x80_0000 == 129 && (t - 1) % 0x80_0000 == 0x49_0fda);
    assert(magnitude_value(p) == 0xc9_0fdb * pow2(127));
    assert(magnitude_value(p - 1) == 0xc9_0fda * pow2(127));
    assert(magnitude_value(t) == 0xc9_0fdb * pow2(128));
    assert(magnitude_value(t - 1) == 0xc9_0fda * pow2(128));
    lemma_pow2_unfold(128);
    lemma_pow2_pos(127);
    lemma_pow2_adds(22, 127);
    lemma2_to64();
}

/// Whole numbers of up to 24 bits, and their multiples by powers of two, have
/// patterns of their own.
proof fn lemma_whole_pattern(q: int, s: int) -> (m: int)
    requires
        0 < q < 0x100_0000,
        0 <= s <= 250,
        q * pow2(s as nat) >= 0x80_0000,
    ensures
        0 <= m < INFINITY_BITS,
        magnitude_value(m) == q * pow2(s as nat),
    decreases 0x100_0000 - q,
{
    lemma2_to64();
    if q >= 0x80_0000 {
        let m = (s + 1) * 0x80_0000 + (q - 0x80_0000);
        assert(m / 0x80_0000 == s + 1 && m % 0x80_0000 == q - 0x80_0000);
        m
    } else {
        if s == 0 {
            let p = pow2(0) as int;
            assert(q * p == q) by (nonlinear_arith)
                requires
                    p == 1,
            ;
            assert(false);
        }
        lemma_pow2_unfold(s as nat);
        let p = pow2((s - 1) as nat) as int;
        assert(q * (2 * p) == (2 * q) * p) by (nonlinear_arith);
        lemma_whole_pattern(2 * q, s - 1)
    }
}

/// Whole numbers of up to 24 bits are taken as they are.
pub proof fn law_whole_is_exact(n: int)
    requires
        0 <= n < 0x100_0000,
    ensures
        rounded(n).finite(),
        exact(rounded(n)) == n as real,
        !rounded(n).negative(),
        n > 0 ==> !rounded(n).zero(),
{
    reveal(rounded);
    lemma_pow2_pos(149);
    let o = one();
    let r = rounded(n);
    assert(magnitude_value(0) == 0);
    if n == 0 {
        assert(0 * o == 0);
        law_representable_stays(0);
    } else {
        lemma2_to64();
        lemma_pow2_adds(23, 126);
        lemma_pow2_pos(126);
        assert(n * o >= 0x80_0000) by (nonlinear_arith)
            requires
                n >= 1,
                o >= 0x80_0000,
        ;
        let m = lemma_whole_pattern(n, 149);
        law_representable_stays(m);
        lemma_absolute(r);
        assert(n * o > 0);
    }
    assert(r.value() == n * o);
    assert((n * o) as real / o as real == n as real) by (nonlinear_arith)
        requires
            o > 0,
    ;
}

/// The nearest root in units, of numbers of at most `limit(2 k)`.
proof fn lemma_root_units_to(v: int, k: nat)
    requires
        0 < v <= pow2(2 * k) * one(),
        k <= 40,
    ensures
        0 <= nearest_root(v * one()) < INFINITY_BITS,
        ({
            let w = magnitude_value(nearest_root(v * one()));
            let (s, t) = (pow2(k + 125) as int, pow2(k + 149) as int);
            &&& 0 <= w <= t
            &&& s > 0
            &&& -(2 * (s * t)) <= w * w - v * one() <= 2 * (s * t)
        }),
{
    let o = one();
    let x = v * o;
    let n = nearest_root(x);
    law_root_exists(x);
    lemma_limit(k);
    lemma2_to64();
    lemma_pow2_pos(k + 125);
    lemma_pow2_pos(k + 149);
    lemma_pow2_adds(k, k);
    let (s, t) = (pow2(k + 125) as int, pow2(k + 149) as int);
    if k + 125 < k + 149 {
        lemma_pow2_strictly_increases(k + 125, k + 149);
    }
    let top: int = (127 + k as int) * 0x80_0000;
    assert(magnitude_value(top) == t);
    lemma_magnitudes_ordered(top, top + 1);
    let p = pow2(k) as int;
    assert(x <= t * t) by (nonlinear_arith)
        requires
            x == v * o,
            v <= (p * p) * o,
            t == p * o,
            o > 0,
    ;
    if n > top {
        lemma_magnitudes_ordered(top, n - 1);
        lemma_magnitudes_ordered(top + 1, n);
        let mid = magnitude_value(n - 1) + magnitude_value(n);
        assert(mid * mid > 4 * (t * t)) by (nonlinear_arith)
            requires
                mid > 2 * t,
                t > 0,
        ;
        assert(false);
    }
    lemma_magnitudes_ordered(n, top);
    lemma_magnitudes_ordered(0, n);
    assert(magnitude_value(0) == 0);
    let w = magnitude_value(n);
    assert(s * t > 0) by (nonlinear_arith)
        requires
            s > 0,
            t > 0,
    ;
    if n > 0 {
        lemma_step(n - 1, 127 + k as int);
        lemma_magnitudes_ordered(0, n - 1);
        let below = magnitude_value(n - 1);
        assert(4 * (w * w) - 4 * x <= 4 * (s * w)) by (nonlinear_arith)
            requires
                (below + w) * (below + w) <= 4 * x,
                0 <= below,
                0 < w - below <= s,
        ;
        assert(s * w <= s * t) by (nonlinear_arith)
            requires
                w <= t,
                s > 0,
        ;
    } else {
        assert(w * w == 0) by (nonlinear_arith)
            requires
                w == 0,
        ;
        assert(x >= 0) by (nonlinear_arith)
            requires
                x == v * o,
                v > 0,
                o > 0,
        ;
    }
    if n < top {
        lemma_step(n, 127 + k as int);
        let above = magnitude_value(n + 1);
        assert(4 * x - 4 * (w * w) <= s * (4 * w + s)) by (nonlinear_arith)
            requires
                4 * x <= (w + above) * (w + above),
                0 <= w,
                0 < above - w <= s,
        ;
        assert(s * (4 * w + s) <= 8 * (s * t)) by (nonlinear_arith)
            requires
                0 <= w <= t,
                0 < s <= t,
        ;
    } else {
        assert(w * w == t * t) by (nonlinear_arith)
            requires
                w == t,
        ;
    }
}

/// The square of a root, of a number of at most `limit(2 k)`, is off by at most
/// four times `slack(2 k)`; the root itself is at most `limit(k)`.
pub proof fn law_root_error_to(a: Single, k: nat)
    requires
        a.finite(),
        0 as real <= exact(a) <= limit(2 * k),
        k <= 40,
    ensures
        a.root().finite(),
        0 as real <= exact(a.root()) <= limit(k),
        within(exact(a.root()) * exact(a.root()), exact(a), 4 as real * slack(2 * k)),
{
    reveal(Single::root);
    lemma_absolute(a);
    lemma_limit(k);
    lemma_limit(2 * k);
    let o = one();
    let v = a.value();
    let (p, pp) = (pow2(k) as int, pow2(2 * k) as int);
    lemma_pow2_adds(k, k);
    assert(0 <= v <= pp * o) by (nonlinear_arith)
        requires
            0 as real <= v as real / o as real <= pp as real,
            o > 0,
    ;
    if v == 0 {
        assert(a.root() == a);
        assert(exact(a) == 0 as real) by (nonlinear_arith)
            requires
                exact(a) == v as real / o as real,
                v == 0,
                o > 0,
        ;
    } else {
        let n = nearest_root(v * o);
        lemma_root_units_to(v, k);
        let r = a.root();
        let w = magnitude_value(n);
        assert(r.value() == w);
        assert(0 as real <= w as real / o as real <= p as real) by (nonlinear_arith)
            requires
                0 <= w <= p * o,
                o > 0,
        ;
        lemma_pow2_adds(k, 125);
        lemma_pow2_adds(24, 125);
        lemma2_to64();
        lemma_pow2_pos(125);
        let b = pow2(125) as int;
        let (s, t) = (pow2(k + 125) as int, pow2(k + 149) as int);
        assert(s * t == (p * p) * (b * o)) by (nonlinear_arith)
            requires
                s == p * b,
                t == p * o,
        ;
        let (re, ve) = (w as real / o as real, v as real / o as real);
        let d = w * w - v * o;
        assert(re * re - ve == d as real / (o as real * o as real)) by (nonlinear_arith)
            requires
                re == w as real / o as real,
                ve == v as real / o as real,
                d == w * w - v * o,
                o > 0,
        ;
        let e = pp * (b * o);
        assert(e as real / (o as real * o as real) == pp as real / 16_777_216 as real)
            by (nonlinear_arith)
            requires
                e == pp * (b * o),
                o == 16_777_216 * b,
                b > 0,
        ;
        let oo = o as real * o as real;
        assert(oo > 0 as real) by (nonlinear_arith)
            requires
                oo == o as real * o as real,
                o > 0,
        ;
        assert(-(2 as real * (e as real / oo)) <= d as real / oo <= 2 as real * (e as real / oo))
            by (nonlinear_arith)
            requires
                -(2 * e) <= d <= 2 * e,
                oo > 0 as real,
        ;
    }
}

} // verus!
