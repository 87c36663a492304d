//! Turning in the plane, in exact numbers.
//!
//! A cosine and a sine that are accurate turn vectors without changing their
//! lengths, and turning by them can be undone, up to rounding.

use vstd::arithmetic::power2::{lemma2_to64, lemma_pow2_adds, lemma_pow2_pos, pow2};
use vstd::prelude::*;
use crate::accuracy::{exact, law_negation_exact, law_sum_error, lemma_nearest_error, lemma_slack, slack, within};
use crate::arith::{absolute, lemma_absolute, one, signed};
use crate::conversion::{wrapped_angle, PI_BITS, TWO_PI_BITS};
use crate::pose::Heading;
use crate::rounding::nearest;
use crate::single::{magnitude_value, Single};

verus! {

/// `x * y`.
#[verifier::opaque]
pub open spec fn product(x: real, y: real) -> real {
    x * y
}

/// `x * x`.
pub open spec fn squared(x: real) -> real {
    product(x, x)
}

/// A cosine and a sine of one angle, up to rounding: a point of the unit
/// circle, off by less than a millionth.
pub open spec fn on_circle(h: Heading) -> bool {
    &&& h.cos.finite()
    &&& h.sin.finite()
    &&& -(1 as real) <= exact(h.cos) <= 1 as real
    &&& -(1 as real) <= exact(h.sin) <= 1 as real
    &&& within(
        squared(exact(h.cos)) + squared(exact(h.sin)),
        1 as real,
        1 as real / 1_048_576 as real,
    )
}

/// `x` and `y` are the same angle, up to whole turns and `d`.
pub open spec fn same_angle(x: real, y: real, d: real) -> bool {
    exists|n: int| #[trigger] turned_back(x, n, y, d)
}

/// `x` and `y` are `n` turns apart, up to `d`.
pub open spec fn turned_back(x: real, n: int, y: real, d: real) -> bool {
    within(x, y + n as real * exact(Single { bits: TWO_PI_BITS }), d)
}

// ---- Products of reals ------------------------------------------------------

pub proof fn lemma_sign(u: real, v: real)
    requires
        0 as real <= u,
        0 as real <= v,
    ensures
        0 as real <= product(u, v),
{
    reveal(product);
    assert(0 as real <= u * v) by (nonlinear_arith)
        requires
            0 as real <= u,
            0 as real <= v,
    ;
}

pub proof fn lemma_commutes(x: real, y: real)
    ensures
        product(x, y) == product(y, x),
{
    reveal(product);
    assert(x * y == y * x) by (nonlinear_arith);
}

pub proof fn lemma_associates(x: real, y: real, z: real)
    ensures
        product(product(x, y), z) == product(x, product(y, z)),
{
    reveal(product);
    assert((x * y) * z == x * (y * z)) by (nonlinear_arith);
}

pub proof fn lemma_distributes(x: real, y: real, z: real)
    ensures
        product(x, y + z) == product(x, y) + product(x, z),
        product(y + z, x) == product(y, x) + product(z, x),
{
    reveal(product);
    assert(x * (y + z) == x * y + x * z && (y + z) * x == y * x + z * x) by (nonlinear_arith);
}

pub proof fn lemma_negated(x: real, y: real)
    ensures
        product(x, -y) == -product(x, y),
        product(-x, y) == -product(x, y),
{
    reveal(product);
    assert(x * (-y) == -(x * y) && (-x) * y == -(x * y)) by (nonlinear_arith);
}

/// Factors that are plain numbers.
pub proof fn lemma_plain(x: real)
    ensures
        product(1 as real, x) == x,
        product(6 as real, x) == 6 as real * x,
        product(1_048_576 as real, x) == 1_048_576 as real * x,
        product(5 as real / 4 as real, x) == (5 as real / 4 as real) * x,
        product(1 as real / 2 as real, x) == (1 as real / 2 as real) * x,
        product(0 as real, x) == 0 as real,
{
    reveal(product);
}

pub proof fn lemma_square(x: real)
    ensures
        0 as real <= squared(x),
        squared(-x) == squared(x),
{
    lemma_negated(x, x);
    lemma_negated(-x, x);
    lemma_negated(x, -x);
    if 0 as real <= x {
        lemma_sign(x, x);
    } else {
        lemma_sign(-x, -x);
        lemma_negated(-x, x);
    }
}

/// A factor of at most one does not lengthen.
pub proof fn lemma_shortened(p: real, q: real, m: real)
    requires
        -(1 as real) <= p <= 1 as real,
        -m <= q <= m,
    ensures
        -m <= product(p, q) <= m,
{
    let e = 1 as real;
    lemma_plain(q);
    lemma_negated(p, q);
    lemma_distributes(q, e, -p);
    lemma_distributes(q, e, p);
    // (1 - p) q and (1 + p) q have the sign of q
    if 0 as real <= q {
        lemma_sign(e + -p, q);
        lemma_sign(e + p, q);
    } else {
        lemma_sign(e + -p, -q);
        lemma_sign(e + p, -q);
        lemma_negated(e + -p, q);
        lemma_negated(e + p, q);
    }
}

/// A number with a short square is short.
pub proof fn lemma_root_of_short(a: real)
    requires
        4 as real * squared(a) <= 5 as real,
    ensures
        -(5 as real / 4 as real) <= a <= 5 as real / 4 as real,
{
    let h = 5 as real / 4 as real;
    if a > h {
        lemma_sign(a + -h, a);
        lemma_distributes(a, a, -h);
        lemma_negated(h, a);
        lemma_plain(a);
    }
    if a < -h {
        let b = -a;
        lemma_square(a);
        lemma_sign(b + -h, b);
        lemma_distributes(b, b, -h);
        lemma_negated(h, b);
        lemma_plain(b);
    }
}

/// The sides of a short vector are short.
pub proof fn lemma_side(a: real, b: real)
    requires
        4 as real * (squared(a) + squared(b)) <= 5 as real,
    ensures
        -(5 as real / 4 as real) <= a <= 5 as real / 4 as real,
        -(5 as real / 4 as real) <= b <= 5 as real / 4 as real,
{
    lemma_square(a);
    lemma_square(b);
    lemma_root_of_short(a);
    lemma_root_of_short(b);
}

/// `(x + y) (x - y)`.
pub proof fn lemma_difference_of_squares(x: real, y: real)
    ensures
        product(x + y, x + -y) == squared(x) - squared(y),
{
    lemma_distributes(x + -y, x, y);
    lemma_distributes(x, x, -y);
    lemma_distributes(y, x, -y);
    lemma_negated(x, y);
    lemma_negated(y, y);
    lemma_commutes(x, y);
}

/// The square of a number that is a little off.
pub proof fn lemma_drift(x0: real, x: real)
    requires
        -(5 as real / 2 as real) <= x0 <= 5 as real / 2 as real,
        within(x, x0, 1 as real / 4_194_304 as real),
    ensures
        within(squared(x), squared(x0), 6 as real / 4_194_304 as real),
{
    let e = x + -x0;
    let w = (x + x0) / 6 as real;
    lemma_shortened(w, e, 1 as real / 4_194_304 as real);
    lemma_difference_of_squares(x, x0);
    lemma_associates(6 as real, w, e);
    lemma_plain(w);
    lemma_plain(product(w, e));
}

pub proof fn lemma_square_of_sum(p: real, q: real)
    ensures
        squared(p + q) == squared(p) + 2 as real * product(p, q) + squared(q),
{
    lemma_distributes(p + q, p, q);
    lemma_distributes(p, p, q);
    lemma_distributes(q, p, q);
    lemma_commutes(p, q);
}

/// Four factors in another order.
pub proof fn lemma_pairs(p: real, q: real, r: real, t: real)
    ensures
        product(product(p, q), product(r, t)) == product(product(p, r), product(q, t)),
{
    lemma_associates(p, q, product(r, t));
    lemma_associates(q, r, t);
    lemma_commutes(q, r);
    lemma_associates(r, q, t);
    lemma_associates(p, r, product(q, t));
}

/// The length of a turned vector.
pub proof fn lemma_turn_identity(c: real, s: real, a: real, b: real)
    ensures
        squared(product(c, a) - product(s, b)) + squared(product(s, a) + product(c, b)) == product(
            squared(c) + squared(s),
            squared(a) + squared(b),
        ),
{
    let (ca, sb, sa, cb) = (product(c, a), product(s, b), product(s, a), product(c, b));
    lemma_square_of_sum(ca, -sb);
    lemma_square_of_sum(sa, cb);
    lemma_negated(ca, sb);
    lemma_square(sb);
    lemma_pairs(c, a, s, b);
    lemma_pairs(s, a, c, b);
    lemma_commutes(c, s);
    lemma_pairs(c, a, c, a);
    lemma_pairs(s, b, s, b);
    lemma_pairs(s, a, s, a);
    lemma_pairs(c, b, c, b);
    let (cc, ss, aa, bb) = (squared(c), squared(s), squared(a), squared(b));
    lemma_distributes(aa + bb, cc, ss);
    lemma_distributes(cc, aa, bb);
    lemma_distributes(ss, aa, bb);
    assert(squared(ca - sb) == squared(ca + -sb));
}

// ---- Turning back -----------------------------------------------------------

/// A factor that is one, up to a millionth.
pub proof fn lemma_almost_one(m: real, a: real, t: real)
    requires
        within(m, 1 as real, 1 as real / 1_048_576 as real),
        -(1_048_576 as real * t) <= a <= 1_048_576 as real * t,
    ensures
        within(product(m, a), a, t),
{
    let u = (m - 1 as real) * 1_048_576 as real;
    lemma_shortened(u, a, 1_048_576 as real * t);
    lemma_associates(1_048_576 as real, m - 1 as real, a);
    lemma_plain(m - 1 as real);
    lemma_plain(product(m - 1 as real, a));
    lemma_distributes(a, m, -(1 as real));
    lemma_negated(1 as real, a);
    lemma_plain(a);
}

/// A vector `(a, b)` that was turned one way, with an error of at most `24 t`,
/// and is turned the other way.
pub proof fn lemma_turned_back(c: real, s: real, a: real, b: real, x: real, y: real, t: real)
    requires
        -(1 as real) <= c <= 1 as real,
        -(1 as real) <= s <= 1 as real,
        within(squared(c) + squared(s), 1 as real, 1 as real / 1_048_576 as real),
        -(134_217_728 as real * t) <= a <= 134_217_728 as real * t,
        -(134_217_728 as real * t) <= b <= 134_217_728 as real * t,
        within(x, product(c, a) + product(s, b), 24 as real * t),
        within(y, product(c, b) - product(s, a), 24 as real * t),
    ensures
        within(product(c, x) - product(s, y), a, 176 as real * t),
        within(product(s, x) + product(c, y), b, 176 as real * t),
{
    let (ca, sb, cb, sa) = (product(c, a), product(s, b), product(c, b), product(s, a));
    let (f, g) = (x - (ca + sb), y - (cb + -sa));
    lemma_shortened(c, f, 24 as real * t);
    lemma_shortened(s, f, 24 as real * t);
    lemma_shortened(c, g, 24 as real * t);
    lemma_shortened(s, g, 24 as real * t);
    assert(x == ca + sb + f && y == cb + -sa + g);
    lemma_distributes(c, ca + sb, f);
    lemma_distributes(s, ca + sb, f);
    lemma_distributes(c, cb + -sa, g);
    lemma_distributes(s, cb + -sa, g);
    lemma_distributes(c, ca, sb);
    lemma_distributes(s, ca, sb);
    lemma_distributes(c, cb, -sa);
    lemma_distributes(s, cb, -sa);
    lemma_negated(c, sa);
    lemma_negated(s, sa);
    lemma_associates(c, c, a);
    lemma_associates(s, s, a);
    lemma_associates(c, s, b);
    lemma_associates(s, c, b);
    lemma_associates(c, c, b);
    lemma_associates(s, s, b);
    lemma_associates(s, c, a);
    lemma_associates(c, s, a);
    lemma_commutes(c, s);
    let m = squared(c) + squared(s);
    lemma_distributes(a, squared(c), squared(s));
    lemma_distributes(b, squared(c), squared(s));
    lemma_almost_one(m, a, 128 as real * t);
    lemma_almost_one(m, b, 128 as real * t);
}

// ---- Whole turns ------------------------------------------------------------

/// Pi and a whole turn, as binary32 has them.
pub proof fn lemma_turn_numbers()
    ensures
        exact(Single { bits: PI_BITS }) == 13_176_795 as real / 4_194_304 as real,
        exact(Single { bits: TWO_PI_BITS }) == 13_176_795 as real / 2_097_152 as real,
        (Single { bits: TWO_PI_BITS }).value() == 13_176_795 * pow2(128),
        one() == 2_097_152 * pow2(128),
        pow2(128) > 0,
{
    let (a, b) = (PI_BITS as int, TWO_PI_BITS as int);
    assert(a / 0x80_0000 == 128 && a % 0x80_0000 == 0x49_0fdb);
    assert(b / 0x80_0000 == 129 && b % 0x80_0000 == 0x49_0fdb);
    assert(magnitude_value(a) == 0xc9_0fdb * pow2(127));
    assert(magnitude_value(b) == 0xc9_0fdb * pow2(128));
    lemma2_to64();
    lemma_pow2_adds(21, 128);
    lemma_pow2_adds(22, 127);
    lemma_pow2_pos(127);
    lemma_pow2_pos(128);
    let (p, q, o) = (pow2(127) as int, pow2(128) as int, one());
    assert((0xc9_0fdb * p) as real / o as real == 13_176_795 as real / 4_194_304 as real)
        by (nonlinear_arith)
        requires
            o == 4_194_304 * p,
            p > 0,
    ;
    assert((0xc9_0fdb * q) as real / o as real == 13_176_795 as real / 2_097_152 as real)
        by (nonlinear_arith)
        requires
            o == 2_097_152 * q,
            q > 0,
    ;
}

/// A few whole turns.
pub proof fn lemma_turns(n: int, t: real)
    ensures
        n == 0 ==> n as real * t == 0 as real,
        n == 1 ==> n as real * t == t,
        n == -1 ==> n as real * t == -t,
        n == 2 ==> n as real * t == t + t,
        n == -2 ==> n as real * t == -t - t,
{
    let m = n as real;
    if n == 0 {
        assert(m * t == 0 as real) by (nonlinear_arith)
            requires
                m == 0 as real,
        ;
    } else if n == 1 {
        assert(m * t == t) by (nonlinear_arith)
            requires
                m == 1 as real,
        ;
    } else if n == -1 {
        assert(m * t == -t) by (nonlinear_arith)
            requires
                m == -(1 as real),
        ;
    } else if n == 2 {
        assert(m * t == t + t) by (nonlinear_arith)
            requires
                m == 2 as real,
        ;
    } else if n == -2 {
        assert(m * t == -t - t) by (nonlinear_arith)
            requires
                m == -(2 as real),
        ;
    }
}

/// What is left of less than two turns: at most one is taken off.
pub proof fn lemma_left_over(x: Single) -> (n: int)
    requires
        x.finite(),
        -(11 as real) <= exact(x) <= 11 as real,
    ensures
        -1 <= n <= 1,
        ({
            let turn = Single { bits: TWO_PI_BITS };
            let r = x.left_over(turn);
            &&& r.finite()
            &&& within(exact(r), exact(x) + n as real * exact(turn), slack(3))
            &&& -(7 as real) <= exact(r) <= 7 as real
        }),
{
    let turn = Single { bits: TWO_PI_BITS };
    let r = x.left_over(turn);
    lemma2_to64();
    lemma_turn_numbers();
    lemma_absolute(x);
    lemma_absolute(turn);
    let (q, o) = (pow2(128) as int, one());
    let (v, t) = (absolute(x.value()), turn.value());
    assert(v <= 11 * o) by (nonlinear_arith)
        requires
            -(11 as real) <= x.value() as real / o as real <= 11 as real,
            v == x.value() || v == -x.value(),
            o > 0,
    ;
    assert(v < 2 * t);
    let m = if v < t {
        vstd::arithmetic::div_mod::lemma_small_mod(v as nat, t as nat);
        0
    } else {
        vstd::arithmetic::div_mod::lemma_fundamental_div_mod_converse(v, t, 1, v - t);
        1int
    };
    let left = v - m * t;
    assert(v % t == left);
    lemma_pow2_adds(3, 149);
    lemma_pow2_adds(21, 128);
    lemma_nearest_error(left, 1, 3);
    let w = magnitude_value(nearest(left, 1));
    lemma_slack(w - left, 3);
    assert(r == signed(x.negative(), nearest(left, 1))) by {
        reveal(Single::left_over);
    }
    let n = if x.negative() {
        m
    } else {
        -m
    };
    let (xe, te, e) = (exact(x), exact(turn), (w - left) as real / o as real);
    lemma_turns(n, te);
    assert(m * t == if m == 0 {
        0
    } else {
        t
    });
    // r == x + n t, and the error
    let moved = if n == 0 {
        0
    } else if n == 1 {
        t
    } else {
        -t
    };
    let off = if x.negative() {
        left - w
    } else {
        w - left
    };
    assert(r.value() == x.value() + moved + off);
    lemma_units(x.value() + moved, off);
    lemma_units(x.value(), moved);
    lemma_units(0, t);
    lemma_units(w - left, 0);
    // less than a turn is left
    lemma_units(left, w - left);
    lemma_units_ordered(left, t);
    lemma_units_ordered(0, left);
    lemma_units(w, 0);
    n
}

/// Units as reals.
proof fn lemma_units(a: int, b: int)
    ensures
        (a + b) as real / one() as real == a as real / one() as real + b as real / one() as real,
        (-a) as real / one() as real == -(a as real / one() as real),
        (-b) as real / one() as real == -(b as real / one() as real),
        0int as real / one() as real == 0 as real,
{
    lemma_pow2_pos(149);
    let (x, y, o) = (a as real, b as real, one() as real);
    assert((x + y) / o == x / o + y / o && (-x) / o == -(x / o) && (-y) / o == -(y / o)
        && 0 as real / o == 0 as real) by (nonlinear_arith)
        requires
            o > 0 as real,
    ;
}

proof fn lemma_units_ordered(a: int, b: int)
    requires
        a <= b,
    ensures
        a as real / one() as real <= b as real / one() as real,
{
    lemma_pow2_pos(149);
    let (x, y, o) = (a as real, b as real, one() as real);
    assert(x / o <= y / o) by (nonlinear_arith)
        requires
            x <= y,
            o > 0 as real,
    ;
}

// ---- Laws -------------------------------------------------------------------

/// An angle brought into one turn is the same angle, up to whole turns and
/// 2^-19, if it was not much more than a turn.
pub proof fn law_wrapping_is_same_angle(a: Single)
    requires
        a.finite(),
        -(7 as real) <= exact(a) <= 7 as real,
    ensures
        wrapped_angle(a).finite(),
        same_angle(exact(wrapped_angle(a)), exact(a), 1 as real / 524_288 as real),
{
    let pi = Single { bits: PI_BITS };
    let turn = Single { bits: TWO_PI_BITS };
    let te = exact(turn);
    lemma2_to64();
    lemma_turn_numbers();
    law_negation_exact(pi);
    // half a turn on
    let x = a.plus(pi);
    law_sum_error(a, pi, 4);
    // whole turns off
    let n1 = lemma_left_over(x);
    lemma_turns(n1, te);
    let r = x.left_over(turn);
    let w = x.wrapped(turn);
    assert(turn.unsigned() == turn);
    lemma_below_zero(r);
    let n2 = if r.below(signed(false, 0)) {
        law_sum_error(r, turn, 3);
        1int
    } else {
        0int
    };
    // half a turn back
    let y = w.minus(pi);
    law_sum_error(w, pi.negated(), 3);
    let n3 = if y == pi {
        -1int
    } else {
        0int
    };
    let n = n1 + n2 + n3;
    lemma_turns(n, te);
    assert(turned_back(exact(wrapped_angle(a)), n, exact(a), 1 as real / 524_288 as real));
}

/// Below zero, as reals have it.
proof fn lemma_below_zero(r: Single)
    requires
        r.finite(),
    ensures
        r.below(signed(false, 0)) <==> exact(r) < 0 as real,
{
    assert(magnitude_value(0) == 0);
    assert(signed(false, 0).value() == 0);
    lemma_pow2_pos(149);
    let (v, o) = (r.value() as real, one() as real);
    assert(v < 0 as real <==> v / o < 0 as real) by (nonlinear_arith)
        requires
            o > 0 as real,
    ;
}

/// What is close is the same angle.
pub proof fn lemma_same_angle(x: real, y: real, d: real)
    requires
        within(x, y, d),
    ensures
        same_angle(x, y, d),
{
    lemma_turns(0, exact(Single { bits: TWO_PI_BITS }));
    assert(turned_back(x, 0, y, d));
}

/// What is shifted alike stays the same angle.
pub proof fn lemma_same_angle_shifted(x: real, y: real, d: real, c: real, e: real)
    requires
        same_angle(x, y, d),
        d <= e,
    ensures
        same_angle(x + c, y + c, e),
{
    let n = choose|n: int| #[trigger] turned_back(x, n, y, d);
    assert(turned_back(x + c, n, y + c, e));
}

/// The same angle by way of a third one.
pub proof fn lemma_same_angle_chain(x: real, y: real, z: real, d: real, e: real)
    requires
        same_angle(x, y, d),
        same_angle(y, z, e),
    ensures
        same_angle(x, z, d + e),
{
    let turn = exact(Single { bits: TWO_PI_BITS });
    let m = choose|n: int| #[trigger] turned_back(x, n, y, d);
    let n = choose|n: int| #[trigger] turned_back(y, n, z, e);
    assert((m + n) as real * turn == m as real * turn + n as real * turn) by (nonlinear_arith);
    assert(turned_back(x, m + n, z, d + e));
}

} // verus!
