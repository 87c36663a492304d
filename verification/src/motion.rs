//! What a prediction does to a particle, in exact numbers.
//!
//! The motion model moves a particle by the odometry in its own frame and adds
//! noise to the result. These laws say so without its formulas: what is seen of
//! the new pose from the old one is the odometry.

use vstd::arithmetic::power2::{lemma2_to64, lemma_pow2_pos};
use vstd::prelude::*;
use crate::accuracy::{exact, law_negation_exact, law_product_error, law_root_error_to, law_sum_error, limit, slack, within};
use crate::arith::{absolute, lemma_absolute, zero};
use crate::conversion::{law_angle_within_turn, wrapped_angle, PI_BITS};
use crate::mcl::{around, noise_width, noisy, predicted, travelled, widths_of, LocalizerView, MclConfig, LEAST_BITS};
use crate::follower::length;
use crate::function::heading_of;
use crate::pose::{lemma_binades, lemma_local, lemma_local_yaw, lemma_offset, lemma_turned_product, local_pose, Heading, Pose2};
use crate::rounding::law_nearest_exists;
use crate::sampling::lemma_limits_multiply;
use crate::single::{magnitude_value, Single};
use crate::turning::{law_wrapping_is_same_angle, lemma_negated, lemma_same_angle, lemma_same_angle_chain, lemma_same_angle_shifted, lemma_square, lemma_turn_numbers, lemma_turned_back, on_circle, product, same_angle, squared};

verus! {

/// A predicted coordinate in reals.
proof fn lemma_predicted(x: Single, p: Single, a: Single, q: Single, b: Single, e: Single, k: nat)
    requires
        x.finite() && p.finite() && a.finite() && q.finite() && b.finite() && e.finite(),
        -(1 as real) <= exact(p) <= 1 as real,
        -(1 as real) <= exact(q) <= 1 as real,
        -limit(k) <= exact(x) <= limit(k),
        -limit(k) <= exact(a) <= limit(k),
        -limit(k) <= exact(b) <= limit(k),
        -limit(k) <= exact(e) <= limit(k),
        k <= 80,
    ensures
        ({
            let (pa, qb) = (product(exact(p), exact(a)), product(exact(q), exact(b)));
            let plus = x.plus(p.times(a).plus(q.times(b)).plus(e));
            let minus = x.plus(p.times(a).minus(q.times(b)).plus(e));
            &&& plus.finite() && minus.finite()
            &&& within(exact(plus), exact(x) + pa + qb + exact(e), 18 as real * slack(k))
            &&& within(exact(minus), exact(x) + pa - qb + exact(e), 18 as real * slack(k))
            &&& -limit(k) <= pa <= limit(k)
            &&& -limit(k) <= qb <= limit(k)
        }),
{
    lemma_binades(k);
    lemma_turned_product(p, a, k);
    lemma_turned_product(q, b, k);
    let (u, v) = (p.times(a), q.times(b));
    law_negation_exact(v);
    law_sum_error(u, v, k + 2);
    law_sum_error(u, v.negated(), k + 2);
    law_sum_error(u.plus(v), e, k + 2);
    law_sum_error(u.minus(v), e, k + 2);
    law_sum_error(x, u.plus(v).plus(e), k + 3);
    law_sum_error(x, u.minus(v).plus(e), k + 3);
}

/// Nothing is added to a pose.
pub open spec fn no_noise() -> Pose2 {
    (zero(), zero(), zero())
}

/// A predicted yaw is turned by the odometry and the noise, whichever way they
/// turn, up to whole turns and rounding.
proof fn lemma_predicted_yaw(yaw: Single, dyaw: Single, e: Single)
    requires
        yaw.finite() && dyaw.finite() && e.finite(),
        -(17 as real) <= 5 as real * exact(yaw) <= 17 as real,
        -(2 as real) <= exact(dyaw) <= 2 as real,
        -(1 as real) <= exact(e) <= 1 as real,
    ensures
        wrapped_angle(yaw.plus(dyaw).plus(e)).finite(),
        same_angle(
            exact(wrapped_angle(yaw.plus(dyaw).plus(e))),
            exact(yaw) + exact(dyaw) + exact(e),
            1 as real / 262_144 as real,
        ),
{
    lemma2_to64();
    law_sum_error(yaw, dyaw, 3);
    law_sum_error(yaw.plus(dyaw), e, 3);
    let s = yaw.plus(dyaw).plus(e);
    law_wrapping_is_same_angle(s);
    let (x, y, z) = (exact(wrapped_angle(s)), exact(s), exact(yaw) + exact(dyaw) + exact(e));
    lemma_same_angle(y, z, 16 as real / 33_554_432 as real);
    lemma_same_angle_chain(x, y, z, 1 as real / 524_288 as real, 16 as real / 33_554_432 as real);
    let d = 1 as real / 524_288 as real + 16 as real / 33_554_432 as real;
    lemma_same_angle_shifted(x, z, d, 0 as real, 1 as real / 262_144 as real);
    assert(x + 0 as real == x && z + 0 as real == z);
}

/// A sum of angles is finite.
proof fn lemma_turned_finite(yaw: Single, dyaw: Single, e: Single)
    requires
        yaw.finite() && dyaw.finite() && e.finite(),
        -(17 as real) <= 5 as real * exact(yaw) <= 17 as real,
        -(2 as real) <= exact(dyaw) <= 2 as real,
        -(1 as real) <= exact(e) <= 1 as real,
    ensures
        yaw.plus(dyaw).plus(e).finite(),
{
    lemma2_to64();
    law_sum_error(yaw, dyaw, 3);
    law_sum_error(yaw.plus(dyaw), e, 3);
}

/// Without noise a particle moves as the odometry says: seen from where it was,
/// the predicted pose is the body-frame motion, of either sign in each
/// coordinate. Motions and positions of at most `2^k` come out within
/// `2^k / 65536`, the turn up to whole turns and 2^-16.
pub proof fn law_prediction_follows_odometry(
    p: Pose2,
    h: Heading,
    dx: Single,
    dy: Single,
    dyaw: Single,
    k: nat,
)
    requires
        on_circle(h),
        p.0.finite() && p.1.finite() && p.2.finite(),
        dx.finite() && dy.finite() && dyaw.finite(),
        k <= 80,
        -limit(k) <= exact(p.0) <= limit(k),
        -limit(k) <= exact(p.1) <= limit(k),
        -limit(k) <= exact(dx) <= limit(k),
        -limit(k) <= exact(dy) <= limit(k),
        (Single { bits: PI_BITS }).negated().at_most(p.2),
        p.2.below(Single { bits: PI_BITS }),
        -(2 as real) <= exact(dyaw) <= 2 as real,
    ensures
        ({
            let q = predicted(p, h, dx, dy, dyaw, no_noise());
            let seen = local_pose(p, h, q);
            &&& within(exact(seen.0), exact(dx), limit(k) / 65_536 as real)
            &&& within(exact(seen.1), exact(dy), limit(k) / 65_536 as real)
            &&& same_angle(exact(q.2), exact(p.2) + exact(dyaw), 1 as real / 262_144 as real)
            &&& same_angle(exact(seen.2), exact(dyaw), 1 as real / 65_536 as real)
        }),
{
    let q = predicted(p, h, dx, dy, dyaw, no_noise());
    let seen = local_pose(p, h, q);
    let (c, s) = (exact(h.cos), exact(h.sin));
    lemma_zero_exact();
    lemma_binades(k);
    lemma_binades(k + 2);
    lemma_predicted(p.0, h.cos, dx, h.sin, dy, zero(), k);
    lemma_predicted(p.1, h.sin, dx, h.cos, dy, zero(), k);
    // the offset, as it is seen from where the particle was
    let ox = q.0.minus(p.0);
    let oy = q.1.minus(p.1);
    lemma_offset(p.0, q.0, k + 2);
    lemma_offset(p.1, q.1, k + 2);
    law_negation_exact(h.sin);
    lemma_local(h.cos, ox, h.sin, oy, k + 2);
    lemma_local(h.sin.negated(), ox, h.cos, oy, k + 2);
    lemma_negated(s, exact(ox));
    lemma_negated(s, exact(oy));
    lemma_negated(s, exact(dx));
    lemma_negated(s, exact(dy));
    lemma_square(s);
    let t = 2 as real * slack(k);
    lemma_turned_back(c, -s, exact(dx), exact(dy), exact(ox), exact(oy), t);
    // the turn
    lemma_yaw_bound(p.2);
    lemma_predicted_yaw(p.2, dyaw, zero());
    lemma_turned_finite(p.2, dyaw, zero());
    law_angle_within_turn(p.2.plus(dyaw).plus(zero()));
    lemma_yaw_bound(q.2);
    lemma_yaw_seen(p.2, q.2, exact(dyaw));
}

/// Zero is zero.
pub proof fn lemma_zero_exact()
    ensures
        exact(zero()) == 0 as real,
        zero().finite(),
{
    assert(magnitude_value(0) == 0);
    lemma_pow2_pos(149);
    let o = crate::arith::one() as real;
    assert(0 as real / o == 0 as real) by (nonlinear_arith)
        requires
            o > 0 as real,
    ;
}

/// An angle within one turn, as a real.
pub proof fn lemma_yaw_bound(a: Single)
    requires
        a.finite(),
        (Single { bits: PI_BITS }).negated().at_most(a),
        a.below(Single { bits: PI_BITS }),
    ensures
        -(17 as real) <= 5 as real * exact(a) <= 17 as real,
{
    let pi = Single { bits: PI_BITS };
    lemma_turn_numbers();
    crate::single::law_negation(pi);
    lemma_pow2_pos(149);
    let (x, y, o) = (a.value() as real, pi.value() as real, crate::arith::one() as real);
    assert(-(y / o) <= x / o <= y / o) by (nonlinear_arith)
        requires
            -y <= x <= y,
            o > 0 as real,
    ;
}

/// A yaw seen from another one.
proof fn lemma_yaw_seen(a: Single, b: Single, d: real)
    requires
        a.finite() && b.finite(),
        -(17 as real) <= 5 as real * exact(a) <= 17 as real,
        -(17 as real) <= 5 as real * exact(b) <= 17 as real,
        same_angle(exact(b), exact(a) + d, 1 as real / 262_144 as real),
    ensures
        same_angle(exact(wrapped_angle(b.minus(a))), d, 1 as real / 65_536 as real),
{
    let e = 1 as real / 262_144 as real;
    let w = exact(wrapped_angle(b.minus(a)));
    lemma_local_yaw(a, b);
    lemma_same_angle_chain(exact(a) + w, exact(b), exact(a) + d, e, e);
    lemma_same_angle_shifted(exact(a) + w, exact(a) + d, e + e, -exact(a), 1 as real / 65_536 as real);
    assert((exact(a) + w) + -exact(a) == w);
    assert((exact(a) + d) + -exact(a) == d);
}

/// Noise is added to a prediction as it is, of either sign in each coordinate:
/// the predicted pose is off the one without noise by the noise, up to rounding.
pub proof fn law_noise_is_added(
    p: Pose2,
    h: Heading,
    dx: Single,
    dy: Single,
    dyaw: Single,
    noise: Pose2,
    k: nat,
)
    requires
        on_circle(h),
        p.0.finite() && p.1.finite() && p.2.finite(),
        dx.finite() && dy.finite() && dyaw.finite(),
        noise.0.finite() && noise.1.finite() && noise.2.finite(),
        k <= 80,
        -limit(k) <= exact(p.0) <= limit(k),
        -limit(k) <= exact(p.1) <= limit(k),
        -limit(k) <= exact(dx) <= limit(k),
        -limit(k) <= exact(dy) <= limit(k),
        -limit(k) <= exact(noise.0) <= limit(k),
        -limit(k) <= exact(noise.1) <= limit(k),
        -(17 as real) <= 5 as real * exact(p.2) <= 17 as real,
        -(2 as real) <= exact(dyaw) <= 2 as real,
        -(1 as real) <= exact(noise.2) <= 1 as real,
    ensures
        ({
            let q = predicted(p, h, dx, dy, dyaw, noise);
            let plain = predicted(p, h, dx, dy, dyaw, no_noise());
            let e = 36 as real * slack(k);
            &&& within(exact(q.0), exact(plain.0) + exact(noise.0), e)
            &&& within(exact(q.1), exact(plain.1) + exact(noise.1), e)
            &&& same_angle(
                exact(q.2),
                exact(p.2) + exact(dyaw) + exact(noise.2),
                1 as real / 262_144 as real,
            )
        }),
{
    lemma_zero_exact();
    lemma_binades(k);
    lemma_predicted(p.0, h.cos, dx, h.sin, dy, noise.0, k);
    lemma_predicted(p.1, h.sin, dx, h.cos, dy, noise.1, k);
    lemma_predicted(p.0, h.cos, dx, h.sin, dy, zero(), k);
    lemma_predicted(p.1, h.sin, dx, h.cos, dy, zero(), k);
    lemma_predicted_yaw(p.2, dyaw, noise.2);
}

/// A noisy seed is off its seed by the noise, in each coordinate by its own.
pub proof fn law_noisy_seed(s: Pose2, noise: Pose2, k: nat)
    requires
        s.0.finite() && s.1.finite() && s.2.finite(),
        noise.0.finite() && noise.1.finite() && noise.2.finite(),
        k <= 80,
        -limit(k) <= exact(s.0) + exact(noise.0) <= limit(k),
        -limit(k) <= exact(s.1) + exact(noise.1) <= limit(k),
        -(6 as real) <= exact(s.2) + exact(noise.2) <= 6 as real,
    ensures
        ({
            let q = noisy(s, noise);
            &&& within(exact(q.0), exact(s.0) + exact(noise.0), slack(k))
            &&& within(exact(q.1), exact(s.1) + exact(noise.1), slack(k))
            &&& same_angle(exact(q.2), exact(s.2) + exact(noise.2), 1 as real / 262_144 as real)
        }),
{
    law_sum_error(s.0, noise.0, k);
    law_sum_error(s.1, noise.1, k);
    lemma2_to64();
    law_sum_error(s.2, noise.2, 3);
    let t = s.2.plus(noise.2);
    law_wrapping_is_same_angle(t);
    let (x, y, z) = (exact(wrapped_angle(t)), exact(t), exact(s.2) + exact(noise.2));
    lemma_same_angle(y, z, 8 as real / 33_554_432 as real);
    lemma_same_angle_chain(x, y, z, 1 as real / 524_288 as real, 8 as real / 33_554_432 as real);
    let d = 1 as real / 524_288 as real + 8 as real / 33_554_432 as real;
    lemma_same_angle_shifted(x, z, d, 0 as real, 1 as real / 262_144 as real);
    assert(x + 0 as real == x && z + 0 as real == z);
}

/// The length of a translation: its square is the sum of the squares of the
/// sides, up to rounding.
pub proof fn law_travelled(dx: Single, dy: Single, k: nat)
    requires
        dx.finite() && dy.finite(),
        -limit(k) <= exact(dx) <= limit(k),
        -limit(k) <= exact(dy) <= limit(k),
        k <= 30,
    ensures
        travelled(dx, dy).finite(),
        0 as real <= exact(travelled(dx, dy)) <= limit(k + 1),
        within(
            squared(exact(travelled(dx, dy))),
            squared(exact(dx)) + squared(exact(dy)),
            32 as real * slack(2 * k),
        ),
{
    let n = (2 * k) as nat;
    let (x, y) = (exact(dx), exact(dy));
    lemma_binades(n);
    lemma_binades(k);
    lemma_limits_multiply(k, k);
    assert(k + k == n);
    assert(0 as real <= x * x <= limit(n) && 0 as real <= y * y <= limit(n)) by (nonlinear_arith)
        requires
            -limit(k) <= x <= limit(k),
            -limit(k) <= y <= limit(k),
            limit(n) == limit(k) * limit(k),
    ;
    assert(squared(x) == x * x && squared(y) == y * y) by {
        reveal(product);
    }
    law_product_error(dx, dx, n);
    law_product_error(dy, dy, n);
    let (a, b) = (dx.times(dx), dy.times(dy));
    lemma_square_sign(dx);
    lemma_square_sign(dy);
    law_sum_error(a, b, n + 2);
    let s = a.plus(b);
    lemma_sum_sign(a, b);
    assert(2 * (k + 1) == n + 2);
    law_root_error_to(s, k + 1);
    let r = exact(s.root());
    assert(squared(r) == r * r) by {
        reveal(product);
    }
}

/// A square is not below zero.
pub proof fn lemma_square_sign(a: Single)
    requires
        a.finite(),
        a.times(a).finite(),
    ensures
        exact(a.times(a)) >= 0 as real,
{
    reveal(Single::times);
    lemma_absolute(a.times(a));
    lemma_pow2_pos(149);
    let n = absolute(a.value()) * absolute(a.value());
    assert(n >= 0) by (nonlinear_arith)
        requires
            n == absolute(a.value()) * absolute(a.value()),
    ;
    law_nearest_exists(n, crate::arith::one());
    assert(magnitude_value(0) == 0);
    let (v, o) = (a.times(a).value() as real, crate::arith::one() as real);
    crate::rounding::lemma_magnitudes_ordered(0, a.times(a).magnitude());
    assert(v >= 0 as real);
    assert(v / o >= 0 as real) by (nonlinear_arith)
        requires
            v >= 0 as real,
            o > 0 as real,
    ;
}

/// A sum of two such numbers is not below zero.
pub proof fn lemma_sum_sign(a: Single, b: Single)
    requires
        a.finite() && b.finite(),
        exact(a) >= 0 as real,
        exact(b) >= 0 as real,
        a.plus(b).finite(),
    ensures
        exact(a.plus(b)) >= 0 as real,
{
    reveal(Single::plus);
    lemma_pow2_pos(149);
    let o = crate::arith::one() as real;
    let (x, y) = (a.value() as real, b.value() as real);
    assert(x >= 0 as real && y >= 0 as real) by (nonlinear_arith)
        requires
            x / o >= 0 as real,
            y / o >= 0 as real,
            o > 0 as real,
    ;
    lemma_absolute(a.plus(b));
    law_nearest_exists(absolute(a.value() + b.value()), 1);
    assert(magnitude_value(0) == 0);
    crate::rounding::lemma_magnitudes_ordered(0, a.plus(b).magnitude());
    let v = a.plus(b).value() as real;
    assert(v / o >= 0 as real) by (nonlinear_arith)
        requires
            v >= 0 as real,
            o > 0 as real,
    ;
}

/// The larger of two numbers.
pub open spec fn most(x: real, y: real) -> real {
    if x < y {
        y
    } else {
        x
    }
}

pub proof fn lemma_larger(a: Single, b: Single)
    requires
        a.finite() && b.finite(),
    ensures
        a.larger(b).finite(),
        exact(a.larger(b)) == most(exact(a), exact(b)),
{
    lemma_pow2_pos(149);
    let (x, y, o) = (a.value() as real, b.value() as real, crate::arith::one() as real);
    assert((x < y <==> x / o < y / o) && (x == y ==> x / o == y / o)) by (nonlinear_arith)
        requires
            o > 0 as real,
    ;
    assert(y < x <==> y / o < x / o) by (nonlinear_arith)
        requires
            o > 0 as real,
    ;
}

/// One width of noise.
proof fn lemma_width(a: Single, b: Single, base: Single, trans: Single, rot: Single, k: nat)
    requires
        a.finite() && b.finite() && base.finite() && trans.finite() && rot.finite(),
        -(1 as real) <= exact(a) <= 1 as real,
        -(1 as real) <= exact(b) <= 1 as real,
        -(1 as real) <= exact(base) <= 1 as real,
        -limit(k) <= exact(trans) <= limit(k),
        -limit(k) <= exact(rot) <= limit(k),
        k <= 80,
    ensures
        noise_width(a, b, base, trans, rot).finite(),
        within(
            exact(noise_width(a, b, base, trans, rot)),
            most(
                product(exact(a), exact(trans)) + product(exact(b), exact(rot)) + exact(base),
                exact(Single { bits: LEAST_BITS }),
            ),
            16 as real * slack(k),
        ),
{
    lemma_binades(k);
    lemma_pow2_pos(k);
    lemma_turned_product(a, trans, k);
    lemma_turned_product(b, rot, k);
    let (u, v) = (a.times(trans), b.times(rot));
    law_sum_error(u, v, k + 2);
    law_sum_error(u.plus(v), base, k + 2);
    lemma_larger(u.plus(v).plus(base), Single { bits: LEAST_BITS });
}

/// The widths of the noise: so much per metre travelled, so much per radian
/// turned, and a base, each taken from the settings for position or for yaw;
/// never below the least width.
pub proof fn law_noise_widths(c: MclConfig, dx: Single, dy: Single, dyaw: Single, k: nat)
    requires
        dx.finite() && dy.finite() && dyaw.finite(),
        -limit(k) <= exact(dx) <= limit(k),
        -limit(k) <= exact(dy) <= limit(k),
        -limit(k) <= exact(dyaw) <= limit(k),
        k <= 30,
        c.sigma_xy_per_m.finite() && 0 as real <= exact(c.sigma_xy_per_m) <= 1 as real,
        c.sigma_xy_per_rad.finite() && 0 as real <= exact(c.sigma_xy_per_rad) <= 1 as real,
        c.jitter_xy_m.finite() && 0 as real <= exact(c.jitter_xy_m) <= 1 as real,
        c.sigma_yaw_per_m.finite() && 0 as real <= exact(c.sigma_yaw_per_m) <= 1 as real,
        c.sigma_yaw_per_rad.finite() && 0 as real <= exact(c.sigma_yaw_per_rad) <= 1 as real,
        c.jitter_yaw_rad.finite() && 0 as real <= exact(c.jitter_yaw_rad) <= 1 as real,
    ensures
        ({
            let r = widths_of(c, dx, dy, dyaw);
            let trans = exact(travelled(dx, dy));
            let rot = if exact(dyaw) < 0 as real {
                -exact(dyaw)
            } else {
                exact(dyaw)
            };
            let least = exact(Single { bits: LEAST_BITS });
            let e = 32 as real * slack(k);
            &&& within(
                exact(r.0),
                most(
                    product(exact(c.sigma_xy_per_m), trans) + product(
                        exact(c.sigma_xy_per_rad),
                        rot,
                    ) + exact(c.jitter_xy_m),
                    least,
                ),
                e,
            )
            &&& within(
                exact(r.1),
                most(
                    product(exact(c.sigma_yaw_per_m), trans) + product(
                        exact(c.sigma_yaw_per_rad),
                        rot,
                    ) + exact(c.jitter_yaw_rad),
                    least,
                ),
                e,
            )
            &&& within(
                squared(trans),
                squared(exact(dx)) + squared(exact(dy)),
                32 as real * slack(2 * k),
            )
        }),
{
    let (trans, rot) = (travelled(dx, dy), dyaw.unsigned());
    law_travelled(dx, dy, k);
    lemma_binades(k);
    lemma_unsigned(dyaw);
    lemma_width(c.sigma_xy_per_m, c.sigma_xy_per_rad, c.jitter_xy_m, trans, rot, k + 1);
    lemma_width(c.sigma_yaw_per_m, c.sigma_yaw_per_rad, c.jitter_yaw_rad, trans, rot, k + 1);
}

/// The number without its sign.
pub proof fn lemma_unsigned(a: Single)
    requires
        a.finite(),
    ensures
        a.unsigned().finite(),
        exact(a.unsigned()) == (if exact(a) < 0 as real {
            -exact(a)
        } else {
            exact(a)
        }),
{
    law_negation_exact(a);
    lemma_absolute(a);
    lemma_absolute(a.unsigned());
    lemma_pow2_pos(149);
    assert(magnitude_value(0) == 0);
    crate::rounding::lemma_magnitudes_ordered(0, a.magnitude());
    let (x, o) = (a.value() as real, crate::arith::one() as real);
    assert((x < 0 as real <==> x / o < 0 as real) && (x == 0 as real <==> x / o == 0 as real))
        by (nonlinear_arith)
        requires
            o > 0 as real,
    ;
    assert((-x) / o == -(x / o)) by (nonlinear_arith)
        requires
            o > 0 as real,
    ;
}

/// A motion counts toward the next lock frame by its length and by how far it
/// turned, whichever way it turned; nothing else but the particles changes.
pub proof fn law_motion_counts<T: Fn(Single) -> Heading>(
    v: LocalizerView,
    trig: T,
    dx: Single,
    dy: Single,
    dyaw: Single,
    noise: Seq<Pose2>,
    k: nat,
)
    requires
        dx.finite() && dy.finite() && dyaw.finite(),
        v.motion.finite() && v.rotation.finite(),
        -limit(k) <= exact(dx) <= limit(k),
        -limit(k) <= exact(dy) <= limit(k),
        -limit(k) <= exact(dyaw) <= limit(k),
        0 as real <= exact(v.motion) <= limit(k),
        0 as real <= exact(v.rotation) <= limit(k),
        k <= 30,
    ensures
        ({
            let w = v.after_motion(trig, dx, dy, dyaw, noise);
            let turned = if exact(dyaw) < 0 as real {
                -exact(dyaw)
            } else {
                exact(dyaw)
            };
            let way = exact(w.motion) - exact(v.motion);
            &&& within(exact(w.rotation), exact(v.rotation) + turned, 4 as real * slack(k))
            &&& within(way, exact(travelled(dx, dy)), 4 as real * slack(k))
            &&& within(
                squared(exact(travelled(dx, dy))),
                squared(exact(dx)) + squared(exact(dy)),
                32 as real * slack(2 * k),
            )
            &&& w.particles.len() == v.particles.len()
            &&& w.weights == v.weights
            &&& w.streak == v.streak
            &&& w.updates == v.updates
            &&& w.residual == v.residual
        }),
{
    lemma_binades(k);
    law_travelled(dx, dy, k);
    lemma_unsigned(dyaw);
    law_sum_error(v.motion, travelled(dx, dy), k + 2);
    law_sum_error(v.rotation, dyaw.unsigned(), k + 2);
}

/// Every particle moves in its own frame: without noise, what is seen of its new
/// pose from its old one is the odometry, whatever its yaw.
pub proof fn law_every_particle_moves<T: Fn(Single) -> Heading>(
    v: LocalizerView,
    trig: T,
    dx: Single,
    dy: Single,
    dyaw: Single,
    noise: Seq<Pose2>,
    i: int,
    k: nat,
)
    requires
        0 <= i < v.particles.len(),
        noise[i] == no_noise(),
        on_circle(heading_of(trig, v.particles[i].2)),
        v.particles[i].0.finite() && v.particles[i].1.finite() && v.particles[i].2.finite(),
        dx.finite() && dy.finite() && dyaw.finite(),
        k <= 80,
        -limit(k) <= exact(v.particles[i].0) <= limit(k),
        -limit(k) <= exact(v.particles[i].1) <= limit(k),
        -limit(k) <= exact(dx) <= limit(k),
        -limit(k) <= exact(dy) <= limit(k),
        (Single { bits: PI_BITS }).negated().at_most(v.particles[i].2),
        v.particles[i].2.below(Single { bits: PI_BITS }),
        -(2 as real) <= exact(dyaw) <= 2 as real,
    ensures
        ({
            let p = v.particles[i];
            let q = v.after_motion(trig, dx, dy, dyaw, noise).particles[i];
            let seen = local_pose(p, heading_of(trig, p.2), q);
            &&& within(exact(seen.0), exact(dx), limit(k) / 65_536 as real)
            &&& within(exact(seen.1), exact(dy), limit(k) / 65_536 as real)
            &&& same_angle(exact(seen.2), exact(dyaw), 1 as real / 65_536 as real)
        }),
{
    let p = v.particles[i];
    law_prediction_follows_odometry(p, heading_of(trig, p.2), dx, dy, dyaw, k);
}

/// The distance left to a waypoint: its square is the sum of the squares of the
/// sides, up to rounding.
pub proof fn law_distance_left(d: (Single, Single), k: nat)
    requires
        d.0.finite() && d.1.finite(),
        -limit(k) <= exact(d.0) <= limit(k),
        -limit(k) <= exact(d.1) <= limit(k),
        k <= 30,
    ensures
        length(d).finite(),
        0 as real <= exact(length(d)),
        within(
            squared(exact(length(d))),
            squared(exact(d.0)) + squared(exact(d.1)),
            32 as real * slack(2 * k),
        ),
{
    law_travelled(d.0, d.1, k);
    assert(length(d) == travelled(d.0, d.1));
}

/// Seeded particles are dealt to the seeds in turn: particle `i` stands at seed
/// `i` of them, counted round and round, off by its own noise.
pub proof fn law_seeds_in_turn(seeds: Seq<Pose2>, noise: Seq<Pose2>, i: int, j: int, k: nat)
    requires
        seeds.len() > 0,
        0 <= i < noise.len(),
        0 <= j < seeds.len(),
        (i - j) % (seeds.len() as int) == 0,
        seeds[j].0.finite() && seeds[j].1.finite() && seeds[j].2.finite(),
        noise[i].0.finite() && noise[i].1.finite() && noise[i].2.finite(),
        k <= 80,
        -limit(k) <= exact(seeds[j].0) + exact(noise[i].0) <= limit(k),
        -limit(k) <= exact(seeds[j].1) + exact(noise[i].1) <= limit(k),
        -(6 as real) <= exact(seeds[j].2) + exact(noise[i].2) <= 6 as real,
    ensures
        ({
            let q = around(seeds, noise)[i];
            &&& around(seeds, noise).len() == noise.len()
            &&& within(exact(q.0), exact(seeds[j].0) + exact(noise[i].0), slack(k))
            &&& within(exact(q.1), exact(seeds[j].1) + exact(noise[i].1), slack(k))
            &&& same_angle(
                exact(q.2),
                exact(seeds[j].2) + exact(noise[i].2),
                1 as real / 262_144 as real,
            )
        }),
{
    let m = seeds.len() as int;
    law_noisy_seed(seeds[j], noise[i], k);
    vstd::arithmetic::div_mod::lemma_small_mod(j as nat, m as nat);
    vstd::arithmetic::div_mod::lemma_mod_equivalence(i, j, m);
    assert(i % m == j);
}

} // verus!
