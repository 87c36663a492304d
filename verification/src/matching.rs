//! What a matching step does, in exact numbers.
//!
//! Beams pull along the gradient of the distance at their ends, a prior pulls
//! back to where it stands, a step is taken against the solution, and a matching
//! has converged when its step was small.

use vstd::arithmetic::power2::{lemma2_to64, lemma_pow2_pos};
use vstd::prelude::*;
use crate::accuracy::{exact, law_negation_exact, law_product_error, law_quotient_error, law_root_error, law_sum_error, law_whole_is_exact, limit, slack, within};
use crate::arith::{absolute, law_commutes, law_zero_adds_nothing, lemma_absolute, one, unit, zero};
use crate::beams::Field;
use crate::candidates::lemma_steps;
use crate::conversion::{rounded, wrapped_angle};
use crate::fit::{least, lemma_smaller};
use crate::motion::{lemma_unsigned, lemma_zero_exact};
use crate::pose::{lemma_binades, lemma_turned_product, Heading, Pose2};
use crate::pose_graph::information_of;
use crate::ranging::lemma_below;
use crate::sampling::{cell_is, lemma_inverse, lemma_per_cell};
use crate::scan_matcher::{beam_sums, damped, negligible, no_sums, stepped, used, with_beam, with_prior, Matching, Matrix, ScanMatchConfig, Slope, Sums, Triple};
use crate::rounding::{law_nearest_exists, lemma_magnitudes_ordered};
use crate::single::{magnitude_value, Single};
use crate::weighing::lemma_nothing_rounds;
use crate::turning::{law_wrapping_is_same_angle, lemma_commutes, lemma_distributes, lemma_negated, lemma_plain, lemma_same_angle, lemma_same_angle_chain, lemma_same_angle_shifted, on_circle, product, same_angle, squared};

verus! {

/// A step is taken against the solution of the normal equations, in each
/// coordinate by its own part of it.
pub proof fn law_step_goes_against_solution(pose: Pose2, d: Triple, k: nat)
    requires
        pose.0.finite() && pose.1.finite() && pose.2.finite(),
        d.v0.finite() && d.v1.finite() && d.v2.finite(),
        k <= 90,
        -limit(k) <= exact(pose.0) - exact(d.v0) <= limit(k),
        -limit(k) <= exact(pose.1) - exact(d.v1) <= limit(k),
        -(6 as real) <= exact(pose.2) - exact(d.v2) <= 6 as real,
    ensures
        ({
            let p = stepped(pose, d);
            &&& within(exact(p.0), exact(pose.0) - exact(d.v0), slack(k))
            &&& within(exact(p.1), exact(pose.1) - exact(d.v1), slack(k))
            &&& same_angle(
                exact(p.2),
                exact(pose.2) - exact(d.v2),
                1 as real / 262_144 as real,
            )
        }),
{
    law_negation_exact(d.v0);
    law_negation_exact(d.v1);
    law_negation_exact(d.v2);
    law_sum_error(pose.0, d.v0.negated(), k);
    law_sum_error(pose.1, d.v1.negated(), k);
    lemma2_to64();
    law_sum_error(pose.2, d.v2.negated(), 3);
    let s = pose.2.plus(d.v2.negated());
    law_wrapping_is_same_angle(s);
    let (x, y, z) = (exact(wrapped_angle(s)), exact(s), exact(pose.2) - exact(d.v2));
    lemma_same_angle(y, z, 8 as real / 33_554_432 as real);
    lemma_same_angle_chain(x, y, z, 1 as real / 524_288 as real, 8 as real / 33_554_432 as real);
    let e = 1 as real / 524_288 as real + 8 as real / 33_554_432 as real;
    lemma_same_angle_shifted(x, z, e, 0 as real, 1 as real / 262_144 as real);
    assert(x + 0 as real == x && z + 0 as real == z);
}

/// `x` is smaller than `e`, of either sign.
pub open spec fn small(x: real, e: real) -> bool {
    -e < x && x < e
}

/// A step counts as converged exactly if it moves less than the translation
/// threshold in x and in y, and turns less than the rotation threshold.
pub proof fn law_converged_step_is_small(d: Triple, cfg: ScanMatchConfig)
    requires
        d.v0.finite() && d.v1.finite() && d.v2.finite(),
        cfg.eps_translation_m.finite() && cfg.eps_rotation_rad.finite(),
    ensures
        negligible(d, cfg) <==> {
            &&& small(exact(d.v0), exact(cfg.eps_translation_m))
            &&& small(exact(d.v1), exact(cfg.eps_translation_m))
            &&& small(exact(d.v2), exact(cfg.eps_rotation_rad))
        },
{
    lemma_small(d.v0, cfg.eps_translation_m);
    lemma_small(d.v1, cfg.eps_translation_m);
    lemma_small(d.v2, cfg.eps_rotation_rad);
}

proof fn lemma_small(a: Single, e: Single)
    requires
        a.finite() && e.finite(),
    ensures
        a.negated().unsigned().below(e) <==> small(exact(a), exact(e)),
{
    law_negation_exact(a);
    lemma_unsigned(a.negated());
    lemma_below(a.negated().unsigned(), e);
}

// ---- Beams ------------------------------------------------------------------

/// The matrix is symmetric.
pub open spec fn symmetric(m: Matrix) -> bool {
    &&& m.a01 == m.a10
    &&& m.a02 == m.a20
    &&& m.a12 == m.a21
}

/// The normal equations of any scan are symmetric.
pub proof fn law_normal_equations_symmetric(
    f: Field,
    pose: Pose2,
    beams: Seq<Heading>,
    ranges: Seq<Single>,
    sigma: Single,
    n: int,
)
    ensures
        symmetric(beam_sums(f, pose, beams, ranges, sigma, n).h),
    decreases n,
{
    if n > 0 {
        law_normal_equations_symmetric(f, pose, beams, ranges, sigma, n - 1);
        let (b, r) = (beams[n - 1], ranges[n - 1]);
        let p = crate::scan_matcher::sampled(
            f,
            crate::pose::beam_end(pose.0, pose.1, b, r),
            sigma,
        );
        let j2 = p.dx.times(r.negated().times(b.sin)).plus(p.dy.times(r.times(b.cos)));
        law_commutes(p.dx, p.dy);
        law_commutes(p.dx, j2);
        law_commutes(p.dy, j2);
    }
}

/// Each usable beam of a scan pulls at the place where it ends: its range from
/// the pose along its heading.
pub proof fn law_beams_are_sampled_at_their_ends(
    f: Field,
    pose: Pose2,
    beams: Seq<Heading>,
    ranges: Seq<Single>,
    sigma: Single,
    n: int,
    k: nat,
) -> (p: (Single, Single))
    requires
        n >= 0,
        ranges[n].usable(),
        on_circle(beams[n]),
        pose.0.finite() && pose.1.finite(),
        -limit(k) <= exact(pose.0) <= limit(k),
        -limit(k) <= exact(pose.1) <= limit(k),
        -limit(k) <= exact(ranges[n]) <= limit(k),
        k <= 90,
    ensures
        ({
            let before = beam_sums(f, pose, beams, ranges, sigma, n);
            let (h, r, e) = (beams[n], exact(ranges[n]), 8 as real * slack(k));
            &&& beam_sums(f, pose, beams, ranges, sigma, n + 1) == with_beam(
                before,
                h,
                ranges[n],
                crate::scan_matcher::sampled(f, p, sigma),
                sigma,
            )
            &&& within(exact(p.0) - exact(pose.0), product(r, exact(h.cos)), e)
            &&& within(exact(p.1) - exact(pose.1), product(r, exact(h.sin)), e)
        }),
{
    crate::ranging::law_beam_end(pose.0, pose.1, beams[n], ranges[n], k);
    crate::pose::beam_end(pose.0, pose.1, beams[n], ranges[n])
}

/// A product with a number that is a little off.
proof fn lemma_off(c: real, x: real, y: real, m: real, e: real)
    requires
        -m <= c <= m,
        m > 0 as real,
        within(x, y, e),
        0 as real <= e,
    ensures
        within(product(c, x), product(c, y), m * e),
{
    lemma_distributes(c, y, x - y);
    reveal(product);
    let d = x - y;
    assert(-(m * e) <= c * d <= m * e) by (nonlinear_arith)
        requires
            -m <= c <= m,
            -e <= d <= e,
            m > 0 as real,
            0 as real <= e,
    ;
}

/// One half of the turning part of a beam.
proof fn lemma_lever(g: Single, r: Single, s: Single, k: nat)
    requires
        g.finite() && r.finite() && s.finite(),
        -(2 as real) <= exact(g) <= 2 as real,
        -limit(k) <= exact(r) <= limit(k),
        -(1 as real) <= exact(s) <= 1 as real,
        k <= 80,
    ensures
        g.times(r.times(s)).finite(),
        within(
            exact(g.times(r.times(s))),
            product(exact(g), product(exact(r), exact(s))),
            6 as real * slack(k),
        ),
        -(2 as real * limit(k)) <= product(exact(g), product(exact(r), exact(s))) <= 2 as real
            * limit(k),
{
    lemma_binades(k);
    law_commutes(r, s);
    lemma_commutes(exact(r), exact(s));
    lemma_turned_product(s, r, k);
    let (a, b, c) = (exact(g), exact(r.times(s)), product(exact(r), exact(s)));
    lemma_off(a, b, c, 2 as real, slack(k));
    lemma_off(c, a, 0 as real, limit(k), 2 as real);
    lemma_commutes(c, a);
    lemma_commutes(c, 0 as real);
    lemma_plain(c);
    assert(product(a, b) == a * b) by {
        reveal(product);
    }
    law_product_error(g, r.times(s), k + 2);
}

/// How much a beam pulls on each coordinate of the pose: its distance from the
/// wall times how that distance changes as the pose moves in x, in y and turns.
/// Turning moves the end of the beam across, to the left of the offset from the
/// pose to the end.
pub proof fn law_beam_pulls_downhill(b: Heading, r: Single, p: Slope, sigma: Single, k: nat)
    requires
        on_circle(b),
        r.finite() && p.d.finite() && p.dx.finite() && p.dy.finite() && sigma.finite(),
        0 as real <= exact(r) <= limit(k),
        -(2 as real) <= exact(p.dx) <= 2 as real,
        -(2 as real) <= exact(p.dy) <= 2 as real,
        0 as real <= exact(p.d) <= exact(sigma),
        exact(sigma) <= 1 as real,
        k <= 70,
    ensures
        ({
            let g = with_beam(no_sums(), b, r, p, sigma).g;
            let (dx, dy, d) = (exact(p.dx), exact(p.dy), exact(p.d));
            let (ex, ey) = (product(exact(r), exact(b.cos)), product(exact(r), exact(b.sin)));
            &&& within(exact(g.v0), product(d, dx), slack(1))
            &&& within(exact(g.v1), product(d, dy), slack(1))
            &&& within(
                exact(g.v2),
                product(d, product(dy, ex) - product(dx, ey)),
                48 as real * slack(k),
            )
        }),
{
    let (x, y) = (exact(p.dx), exact(p.dy));
    let dist = p.d.smaller(sigma);
    lemma_below(sigma, p.d);
    lemma_smaller(p.d, sigma);
    let d = exact(dist);
    assert(d == exact(p.d));
    lemma_binades(k);
    lemma_pow2_pos(k);
    lemma2_to64();
    lemma_pull(p.dx, dist, 1);
    lemma_pull(p.dy, dist, 1);
    // the turning part
    law_negation_exact(r);
    lemma_lever(p.dx, r.negated(), b.sin, k);
    lemma_lever(p.dy, r, b.cos, k);
    let (u, v) = (p.dx.times(r.negated().times(b.sin)), p.dy.times(r.times(b.cos)));
    law_sum_error(u, v, k + 3);
    let j2 = u.plus(v);
    lemma_pull(j2, dist, k + 3);
    lemma_negated(exact(r), exact(b.sin));
    lemma_negated(x, product(exact(r), exact(b.sin)));
    let turn = product(y, product(exact(r), exact(b.cos))) - product(
        x,
        product(exact(r), exact(b.sin)),
    );
    lemma_off(d, exact(j2), turn, 1 as real, 20 as real * slack(k));
}

/// A pull added to nothing.
proof fn lemma_pull(j: Single, d: Single, k: nat)
    requires
        j.finite() && d.finite(),
        0 as real <= exact(d) <= 1 as real,
        -limit(k) <= exact(j) <= limit(k),
        k <= 90,
    ensures
        zero().plus(j.times(d)).finite(),
        within(exact(zero().plus(j.times(d))), product(exact(d), exact(j)), slack(k)),
{
    law_commutes(j, d);
    lemma_turned_product(d, j, k);
    lemma_nothing_before(d.times(j));
}

/// What is added to nothing stays.
proof fn lemma_nothing_before(a: Single)
    requires
        a.finite(),
    ensures
        zero().plus(a).finite(),
        exact(zero().plus(a)) == exact(a),
{
    law_commutes(zero(), a);
    law_zero_adds_nothing(a, zero());
}

/// The squared distances that a residual is made of: a beam adds the square of
/// its distance, held to sigma.
pub proof fn law_beam_adds_its_square(
    s: Sums,
    b: Heading,
    r: Single,
    p: Slope,
    sigma: Single,
    k: nat,
)
    requires
        s.squares.finite() && p.d.finite() && sigma.finite(),
        0 as real <= exact(p.d),
        0 as real <= exact(sigma) <= 1 as real,
        k <= 90,
        0 as real <= exact(s.squares),
        exact(s.squares) + 2 as real <= limit(k),
    ensures
        ({
            let h = least(exact(p.d), exact(sigma));
            within(
                exact(with_beam(s, b, r, p, sigma).squares),
                exact(s.squares) + squared(h),
                2 as real * slack(k),
            )
        }),
{
    let d = p.d.smaller(sigma);
    lemma_smaller(p.d, sigma);
    lemma2_to64();
    let h = exact(d);
    lemma_binades(k);
    lemma_binades(0);
    lemma_pow2_pos(k);
    assert(0 as real <= h * h <= 1 as real) by (nonlinear_arith)
        requires
            0 as real <= h <= 1 as real,
    ;
    assert(squared(h) == h * h) by {
        reveal(product);
    }
    law_product_error(d, d, 0);
    assert(slack(0) <= slack(k));
    law_sum_error(s.squares, d.times(d), k);
}

// ---- Priors -----------------------------------------------------------------

/// One coordinate of the pull of a prior.
proof fn lemma_prior_pull(offset: Single, sigma: Single, k: nat, q: nat)
    requires
        offset.finite(),
        -(4 as real * limit(k)) <= exact(offset) <= 4 as real * limit(k),
        cell_is(sigma.times(sigma), q),
        q <= 16,
        k <= 60,
    ensures
        ({
            let inv2 = unit().over(sigma.times(sigma));
            let s = exact(sigma.times(sigma));
            let g = zero().plus(inv2.times(offset));
            &&& g.finite()
            &&& within(product(exact(g), s), exact(offset), 24 as real * slack(k))
            &&& within(product(exact(zero().plus(inv2)), s), 1 as real, 2 as real * slack(0))
        }),
{
    let s = sigma.times(sigma);
    let inv2 = unit().over(s);
    lemma_inverse(s, q);
    lemma_per_cell(offset, s, k, q);
    law_commutes(offset, inv2);
    lemma_nothing_before(inv2.times(offset));
    lemma_nothing_before(inv2);
}

/// A prior pulls the pose back to where it stands: each coordinate by its offset
/// from the prior over the squared width, of the position in x and y and of the
/// yaw in yaw, and with the weight of one over the squared width.
pub proof fn law_prior_pulls_back(
    pose: Pose2,
    prior: Pose2,
    cfg: ScanMatchConfig,
    k: nat,
    q: nat,
    t: nat,
)
    requires
        pose.0.finite() && pose.1.finite() && pose.2.finite(),
        prior.0.finite() && prior.1.finite() && prior.2.finite(),
        -limit(k) <= exact(pose.0) <= limit(k) && -limit(k) <= exact(prior.0) <= limit(k),
        -limit(k) <= exact(pose.1) <= limit(k) && -limit(k) <= exact(prior.1) <= limit(k),
        -(3 as real) <= exact(pose.2) <= 3 as real,
        -(3 as real) <= exact(prior.2) <= 3 as real,
        cfg.prior_sigma_xy.finite() && exact(cfg.prior_sigma_xy) > 0 as real,
        cfg.prior_sigma_yaw.finite() && exact(cfg.prior_sigma_yaw) > 0 as real,
        cell_is(cfg.prior_sigma_xy.times(cfg.prior_sigma_xy), q),
        cell_is(cfg.prior_sigma_yaw.times(cfg.prior_sigma_yaw), t),
        q <= 16,
        t <= 16,
        k <= 60,
    ensures
        ({
            let s = with_prior(no_sums(), pose, Some(prior), cfg);
            let xy = exact(cfg.prior_sigma_xy.times(cfg.prior_sigma_xy));
            let yaw = exact(cfg.prior_sigma_yaw.times(cfg.prior_sigma_yaw));
            let e = 32 as real * slack(k);
            let turn = wrapped_angle(pose.2.minus(prior.2));
            &&& within(product(exact(s.g.v0), xy), exact(pose.0) - exact(prior.0), e)
            &&& within(product(exact(s.g.v1), xy), exact(pose.1) - exact(prior.1), e)
            &&& within(product(exact(s.g.v2), yaw), exact(turn), 24 as real * slack(0))
            &&& same_angle(
                exact(prior.2) + exact(turn),
                exact(pose.2),
                1 as real / 262_144 as real,
            )
            &&& within(product(exact(s.h.a00), xy), 1 as real, 2 as real * slack(0))
            &&& within(product(exact(s.h.a11), xy), 1 as real, 2 as real * slack(0))
            &&& within(product(exact(s.h.a22), yaw), 1 as real, 2 as real * slack(0))
        }),
{
    let (dx, dy) = (pose.0.minus(prior.0), pose.1.minus(prior.1));
    let turn = wrapped_angle(pose.2.minus(prior.2));
    lemma_zero_exact();
    lemma_binades(k);
    lemma2_to64();
    lemma_below(zero(), cfg.prior_sigma_xy);
    lemma_below(zero(), cfg.prior_sigma_yaw);
    crate::pose::lemma_offset(prior.0, pose.0, k);
    crate::pose::lemma_offset(prior.1, pose.1, k);
    lemma_prior_pull(dx, cfg.prior_sigma_xy, k, q);
    lemma_prior_pull(dy, cfg.prior_sigma_xy, k, q);
    crate::pose::lemma_local_yaw(prior.2, pose.2);
    // a wrapped angle is at most a half turn
    law_negation_exact(prior.2);
    law_sum_error(pose.2, prior.2.negated(), 3);
    let a = pose.2.minus(prior.2);
    law_wrapping_is_same_angle(a);
    crate::conversion::law_angle_within_turn(a);
    crate::motion::lemma_yaw_bound(turn);
    lemma_prior_pull(turn, cfg.prior_sigma_yaw, 0, t);
}

/// The information of an edge is one over the squared deviation: that of the
/// position in x and in y, that of the yaw in yaw, and nothing across.
pub proof fn law_information(sigma_xy: Single, sigma_yaw: Single, q: nat, t: nat)
    requires
        cell_is(sigma_xy.times(sigma_xy), q),
        cell_is(sigma_yaw.times(sigma_yaw), t),
        q <= 16,
        t <= 16,
    ensures
        ({
            let m = information_of(sigma_xy, sigma_yaw);
            let xy = exact(sigma_xy.times(sigma_xy));
            let yaw = exact(sigma_yaw.times(sigma_yaw));
            let e = 2 as real * slack(0);
            &&& within(product(exact(m.0.0), xy), 1 as real, e)
            &&& within(product(exact(m.1.1), xy), 1 as real, e)
            &&& within(product(exact(m.2.2), yaw), 1 as real, e)
            &&& m.0.1.zero() && m.0.2.zero() && m.1.0.zero() && m.1.2.zero()
            &&& m.2.0.zero() && m.2.1.zero()
        }),
{
    lemma_inverse(sigma_xy.times(sigma_xy), q);
    lemma_inverse(sigma_yaw.times(sigma_yaw), t);
}

/// Damping adds the same to the whole diagonal and leaves the rest.
pub proof fn law_damping_is_on_the_diagonal(m: Matrix, lambda: Single, k: nat)
    requires
        m.a00.finite() && m.a11.finite() && m.a22.finite() && lambda.finite(),
        k <= 90,
        -limit(k) <= exact(m.a00) + exact(lambda) <= limit(k),
        -limit(k) <= exact(m.a11) + exact(lambda) <= limit(k),
        -limit(k) <= exact(m.a22) + exact(lambda) <= limit(k),
    ensures
        ({
            let d = damped(m, lambda);
            &&& within(exact(d.a00), exact(m.a00) + exact(lambda), slack(k))
            &&& within(exact(d.a11), exact(m.a11) + exact(lambda), slack(k))
            &&& within(exact(d.a22), exact(m.a22) + exact(lambda), slack(k))
            &&& d.a01 == m.a01 && d.a02 == m.a02 && d.a12 == m.a12
            &&& d.a10 == m.a10 && d.a20 == m.a20 && d.a21 == m.a21
        }),
{
    law_sum_error(m.a00, lambda, k);
    law_sum_error(m.a11, lambda, k);
    law_sum_error(m.a22, lambda, k);
}

/// The residual of a step is the root of the mean squared distance of the beams
/// at the pose that the step started from, and no prior counts in it.
pub proof fn law_residual_of_a_step(
    m: Matching,
    f: Field,
    beams: Seq<Heading>,
    ranges: Seq<Single>,
    prior: Option<Pose2>,
    cfg: ScanMatchConfig,
)
    requires
        0 < used(ranges, ranges.len() as int) < 0x100_0000,
        ({
            let s = beam_sums(f, m.pose, beams, ranges, cfg.sigma_m, ranges.len() as int).squares;
            let n = used(ranges, ranges.len() as int) as real;
            s.finite() && 0 as real <= exact(s) <= n
        }),
    ensures
        ({
            let s = beam_sums(f, m.pose, beams, ranges, cfg.sigma_m, ranges.len() as int).squares;
            let n = used(ranges, ranges.len() as int) as real;
            let r = exact(m.after_step(f, beams, ranges, prior, cfg).residual_m);
            within(
                product(n, squared(r)),
                exact(s),
                product(n, slack(4) + slack(0)),
            )
        }),
{
    let all = beam_sums(f, m.pose, beams, ranges, cfg.sigma_m, ranges.len() as int);
    let count = used(ranges, ranges.len() as int);
    let (s, n) = (all.squares, count as real);
    assert(with_prior(all, m.pose, prior, cfg).squares == s);
    lemma2_to64();
    lemma_binades(0);
    law_whole_is_exact(count);
    lemma_absolute(s);
    let x = exact(s);
    let q = x / n;
    assert(0 as real <= q <= 1 as real) by (nonlinear_arith)
        requires
            q == x / n,
            0 as real <= x <= n,
            n > 0 as real,
    ;
    law_quotient_error(s, rounded(count), 0);
    let mean = s.over(rounded(count));
    lemma_mean_sign(s, rounded(count));
    law_root_error(mean);
    let r = exact(mean.root());
    assert(squared(r) == r * r) by {
        reveal(product);
    }
    let e = slack(4) + slack(0);
    lemma_steps(n, 1 as real, x, squared(r), e);
    lemma_plain(squared(r));
    lemma_plain(e);
    lemma_plain(x);
}

/// A quotient of numbers that are not below zero.
pub proof fn lemma_mean_sign(a: Single, b: Single)
    requires
        a.finite() && b.finite(),
        exact(a) >= 0 as real,
        exact(b) > 0 as real,
        a.over(b).finite(),
    ensures
        exact(a.over(b)) >= 0 as real,
{
    reveal(Single::over);
    lemma_pow2_pos(149);
    let o = one();
    let (x, y) = (a.value(), b.value());
    assert(x >= 0 && y > 0) by (nonlinear_arith)
        requires
            x as real / o as real >= 0 as real,
            y as real / o as real > 0 as real,
            o > 0,
    ;
    lemma_absolute(a);
    lemma_absolute(b);
    let n = absolute(x) * o;
    law_nearest_exists(n, y);
    let r = a.over(b);
    lemma_absolute(r);
    assert(magnitude_value(0) == 0);
    lemma_magnitudes_ordered(0, r.magnitude());
    if x == 0 {
        assert(n == 0) by (nonlinear_arith)
            requires
                n == 0 * o,
        ;
        lemma_nothing_rounds(y);
    }
    let v = r.value() as real;
    assert(v / o as real >= 0 as real) by (nonlinear_arith)
        requires
            v >= 0 as real,
            o > 0,
    ;
}

} // verus!
