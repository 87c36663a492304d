//! What the statistics of a cloud are, without their formulas.
//!
//! The two coordinates of a cloud are treated alike, one particle is its own
//! mean, resampling picks by the running sums, and the lock asks for each of its
//! criteria on its own.

use vstd::prelude::*;
use crate::arith::{law_commutes, law_one_is_neutral, law_zero_adds_nothing, unit, zero};
use crate::cloud::{advanced, comb, concentration, coordinate_sums, heading_sums, pick, position_spread, square_sum, weighted, WeightedSums};
use crate::conversion::rounded;
use crate::function::angle_to;
use crate::beams::Field;
use crate::mcl::{mean_pose, travelled, yaw_deviation, yaw_headings, LocalizerView};
use crate::pose::{Heading, Pose2};
use crate::single::Single;

verus! {

/// A cloud with x and y exchanged.
pub open spec fn exchanged(p: Seq<Pose2>) -> Seq<Pose2> {
    Seq::new(p.len(), |k: int| (p[k].1, p[k].0, p[k].2))
}

proof fn lemma_sums_exchanged(p: Seq<Pose2>, n: int)
    requires
        0 <= n <= p.len(),
    ensures
        coordinate_sums(exchanged(p), n) == (coordinate_sums(p, n).1, coordinate_sums(p, n).0),
    decreases n,
{
    if n > 0 {
        lemma_sums_exchanged(p, n - 1);
    }
}

proof fn lemma_squares_exchanged(p: Seq<Pose2>, mx: Single, my: Single, n: int)
    requires
        0 <= n <= p.len(),
    ensures
        square_sum(exchanged(p), my, mx, n) == square_sum(p, mx, my, n),
    decreases n,
{
    if n > 0 {
        lemma_squares_exchanged(p, mx, my, n - 1);
        let dx = p[n - 1].0.minus(mx);
        let dy = p[n - 1].1.minus(my);
        law_commutes(dx.times(dx), dy.times(dy));
    }
}

/// The spread of positions treats x and y alike: exchanging them in all
/// particles leaves it as it is.
pub proof fn law_spread_treats_axes_alike(p: Seq<Pose2>)
    ensures
        position_spread(exchanged(p)) == position_spread(p),
{
    let n = p.len() as int;
    lemma_sums_exchanged(p, n);
    let (s, m) = (coordinate_sums(p, n), rounded(n));
    lemma_squares_exchanged(p, s.0.over(m), s.1.over(m), n);
}

/// Headings with sine and cosine exchanged.
pub open spec fn mirrored(h: Seq<Heading>) -> Seq<Heading> {
    Seq::new(h.len(), |k: int| Heading { cos: h[k].sin, sin: h[k].cos })
}

proof fn lemma_headings_mirrored(h: Seq<Heading>, n: int)
    requires
        0 <= n <= h.len(),
    ensures
        heading_sums(mirrored(h), n) == (heading_sums(h, n).1, heading_sums(h, n).0),
    decreases n,
{
    if n > 0 {
        lemma_headings_mirrored(h, n - 1);
    }
}

/// How far headings agree does not depend on where they point: mirrored in the
/// diagonal they agree as far.
pub proof fn law_concentration_treats_axes_alike(h: Seq<Heading>)
    ensures
        concentration(mirrored(h)) == concentration(h),
{
    let n = h.len() as int;
    lemma_headings_mirrored(h, n);
    let s = heading_sums(h, n);
    law_commutes(s.0.times(s.0), s.1.times(s.1));
}

/// The length of a translation treats x and y alike, and does not depend on its
/// direction.
pub proof fn law_travelled_treats_axes_alike(dx: Single, dy: Single)
    ensures
        travelled(dx, dy) == travelled(dy, dx),
{
    law_commutes(dx.times(dx), dy.times(dy));
}

proof fn lemma_weighted_exchanged(p: Seq<Pose2>, h: Seq<Heading>, w: Seq<Single>, n: int)
    requires
        0 <= n <= p.len(),
    ensures
        ({
            let (a, b) = (weighted(p, h, w, n), weighted(exchanged(p), h, w, n));
            b == WeightedSums { x: a.y, y: a.x, ..a }
        }),
    decreases n,
{
    if n > 0 {
        lemma_weighted_exchanged(p, h, w, n - 1);
    }
}

/// The weighted mean treats x and y alike: of a cloud with x and y exchanged it
/// is the mean with x and y exchanged.
pub proof fn law_mean_treats_axes_alike<A: Fn((Single, Single)) -> Single>(
    atan2: A,
    p: Seq<Pose2>,
    h: Seq<Heading>,
    w: Seq<Single>,
)
    ensures
        ({
            let n = p.len() as int;
            let m = mean_pose(atan2, weighted(p, h, w, n));
            mean_pose(atan2, weighted(exchanged(p), h, w, n)) == (m.1, m.0, m.2)
        }),
{
    lemma_weighted_exchanged(p, h, w, p.len() as int);
}

/// One particle is its own mean: with all the weight on it the mean is at its
/// place and, if the arctangent gives back the yaw of its heading, has its yaw.
pub proof fn law_mean_of_one<A: Fn((Single, Single)) -> Single>(atan2: A, p: Pose2, h: Heading)
    requires
        p.0.finite() && p.1.finite() && h.cos.finite() && h.sin.finite(),
        !h.cos.zero() && !h.sin.zero(),
        angle_to(atan2, h.sin, h.cos) == p.2,
    ensures
        ({
            let m = mean_pose(atan2, weighted(seq![p], seq![h], seq![unit()], 1));
            &&& m.0.value() == p.0.value()
            &&& m.1.value() == p.1.value()
            &&& m.2 == p.2
        }),
{
    let (ps, hs, ws) = (seq![p], seq![h], seq![unit()]);
    reveal_with_fuel(weighted, 2);
    let b = weighted(ps, hs, ws, 0);
    let s = weighted(ps, hs, ws, 1);
    lemma_one_particle(p.0);
    lemma_one_particle(p.1);
    lemma_one_particle(h.cos);
    lemma_one_particle(h.sin);
    lemma_one_particle(unit());
    crate::arith::lemma_unit();
    law_one_is_neutral(unit());
    assert(crate::single::magnitude_value(0) == 0);
    law_one_is_neutral(s.x);
    law_one_is_neutral(s.y);
}

/// A sum of one number.
proof fn lemma_one_particle(a: Single)
    requires
        a.finite(),
    ensures
        zero().plus(unit().times(a)).value() == a.value(),
        zero().plus(unit().times(a)).finite(),
        !a.zero() ==> zero().plus(unit().times(a)) == a,
        !a.zero() ==> zero().plus(a) == a,
{
    law_one_is_neutral(a);
    law_commutes(zero(), a);
    law_zero_adds_nothing(a, zero());
}

/// Where the sampler stops.
proof fn lemma_advanced(cum: Seq<Single>, k: int, u: Single)
    requires
        0 <= k < cum.len(),
    ensures
        ({
            let r = advanced(cum, k, u);
            &&& k <= r < cum.len()
            &&& forall|t: int| k <= t < r ==> (#[trigger] cum[t]).below(u)
            &&& r < cum.len() - 1 ==> !cum[r].below(u)
        }),
    decreases cum.len() - k,
{
    if k < cum.len() - 1 && cum[k].below(u) {
        lemma_advanced(cum, k + 1, u);
    }
}

/// Target number `i` picks the first particle, from the one before on, whose
/// running sum is not below the target; the last one if there is none.
pub proof fn law_pick_is_first(cum: Seq<Single>, u0: Single, step: Single, i: int)
    requires
        cum.len() > 0,
        i >= 0,
    ensures
        ({
            let r = pick(cum, u0, step, i);
            let from = if i == 0 {
                0
            } else {
                pick(cum, u0, step, i - 1)
            };
            &&& 0 <= from <= r < cum.len()
            &&& forall|t: int| from <= t < r ==> (#[trigger] cum[t]).below(comb(u0, step, i))
            &&& r < cum.len() - 1 ==> !cum[r].below(comb(u0, step, i))
        }),
    decreases i,
{
    if i > 0 {
        law_pick_is_first(cum, u0, step, i - 1);
        lemma_advanced(cum, pick(cum, u0, step, i - 1), comb(u0, step, i));
    } else {
        lemma_advanced(cum, 0, comb(u0, step, i));
    }
}

/// A streak grows only if every criterion is met, each against its own
/// threshold: the residual, the spread of positions, that of yaws, and motion
/// since it last grew, which is translation or rotation.
pub proof fn law_streak_asks_for_all(v: LocalizerView, xy_std: Single, yaw_std: Single)
    requires
        v.streak < u32::MAX,
    ensures
        v.streaked(xy_std, yaw_std).streak == v.streak + 1 <==> {
            &&& v.residual.finite()
            &&& v.residual.at_most(v.cfg.locked_max_residual_m)
            &&& xy_std.at_most(v.cfg.locked_xy_std_m)
            &&& yaw_std.at_most(v.cfg.locked_yaw_std_rad)
            &&& v.cfg.lock_min_motion_per_streak_m.at_most(v.motion)
                || v.cfg.lock_min_rotation_per_streak_rad.at_most(v.rotation)
        },
        v.cfg.locked_xy_std_m.below(xy_std) ==> v.streaked(xy_std, yaw_std).streak == 0,
        v.cfg.locked_yaw_std_rad.below(yaw_std) ==> v.streaked(xy_std, yaw_std).streak == 0,
        v.cfg.locked_max_residual_m.below(v.residual) ==> v.streaked(xy_std, yaw_std).streak == 0,
        v.motion.below(v.cfg.lock_min_motion_per_streak_m) && v.rotation.below(
            v.cfg.lock_min_rotation_per_streak_rad,
        ) ==> v.streaked(xy_std, yaw_std).streak <= v.streak,
{
}

/// Seeding starts over: what the filter had come to before does not matter, only
/// its settings and how many particles it has; no lock, no updates and no
/// residual are left.
pub proof fn law_seeding_forgets(a: LocalizerView, b: LocalizerView, particles: Seq<Pose2>)
    requires
        a.cfg == b.cfg,
        a.weights.len() == b.weights.len(),
    ensures
        a.seeded(particles) == b.seeded(particles),
        a.seeded(particles).particles == particles,
        a.seeded(particles).cfg == a.cfg,
        a.seeded(particles).weights.len() == a.weights.len(),
        a.seeded(particles).streak == 0,
        a.seeded(particles).updates == 0,
        a.seeded(particles).residual.nan(),
        a.seeded(particles).motion.zero() && a.seeded(particles).rotation.zero(),
{
}

/// Replacing the front of a cloud leaves the rest as it was.
pub proof fn law_front_is_replaced(v: LocalizerView, front: Seq<Pose2>, k: int)
    requires
        front.len() <= v.particles.len(),
        0 <= k < v.particles.len(),
    ensures
        v.with_front(front).particles.len() == v.particles.len(),
        k < front.len() ==> v.with_front(front).particles[k] == front[k],
        k >= front.len() ==> v.with_front(front).particles[k] == v.particles[k],
        v.with_front(front).weights == v.weights,
{
}

/// A cloud that is wide in position ends the streak by the position threshold,
/// one that is wide in yaw by the yaw threshold, each on its own.
pub proof fn law_wide_clouds_are_not_locked<T: Fn(Single) -> Heading, L: Fn(Single) -> Single>(
    v: LocalizerView,
    trig: T,
    ln: L,
)
    ensures
        v.cfg.locked_xy_std_m.below(position_spread(v.particles)) ==> v.checked(trig, ln).streak
            == 0,
        v.cfg.locked_yaw_std_rad.below(yaw_deviation(trig, ln, v.particles)) ==> v.checked(
            trig,
            ln,
        ).streak == 0,
        v.checked(trig, ln).particles == v.particles,
        v.checked(trig, ln).weights == v.weights,
{
}

/// The spread of yaws depends on the yaws alone, that of positions on the
/// positions alone.
pub proof fn law_spreads_look_at_their_own<T: Fn(Single) -> Heading, L: Fn(Single) -> Single>(
    trig: T,
    ln: L,
    p: Seq<Pose2>,
    q: Seq<Pose2>,
)
    requires
        p.len() == q.len(),
    ensures
        (forall|k: int| 0 <= k < p.len() ==> (#[trigger] p[k]).2 == q[k].2) ==> yaw_deviation(
            trig,
            ln,
            p,
        ) == yaw_deviation(trig, ln, q),
        (forall|k: int|
            0 <= k < p.len() ==> (#[trigger] p[k]).0 == q[k].0 && p[k].1 == q[k].1)
            ==> position_spread(p) == position_spread(q),
{
    if forall|k: int| 0 <= k < p.len() ==> (#[trigger] p[k]).2 == q[k].2 {
        assert(yaw_headings(trig, p) =~= yaw_headings(trig, q));
    }
    if forall|k: int| 0 <= k < p.len() ==> (#[trigger] p[k]).0 == q[k].0 && p[k].1 == q[k].1 {
        let n = p.len() as int;
        lemma_same_sums(p, q, n);
        let (s, m) = (coordinate_sums(p, n), rounded(n));
        lemma_same_squares(p, q, s.0.over(m), s.1.over(m), n);
    }
}

proof fn lemma_same_sums(p: Seq<Pose2>, q: Seq<Pose2>, n: int)
    requires
        0 <= n <= p.len(),
        forall|k: int| 0 <= k < p.len() ==> (#[trigger] p[k]).0 == q[k].0 && p[k].1 == q[k].1,
    ensures
        coordinate_sums(p, n) == coordinate_sums(q, n),
    decreases n,
{
    if n > 0 {
        lemma_same_sums(p, q, n - 1);
        assert(p[n - 1].0 == q[n - 1].0);
    }
}

proof fn lemma_same_squares(p: Seq<Pose2>, q: Seq<Pose2>, mx: Single, my: Single, n: int)
    requires
        0 <= n <= p.len(),
        forall|k: int| 0 <= k < p.len() ==> (#[trigger] p[k]).0 == q[k].0 && p[k].1 == q[k].1,
    ensures
        square_sum(p, mx, my, n) == square_sum(q, mx, my, n),
    decreases n,
{
    if n > 0 {
        lemma_same_squares(p, q, mx, my, n - 1);
        assert(p[n - 1].0 == q[n - 1].0);
    }
}

/// How likely a particle is depends on its own place and its own beams, not on
/// those of the other particles.
pub proof fn law_particles_are_judged_alone(
    v: LocalizerView,
    w: LocalizerView,
    f: Field,
    a: Seq<Seq<Heading>>,
    b: Seq<Seq<Heading>>,
    ranges: Seq<Single>,
    i: int,
    j: int,
)
    requires
        v.cfg == w.cfg,
        0 <= i < v.particles.len(),
        0 <= j < w.particles.len(),
        v.particles[i].0 == w.particles[j].0,
        v.particles[i].1 == w.particles[j].1,
        a[i] == b[j],
    ensures
        v.log_likelihoods(f, a, ranges)[i] == w.log_likelihoods(f, b, ranges)[j],
{
}

} // verus!
