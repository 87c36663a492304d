//! Waypoint follower: turn-then-go controller on top of a planned path.
//!
//! Inputs are the estimated pose; the caller applies the returned `forward`
//! distance along the true body heading. If the estimate is wrong, the robot
//! physically drifts off the path.

use vstd::arithmetic::power2::{lemma2_to64, lemma_pow2_pos};
use vstd::prelude::*;
use crate::accuracy::{exact, law_negation_exact, law_sum_error, limit, slack, within};
use crate::arith::{absolute, law_difference_with_itself, law_products_ordered, law_zero_absorbs, law_zero_adds_nothing, lemma_absolute, one, signed};
use crate::conversion::{lemma_sum_within, lemma_turn, PI_BITS, TWO_PI_BITS};
use crate::function::{angle_to, apply, is_atan2};
use crate::pose::{lemma_binades, lemma_offset};
use crate::rounding::{lemma_magnitudes_ordered, nearest};
use crate::single::{law_negation, law_order, magnitude_value, Single, ZERO_BITS};
use crate::turning::{lemma_turn_numbers, lemma_turns, same_angle, turned_back};

verus! {

/// Pattern of the heading error (0.30 rad) above which the robot only turns.
pub const AIM_BITS: u32 = 0x3e99_999a;

/// A path and how far along it the robot is.
#[derive(Debug)]
pub struct FollowerState {
    waypoints: Vec<(Single, Single)>,
    idx: usize,
}

/// Body-frame command of one tick.
#[derive(Debug, Clone, Copy)]
pub struct FollowCommand {
    /// Distance to move forward in this tick: at least zero, for a speed that
    /// is not below zero.
    pub forward: Single,
    /// Yaw to turn in this tick.
    pub dyaw: Single,
}

/// The command to stand still.
pub open spec fn stand_still() -> FollowCommand {
    FollowCommand { forward: Single { bits: ZERO_BITS }, dyaw: Single { bits: ZERO_BITS } }
}

impl Default for FollowCommand {
    /// Stand still.
    fn default() -> (r: Self)
        ensures
            r == stand_still(),
    {
        FollowCommand { forward: Single { bits: ZERO_BITS }, dyaw: Single { bits: ZERO_BITS } }
    }
}

impl FollowerState {
    /// The waypoints of the path.
    pub closed spec fn path(&self) -> Seq<(Single, Single)> {
        self.waypoints@
    }

    /// Number of waypoints that were reached.
    pub closed spec fn reached(&self) -> int {
        self.idx as int
    }

    /// No waypoint is left.
    pub open spec fn at_end(&self) -> bool {
        self.reached() >= self.path().len()
    }

    /// The waypoint to go to, as long as one is left.
    pub open spec fn target(&self) -> (Single, Single) {
        self.path()[self.reached()]
    }

    /// A path with no waypoint reached yet.
    pub fn new(waypoints: Vec<(Single, Single)>) -> (s: Self)
        ensures
            s.path() == waypoints@,
            s.reached() == 0,
    {
        FollowerState { waypoints, idx: 0 }
    }

    /// A path without waypoints.
    pub fn empty() -> (s: Self)
        ensures
            s.path().len() == 0,
            s.reached() == 0,
    {
        FollowerState { waypoints: Vec::new(), idx: 0 }
    }

    /// True if no waypoint is left.
    pub fn done(&self) -> (r: bool)
        ensures
            r == self.at_end(),
    {
        self.idx >= self.waypoints.len()
    }

    /// The waypoint to go to.
    pub fn current(&self) -> (r: Option<(Single, Single)>)
        ensures
            r == if self.at_end() {
                None
            } else {
                Some(self.target())
            },
    {
        if self.idx < self.waypoints.len() {
            Some(self.waypoints[self.idx])
        } else {
            None
        }
    }

    /// The waypoints of the path.
    pub fn waypoints(&self) -> (r: &[(Single, Single)])
        ensures
            r@ == self.path(),
    {
        self.waypoints.as_slice()
    }

    /// A tick from `est_pos` has a turn rate to hold to, or needs none: at the
    /// end of the path and on arrival the robot stands still.
    pub open spec fn steerable(
        &self,
        est_pos: (Single, Single),
        yaw_speed: Single,
        dt: Single,
        arrive_radius: Single,
    ) -> bool {
        !self.at_end() && !length(offset_to(self.target(), est_pos)).below(arrive_radius)
            ==> yaw_speed.negated().times(dt).at_most(yaw_speed.times(dt))
    }

    /// True if [`follow_step`] can take a tick from `est_pos`.
    pub fn can_step(
        &self,
        est_pos: (Single, Single),
        yaw_speed: Single,
        dt: Single,
        arrive_radius: Single,
    ) -> (r: bool)
        ensures
            r == self.steerable(est_pos, yaw_speed, dt, arrive_radius),
    {
        match self.offset(est_pos) {
            Some((dx, dy)) => {
                dx.mul(dx).add(dy.mul(dy)).sqrt().lt(arrive_radius) || yaw_speed.neg().mul(dt).le(
                    yaw_speed.mul(dt),
                )
            },
            None => true,
        }
    }

    /// Offset from `est_pos` to the waypoint to go to.
    fn offset(&self, est_pos: (Single, Single)) -> (r: Option<(Single, Single)>)
        ensures
            r == if self.at_end() {
                None
            } else {
                Some(offset_to(self.target(), est_pos))
            },
    {
        match self.current() {
            Some((tx, ty)) => Some((tx.sub(est_pos.0), ty.sub(est_pos.1))),
            None => None,
        }
    }
}

impl Default for FollowerState {
    /// A path without waypoints.
    fn default() -> (s: Self)
        ensures
            s.path().len() == 0,
            s.reached() == 0,
    {
        FollowerState::empty()
    }
}

impl Clone for FollowerState {
    fn clone(&self) -> (s: Self)
        ensures
            s.path() == self.path(),
            s.reached() == self.reached(),
    {
        FollowerState {
            waypoints: vstd::slice::slice_to_vec(self.waypoints.as_slice()),
            idx: self.idx,
        }
    }
}

/// Offset from `from` to `to`.
pub open spec fn offset_to(to: (Single, Single), from: (Single, Single)) -> (Single, Single) {
    (to.0.minus(from.0), to.1.minus(from.1))
}

/// Length of an offset.
pub open spec fn length(d: (Single, Single)) -> Single {
    d.0.times(d.0).plus(d.1.times(d.1)).root()
}

/// An angle error with whole turns taken off until it is not above pi. An
/// error so large that a turn is lost in rounding stays.
pub open spec fn turned_down(e: Single) -> Single
    decreases e.signed_pattern() + 0x8000_0000,
{
    let next = e.minus(Single { bits: TWO_PI_BITS });
    if (Single { bits: PI_BITS }).below(e) && next.below(e) {
        proof {
            law_order(next, e);
        }
        turned_down(next)
    } else {
        e
    }
}

/// An angle error with whole turns added until it is not below minus pi. An
/// error so large that a turn is lost in rounding stays.
pub open spec fn turned_up(e: Single) -> Single
    decreases 0x8000_0000 - e.signed_pattern(),
{
    let next = e.plus(Single { bits: TWO_PI_BITS });
    if e.below((Single { bits: PI_BITS }).negated()) && e.below(next) {
        proof {
            law_order(e, next);
        }
        turned_up(next)
    } else {
        e
    }
}

/// The heading error to a target at `bearing`.
pub open spec fn heading_error(bearing: Single, est_yaw: Single) -> Single {
    turned_up(turned_down(bearing.minus(est_yaw)))
}

/// The command for a waypoint `dist` away with heading error `err`.
pub open spec fn steering(
    err: Single,
    dist: Single,
    lin_speed: Single,
    yaw_speed: Single,
    dt: Single,
) -> FollowCommand {
    let dyaw = err.held(yaw_speed.negated().times(dt), yaw_speed.times(dt));
    if (Single { bits: AIM_BITS }).below(err.unsigned()) {
        FollowCommand { forward: Single { bits: ZERO_BITS }, dyaw }
    } else {
        FollowCommand { forward: lin_speed.times(dt).smaller(dist), dyaw }
    }
}

/// Takes whole turns off an angle error, then adds them.
fn unwind(bearing: Single, est_yaw: Single) -> (r: Single)
    ensures
        r == heading_error(bearing, est_yaw),
{
    let pi = Single { bits: PI_BITS };
    let two_pi = Single { bits: TWO_PI_BITS };
    let mut e = bearing.sub(est_yaw);
    let ghost start = e;
    let mut more = true;
    while more
        invariant
            pi.bits == PI_BITS,
            two_pi.bits == TWO_PI_BITS,
            turned_down(e) == turned_down(start),
            !more ==> e == turned_down(start),
        decreases
                e.signed_pattern() + 0x8000_0000,
                if more {
                    1int
                } else {
                    0int
                },
    {
        let next = e.sub(two_pi);
        if pi.lt(e) && next.lt(e) {
            proof {
                law_order(next, e);
            }
            e = next;
        } else {
            more = false;
        }
    }
    let ghost middle = e;
    more = true;
    while more
        invariant
            pi.bits == PI_BITS,
            two_pi.bits == TWO_PI_BITS,
            turned_up(e) == turned_up(middle),
            !more ==> e == turned_up(middle),
        decreases
                0x8000_0000 - e.signed_pattern(),
                if more {
                    1int
                } else {
                    0int
                },
    {
        let next = e.add(two_pi);
        if e.lt(pi.neg()) && e.lt(next) {
            proof {
                law_order(e, next);
            }
            e = next;
        } else {
            more = false;
        }
    }
    e
}

/// Advance one tick toward the current waypoint. Within `arrive_radius` of it
/// the follower goes on to the next one and stands still for this tick.
/// `atan2` gives the direction of an offset.
pub fn follow_step<A: Fn((Single, Single)) -> Single>(
    state: &mut FollowerState,
    est_pos: (Single, Single),
    est_yaw: Single,
    lin_speed: Single,
    yaw_speed: Single,
    dt: Single,
    arrive_radius: Single,
    atan2: &A,
) -> (cmd: FollowCommand)
    requires
        is_atan2(*atan2),
        old(state).steerable(est_pos, yaw_speed, dt, arrive_radius),
    ensures
        final(state).path() == old(state).path(),
        if old(state).at_end() {
            cmd == stand_still() && final(state).reached() == old(state).reached()
        } else {
            let offset = offset_to(old(state).target(), est_pos);
            let dist = length(offset);
            if dist.below(arrive_radius) {
                cmd == stand_still() && final(state).reached() == old(state).reached() + 1
            } else {
                &&& final(state).reached() == old(state).reached()
                &&& cmd == steering(
                    heading_error(angle_to(*atan2, offset.1, offset.0), est_yaw),
                    dist,
                    lin_speed,
                    yaw_speed,
                    dt,
                )
            }
        },
{
    let zero = Single { bits: ZERO_BITS };
    let (dx, dy) = match state.offset(est_pos) {
        Some(d) => d,
        None => {
            return FollowCommand { forward: zero, dyaw: zero };
        },
    };
    let dist = dx.mul(dx).add(dy.mul(dy)).sqrt();
    if dist.lt(arrive_radius) {
        assert(state.idx < state.waypoints.len());
        state.idx = state.idx + 1;
        return FollowCommand { forward: zero, dyaw: zero };
    }
    let yaw_err = unwind(apply(atan2, (dy, dx)), est_yaw);
    let dyaw = yaw_err.clamp(yaw_speed.neg().mul(dt), yaw_speed.mul(dt));
    // turn-then-go: only translate when roughly aimed at the target
    if (Single { bits: AIM_BITS }).lt(yaw_err.abs()) {
        return FollowCommand { forward: zero, dyaw };
    }
    let forward = lin_speed.mul(dt).min(dist);
    FollowCommand { forward, dyaw }
}

/// An error of at most a turn needs at most one turn off.
proof fn lemma_one_turn_down(e: Single)
    requires
        e.magnitude() <= TWO_PI_BITS,
    ensures
        turned_down(e).magnitude() <= TWO_PI_BITS,
        turned_down(e).value() <= magnitude_value(PI_BITS as int),
{
    let pi = Single { bits: PI_BITS };
    let turn = Single { bits: TWO_PI_BITS };
    lemma_turn();
    lemma_absolute(e);
    lemma_absolute(pi);
    lemma_absolute(turn);
    lemma_magnitudes_ordered(e.magnitude(), TWO_PI_BITS as int);
    if pi.below(e) {
        let next = e.minus(turn);
        law_negation(turn);
        lemma_sum_within(e, turn.negated(), PI_BITS as int);
        assert(next.below(e));
        assert(turned_down(next) == next);
    }
}

/// An error between minus a turn and half a turn needs at most one turn more.
proof fn lemma_one_turn_up(d: Single)
    requires
        d.magnitude() <= TWO_PI_BITS,
        d.value() <= magnitude_value(PI_BITS as int),
    ensures
        turned_up(d).magnitude() <= PI_BITS,
{
    let pi = Single { bits: PI_BITS };
    let turn = Single { bits: TWO_PI_BITS };
    lemma_turn();
    lemma_absolute(d);
    lemma_absolute(turn);
    law_negation(pi);
    lemma_magnitudes_ordered(d.magnitude(), TWO_PI_BITS as int);
    if d.below(pi.negated()) {
        let next = d.plus(turn);
        lemma_sum_within(d, turn, PI_BITS as int);
        assert(d.below(next));
        assert(turned_up(next) == next);
    } else if d.magnitude() > PI_BITS {
        lemma_magnitudes_ordered(PI_BITS as int, d.magnitude());
    }
}

/// The robot turns the short way round: with both angles within half a turn of
/// zero, the heading error is at most half a turn.
pub proof fn law_short_way_round(bearing: Single, est_yaw: Single)
    requires
        bearing.magnitude() <= PI_BITS,
        est_yaw.magnitude() <= PI_BITS,
    ensures
        heading_error(bearing, est_yaw).magnitude() <= PI_BITS,
{
    lemma_turn();
    law_negation(est_yaw);
    lemma_absolute(bearing);
    lemma_absolute(est_yaw);
    lemma_magnitudes_ordered(bearing.magnitude(), PI_BITS as int);
    lemma_magnitudes_ordered(est_yaw.magnitude(), PI_BITS as int);
    let e = bearing.minus(est_yaw);
    lemma_sum_within(bearing, est_yaw.negated(), TWO_PI_BITS as int);
    lemma_one_turn_down(e);
    lemma_one_turn_up(turned_down(e));
}

/// A robot that is not roughly aimed at its waypoint does not move forward.
pub proof fn law_turn_then_go(
    err: Single,
    dist: Single,
    lin_speed: Single,
    yaw_speed: Single,
    dt: Single,
)
    requires
        (Single { bits: AIM_BITS }).below(err.unsigned()),
    ensures
        steering(err, dist, lin_speed, yaw_speed, dt).forward == (Single { bits: ZERO_BITS }),
{
}

/// One tick never moves past the waypoint.
pub proof fn law_no_overshoot(
    err: Single,
    dist: Single,
    lin_speed: Single,
    yaw_speed: Single,
    dt: Single,
)
    requires
        (Single { bits: ZERO_BITS }).at_most(dist),
    ensures
        steering(err, dist, lin_speed, yaw_speed, dt).forward.at_most(dist),
{
}

/// The robot never moves backward: with a speed and a distance that are not
/// below zero, neither is the step forward.
pub proof fn law_never_backward(
    err: Single,
    dist: Single,
    lin_speed: Single,
    yaw_speed: Single,
    dt: Single,
)
    requires
        (Single { bits: ZERO_BITS }).at_most(lin_speed.times(dt)),
        (Single { bits: ZERO_BITS }).at_most(dist),
    ensures
        (Single { bits: ZERO_BITS }).at_most(
            steering(err, dist, lin_speed, yaw_speed, dt).forward,
        ),
{
}

/// One tick never turns faster than the yaw speed allows.
pub proof fn law_turn_rate_held(
    err: Single,
    dist: Single,
    lin_speed: Single,
    yaw_speed: Single,
    dt: Single,
)
    requires
        yaw_speed.negated().times(dt).at_most(yaw_speed.times(dt)),
        !err.nan(),
    ensures
        ({
            let dyaw = steering(err, dist, lin_speed, yaw_speed, dt).dyaw;
            yaw_speed.negated().times(dt).at_most(dyaw) && dyaw.at_most(yaw_speed.times(dt))
        }),
{
}

/// The offset to a waypoint leads there: added to where the robot is, it gives
/// the waypoint, up to rounding. Positions of at most `2^k` are met within
/// `2^k / 2^24`.
pub proof fn law_offset_leads_there(to: (Single, Single), from: (Single, Single), k: nat)
    requires
        to.0.finite() && to.1.finite() && from.0.finite() && from.1.finite(),
        k <= 90,
        -limit(k) <= exact(to.0) <= limit(k),
        -limit(k) <= exact(to.1) <= limit(k),
        -limit(k) <= exact(from.0) <= limit(k),
        -limit(k) <= exact(from.1) <= limit(k),
    ensures
        ({
            let d = offset_to(to, from);
            &&& within(exact(from.0) + exact(d.0), exact(to.0), limit(k) / 16_777_216 as real)
            &&& within(exact(from.1) + exact(d.1), exact(to.1), limit(k) / 16_777_216 as real)
        }),
{
    lemma_binades(k);
    lemma_offset(from.0, to.0, k);
    lemma_offset(from.1, to.1, k);
}

/// A robot at its waypoint has reached it, for any radius above zero.
pub proof fn law_reached_at_the_waypoint(p: (Single, Single), arrive_radius: Single)
    requires
        p.0.finite() && p.1.finite(),
        (Single { bits: ZERO_BITS }).below(arrive_radius),
    ensures
        length(offset_to(p, p)).below(arrive_radius),
{
    law_difference_with_itself(p.0);
    law_difference_with_itself(p.1);
    let d = offset_to(p, p);
    assert(d.0.zero() && d.1.zero());
    law_zero_absorbs(d.0, d.0);
    law_zero_absorbs(d.1, d.1);
    law_zero_adds_nothing(d.0.times(d.0), d.1.times(d.1));
    let s = d.0.times(d.0).plus(d.1.times(d.1));
    lemma_absolute(s);
    lemma_absolute(Single { bits: ZERO_BITS });
    reveal(Single::root);
}

/// Only where the waypoint is seen from the robot counts: with both shifted by
/// the same exact amount the distance is the same and so is the offset, but for
/// the sign of a zero.
pub proof fn law_shifted_alike(
    to: (Single, Single),
    from: (Single, Single),
    to2: (Single, Single),
    from2: (Single, Single),
)
    requires
        to.0.finite() && to.1.finite() && from.0.finite() && from.1.finite(),
        to2.0.finite() && to2.1.finite() && from2.0.finite() && from2.1.finite(),
        to2.0.value() - to.0.value() == from2.0.value() - from.0.value(),
        to2.1.value() - to.1.value() == from2.1.value() - from.1.value(),
    ensures
        ({
            let (d, e) = (offset_to(to, from), offset_to(to2, from2));
            &&& d.0 == e.0 || (d.0.zero() && e.0.zero())
            &&& d.1 == e.1 || (d.1.zero() && e.1.zero())
            &&& length(d) == length(e)
        }),
{
    let (d, e) = (offset_to(to, from), offset_to(to2, from2));
    lemma_same_difference(to.0, from.0, to2.0, from2.0);
    lemma_same_difference(to.1, from.1, to2.1, from2.1);
}

/// Equal differences are rounded alike.
proof fn lemma_same_difference(a: Single, b: Single, c: Single, d: Single)
    requires
        a.finite() && b.finite() && c.finite() && d.finite(),
        a.value() - b.value() == c.value() - d.value(),
    ensures
        a.minus(b) == c.minus(d) || (a.minus(b).zero() && c.minus(d).zero()),
        a.minus(b).times(a.minus(b)) == c.minus(d).times(c.minus(d)),
{
    law_negation(b);
    law_negation(d);
    let (x, y) = (a.minus(b), c.minus(d));
    lemma_negated_finite(b);
    lemma_negated_finite(d);
    lemma_sum_by_value(a, b.negated());
    lemma_sum_by_value(c, d.negated());
    if a.value() - b.value() == 0 {
        lemma_zero_squared(x);
        lemma_zero_squared(y);
    } else {
        assert(x == y);
    }
}

proof fn lemma_negated_finite(a: Single)
    requires
        a.finite(),
    ensures
        a.negated().finite(),
{
}

/// The square of a zero of either sign.
proof fn lemma_zero_squared(x: Single)
    requires
        x.zero(),
    ensures
        x.times(x) == (Single { bits: ZERO_BITS }),
{
    law_products_ordered(x, x, x);
    law_zero_absorbs(x, x);
    let p = x.times(x);
    assert(p.magnitude() == 0 && !p.negative());
}

/// A sum depends on the exact sum alone, but for the sign of a zero.
proof fn lemma_sum_by_value(a: Single, b: Single)
    requires
        a.finite() && b.finite(),
    ensures
        a.value() + b.value() == 0 ==> a.plus(b).zero(),
        a.value() + b.value() != 0 ==> a.plus(b) == signed(
            a.value() + b.value() < 0,
            nearest(absolute(a.value() + b.value()), 1),
        ),
{
    reveal(Single::plus);
}

/// The heading error is the turn that is left: the bearing less the yaw, up to
/// whole turns and rounding, so that turning by it faces the waypoint.
pub proof fn law_turning_by_the_error_faces(bearing: Single, est_yaw: Single)
    requires
        bearing.magnitude() <= PI_BITS,
        est_yaw.magnitude() <= PI_BITS,
    ensures
        same_angle(
            exact(est_yaw) + exact(heading_error(bearing, est_yaw)),
            exact(bearing),
            1 as real / 524_288 as real,
        ),
{
    let pi = Single { bits: PI_BITS };
    let turn = Single { bits: TWO_PI_BITS };
    let te = exact(turn);
    lemma_turn();
    lemma2_to64();
    lemma_turn_numbers();
    law_negation(est_yaw);
    law_negation(turn);
    law_negation(pi);
    law_negation_exact(est_yaw);
    law_negation_exact(turn);
    lemma_within_half_turn(bearing);
    lemma_within_half_turn(est_yaw);
    lemma_absolute(bearing);
    lemma_absolute(est_yaw);
    lemma_absolute(turn);
    lemma_magnitudes_ordered(bearing.magnitude(), PI_BITS as int);
    lemma_magnitudes_ordered(est_yaw.magnitude(), PI_BITS as int);
    let e = bearing.minus(est_yaw);
    lemma_sum_within(bearing, est_yaw.negated(), TWO_PI_BITS as int);
    law_sum_error(bearing, est_yaw.negated(), 3);
    // at most one turn off
    let down = turned_down(e);
    lemma_one_turn_down(e);
    let m = if pi.below(e) {
        lemma_sum_within(e, turn.negated(), PI_BITS as int);
        lemma_turned_once(e);
        lemma_down_bound(e);
        law_sum_error(e, turn.negated(), 4);
        1int
    } else {
        0int
    };
    assert(within(exact(down), exact(e) - if m == 1 { te } else { 0 as real }, slack(4)));
    // at most one turn on
    let up = turned_up(down);
    let n = if down.below(pi.negated()) {
        lemma_turned_up_once(down);
        lemma_down_bound(down);
        law_sum_error(down, turn, 4);
        1int
    } else {
        0int
    };
    assert(within(exact(up), exact(down) + if n == 1 { te } else { 0 as real }, slack(4)));
    lemma_turns(n - m, te);
    assert(turned_back(
        exact(est_yaw) + exact(up),
        n - m,
        exact(bearing),
        1 as real / 524_288 as real,
    ));
}

/// An angle of at most half a turn, as a real.
proof fn lemma_within_half_turn(a: Single)
    requires
        a.magnitude() <= PI_BITS,
    ensures
        -(16 as real) <= 5 as real * exact(a) <= 16 as real,
{
    lemma_turn_numbers();
    lemma_size_as_real(a, PI_BITS as int);
}

/// A number of at most a turn, as a real.
proof fn lemma_down_bound(a: Single)
    requires
        a.magnitude() <= TWO_PI_BITS,
    ensures
        -(32 as real) <= 5 as real * exact(a) <= 32 as real,
{
    lemma_turn_numbers();
    lemma_size_as_real(a, TWO_PI_BITS as int);
}

/// A number no larger than a pattern, as a real.
proof fn lemma_size_as_real(a: Single, m: int)
    requires
        0 <= m < 0x7f80_0000,
        a.magnitude() <= m,
    ensures
        -exact(Single { bits: m as u32 }) <= exact(a) <= exact(Single { bits: m as u32 }),
{
    lemma_absolute(a);
    lemma_magnitudes_ordered(a.magnitude(), m);
    lemma_pow2_pos(149);
    let (x, y, o) = (a.value() as real, magnitude_value(m) as real, one() as real);
    assert(-(y / o) <= x / o <= y / o) by (nonlinear_arith)
        requires
            -y <= x <= y,
            o > 0 as real,
    ;
}

/// One turn is taken off.
proof fn lemma_turned_once(e: Single)
    requires
        e.magnitude() <= TWO_PI_BITS,
        (Single { bits: PI_BITS }).below(e),
    ensures
        turned_down(e) == e.minus(Single { bits: TWO_PI_BITS }),
        e.minus(Single { bits: TWO_PI_BITS }).finite(),
{
    let pi = Single { bits: PI_BITS };
    let turn = Single { bits: TWO_PI_BITS };
    lemma_turn();
    lemma_absolute(e);
    lemma_absolute(pi);
    lemma_absolute(turn);
    lemma_magnitudes_ordered(e.magnitude(), TWO_PI_BITS as int);
    let next = e.minus(turn);
    law_negation(turn);
    lemma_sum_within(e, turn.negated(), PI_BITS as int);
    assert(next.below(e));
    assert(turned_down(next) == next);
}

/// One turn is added.
proof fn lemma_turned_up_once(d: Single)
    requires
        d.magnitude() <= TWO_PI_BITS,
        d.below((Single { bits: PI_BITS }).negated()),
    ensures
        turned_up(d) == d.plus(Single { bits: TWO_PI_BITS }),
{
    let pi = Single { bits: PI_BITS };
    let turn = Single { bits: TWO_PI_BITS };
    lemma_turn();
    lemma_absolute(d);
    lemma_absolute(turn);
    law_negation(pi);
    lemma_magnitudes_ordered(d.magnitude(), TWO_PI_BITS as int);
    let next = d.plus(turn);
    lemma_sum_within(d, turn, PI_BITS as int);
    assert(d.below(next));
    assert(turned_up(next) == next);
}

/// A tick turns toward the waypoint and not past it: the turn lies between
/// nothing and the heading error.
pub proof fn law_turns_toward(
    err: Single,
    dist: Single,
    lin_speed: Single,
    yaw_speed: Single,
    dt: Single,
)
    requires
        !err.nan(),
        yaw_speed.negated().times(dt).at_most(Single { bits: ZERO_BITS }),
        (Single { bits: ZERO_BITS }).at_most(yaw_speed.times(dt)),
    ensures
        ({
            let dyaw = steering(err, dist, lin_speed, yaw_speed, dt).dyaw;
            &&& err.value() >= 0 ==> 0 <= dyaw.value() <= err.value()
            &&& err.value() <= 0 ==> err.value() <= dyaw.value() <= 0
        }),
{
    assert(magnitude_value(0) == 0);
}

} // verus!
