//! Poses in the plane.
//!
//! A pose is `(x, y, yaw)`. Turning by an angle takes its cosine and sine, a
//! [`Heading`], which [`crate::function`] says more about.

use vstd::arithmetic::power2::{lemma2_to64, lemma_pow2_adds, lemma_pow2_pos};
use vstd::prelude::*;
use crate::accuracy::{exact, law_negation_exact, law_product_error, law_sum_error, limit, slack, within};
use crate::conversion::{wrap_pi, wrapped_angle};
use crate::function::{apply, heading_of, is_trig};
use crate::single::Single;
use crate::turning::{law_wrapping_is_same_angle, lemma_negated, lemma_shortened, lemma_turned_back, on_circle, product, same_angle, turned_back};

verus! {

/// Pose in SE(2): `(x, y, yaw)`.
pub type Pose2 = (Single, Single, Single);

/// Cosine and sine of an angle.
#[derive(Clone, Copy, Debug, PartialEq, Eq, Structural)]
pub struct Heading {
    pub cos: Single,
    pub sin: Single,
}

/// `(x, y)` moved by `(dx, dy)` turned by `h`.
pub open spec fn carried(x: Single, y: Single, h: Heading, dx: Single, dy: Single) -> (
    Single,
    Single,
) {
    (
        x.plus(h.cos.times(dx)).minus(h.sin.times(dy)),
        y.plus(h.sin.times(dx)).plus(h.cos.times(dy)),
    )
}

/// The point `range` away from `(x, y)` in direction `h`.
pub open spec fn beam_end(x: Single, y: Single, h: Heading, range: Single) -> (Single, Single) {
    (x.plus(range.times(h.cos)), y.plus(range.times(h.sin)))
}

/// The pose of `body` in the frame of `anchor`, whose yaw has heading `h`.
pub open spec fn local_pose(anchor: Pose2, h: Heading, body: Pose2) -> Pose2 {
    let dx = body.0.minus(anchor.0);
    let dy = body.1.minus(anchor.1);
    (
        h.cos.times(dx).plus(h.sin.times(dy)),
        h.sin.negated().times(dx).plus(h.cos.times(dy)),
        wrapped_angle(body.2.minus(anchor.2)),
    )
}

impl Heading {
    /// `(x, y)` moved by `(dx, dy)` turned by this heading.
    pub fn carry(&self, x: Single, y: Single, dx: Single, dy: Single) -> (r: (Single, Single))
        ensures
            r == carried(x, y, *self, dx, dy),
    {
        (
            x.add(self.cos.mul(dx)).sub(self.sin.mul(dy)),
            y.add(self.sin.mul(dx)).add(self.cos.mul(dy)),
        )
    }

    /// The point `range` away from `(x, y)` in this direction.
    pub fn beam_end(&self, x: Single, y: Single, range: Single) -> (r: (Single, Single))
        ensures
            r == beam_end(x, y, *self, range),
    {
        (x.add(range.mul(self.cos)), y.add(range.mul(self.sin)))
    }
}

/// The pose of `body_world` in the frame of `anchor`: composing the anchor with
/// it gives back `body_world`.
pub fn world_to_local<T: Fn(Single) -> Heading>(
    anchor: Pose2,
    body_world: Pose2,
    trig: &T,
) -> (r: Pose2)
    requires
        is_trig(*trig),
    ensures
        r == local_pose(anchor, heading_of(*trig, anchor.2), body_world),
{
    let heading = apply(trig, anchor.2);
    let (ax, ay, ayaw) = anchor;
    let (wx, wy, wyaw) = body_world;
    let dx = wx.sub(ax);
    let dy = wy.sub(ay);
    let xl = heading.cos.mul(dx).add(heading.sin.mul(dy));
    let yl = heading.sin.neg().mul(dx).add(heading.cos.mul(dy));
    (xl, yl, wrap_pi(wyaw.sub(ayaw)))
}

// ---- Laws -------------------------------------------------------------------

/// Bounds and errors of binades, by the first of them.
pub proof fn lemma_binades(k: nat)
    ensures
        slack(k) > 0 as real,
        limit(k) == 33_554_432 as real * slack(k),
        limit(k + 1) == 2 as real * limit(k) && slack(k + 1) == 2 as real * slack(k),
        limit(k + 2) == 4 as real * limit(k) && slack(k + 2) == 4 as real * slack(k),
        limit(k + 3) == 8 as real * limit(k) && slack(k + 3) == 8 as real * slack(k),
        limit(k + 4) == 16 as real * limit(k) && slack(k + 4) == 16 as real * slack(k),
        limit(k + 5) == 32 as real * limit(k) && slack(k + 5) == 32 as real * slack(k),
        limit(k + 6) == 64 as real * limit(k) && slack(k + 6) == 64 as real * slack(k),
{
    lemma2_to64();
    lemma_pow2_pos(k);
    lemma_pow2_adds(k, 1);
    lemma_pow2_adds(k, 2);
    lemma_pow2_adds(k, 3);
    lemma_pow2_adds(k, 4);
    lemma_pow2_adds(k, 5);
    lemma_pow2_adds(k, 6);
}

/// A product with a cosine or a sine.
pub proof fn lemma_turned_product(c: Single, x: Single, k: nat)
    requires
        c.finite() && x.finite(),
        -(1 as real) <= exact(c) <= 1 as real,
        -limit(k) <= exact(x) <= limit(k),
        k <= 100,
    ensures
        c.times(x).finite(),
        within(exact(c.times(x)), product(exact(c), exact(x)), slack(k)),
        -limit(k) <= product(exact(c), exact(x)) <= limit(k),
{
    lemma_shortened(exact(c), exact(x), limit(k));
    reveal(product);
    law_product_error(c, x, k);
}

/// The offset of `b` from `a`.
pub proof fn lemma_offset(a: Single, b: Single, k: nat)
    requires
        a.finite() && b.finite(),
        -limit(k) <= exact(a) <= limit(k),
        -limit(k) <= exact(b) <= limit(k),
        k <= 90,
    ensures
        b.minus(a).finite(),
        within(exact(b.minus(a)), exact(b) - exact(a), 2 as real * slack(k)),
        -limit(k + 2) <= exact(b.minus(a)) <= limit(k + 2),
{
    lemma_binades(k);
    law_negation_exact(a);
    law_sum_error(b, a.negated(), k + 1);
}

/// One coordinate of an offset in a turned frame.
pub proof fn lemma_local(p: Single, a: Single, q: Single, b: Single, k: nat)
    requires
        p.finite() && a.finite() && q.finite() && b.finite(),
        -(1 as real) <= exact(p) <= 1 as real,
        -(1 as real) <= exact(q) <= 1 as real,
        -limit(k + 2) <= exact(a) <= limit(k + 2),
        -limit(k + 2) <= exact(b) <= limit(k + 2),
        k <= 90,
    ensures
        p.times(a).plus(q.times(b)).finite(),
        within(
            exact(p.times(a).plus(q.times(b))),
            product(exact(p), exact(a)) + product(exact(q), exact(b)),
            24 as real * slack(k),
        ),
        -limit(k + 4) <= exact(p.times(a).plus(q.times(b))) <= limit(k + 4),
{
    lemma_binades(k);
    lemma_turned_product(p, a, k + 2);
    lemma_turned_product(q, b, k + 2);
    law_sum_error(p.times(a), q.times(b), k + 4);
}

/// One coordinate of a point that is carried.
pub proof fn lemma_carried(x: Single, p: Single, a: Single, q: Single, b: Single, k: nat)
    requires
        x.finite() && p.finite() && a.finite() && q.finite() && b.finite(),
        -(1 as real) <= exact(p) <= 1 as real,
        -(1 as real) <= exact(q) <= 1 as real,
        -limit(k) <= exact(x) <= limit(k),
        -limit(k + 4) <= exact(a) <= limit(k + 4),
        -limit(k + 4) <= exact(b) <= limit(k + 4),
        k <= 90,
    ensures
        ({
            let (pa, qb) = (product(exact(p), exact(a)), product(exact(q), exact(b)));
            let sum = x.plus(p.times(a));
            &&& sum.plus(q.times(b)).finite()
            &&& within(
                exact(sum.plus(q.times(b))),
                exact(x) + pa + qb,
                128 as real * slack(k),
            )
            &&& sum.minus(q.times(b)).finite()
            &&& within(
                exact(sum.minus(q.times(b))),
                exact(x) + pa - qb,
                128 as real * slack(k),
            )
        }),
{
    lemma_binades(k);
    lemma_turned_product(p, a, k + 4);
    lemma_turned_product(q, b, k + 4);
    let sum = x.plus(p.times(a));
    law_sum_error(x, p.times(a), k + 5);
    law_negation_exact(q.times(b));
    law_sum_error(sum, q.times(b), k + 6);
    law_sum_error(sum, q.times(b).negated(), k + 6);
}

/// Placing a local pose back gives the pose it was made of: the anchor composed
/// with the body's pose in the anchor's frame is the body's pose, up to
/// rounding. Positions of at most `2^k` come back within `2^k / 65536`, and the
/// sum of the yaws is the body's yaw up to whole turns and 2^-18.
pub proof fn law_local_pose_places_back(anchor: Pose2, h: Heading, body: Pose2, k: nat)
    requires
        on_circle(h),
        anchor.0.finite() && anchor.1.finite() && anchor.2.finite(),
        body.0.finite() && body.1.finite() && body.2.finite(),
        k <= 90,
        -limit(k) <= exact(anchor.0) <= limit(k),
        -limit(k) <= exact(anchor.1) <= limit(k),
        -limit(k) <= exact(body.0) <= limit(k),
        -limit(k) <= exact(body.1) <= limit(k),
        -(17 as real) <= 5 as real * exact(anchor.2) <= 17 as real,
        -(17 as real) <= 5 as real * exact(body.2) <= 17 as real,
    ensures
        ({
            let local = local_pose(anchor, h, body);
            let back = carried(anchor.0, anchor.1, h, local.0, local.1);
            &&& within(exact(back.0), exact(body.0), limit(k) / 65_536 as real)
            &&& within(exact(back.1), exact(body.1), limit(k) / 65_536 as real)
            &&& same_angle(
                exact(anchor.2) + exact(local.2),
                exact(body.2),
                1 as real / 262_144 as real,
            )
        }),
{
    let dx = body.0.minus(anchor.0);
    let dy = body.1.minus(anchor.1);
    let local = local_pose(anchor, h, body);
    let (c, s) = (exact(h.cos), exact(h.sin));
    lemma_binades(k);
    lemma_offset(anchor.0, body.0, k);
    lemma_offset(anchor.1, body.1, k);
    law_negation_exact(h.sin);
    lemma_local(h.cos, dx, h.sin, dy, k);
    lemma_local(h.sin.negated(), dx, h.cos, dy, k);
    lemma_negated(s, exact(dx));
    let (x, y) = (exact(local.0), exact(local.1));
    lemma_turned_back(c, s, exact(dx), exact(dy), x, y, slack(k));
    lemma_carried(anchor.0, h.cos, local.0, h.sin, local.1, k);
    lemma_carried(anchor.1, h.sin, local.0, h.cos, local.1, k);
    lemma_local_yaw(anchor.2, body.2);
}

/// The yaw in the frame of another one.
pub proof fn lemma_local_yaw(a: Single, b: Single)
    requires
        a.finite() && b.finite(),
        -(17 as real) <= 5 as real * exact(a) <= 17 as real,
        -(17 as real) <= 5 as real * exact(b) <= 17 as real,
    ensures
        same_angle(
            exact(a) + exact(wrapped_angle(b.minus(a))),
            exact(b),
            1 as real / 262_144 as real,
        ),
{
    let d = b.minus(a);
    lemma2_to64();
    law_negation_exact(a);
    law_sum_error(b, a.negated(), 3);
    law_wrapping_is_same_angle(d);
    let w = exact(wrapped_angle(d));
    let n = choose|n: int| #[trigger] turned_back(w, n, exact(d), 1 as real / 524_288 as real);
    assert(turned_back(exact(a) + w, n, exact(b), 1 as real / 262_144 as real));
}

} // verus!
