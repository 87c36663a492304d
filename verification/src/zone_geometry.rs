//! What the zone lookup of a mount looks like, for cosines, sines and
//! directions that are as accurate as one expects of them.
//!
//! The lookup takes trigonometry from its caller. These laws say what follows
//! for it from the accuracy of what was taken, with all rounding counted in.

use vstd::arithmetic::power2::{lemma2_to64, lemma_pow2_adds, lemma_pow2_pos, pow2};
use vstd::prelude::*;
use crate::accuracy::{exact, law_negation_exact, law_product_error, law_quotient_error, law_root_error, law_sum_error, law_whole_error, within};
use crate::arith::{absolute, law_products_ordered, lemma_absolute, one, zero};
use crate::conversion::{rounded, TWO_PI_BITS};
use crate::function::{angle_to, heading_of};
use crate::mount::{horizontal, is_lookup, mounted_direction, zone_angle, zone_direction, Direction, TofMount, ZoneLut, OUTER_ANGLE_BITS, STEPS_BITS};
use crate::pose::Heading;
use crate::rounding::lemma_nearest_in_range;
use crate::single::{magnitude_value, Single, TWO_BITS};
use crate::turning::{on_circle, product, same_angle, squared, turned_back, lemma_associates, lemma_commutes, lemma_difference_of_squares, lemma_distributes, lemma_drift, lemma_negated, lemma_plain, lemma_shortened, lemma_side, lemma_sign, lemma_square, lemma_turn_identity};

verus! {

/// The angles of zone `k` on a mount have accurate cosines and sines.
pub open spec fn accurate<T: Fn(Single) -> Heading>(trig: T, mount: TofMount, k: int) -> bool {
    &&& on_circle(heading_of(trig, mount.pitch_rad))
    &&& on_circle(heading_of(trig, mount.yaw_rad))
    &&& on_circle(heading_of(trig, zone_angle(k / 8)))
    &&& on_circle(heading_of(trig, zone_angle(k % 8)))
}

// ---- Turning a vector -------------------------------------------------------

/// A turned vector keeps its length.
proof fn lemma_rotation(c: real, s: real, a: real, b: real, x: real, y: real)
    requires
        -(1 as real) <= c <= 1 as real,
        -(1 as real) <= s <= 1 as real,
        within(squared(c) + squared(s), 1 as real, 1 as real / 1_048_576 as real),
        4 as real * (squared(a) + squared(b)) <= 5 as real,
        within(x, product(c, a) - product(s, b), 1 as real / 4_194_304 as real),
        within(y, product(s, a) + product(c, b), 1 as real / 4_194_304 as real),
    ensures
        within(
            squared(x) + squared(y),
            squared(a) + squared(b),
            1 as real / 131_072 as real,
        ),
{
    let h = 5 as real / 4 as real;
    lemma_side(a, b);
    lemma_shortened(c, a, h);
    lemma_shortened(s, b, h);
    lemma_shortened(s, a, h);
    lemma_shortened(c, b, h);
    lemma_drift(product(c, a) - product(s, b), x);
    lemma_drift(product(s, a) + product(c, b), y);
    lemma_turn_identity(c, s, a, b);
    let l = squared(a) + squared(b);
    let m = squared(c) + squared(s);
    lemma_square(a);
    lemma_square(b);
    // the factor is one, up to a millionth
    let u = (m - 1 as real) * 1_048_576 as real;
    lemma_shortened(u, l, h);
    lemma_associates(1_048_576 as real, m - 1 as real, l);
    lemma_plain(m - 1 as real);
    lemma_plain(product(m - 1 as real, l));
    lemma_distributes(l, m, -(1 as real));
    lemma_negated(1 as real, l);
    lemma_plain(l);
}

/// `p * a + q * b` and `p * a - q * b`, rounded.
proof fn lemma_dot(p: Single, a: Single, q: Single, b: Single)
    requires
        p.finite() && a.finite() && q.finite() && b.finite(),
        -(1 as real) <= exact(p) <= 1 as real,
        -(1 as real) <= exact(q) <= 1 as real,
        -(5 as real / 4 as real) <= exact(a) <= 5 as real / 4 as real,
        -(5 as real / 4 as real) <= exact(b) <= 5 as real / 4 as real,
    ensures
        p.times(a).plus(q.times(b)).finite(),
        within(
            exact(p.times(a).plus(q.times(b))),
            product(exact(p), exact(a)) + product(exact(q), exact(b)),
            1 as real / 4_194_304 as real,
        ),
        p.times(a).minus(q.times(b)).finite(),
        within(
            exact(p.times(a).minus(q.times(b))),
            product(exact(p), exact(a)) - product(exact(q), exact(b)),
            1 as real / 4_194_304 as real,
        ),
{
    lemma2_to64();
    lemma_rounded_product(p, a);
    lemma_rounded_product(q, b);
    lemma_shortened(exact(p), exact(a), 5 as real / 4 as real);
    lemma_shortened(exact(q), exact(b), 5 as real / 4 as real);
    law_negation_exact(q.times(b));
    law_sum_error(p.times(a), q.times(b), 2);
    law_sum_error(p.times(a), q.times(b).negated(), 2);
}

/// A product with a factor of at most one.
proof fn lemma_rounded_product(p: Single, a: Single)
    requires
        p.finite() && a.finite(),
        -(1 as real) <= exact(p) <= 1 as real,
        -(5 as real / 4 as real) <= exact(a) <= 5 as real / 4 as real,
    ensures
        p.times(a).finite(),
        within(
            exact(p.times(a)),
            product(exact(p), exact(a)),
            1 as real / 16_777_216 as real,
        ),
{
    lemma2_to64();
    lemma_shortened(exact(p), exact(a), 5 as real / 4 as real);
    reveal(product);
    law_product_error(p, a, 1);
}

/// A vector turned by a heading.
proof fn lemma_turned(h: Heading, a: Single, b: Single)
    requires
        on_circle(h),
        a.finite() && b.finite(),
        4 as real * (squared(exact(a)) + squared(exact(b))) <= 5 as real,
    ensures
        ({
            let x = h.cos.times(a).minus(h.sin.times(b));
            let y = h.sin.times(a).plus(h.cos.times(b));
            &&& x.finite() && y.finite()
            &&& within(
                squared(exact(x)) + squared(exact(y)),
                squared(exact(a)) + squared(exact(b)),
                1 as real / 131_072 as real,
            )
        }),
{
    lemma_side(exact(a), exact(b));
    lemma_dot(h.cos, a, h.sin, b);
    lemma_dot(h.sin, a, h.cos, b);
    lemma_rotation(
        exact(h.cos),
        exact(h.sin),
        exact(a),
        exact(b),
        exact(h.cos.times(a).minus(h.sin.times(b))),
        exact(h.sin.times(a).plus(h.cos.times(b))),
    );
}

// ---- Directions -------------------------------------------------------------

/// A zone's direction before the mount's yaw.
spec fn unyawed(pitch: Heading, el: Heading, az: Heading) -> Direction {
    let cx = el.cos.times(az.cos);
    Direction {
        x: pitch.cos.times(cx).plus(pitch.sin.times(el.sin)),
        y: el.cos.times(az.sin),
        z: pitch.sin.negated().times(cx).plus(pitch.cos.times(el.sin)),
    }
}

/// A zone's direction in the sensor frame has unit length.
proof fn lemma_sensed(el: Heading, az: Heading)
    requires
        on_circle(el),
        on_circle(az),
    ensures
        ({
            let (cx, cy) = (el.cos.times(az.cos), el.cos.times(az.sin));
            &&& cx.finite() && cy.finite()
            &&& within(exact(cy), product(exact(el.cos), exact(az.sin)), 1 as real / 16_777_216 as real)
            &&& within(
                squared(exact(cx)) + squared(exact(cy)) + squared(exact(el.sin)),
                1 as real,
                1 as real / 100_000 as real,
            )
        }),
{
    let (ec, ac, sa) = (exact(el.cos), exact(az.cos), exact(az.sin));
    lemma_rounded_product(el.cos, az.cos);
    lemma_rounded_product(el.cos, az.sin);
    lemma_commutes(ec, ac);
    lemma_commutes(ec, sa);
    let none = 0 as real;
    lemma_plain(none);
    lemma_plain(ac);
    lemma_plain(sa);
    lemma_commutes(none, ac);
    lemma_commutes(none, sa);
    lemma_square(exact(el.sin));
    lemma_rotation(
        ac,
        sa,
        ec,
        none,
        exact(el.cos.times(az.cos)),
        exact(el.cos.times(az.sin)),
    );
}

/// Before the mount's yaw a direction has unit length.
proof fn lemma_unyawed(pitch: Heading, el: Heading, az: Heading)
    requires
        on_circle(pitch),
        on_circle(el),
        on_circle(az),
    ensures
        ({
            let d = unyawed(pitch, el, az);
            &&& d.x.finite() && d.y.finite() && d.z.finite()
            &&& within(
                squared(exact(d.x)) + squared(exact(d.y)) + squared(exact(d.z)),
                1 as real,
                1 as real / 50_000 as real,
            )
            &&& 4 as real * (squared(exact(d.x)) + squared(exact(d.y))) <= 5 as real
        }),
{
    lemma_sensed(el, az);
    let (cx, cy) = (el.cos.times(az.cos), el.cos.times(az.sin));
    let (xe, es) = (exact(cx), exact(el.sin));
    let (pc, ps) = (exact(pitch.cos), exact(pitch.sin));
    lemma_square(exact(cy));
    lemma_side(xe, es);
    law_negation_exact(pitch.sin);
    lemma_dot(pitch.cos, cx, pitch.sin, el.sin);
    lemma_dot(pitch.sin.negated(), cx, pitch.cos, el.sin);
    let d = unyawed(pitch, el, az);
    lemma_square(ps);
    lemma_negated(ps, es);
    lemma_rotation(pc, -ps, xe, es, exact(d.x), exact(d.z));
    lemma_square(exact(d.z));
}

/// A zone's direction has unit length, and the yaw keeps its level part.
proof fn lemma_direction(pitch: Heading, yaw: Heading, el: Heading, az: Heading)
    requires
        on_circle(pitch),
        on_circle(yaw),
        on_circle(el),
        on_circle(az),
    ensures
        ({
            let d = zone_direction(pitch, yaw, el, az);
            let u = unyawed(pitch, el, az);
            &&& d.x.finite() && d.y.finite() && d.z.finite()
            &&& d.z == u.z
            &&& within(
                squared(exact(d.x)) + squared(exact(d.y)),
                squared(exact(u.x)) + squared(exact(u.y)),
                1 as real / 131_072 as real,
            )
            &&& within(
                squared(exact(d.x)) + squared(exact(d.y)) + squared(exact(d.z)),
                1 as real,
                1 as real / 30_000 as real,
            )
            &&& 4 as real * (squared(exact(d.x)) + squared(exact(d.y))) <= 5 as real
        }),
{
    lemma_unyawed(pitch, el, az);
    let u = unyawed(pitch, el, az);
    lemma_turned(yaw, u.x, u.y);
    lemma_square(exact(u.z));
}

/// A rounded square.
proof fn lemma_rounded_square(x: Single)
    requires
        x.finite(),
        4 as real * squared(exact(x)) <= 5 as real,
    ensures
        x.times(x).finite(),
        within(exact(x.times(x)), squared(exact(x)), 1 as real / 16_777_216 as real),
        x.times(x).value() >= 0,
{
    lemma2_to64();
    lemma_square(exact(x));
    law_products_ordered(x, x, x);
    lemma_absolute(x.times(x));
    reveal(product);
    law_product_error(x, x, 1);
}

/// A sum of two that are not negative.
proof fn lemma_sum_not_negative(p: Single, q: Single)
    requires
        p.finite() && q.finite(),
        p.value() >= 0 && q.value() >= 0,
        p.plus(q).finite(),
    ensures
        0 as real <= exact(p.plus(q)),
{
    let s = p.plus(q);
    assert(s.value() >= 0) by {
        reveal(Single::plus);
        lemma_nearest_in_range(absolute(p.value() + q.value()), 1);
        assert(magnitude_value(0) == 0);
        lemma_absolute(s);
    }
    lemma_pow2_pos(149);
    let (v, o) = (s.value(), one());
    assert(0 as real <= v as real / o as real) by (nonlinear_arith)
        requires
            v >= 0,
            o > 0,
    ;
}

/// A rounded root, squared.
proof fn lemma_rounded_root(s: Single)
    requires
        s.finite(),
        0 as real <= exact(s) <= 4 as real,
    ensures
        s.root().finite(),
        0 as real <= exact(s.root()),
        within(squared(exact(s.root())), exact(s), 1 as real / 2_097_152 as real),
{
    lemma2_to64();
    reveal(product);
    law_root_error(s);
}

/// The level part of a direction, squared.
proof fn lemma_level(d: Direction)
    requires
        d.x.finite() && d.y.finite(),
        4 as real * (squared(exact(d.x)) + squared(exact(d.y))) <= 5 as real,
    ensures
        horizontal(d).finite(),
        0 as real <= exact(horizontal(d)),
        within(
            squared(exact(horizontal(d))),
            squared(exact(d.x)) + squared(exact(d.y)),
            1 as real / 1_000_000 as real,
        ),
{
    lemma2_to64();
    lemma_square(exact(d.x));
    lemma_square(exact(d.y));
    lemma_rounded_square(d.x);
    lemma_rounded_square(d.y);
    let (p, q) = (d.x.times(d.x), d.y.times(d.y));
    law_sum_error(p, q, 2);
    lemma_sum_not_negative(p, q);
    lemma_rounded_root(p.plus(q));
}

// ---- Laws -------------------------------------------------------------------

/// Every direction of the lookup has unit length: the squares of its level and
/// its downward part add up to one, up to a ten-thousandth.
pub proof fn law_directions_have_unit_length<T: Fn(Single) -> Heading>(
    trig: T,
    mount: TofMount,
    k: int,
)
    requires
        accurate(trig, mount, k),
    ensures
        ({
            let d = mounted_direction(trig, mount, k);
            within(
                squared(exact(horizontal(d))) + squared(exact(d.z.negated())),
                1 as real,
                1 as real / 10_000 as real,
            )
        }),
{
    let d = mounted_direction(trig, mount, k);
    lemma_direction(
        heading_of(trig, mount.pitch_rad),
        heading_of(trig, mount.yaw_rad),
        heading_of(trig, zone_angle(k / 8)),
        heading_of(trig, zone_angle(k % 8)),
    );
    lemma_level(d);
    law_negation_exact(d.z);
    lemma_square(exact(d.z));
}

/// The roots of squares that are close.
proof fn lemma_close_roots(p: real, q: real)
    requires
        0 as real <= q,
        1 as real / 4 as real <= p,
        within(squared(p), squared(q), 1 as real / 50_000 as real),
    ensures
        within(p, q, 1 as real / 10_000 as real),
{
    // the difference of the squares is at least a quarter of that of the numbers
    lemma_difference_of_squares(p, q);
    lemma_difference_of_squares(q, p);
    let t = 1 as real / 4 as real;
    let w = p + q + -t;
    if p > q {
        lemma_sign(w, p + -q);
        lemma_distributes(p + -q, w, t);
        assert(w + t == p + q);
        lemma_quarter(p + -q);
    } else {
        lemma_sign(w, q + -p);
        lemma_distributes(q + -p, w, t);
        assert(w + t == q + p);
        lemma_quarter(q + -p);
    }
}

proof fn lemma_quarter(x: real)
    ensures
        product(1 as real / 4 as real, x) == x / 4 as real,
{
    reveal(product);
}

/// A mount's yaw keeps the elevation of every beam: the downward part is the
/// same, and the level part up to rounding, unless the beam looks almost
/// straight up or down, where its square is the same up to rounding.
pub proof fn law_yaw_keeps_elevation<T: Fn(Single) -> Heading>(
    trig: T,
    mount: TofMount,
    yaw_rad: Single,
    k: int,
)
    requires
        accurate(trig, mount, k),
        on_circle(heading_of(trig, yaw_rad)),
    ensures
        ({
            let d = mounted_direction(trig, mount, k);
            let e = mounted_direction(trig, TofMount { yaw_rad, ..mount }, k);
            &&& e.z == d.z
            &&& within(
                squared(exact(horizontal(e))),
                squared(exact(horizontal(d))),
                1 as real / 50_000 as real,
            )
            &&& 1 as real / 4 as real <= exact(horizontal(d)) ==> within(
                exact(horizontal(e)),
                exact(horizontal(d)),
                1 as real / 10_000 as real,
            )
        }),
{
    let d = mounted_direction(trig, mount, k);
    let e = mounted_direction(trig, TofMount { yaw_rad, ..mount }, k);
    let pitch = heading_of(trig, mount.pitch_rad);
    let el = heading_of(trig, zone_angle(k / 8));
    let az = heading_of(trig, zone_angle(k % 8));
    lemma_direction(pitch, heading_of(trig, mount.yaw_rad), el, az);
    lemma_direction(pitch, heading_of(trig, yaw_rad), el, az);
    lemma_level(d);
    lemma_level(e);
    if 1 as real / 4 as real <= exact(horizontal(d)) {
        lemma_close_roots(exact(horizontal(d)), exact(horizontal(e)));
    }
}

/// A vector that is neither too short to have a direction nor longer than a
/// level part can be.
pub open spec fn has_direction(run: Single, rise: Single) -> bool {
    let l = squared(exact(run)) + squared(exact(rise));
    &&& run.finite()
    &&& rise.finite()
    &&& 1 as real / 32 as real <= l
    &&& 4 as real * l <= 5 as real
}

/// Turning a vector by `angle` turns its direction by as much, up to `d`.
pub open spec fn turns_direction<T: Fn(Single) -> Heading, A: Fn((Single, Single)) -> Single>(
    trig: T,
    atan2: A,
    angle: Single,
    run: Single,
    rise: Single,
    d: real,
) -> bool {
    let h = heading_of(trig, angle);
    same_angle(
        exact(
            angle_to(
                atan2,
                h.sin.times(run).plus(h.cos.times(rise)),
                h.cos.times(run).minus(h.sin.times(rise)),
            ),
        ),
        exact(angle_to(atan2, rise, run)) + exact(angle),
        d,
    )
}

/// A mount's yaw shifts the azimuth of every beam: where turning a vector by
/// either yaw turns its direction by as much, the azimuths differ by the
/// difference of the yaws, up to whole turns.
pub proof fn law_yaw_shifts_azimuth<T: Fn(Single) -> Heading, A: Fn((Single, Single)) -> Single>(
    trig: T,
    atan2: A,
    mount: TofMount,
    yaw_rad: Single,
    k: int,
    tolerance: real,
)
    requires
        accurate(trig, mount, k),
        1 as real / 4 as real <= exact(horizontal(mounted_direction(trig, mount, k))),
        forall|run: Single, rise: Single|
            has_direction(run, rise) ==> #[trigger] turns_direction(
                trig,
                atan2,
                mount.yaw_rad,
                run,
                rise,
                tolerance,
            ),
        forall|run: Single, rise: Single|
            has_direction(run, rise) ==> #[trigger] turns_direction(
                trig,
                atan2,
                yaw_rad,
                run,
                rise,
                tolerance,
            ),
    ensures
        ({
            let d = mounted_direction(trig, mount, k);
            let e = mounted_direction(trig, TofMount { yaw_rad, ..mount }, k);
            same_angle(
                exact(angle_to(atan2, e.y, e.x)),
                exact(angle_to(atan2, d.y, d.x)) + (exact(yaw_rad) - exact(mount.yaw_rad)),
                2 as real * tolerance,
            )
        }),
{
    let d = mounted_direction(trig, mount, k);
    let e = mounted_direction(trig, TofMount { yaw_rad, ..mount }, k);
    let pitch = heading_of(trig, mount.pitch_rad);
    let el = heading_of(trig, zone_angle(k / 8));
    let az = heading_of(trig, zone_angle(k % 8));
    lemma_direction(pitch, heading_of(trig, mount.yaw_rad), el, az);
    lemma_unyawed(pitch, el, az);
    lemma_level(d);
    let u = unyawed(pitch, el, az);
    lemma_quarter_squared(exact(horizontal(d)));
    assert(has_direction(u.x, u.y));
    assert(turns_direction(trig, atan2, mount.yaw_rad, u.x, u.y, tolerance));
    assert(turns_direction(trig, atan2, yaw_rad, u.x, u.y, tolerance));
    let (a, b) = (exact(angle_to(atan2, d.y, d.x)), exact(angle_to(atan2, e.y, e.x)));
    let base = exact(angle_to(atan2, u.y, u.x));
    let turn = exact(Single { bits: TWO_PI_BITS });
    let m = choose|n: int| #[trigger] turned_back(a, n, base + exact(mount.yaw_rad), tolerance);
    let n = choose|n: int| #[trigger] turned_back(b, n, base + exact(yaw_rad), tolerance);
    assert((n - m) as real * turn == n as real * turn - m as real * turn) by (nonlinear_arith);
    assert(turned_back(
        b,
        n - m,
        a + (exact(yaw_rad) - exact(mount.yaw_rad)),
        2 as real * tolerance,
    ));
}

proof fn lemma_quarter_squared(x: real)
    requires
        1 as real / 4 as real <= x,
    ensures
        1 as real / 16 as real <= squared(x),
{
    let t = 1 as real / 4 as real;
    lemma_sign(x + -t, x + t);
    lemma_difference_of_squares(x, t);
    lemma_commutes(x + -t, x + t);
    lemma_quarter(t);
}

/// The numbers that zone angles are made of.
proof fn lemma_zone_numbers()
    ensures
        exact(Single { bits: OUTER_ANGLE_BITS }) == 11_529_695 as real / 33_554_432 as real,
        exact(Single { bits: TWO_BITS }) == 2 as real,
        exact(Single { bits: STEPS_BITS }) == 7 as real,
{
    let (a, b, c) = (OUTER_ANGLE_BITS as int, TWO_BITS as int, STEPS_BITS as int);
    assert(a / 0x80_0000 == 125 && a % 0x80_0000 == 0x2f_eddf);
    assert(b / 0x80_0000 == 128 && b % 0x80_0000 == 0);
    assert(c / 0x80_0000 == 129 && c % 0x80_0000 == 0x60_0000);
    assert(magnitude_value(a) == 0xaf_eddf * pow2(124));
    assert(magnitude_value(b) == 0x80_0000 * pow2(127));
    assert(magnitude_value(c) == 0xe0_0000 * pow2(128));
    lemma2_to64();
    lemma_pow2_adds(25, 124);
    lemma_pow2_adds(3, 124);
    lemma_pow2_adds(4, 124);
    lemma_pow2_pos(124);
    let (p, o) = (pow2(124) as int, one());
    assert(o == 33_554_432 * p);
    assert((0xaf_eddf * p) as real / o as real == 11_529_695 as real / 33_554_432 as real)
        by (nonlinear_arith)
        requires
            o == 33_554_432 * p,
            p > 0,
    ;
    assert((0x80_0000 * (8 * p)) as real / o as real == 2 as real) by (nonlinear_arith)
        requires
            o == 33_554_432 * p,
            p > 0,
    ;
    assert((0xe0_0000 * (16 * p)) as real / o as real == 7 as real) by (nonlinear_arith)
        requires
            o == 33_554_432 * p,
            p > 0,
    ;
}

/// The angle between two zones, about 0.098.
proof fn lemma_zone_step()
    ensures
        ({
            let outer = Single { bits: OUTER_ANGLE_BITS };
            let step = (Single { bits: TWO_BITS }).times(outer).over(Single { bits: STEPS_BITS });
            &&& step.finite()
            &&& 98 as real / 1000 as real <= exact(step) <= 99 as real / 1000 as real
        }),
{
    let outer = Single { bits: OUTER_ANGLE_BITS };
    let (two, seven) = (Single { bits: TWO_BITS }, Single { bits: STEPS_BITS });
    lemma2_to64();
    lemma_zone_numbers();
    law_product_error(two, outer, 0);
    law_quotient_error(two.times(outer), seven, 0);
}

/// The upper half of the zones has angles above zero, the lower half below.
proof fn lemma_zone_sides(k: int)
    requires
        0 <= k < 8,
    ensures
        zone_angle(k).finite(),
        k <= 3 ==> 1 as real / 32 as real <= exact(zone_angle(k)) <= 1 as real,
        k >= 4 ==> -(1 as real) <= exact(zone_angle(k)) <= -(1 as real / 32 as real),
{
    let outer = Single { bits: OUTER_ANGLE_BITS };
    let step = (Single { bits: TWO_BITS }).times(outer).over(Single { bits: STEPS_BITS });
    lemma2_to64();
    lemma_zone_numbers();
    lemma_zone_step();
    law_whole_error(k, 3);
    let (r, t) = (exact(rounded(k)), exact(step));
    lemma_many_steps(r, t, k);
    let w = rounded(k).times(step);
    assert(w.finite() && within(exact(w), product(r, t), 1 as real / 33_554_432 as real)) by {
        reveal(product);
        law_product_error(rounded(k), step, 0);
    }
    law_negation_exact(w);
    law_sum_error(outer, w.negated(), 0);
}

/// How far the steps reach.
proof fn lemma_many_steps(r: real, t: real, k: int)
    requires
        0 <= k < 8,
        within(r, k as real, 1 as real / 1000 as real),
        98 as real / 1000 as real <= t <= 99 as real / 1000 as real,
    ensures
        -(1 as real / 1000 as real) <= product(r, t) <= 7 as real / 10 as real,
        k <= 3 ==> product(r, t) <= 3 as real / 10 as real,
        k >= 4 ==> 39 as real / 100 as real <= product(r, t),
{
    let (low, mid, high, top) = (
        1 as real / 1000 as real,
        3001 as real / 1000 as real,
        3999 as real / 1000 as real,
        7001 as real / 1000 as real,
    );
    lemma_plain_steps(t);
    lemma_sign(r + low, t);
    lemma_distributes(t, r, low);
    lemma_sign(top + -r, t);
    lemma_distributes(t, top, -r);
    lemma_negated(r, t);
    if k <= 3 {
        lemma_sign(mid + -r, t);
        lemma_distributes(t, mid, -r);
    } else {
        lemma_sign(r + -high, t);
        lemma_distributes(t, r, -high);
        lemma_negated(high, t);
    }
}

/// Factors that are plain numbers of steps.
proof fn lemma_plain_steps(t: real)
    ensures
        product(1 as real / 1000 as real, t) == (1 as real / 1000 as real) * t,
        product(3001 as real / 1000 as real, t) == (3001 as real / 1000 as real) * t,
        product(3999 as real / 1000 as real, t) == (3999 as real / 1000 as real) * t,
        product(7001 as real / 1000 as real, t) == (7001 as real / 1000 as real) * t,
{
    reveal(product);
}

/// Cosines and sines that are accurate for small angles, and on the right side
/// of zero: for angles of at most one radian the cosine is at least a half, and
/// from a thirty-second on the sine is at least half of that.
pub open spec fn right_sided<T: Fn(Single) -> Heading>(trig: T) -> bool {
    forall|a: Single|
        a.finite() && -(1 as real) <= exact(a) <= 1 as real ==> {
            let h = #[trigger] heading_of(trig, a);
            &&& on_circle(h)
            &&& 1 as real / 2 as real <= exact(h.cos)
            &&& 1 as real / 32 as real <= exact(a) ==> 1 as real / 64 as real <= exact(h.sin)
            &&& exact(a) <= -(1 as real / 32 as real) ==> exact(h.sin) <= -(1 as real / 64 as real)
        }
}

/// Directions that are on the right side: left of ahead above zero, right of it
/// below.
pub open spec fn tells_sides<A: Fn((Single, Single)) -> Single>(atan2: A) -> bool {
    forall|rise: Single, run: Single|
        rise.finite() && run.finite() && -(2 as real) <= exact(run) <= 2 as real && -(2 as real)
            <= exact(rise) <= 2 as real ==> {
            let a = exact(#[trigger] angle_to(atan2, rise, run));
            &&& 1 as real / 256 as real <= exact(rise) ==> a > 0 as real
            &&& exact(rise) <= -(1 as real / 256 as real) ==> a < 0 as real
        }
}

/// No turn at all.
pub open spec fn is_level(h: Heading) -> bool {
    h.cos.finite() && h.sin.finite() && exact(h.cos) == 1 as real && exact(h.sin) == 0 as real
}

/// What a level mount leaves of a direction.
proof fn lemma_level_mount(pitch: Heading, yaw: Heading, el: Heading, az: Heading)
    requires
        is_level(pitch),
        is_level(yaw),
        on_circle(el),
        on_circle(az),
    ensures
        ({
            let d = zone_direction(pitch, yaw, el, az);
            &&& d.x.finite() && d.y.finite() && d.z.finite()
            &&& -(2 as real) <= exact(d.x) <= 2 as real
            &&& -(2 as real) <= exact(d.y) <= 2 as real
            &&& within(
                exact(d.x),
                exact(el.cos.times(az.cos)),
                1 as real / 1_000_000 as real,
            )
            &&& within(exact(d.z), exact(el.sin), 1 as real / 1_000_000 as real)
            &&& within(
                exact(d.y),
                product(exact(el.cos), exact(az.sin)),
                1 as real / 1_000_000 as real,
            )
        }),
{
    let (one, none) = (1 as real, 0 as real);
    lemma_plain(one);
    lemma_plain(none);
    lemma_direction(pitch, yaw, el, az);
    lemma_unyawed(pitch, el, az);
    lemma_sensed(el, az);
    let (cx, cy) = (el.cos.times(az.cos), el.cos.times(az.sin));
    let u = unyawed(pitch, el, az);
    lemma_square(exact(cy));
    lemma_side(exact(cx), exact(el.sin));
    law_negation_exact(pitch.sin);
    lemma_dot(pitch.sin.negated(), cx, pitch.cos, el.sin);
    lemma_plain(exact(cx));
    lemma_plain(exact(el.sin));
    lemma_side(exact(u.x), exact(u.y));
    lemma_dot(pitch.cos, cx, pitch.sin, el.sin);
    lemma_dot(yaw.sin, u.x, yaw.cos, u.y);
    lemma_dot(yaw.cos, u.x, yaw.sin, u.y);
    lemma_plain(exact(u.x));
    lemma_plain(exact(u.y));
    let d = zone_direction(pitch, yaw, el, az);
    lemma_side(exact(d.x), exact(d.y));
}

/// A product with a factor of at least a half keeps its side.
proof fn lemma_half_kept(c: real, s: real)
    requires
        1 as real / 2 as real <= c,
    ensures
        1 as real / 64 as real <= s ==> 1 as real / 128 as real <= product(c, s),
        s <= -(1 as real / 64 as real) ==> product(c, s) <= -(1 as real / 128 as real),
{
    let h = 1 as real / 2 as real;
    lemma_plain(s);
    lemma_distributes(s, c, -h);
    lemma_negated(h, s);
    if 0 as real <= s {
        lemma_sign(c + -h, s);
    } else {
        lemma_sign(c + -h, -s);
        lemma_negated(c + -h, s);
    }
}

/// On a level mount the upper four rows look up and the lower four down; the
/// left four columns look left and the right four right.
pub proof fn law_rows_and_columns<T: Fn(Single) -> Heading, A: Fn((Single, Single)) -> Single>(
    trig: T,
    atan2: A,
    mount: TofMount,
    k: int,
)
    requires
        right_sided(trig),
        tells_sides(atan2),
        is_level(heading_of(trig, mount.pitch_rad)),
        is_level(heading_of(trig, mount.yaw_rad)),
        0 <= k < 64,
    ensures
        ({
            let d = mounted_direction(trig, mount, k);
            let (down, azimuth) = (exact(d.z.negated()), exact(angle_to(atan2, d.y, d.x)));
            &&& k / 8 <= 3 ==> down < 0 as real
            &&& k / 8 >= 4 ==> down > 0 as real
            &&& k % 8 <= 3 ==> azimuth > 0 as real
            &&& k % 8 >= 4 ==> azimuth < 0 as real
        }),
{
    let d = mounted_direction(trig, mount, k);
    let (el, az) = (heading_of(trig, zone_angle(k / 8)), heading_of(trig, zone_angle(k % 8)));
    lemma_zone_sides(k / 8);
    lemma_zone_sides(k % 8);
    assert(heading_of(trig, zone_angle(k / 8)) == el);
    assert(heading_of(trig, zone_angle(k % 8)) == az);
    lemma_level_mount(
        heading_of(trig, mount.pitch_rad),
        heading_of(trig, mount.yaw_rad),
        el,
        az,
    );
    law_negation_exact(d.z);
    lemma_half_kept(exact(el.cos), exact(az.sin));
    let a = angle_to(atan2, d.y, d.x);
    assert(angle_to(atan2, d.y, d.x) == a);
}

/// A positive pitch is nose-down: a beam's downward part is the sine of the pitch
/// times what the beam looks ahead on a level mount, less the cosine times what
/// it looks up there. So a pitch with a sine above zero makes a beam that looks
/// ahead look lower.
pub proof fn law_pitch_is_nose_down<T: Fn(Single) -> Heading>(
    trig: T,
    mount: TofMount,
    level: TofMount,
    k: int,
)
    requires
        accurate(trig, mount, k),
        is_level(heading_of(trig, level.pitch_rad)),
        is_level(heading_of(trig, level.yaw_rad)),
    ensures
        ({
            let h = heading_of(trig, mount.pitch_rad);
            let d = mounted_direction(trig, mount, k);
            let flat = mounted_direction(trig, level, k);
            let (ahead, up) = (exact(flat.x), exact(flat.z));
            let down = exact(d.z.negated());
            &&& within(
                down,
                product(exact(h.sin), ahead) - product(exact(h.cos), up),
                1 as real / 100_000 as real,
            )
            &&& 1 as real / 1000 as real <= exact(h.sin) && 1 as real / 4 as real <= ahead
                ==> down > -product(exact(h.cos), up)
        }),
{
    let h = heading_of(trig, mount.pitch_rad);
    let (el, az) = (heading_of(trig, zone_angle(k / 8)), heading_of(trig, zone_angle(k % 8)));
    let d = mounted_direction(trig, mount, k);
    let flat = mounted_direction(trig, level, k);
    lemma_level_mount(
        heading_of(trig, level.pitch_rad),
        heading_of(trig, level.yaw_rad),
        el,
        az,
    );
    lemma_sensed(el, az);
    let cx = el.cos.times(az.cos);
    let (pc, ps) = (exact(h.cos), exact(h.sin));
    let (xe, es, ahead, up) = (exact(cx), exact(el.sin), exact(flat.x), exact(flat.z));
    lemma_square(exact(el.cos.times(az.sin)));
    lemma_side(xe, es);
    law_negation_exact(h.sin);
    law_negation_exact(d.z);
    lemma_dot(h.sin.negated(), cx, h.cos, el.sin);
    lemma_negated(ps, xe);
    // the parts on a level mount in place of those in the sensor frame
    let t = 1 as real / 1_000_000 as real;
    lemma_shortened(ps, ahead + -xe, t);
    lemma_distributes(ps, ahead, -xe);
    lemma_shortened(pc, up + -es, t);
    lemma_distributes(pc, up, -es);
    lemma_negated(pc, es);
    if 1 as real / 1000 as real <= ps && 1 as real / 4 as real <= ahead {
        let q = 1 as real / 4 as real;
        lemma_sign(ps, ahead + -q);
        lemma_distributes(ps, ahead, -q);
        lemma_negated(ps, q);
        lemma_commutes(ps, q);
        lemma_quarter(ps);
    }
}

/// Trigonometry as one expects it of a platform: cosines and sines on the unit
/// circle and on the right side, exact at zero, and directions that tell sides
/// and turn with a vector, to a twenty-thousandth, for angles of a turn or so.
pub open spec fn reliable<T: Fn(Single) -> Heading, A: Fn((Single, Single)) -> Single>(
    trig: T,
    atan2: A,
) -> bool {
    &&& forall|a: Single| a.finite() ==> on_circle(#[trigger] heading_of(trig, a))
    &&& right_sided(trig)
    &&& is_level(heading_of(trig, zero()))
    &&& tells_sides(atan2)
    &&& forall|angle: Single, run: Single, rise: Single|
        angle.finite() && -(7 as real) <= exact(angle) <= 7 as real && has_direction(run, rise)
            ==> #[trigger] turns_direction(
            trig,
            atan2,
            angle,
            run,
            rise,
            1 as real / 20_000 as real,
        )
}

/// The lookups of two mounts that differ in yaw alone, to a ten-thousandth: all
/// directions have unit length; the elevations are the same and the azimuths
/// are shifted by the difference of the yaws, for beams whose level part is at
/// least a quarter.
pub proof fn law_zone_lookups<T: Fn(Single) -> Heading, A: Fn((Single, Single)) -> Single>(
    trig: T,
    atan2: A,
    mount: TofMount,
    yaw_rad: Single,
    lut: ZoneLut,
    yawed: ZoneLut,
    k: int,
)
    requires
        reliable(trig, atan2),
        is_lookup(lut, trig, atan2, mount),
        is_lookup(yawed, trig, atan2, TofMount { yaw_rad, ..mount }),
        mount.pitch_rad.finite() && mount.yaw_rad.finite() && yaw_rad.finite(),
        -(7 as real) <= exact(mount.yaw_rad) <= 7 as real,
        -(7 as real) <= exact(yaw_rad) <= 7 as real,
        0 <= k < 64,
    ensures
        ({
            let d = 1 as real / 10_000 as real;
            let level = exact(lut.cos_elev@[k]);
            &&& within(squared(level) + squared(exact(lut.sin_below@[k])), 1 as real, d)
            &&& yawed.sin_below@[k] == lut.sin_below@[k]
            &&& 1 as real / 4 as real <= level ==> {
                &&& within(exact(yawed.cos_elev@[k]), level, d)
                &&& same_angle(
                    exact(yawed.angles_body@[k]),
                    exact(lut.angles_body@[k]) + (exact(yaw_rad) - exact(mount.yaw_rad)),
                    d,
                )
            }
        }),
{
    lemma_zone_sides(k / 8);
    lemma_zone_sides(k % 8);
    assert(accurate(trig, mount, k));
    law_directions_have_unit_length(trig, mount, k);
    law_yaw_keeps_elevation(trig, mount, yaw_rad, k);
    let level = exact(lut.cos_elev@[k]);
    if 1 as real / 4 as real <= level {
        law_yaw_shifts_azimuth(trig, atan2, mount, yaw_rad, k, 1 as real / 20_000 as real);
    }
}

/// The lookup of the default mount: the top rows look up and the bottom rows
/// down, the left columns left and the right columns right.
pub proof fn law_default_lookup<T: Fn(Single) -> Heading, A: Fn((Single, Single)) -> Single>(
    trig: T,
    atan2: A,
    mount: TofMount,
    lut: ZoneLut,
    k: int,
)
    requires
        reliable(trig, atan2),
        mount.pitch_rad == zero(),
        mount.yaw_rad == zero(),
        is_lookup(lut, trig, atan2, mount),
        0 <= k < 64,
    ensures
        k / 8 <= 3 ==> exact(lut.sin_below@[k]) < 0 as real,
        k / 8 >= 4 ==> exact(lut.sin_below@[k]) > 0 as real,
        k % 8 <= 3 ==> exact(lut.angles_body@[k]) > 0 as real,
        k % 8 >= 4 ==> exact(lut.angles_body@[k]) < 0 as real,
{
    law_rows_and_columns(trig, atan2, mount, k);
}

} // verus!
