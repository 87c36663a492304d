//! What ranges and distances mean, in exact numbers.
//!
//! A beam ends its range away along its heading; a scan put into a submap lands
//! where its beams end in the world; the distance field is in metres; a slant
//! range is projected onto the floor.

use vstd::arithmetic::power2::{lemma2_to64, lemma_pow2_pos, pow2};
use vstd::prelude::*;
use crate::accuracy::{exact, law_negation_exact, law_product_error, law_quotient_error, law_root_error_to, law_sum_error, law_whole_is_exact, limit, slack, within};
use crate::arith::{law_commutes, one, zero};
use crate::beams::{beams_at, Field};
use crate::distance::{any_obstacle, distance_at, is_squared_distance, law_one_distance, squared_distance};
use crate::conversion::rounded;
use crate::function::heading_of;
use crate::grid::{after_beam, GridConfig, OccupancyGrid};
use crate::mount::{projected, TofMount};
use crate::pose::{beam_end, lemma_binades, lemma_carried, lemma_turned_product, law_local_pose_places_back, local_pose, Heading, Pose2};
use crate::sampling::{half, lemma_limits_multiply, lemma_one_exact, lemma_ordered};
use crate::single::{Single, HALF_BITS};
use crate::submap::{after_scan, integrated, seen_from, Submap};
use crate::global_render::placed;
use crate::turning::{lemma_associates, lemma_commutes, lemma_distributes, lemma_negated, lemma_shortened, lemma_sign, on_circle, product, same_angle, squared};

verus! {

/// One coordinate of the end of a beam.
proof fn lemma_end(x: Single, c: Single, range: Single, k: nat)
    requires
        x.finite() && c.finite() && range.finite(),
        -(1 as real) <= exact(c) <= 1 as real,
        -limit(k) <= exact(x) <= limit(k),
        -limit(k) <= exact(range) <= limit(k),
        k <= 90,
    ensures
        x.plus(range.times(c)).finite(),
        within(
            exact(x.plus(range.times(c))),
            exact(x) + product(exact(range), exact(c)),
            8 as real * slack(k),
        ),
        -limit(k) <= product(exact(range), exact(c)) <= limit(k),
{
    lemma_binades(k);
    law_commutes(range, c);
    lemma_commutes(exact(range), exact(c));
    lemma_turned_product(c, range, k);
    law_sum_error(x, c.times(range), k + 2);
}

/// A beam ends its range away from where it starts, along its heading: forward
/// by the cosine in x and by the sine in y.
pub proof fn law_beam_end(x: Single, y: Single, h: Heading, range: Single, k: nat)
    requires
        on_circle(h),
        x.finite() && y.finite() && range.finite(),
        -limit(k) <= exact(x) <= limit(k),
        -limit(k) <= exact(y) <= limit(k),
        -limit(k) <= exact(range) <= limit(k),
        k <= 90,
    ensures
        ({
            let e = beam_end(x, y, h, range);
            let t = 8 as real * slack(k);
            &&& within(exact(e.0) - exact(x), product(exact(range), exact(h.cos)), t)
            &&& within(exact(e.1) - exact(y), product(exact(range), exact(h.sin)), t)
        }),
{
    lemma_binades(k);
    lemma_end(x, h.cos, range, k);
    lemma_end(y, h.sin, range, k);
}

/// A ray looks at the ends of ever longer beams.
pub proof fn law_ray_looks_along_its_heading(
    grid: OccupancyGrid,
    x: Single,
    y: Single,
    h: Heading,
    k: int,
)
    ensures
        ({
            let p = beam_end(x, y, h, grid.reach(k));
            let (i, j) = (grid.config().row(p.1) as int, grid.config().column(p.0) as int);
            grid.ray_stops(x, y, h, k) <==> !grid.has(i, j) || grid.at(i, j) > 0
        }),
{
    law_commutes(h.cos, grid.reach(k));
    law_commutes(h.sin, grid.reach(k));
}

/// The beams of a scan are turned by the yaw they are taken at: each points its
/// own angle to the left of it.
pub proof fn law_beams_turn_with_the_body<T: Fn(Single) -> Heading>(
    trig: T,
    yaw: Single,
    angles: Seq<Single>,
    n: int,
    k: nat,
) -> (a: Single)
    requires
        0 <= n < angles.len(),
        yaw.finite() && angles[n].finite(),
        -limit(k) <= exact(yaw) + exact(angles[n]) <= limit(k),
        k <= 90,
    ensures
        beams_at(trig, yaw, angles).len() == angles.len(),
        beams_at(trig, yaw, angles)[n] == heading_of(trig, a),
        within(exact(a), exact(yaw) + exact(angles[n]), slack(k)),
{
    law_sum_error(yaw, angles[n], k);
    yaw.plus(angles[n])
}

/// `g` is turned on from `h` by `b`: the addition theorem, up to `e`.
pub open spec fn turned_on(h: Heading, b: Heading, g: Heading, e: real) -> bool {
    let (c, s) = (exact(h.cos), exact(h.sin));
    let (p, q) = (exact(b.cos), exact(b.sin));
    &&& within(exact(g.cos), product(c, p) - product(s, q), e)
    &&& within(exact(g.sin), product(s, p) + product(c, q), e)
}

/// One coordinate of a turned offset.
proof fn lemma_turned_offset(c: real, s: real, p: real, q: real, r: real, g: real, e: real)
    requires
        within(g, product(c, p) - product(s, q), e),
        0 as real <= r,
    ensures
        within(
            product(c, product(r, p)) - product(s, product(r, q)),
            product(r, g),
            product(r, e),
        ),
{
    let d = product(c, p) - product(s, q);
    lemma_associates(c, r, p);
    lemma_associates(r, c, p);
    lemma_commutes(c, r);
    lemma_associates(s, r, q);
    lemma_associates(r, s, q);
    lemma_commutes(s, r);
    lemma_distributes(r, product(c, p), -product(s, q));
    lemma_negated(r, product(s, q));
    lemma_ordered(d - e, g, r);
    lemma_ordered(g, d + e, r);
    lemma_distributes(r, d, e);
    lemma_distributes(r, d, -e);
    lemma_negated(r, e);
}

/// A product with a number that is a little off.
proof fn lemma_off(c: real, x: real, y: real, e: real)
    requires
        -(1 as real) <= c <= 1 as real,
        within(x, y, e),
    ensures
        within(product(c, x), product(c, y), e),
{
    lemma_shortened(c, x - y, e);
    lemma_distributes(c, y, x - y);
}

/// A scan put into a submap lands where its beams end in the world: the end of
/// a beam in the submap's frame, placed in the world, is the end of the beam
/// from the body's place in the world, if the headings fit together up to `e`.
pub proof fn law_scan_lands_where_it_ends(
    s: Submap,
    h: Heading,
    body: Pose2,
    b: Heading,
    g: Heading,
    range: Single,
    e: real,
    k: nat,
)
    requires
        on_circle(h) && on_circle(b) && on_circle(g),
        turned_on(h, b, g, e),
        s.anchor().0.finite() && s.anchor().1.finite() && s.anchor().2.finite(),
        body.0.finite() && body.1.finite() && body.2.finite(),
        range.finite(),
        k <= 80,
        -limit(k) <= exact(s.anchor().0) <= limit(k),
        -limit(k) <= exact(s.anchor().1) <= limit(k),
        -limit(k) <= exact(body.0) <= limit(k),
        -limit(k) <= exact(body.1) <= limit(k),
        0 as real <= exact(range) <= limit(k),
        -(17 as real) <= 5 as real * exact(s.anchor().2) <= 17 as real,
        -(17 as real) <= 5 as real * exact(body.2) <= 17 as real,
    ensures
        ({
            let local = local_pose(s.anchor(), h, body);
            let end = beam_end(local.0, local.1, b, range);
            let p = placed(s, h, end.0, end.1);
            let t = limit(k) / 32_768 as real + product(exact(range), e);
            &&& within(exact(p.0), exact(body.0) + product(exact(range), exact(g.cos)), t)
            &&& within(exact(p.1), exact(body.1) + product(exact(range), exact(g.sin)), t)
        }),
{
    let local = local_pose(s.anchor(), h, body);
    let end = beam_end(local.0, local.1, b, range);
    let a = s.anchor();
    lemma_binades(k);
    lemma_binades(k + 3);
    law_local_pose_places_back(a, h, body, k);
    lemma_local_bound(a, h, body, k);
    lemma_end(local.0, b.cos, range, k + 3);
    lemma_end(local.1, b.sin, range, k + 3);
    lemma_carried(a.0, h.cos, local.0, h.sin, local.1, k);
    lemma_carried(a.1, h.sin, local.0, h.cos, local.1, k);
    lemma_shortened(exact(b.cos), exact(range), limit(k));
    lemma_shortened(exact(b.sin), exact(range), limit(k));
    lemma_commutes(exact(b.cos), exact(range));
    lemma_commutes(exact(b.sin), exact(range));
    lemma_carried(a.0, h.cos, end.0, h.sin, end.1, k);
    lemma_carried(a.1, h.sin, end.0, h.cos, end.1, k);
    let (c, z, r) = (exact(h.cos), exact(h.sin), exact(range));
    let (p, q) = (exact(b.cos), exact(b.sin));
    let (lx, ly) = (exact(local.0), exact(local.1));
    let (ux, uy) = (product(r, p), product(r, q));
    let d = 64 as real * slack(k);
    lemma_off(c, exact(end.0), lx + ux, d);
    lemma_off(z, exact(end.1), ly + uy, d);
    lemma_off(z, exact(end.0), lx + ux, d);
    lemma_off(c, exact(end.1), ly + uy, d);
    lemma_distributes(c, lx, ux);
    lemma_distributes(z, ly, uy);
    lemma_distributes(z, lx, ux);
    lemma_distributes(c, ly, uy);
    lemma_turned_offset(c, z, p, q, r, exact(g.cos), e);
    lemma_negated(c, q);
    lemma_negated(c, uy);
    lemma_turned_offset(z, -c, p, q, r, exact(g.sin), e);
}

/// A body is not far from an anchor.
proof fn lemma_local_bound(anchor: Pose2, h: Heading, body: Pose2, k: nat)
    requires
        on_circle(h),
        anchor.0.finite() && anchor.1.finite(),
        body.0.finite() && body.1.finite(),
        k <= 80,
        -limit(k) <= exact(anchor.0) <= limit(k),
        -limit(k) <= exact(anchor.1) <= limit(k),
        -limit(k) <= exact(body.0) <= limit(k),
        -limit(k) <= exact(body.1) <= limit(k),
    ensures
        ({
            let local = local_pose(anchor, h, body);
            &&& local.0.finite() && local.1.finite()
            &&& -limit(k + 3) <= exact(local.0) <= limit(k + 3)
            &&& -limit(k + 3) <= exact(local.1) <= limit(k + 3)
        }),
{
    let (dx, dy) = (body.0.minus(anchor.0), body.1.minus(anchor.1));
    lemma_binades(k);
    crate::pose::lemma_offset(anchor.0, body.0, k);
    crate::pose::lemma_offset(anchor.1, body.1, k);
    law_negation_exact(h.sin);
    let m = 2 as real * limit(k) + 2 as real * slack(k);
    lemma_shortened(exact(h.cos), exact(dx), m);
    lemma_shortened(exact(h.sin), exact(dy), m);
    lemma_shortened(exact(h.sin.negated()), exact(dx), m);
    lemma_shortened(exact(h.cos), exact(dy), m);
    crate::pose::lemma_local(h.cos, dx, h.sin, dy, k);
    crate::pose::lemma_local(h.sin.negated(), dx, h.cos, dy, k);
}

/// The distance field is in metres: the square of the distance of a cell is the
/// squared number of cells to the nearest obstacle times the square of the cell
/// size, up to rounding.
pub proof fn law_distance_in_metres(
    log: Seq<i16>,
    w: int,
    h: int,
    threshold: i16,
    cell: Single,
    i: int,
    j: int,
    d: int,
    k: nat,
    m: nat,
)
    requires
        any_obstacle(log, threshold),
        is_squared_distance(log, w, h, threshold, i, j, d),
        0 <= d < 0x100_0000,
        d <= pow2(2 * k),
        k <= 12,
        m <= 20,
        cell.finite(),
        0 as real <= exact(cell),
        product(limit(k), exact(cell)) <= limit(m),
    ensures
        ({
            let r = exact(distance_at(log, w, h, threshold, cell, i, j));
            let c = exact(cell);
            within(
                squared(r),
                product(d as real, squared(c)),
                4 as real * slack(2 * m) + product(4 as real * slack(2 * k), squared(c)),
            )
        }),
{
    law_one_distance(
        log,
        w,
        h,
        threshold,
        i,
        j,
        d,
        squared_distance(log, w, h, threshold, i, j),
    );
    let a = rounded(d);
    law_whole_is_exact(d);
    law_root_error_to(a, k);
    let (q, c) = (exact(a.root()), exact(cell));
    lemma_sign(q, c);
    lemma_ordered(q, limit(k), c);
    let qc = product(q, c);
    assert(qc == q * c) by {
        reveal(product);
    }
    law_product_error(a.root(), cell, m);
    let r = exact(a.root().times(cell));
    // the squares
    lemma_binades(m);
    lemma_binades((2 * m) as nat);
    lemma_limits_multiply(m, m);
    assert(m + m == 2 * m);
    let (t, l) = (slack(m), limit(m));
    assert(within(r * r, qc * qc, 4 as real * slack((2 * m) as nat))) by (nonlinear_arith)
        requires
            -t <= r - qc <= t,
            0 as real <= qc <= l,
            t > 0 as real,
            t <= l,
            t == l / 33_554_432 as real,
            slack((2 * m) as nat) == (l * l) / 33_554_432 as real,
    {
        assert((r - qc) * (r - qc) <= t * t);
        assert(-(t * l) <= (r - qc) * qc <= t * l);
        assert(t * t <= t * l);
        assert(r * r - qc * qc == (r - qc) * (r - qc) + 2 as real * ((r - qc) * qc));
        assert(t * l == (l * l) / 33_554_432 as real);
    }
    assert(squared(r) == r * r && squared(qc) == qc * qc && squared(q) == q * q) by {
        reveal(product);
    }
    crate::turning::lemma_pairs(q, c, q, c);
    crate::turning::lemma_square(c);
    let e = 4 as real * slack((2 * k) as nat);
    lemma_ordered(d as real - e, squared(q), squared(c));
    lemma_ordered(squared(q), d as real + e, squared(c));
    lemma_distributes(squared(c), d as real, e);
    lemma_distributes(squared(c), d as real, -e);
    lemma_negated(e, squared(c));
}

/// Order of finite numbers.
pub proof fn lemma_below(a: Single, b: Single)
    requires
        a.finite() && b.finite(),
    ensures
        a.below(b) <==> exact(a) < exact(b),
{
    lemma_pow2_pos(149);
    let (x, y, o) = (a.value() as real, b.value() as real, one() as real);
    assert(x < y <==> x / o < y / o) by (nonlinear_arith)
        requires
            o > 0 as real,
    ;
}

/// The projection of a slant range: dropped if the beam ends lower below the
/// sensor than the floor filter allows, or too near; otherwise the horizontal
/// part of the beam. The filter is off for a sensor without a height and for
/// beams that do not look below the horizon.
pub proof fn law_projection(slant: Single, cos: Single, sin: Single, m: TofMount, k: nat)
    requires
        slant.finite() && cos.finite() && sin.finite(),
        m.sensor_height_m.finite() && m.floor_safety.finite() && m.min_range_m.finite(),
        k <= 90,
        -limit(k) <= exact(slant) <= limit(k),
        -limit(k) <= exact(m.sensor_height_m) <= limit(k),
        -(1 as real) <= exact(cos) <= 1 as real,
        -(1 as real) <= exact(sin) <= 1 as real,
        -(1 as real) <= exact(m.floor_safety) <= 1 as real,
    ensures
        ({
            let p = projected(slant, cos, sin, m);
            let h = product(exact(slant), exact(cos));
            let drop = product(exact(slant), exact(sin));
            let floor = product(exact(m.sensor_height_m), exact(m.floor_safety));
            let on = exact(m.sensor_height_m) > 0 as real && exact(sin) > 0 as real;
            let e = 2 as real * slack(k);
            &&& on && drop > floor + e ==> p.nan()
            &&& exact(m.min_range_m) > 0 as real && h + e < exact(m.min_range_m) ==> p.nan()
            &&& (!on || drop + e < floor) && (exact(m.min_range_m) <= 0 as real || h > exact(
                m.min_range_m,
            ) + e) ==> p.finite() && within(exact(p), h, slack(k))
        }),
{
    let none = zero();
    crate::motion::lemma_zero_exact();
    lemma_binades(k);
    law_commutes(slant, cos);
    law_commutes(slant, sin);
    law_commutes(m.sensor_height_m, m.floor_safety);
    lemma_commutes(exact(slant), exact(cos));
    lemma_commutes(exact(slant), exact(sin));
    lemma_commutes(exact(m.sensor_height_m), exact(m.floor_safety));
    lemma_turned_product(cos, slant, k);
    lemma_turned_product(sin, slant, k);
    lemma_turned_product(m.floor_safety, m.sensor_height_m, k);
    lemma_below(none, m.sensor_height_m);
    lemma_below(none, sin);
    lemma_below(none, m.min_range_m);
    lemma_below(m.sensor_height_m.times(m.floor_safety), slant.times(sin));
    lemma_below(slant.times(cos), m.min_range_m);
}

/// Scans that agree on their first beams do the same with them.
proof fn lemma_scan_prefix(
    log: Seq<i16>,
    cfg: GridConfig,
    w: int,
    ox: Single,
    oy: Single,
    ranges: Seq<Single>,
    more: Seq<Single>,
    beams: Seq<Heading>,
    others: Seq<Heading>,
    n: int,
)
    requires
        forall|t: int| 0 <= t < n ==> ranges[t] == more[t] && beams[t] == others[t],
    ensures
        after_scan(log, cfg, w, ox, oy, ranges, beams, n) == after_scan(
            log,
            cfg,
            w,
            ox,
            oy,
            more,
            others,
            n,
        ),
    decreases n,
{
    if n > 0 {
        lemma_scan_prefix(log, cfg, w, ox, oy, ranges, more, beams, others, n - 1);
    }
}

/// Each beam of a scan is put into a submap from where the body is in the
/// submap's frame to a point that, placed in the world, is where the beam ends
/// there: its range from the body, along the body's yaw and the beam's angle.
/// `trig` has to keep to the addition theorem, up to `e`.
pub proof fn law_integrated_beam<T: Fn(Single) -> Heading>(
    s: Submap,
    trig: T,
    body: Pose2,
    angles: Seq<Single>,
    ranges: Seq<Single>,
    g: Heading,
    e: real,
    k: nat,
) -> (end: (Single, Single))
    requires
        angles.len() == ranges.len(),
        angles.len() > 0,
        ranges.last().usable(),
        ({
            let h = heading_of(trig, s.anchor().2);
            let local = local_pose(s.anchor(), h, body);
            let b = heading_of(trig, local.2.plus(angles.last()));
            &&& on_circle(h) && on_circle(b) && on_circle(g)
            &&& turned_on(h, b, g, e)
        }),
        s.anchor().0.finite() && s.anchor().1.finite() && s.anchor().2.finite(),
        body.0.finite() && body.1.finite() && body.2.finite(),
        k <= 80,
        -limit(k) <= exact(s.anchor().0) <= limit(k),
        -limit(k) <= exact(s.anchor().1) <= limit(k),
        -limit(k) <= exact(body.0) <= limit(k),
        -limit(k) <= exact(body.1) <= limit(k),
        0 as real <= exact(ranges.last()) <= limit(k),
        -(17 as real) <= 5 as real * exact(s.anchor().2) <= 17 as real,
        -(17 as real) <= 5 as real * exact(body.2) <= 17 as real,
    ensures
        ({
            let h = heading_of(trig, s.anchor().2);
            let local = local_pose(s.anchor(), h, body);
            let p = placed(s, h, end.0, end.1);
            let r = exact(ranges.last());
            let t = limit(k) / 32_768 as real + product(r, e);
            &&& integrated(s, trig, body, angles, ranges) == after_beam(
                integrated(s, trig, body, angles.drop_last(), ranges.drop_last()),
                s.map().config(),
                s.map().cols(),
                local.0,
                local.1,
                end.0,
                end.1,
                true,
            )
            &&& within(exact(p.0), exact(body.0) + product(r, exact(g.cos)), t)
            &&& within(exact(p.1), exact(body.1) + product(r, exact(g.sin)), t)
        }),
{
    let h = heading_of(trig, s.anchor().2);
    let local = local_pose(s.anchor(), h, body);
    let n = ranges.len() as int;
    let beams = beams_at(trig, local.2, angles);
    let fewer = beams_at(trig, local.2, angles.drop_last());
    let b = beams[n - 1];
    lemma_scan_prefix(
        s.map().cells(),
        s.map().config(),
        s.map().cols(),
        local.0,
        local.1,
        ranges,
        ranges.drop_last(),
        beams,
        fewer,
        n - 1,
    );
    law_scan_lands_where_it_ends(s, h, body, b, g, ranges.last(), e, k);
    beam_end(local.0, local.1, b, ranges.last())
}

/// A beam that hit something marks the cell it ends in: its log-odds rise by
/// the hit increment, up to their bound.
pub proof fn law_beam_marks_its_end(
    log: Seq<i16>,
    cfg: GridConfig,
    w: int,
    h: int,
    x0: Single,
    y0: Single,
    x1: Single,
    y1: Single,
    i: int,
    j: int,
)
    requires
        0 <= i < h,
        0 <= j < w,
        log.len() == w * h,
        cfg.row(y1) == i,
        cfg.column(x1) == j,
    ensures
        ({
            let at = i * w + j;
            let v = log[at] + 85;
            after_beam(log, cfg, w, x0, y0, x1, y1, true)[at] == if v > 400 {
                400
            } else if v < -400 {
                -400
            } else {
                v
            }
        }),
{
    let at = i * w + j;
    crate::distance::lemma_index_of(w, h, i, j);
    crate::grid::law_beam_reaches_ends(cfg.row(y0) as int, cfg.column(x0) as int, i, j);
    assert(crate::distance::index_of(w, i, j) == at);
    assert(0 <= at < log.len() && at / w == i && at % w == j);
}

/// A beam passes through the cell it starts in: its log-odds fall by the miss
/// increment, down to their bound, unless the beam ends in it as well.
pub proof fn law_beam_clears_its_start(
    log: Seq<i16>,
    cfg: GridConfig,
    w: int,
    h: int,
    x0: Single,
    y0: Single,
    x1: Single,
    y1: Single,
    hit: bool,
    i: int,
    j: int,
)
    requires
        0 <= i < h,
        0 <= j < w,
        log.len() == w * h,
        cfg.row(y0) == i,
        cfg.column(x0) == j,
        (cfg.row(y1), cfg.column(x1)) != (cfg.row(y0), cfg.column(x0)),
    ensures
        ({
            let at = i * w + j;
            let v = log[at] - 40;
            after_beam(log, cfg, w, x0, y0, x1, y1, hit)[at] == if v > 400 {
                400
            } else if v < -400 {
                -400
            } else {
                v
            }
        }),
{
    let at = i * w + j;
    crate::distance::lemma_index_of(w, h, i, j);
    crate::grid::law_beam_reaches_ends(i, j, cfg.row(y1) as int, cfg.column(x1) as int);
    assert(crate::distance::index_of(w, i, j) == at);
    assert(0 <= at < log.len() && at / w == i && at % w == j);
}

/// The distances of a scan are looked up where its beams end: one more beam adds
/// the distance of the cell that a point falls into, its range from the scan's
/// place along its heading; a beam that is unusable or ends off the map adds
/// nothing.
pub proof fn law_distances_at_beam_ends(
    f: Field,
    x: Single,
    y: Single,
    beams: Seq<Heading>,
    ranges: Seq<Single>,
    n: int,
    k: nat,
) -> (p: (Single, Single))
    requires
        n >= 0,
        on_circle(beams[n]),
        x.finite() && y.finite() && ranges[n].finite(),
        -limit(k) <= exact(x) <= limit(k),
        -limit(k) <= exact(y) <= limit(k),
        -limit(k) <= exact(ranges[n]) <= limit(k),
        k <= 90,
    ensures
        ({
            let before = f.hits(x, y, beams, ranges, n);
            let after = f.hits(x, y, beams, ranges, n + 1);
            let (i, j) = (f.cfg.row(p.1) as int, f.cfg.column(p.0) as int);
            let (h, r, e) = (beams[n], exact(ranges[n]), 8 as real * slack(k));
            &&& f.has(i, j) && r > 0 as real ==> after == before.push(f.metres@[i * f.w + j])
            &&& !f.has(i, j) || r <= 0 as real ==> after == before
            &&& within(exact(p.0) - exact(x), product(r, exact(h.cos)), e)
            &&& within(exact(p.1) - exact(y), product(r, exact(h.sin)), e)
        }),
{
    crate::motion::lemma_zero_exact();
    lemma_below(zero(), ranges[n]);
    law_beam_end(x, y, beams[n], ranges[n], k);
    beam_end(x, y, beams[n], ranges[n])
}

/// Half of a cell.
proof fn lemma_half_cell(cell: Single)
    requires
        cell.finite(),
        0 as real <= exact(cell) <= 1 as real,
    ensures
        ({
            let h = cell.times(Single { bits: HALF_BITS });
            &&& h.finite()
            &&& within(exact(h), half() * exact(cell), slack(0))
            &&& 0 as real <= half() * exact(cell) <= half()
        }),
{
    lemma_one_exact();
    lemma2_to64();
    let c = exact(cell);
    let f = half();
    assert(c * f == f * c && 0 as real <= f * c <= f) by (nonlinear_arith)
        requires
            f == 1 as real / 2 as real,
            0 as real <= c <= 1 as real,
    ;
    law_product_error(cell, Single { bits: HALF_BITS }, 0);
}

/// A ray goes half a cell at a time: step `k` is `k` half cells from its start,
/// up to rounding.
pub proof fn law_ray_goes_by_half_cells(grid: OccupancyGrid, k: int)
    requires
        grid.config().cell.finite(),
        0 as real <= exact(grid.config().cell) <= 1 as real,
        0 <= k <= 4_096,
    ensures
        grid.reach(k).finite(),
        within(
            exact(grid.reach(k)),
            product(k as real, half() * exact(grid.config().cell)),
            product(k as real, slack(0)) + slack(12),
        ),
{
    let cell = grid.config().cell;
    let h = cell.times(Single { bits: HALF_BITS });
    lemma_half_cell(cell);
    law_whole_is_exact(k);
    lemma2_to64();
    let (x, y, t, s) = (exact(h), half() * exact(cell), k as real, slack(0));
    lemma_ordered(y - s, x, t);
    lemma_ordered(x, y + s, t);
    lemma_distributes(t, y, s);
    lemma_distributes(t, y, -s);
    lemma_negated(t, s);
    assert(product(t, x) == t * x) by {
        reveal(product);
    }
    assert(-(4_096 as real) <= t * x <= 4_096 as real) by (nonlinear_arith)
        requires
            0 as real <= t <= 4_096 as real,
            -(1 as real) <= x <= 1 as real,
    ;
    law_product_error(rounded(k), h, 12);
}

/// The length of a ray is capped at its range, and it is the reach of the first
/// step at which it stops if that is less.
pub proof fn law_ray_is_capped(
    grid: OccupancyGrid,
    x: Single,
    y: Single,
    h: Heading,
    max_range: Single,
    r: Single,
    k: int,
)
    requires
        grid.ray_length(x, y, h, max_range, r),
        !max_range.nan(),
        1 <= k <= grid.ray_steps(max_range),
        grid.ray_stops(x, y, h, k),
        forall|t: int| 1 <= t < k ==> !(#[trigger] grid.ray_stops(x, y, h, t)),
        !grid.reach(k).nan(),
    ensures
        r.at_most(max_range),
        r.at_most(grid.reach(k)),
        r == max_range || r == grid.reach(k),
{
    let z = choose|z: int|
        {
            &&& 1 <= z <= grid.ray_steps(max_range)
            &&& #[trigger] grid.ray_stops(x, y, h, z)
            &&& r == grid.reach(z).smaller(max_range)
            &&& forall|t: int| 1 <= t < z ==> !grid.ray_stops(x, y, h, t)
        };
    if z < k {
        assert(!grid.ray_stops(x, y, h, z));
    }
    if k < z {
        assert(!grid.ray_stops(x, y, h, k));
    }
    assert(z == k);
}

/// The field of a grid is zero at the walls: in every cell whose log-odds are
/// above the field's threshold.
pub proof fn law_field_is_zero_at_walls(f: Field, grid: OccupancyGrid, i: int, j: int)
    requires
        f.is_of(&grid),
        grid.wf(),
        grid.has(i, j),
        grid.at(i, j) > f.threshold,
        f.cfg.cell.finite(),
    ensures
        f.at(i, j).zero(),
{
    let (log, w, h) = (grid.cells(), grid.cols(), grid.rows());
    let at = crate::distance::index_of(w, i, j);
    crate::distance::lemma_index_of(w, h, i, j);
    assert(log[at] > f.threshold);
    assert(any_obstacle(log, f.threshold));
    assert(crate::distance::squared_cells(i, j, i, j) == 0) by (nonlinear_arith);
    assert forall|i2: int, j2: int| #[trigger]
        crate::distance::squared_cells(i, j, i2, j2) >= 0 by {
        assert((i - i2) * (i - i2) >= 0) by (nonlinear_arith);
        assert((j - j2) * (j - j2) >= 0) by (nonlinear_arith);
    }
    assert(is_squared_distance(log, w, h, f.threshold, i, j, 0));
    law_one_distance(
        log,
        w,
        h,
        f.threshold,
        i,
        j,
        0,
        squared_distance(log, w, h, f.threshold, i, j),
    );
    let none = rounded(0);
    law_whole_is_exact(0);
    lemma_root_of_nothing(none);
    crate::arith::law_zero_absorbs(none.root(), f.cfg.cell);
}

/// The root of nothing is nothing.
proof fn lemma_root_of_nothing(a: Single)
    requires
        a.finite(),
        exact(a) == 0 as real,
        !a.negative(),
    ensures
        a.root().zero(),
{
    reveal(Single::root);
    crate::arith::lemma_absolute(a);
    lemma_pow2_pos(149);
    let (v, o) = (a.value(), one());
    assert(v == 0) by (nonlinear_arith)
        requires
            v as real / o as real == 0 as real,
            o > 0,
    ;
}

/// The pose that is kept of a scan is that of the body as it is seen from the
/// submap: placed back in the world it is where the body was, facing as it did,
/// up to rounding.
pub proof fn law_kept_pose_places_back<T: Fn(Single) -> Heading>(
    s: Submap,
    trig: T,
    body: Pose2,
    k: nat,
)
    requires
        on_circle(heading_of(trig, s.anchor().2)),
        s.anchor().0.finite() && s.anchor().1.finite() && s.anchor().2.finite(),
        body.0.finite() && body.1.finite() && body.2.finite(),
        k <= 90,
        -limit(k) <= exact(s.anchor().0) <= limit(k),
        -limit(k) <= exact(s.anchor().1) <= limit(k),
        -limit(k) <= exact(body.0) <= limit(k),
        -limit(k) <= exact(body.1) <= limit(k),
        -(17 as real) <= 5 as real * exact(s.anchor().2) <= 17 as real,
        -(17 as real) <= 5 as real * exact(body.2) <= 17 as real,
    ensures
        ({
            let seen = seen_from(s, trig, body);
            let p = placed(s, heading_of(trig, s.anchor().2), seen.0, seen.1);
            &&& within(exact(p.0), exact(body.0), limit(k) / 65_536 as real)
            &&& within(exact(p.1), exact(body.1), limit(k) / 65_536 as real)
            &&& same_angle(
                exact(s.anchor().2) + exact(seen.2),
                exact(body.2),
                1 as real / 262_144 as real,
            )
        }),
{
    law_local_pose_places_back(s.anchor(), heading_of(trig, s.anchor().2), body, k);
}

/// A ray takes as many half cells as go into its range: one more would be past
/// it, up to rounding.
pub proof fn law_ray_covers_its_range(grid: OccupancyGrid, max_range: Single)
    requires
        max_range.finite(),
        grid.config().cell.finite(),
        0 as real <= exact(grid.config().cell) <= 1 as real,
        exact(max_range) >= 0 as real,
        ({
            let h = grid.config().cell.times(Single { bits: HALF_BITS });
            exact(h) > 0 as real && exact(max_range) <= product(limit(12), exact(h))
        }),
    ensures
        ({
            let h = exact(grid.config().cell.times(Single { bits: HALF_BITS }));
            let (n, e) = (grid.ray_steps(max_range), product(slack(12), h));
            &&& n >= 0
            &&& product(n as real, h) <= exact(max_range) + e
            &&& product((n + 1) as real, h) > exact(max_range) - e
            &&& within(h, half() * exact(grid.config().cell), slack(0))
        }),
{
    let step = grid.config().cell.times(Single { bits: HALF_BITS });
    lemma_half_cell(grid.config().cell);
    lemma2_to64();
    lemma_binades(12);
    crate::arith::lemma_absolute(step);
    lemma_pow2_pos(149);
    let (x, h, l) = (exact(max_range), exact(step), limit(12));
    if step.zero() {
        let o = one() as real;
        assert(0 as real / o == 0 as real) by (nonlinear_arith)
            requires
                o > 0 as real,
        ;
    }
    let q = x / h;
    assert(product(l, h) == l * h) by {
        reveal(product);
    }
    assert(q * h == x && 0 as real <= q <= l) by (nonlinear_arith)
        requires
            q == x / h,
            h > 0 as real,
            0 as real <= x <= l * h,
    ;
    law_quotient_error(max_range, step, 12);
    let v = max_range.over(step);
    crate::matching::lemma_mean_sign(max_range, step);
    lemma_whole_steps(v);
    let n = grid.ray_steps(max_range);
    let (y, e) = (exact(v), slack(12));
    lemma_ordered(n as real, y, h);
    lemma_ordered(y, q + e, h);
    lemma_distributes(h, q, e);
    lemma_distributes(h, q, -e);
    lemma_negated(e, h);
    crate::sampling::lemma_strictly(y, (n + 1) as real, h);
    lemma_ordered(q - e, y, h);
    assert(product(q, h) == x) by {
        reveal(product);
    }
}

/// A number of steps, rounded toward zero.
proof fn lemma_whole_steps(a: Single)
    requires
        a.finite(),
        0 as real <= exact(a) <= 8_192 as real,
    ensures
        0 <= a.as_i32(),
        a.as_i32() as real <= exact(a),
        exact(a) < a.as_i32() as real + 1 as real,
{
    reveal(Single::as_i32);
    crate::arith::lemma_absolute(a);
    lemma_pow2_pos(149);
    let (v, o) = (a.value(), one());
    assert(0 <= v <= 8_192 * o) by (nonlinear_arith)
        requires
            0 as real <= v as real / o as real <= 8_192 as real,
            o > 0,
    ;
    let w = v / o;
    vstd::arithmetic::div_mod::lemma_fundamental_div_mod(v, o);
    vstd::arithmetic::div_mod::lemma_mod_bound(v, o);
    assert(0 <= w <= 8_192 && (v == 0 ==> w == 0)) by (nonlinear_arith)
        requires
            0 <= v <= 8_192 * o,
            v == o * w + v % o,
            0 <= v % o < o,
            o > 0,
    ;
    assert(a.as_i32() == w);
    assert(w as real <= v as real / o as real && w as real + 1 as real > v as real / o as real)
        by (nonlinear_arith)
        requires
            v == o * w + v % o,
            0 <= v % o < o,
            o > 0,
    ;
}

} // verus!
