//! What rendering does, without its formulas.
//!
//! Every submap is turned by its own anchor's yaw, the rendered grid leaves a
//! margin around every corner, and a submap that stands at the origin is
//! rendered as it is.

use vstd::arithmetic::power2::pow2;
use vstd::prelude::*;
use crate::accuracy::{exact, law_negation_exact, law_sum_error, limit, slack, within};
use crate::arith::{law_commutes, law_one_is_neutral, law_zero_absorbs, law_zero_adds_nothing, lemma_absolute, unit, zero};
use crate::cells::{law_centres, law_points_are_found, lemma_centre, lemma_fine};
use crate::distance::{index_of, lemma_index_of, lemma_index_split};
use crate::function::heading_of;
use crate::global_render::{anchor_headings, blank, bounds_of, certain, corner, global_config, law_bounds_hold_corners, placed, with_cells, GlobalRenderConfig};
use crate::grid::{added, clamped, GridConfig};
use crate::pose::{lemma_binades, lemma_carried, lemma_local, lemma_offset, local_pose, Heading};
use crate::ranging::lemma_below;
use crate::sampling::{cell_is, column_centre, half, row_centre};
use crate::single::Single;
use crate::submap::Submap;
use crate::turning::{lemma_distributes, lemma_negated, lemma_plain, lemma_shortened, lemma_square, lemma_turned_back, on_circle};

verus! {

/// Every submap is turned by the yaw of its own anchor.
pub proof fn law_turned_by_its_own_yaw<T: Fn(Single) -> Heading>(
    trig: T,
    submaps: Seq<&Submap>,
    k: int,
)
    requires
        0 <= k < submaps.len(),
    ensures
        anchor_headings(trig, submaps).len() == submaps.len(),
        anchor_headings(trig, submaps)[k] == heading_of(trig, submaps[k].anchor().2),
{
}

/// The rendered grid reaches past every corner of every submap by the margin, on
/// all four sides, up to rounding.
pub proof fn law_margin_on_all_sides(
    submaps: Seq<&Submap>,
    headings: Seq<Heading>,
    cfg: GlobalRenderConfig,
    n: int,
    c: int,
    k: nat,
)
    requires
        0 <= n < submaps.len(),
        0 <= c < 4,
        k <= 90,
        ({
            let b = bounds_of(submaps, headings, submaps.len() as int);
            let p = corner(*submaps[n], headings[n], c);
            &&& b.min_x.finite() && b.max_x.finite() && b.min_y.finite() && b.max_y.finite()
            &&& p.0.finite() && p.1.finite()
            &&& -limit(k) <= exact(b.min_x) <= limit(k) && -limit(k) <= exact(b.max_x) <= limit(k)
            &&& -limit(k) <= exact(b.min_y) <= limit(k) && -limit(k) <= exact(b.max_y) <= limit(k)
        }),
        cfg.margin_m.finite(),
        0 as real <= exact(cfg.margin_m) <= limit(k),
    ensures
        ({
            let g = global_config(submaps, headings, cfg);
            let p = corner(*submaps[n], headings[n], c);
            let (m, e) = (exact(cfg.margin_m), 2 as real * slack(k));
            &&& exact(g.x_range.0) <= exact(p.0) - m + e
            &&& exact(g.x_range.1) >= exact(p.0) + m - e
            &&& exact(g.y_range.0) <= exact(p.1) - m + e
            &&& exact(g.y_range.1) >= exact(p.1) + m - e
            &&& g.cell == cfg.cell_m
        }),
{
    let b = bounds_of(submaps, headings, submaps.len() as int);
    let p = corner(*submaps[n], headings[n], c);
    law_bounds_hold_corners(submaps, headings, submaps.len() as int, n, c);
    lemma_below(p.0, b.min_x);
    lemma_below(b.max_x, p.0);
    lemma_below(p.1, b.min_y);
    lemma_below(b.max_y, p.1);
    lemma_binades(k);
    law_negation_exact(cfg.margin_m);
    law_sum_error(b.min_x, cfg.margin_m.negated(), k + 1);
    law_sum_error(b.max_x, cfg.margin_m, k + 1);
    law_sum_error(b.min_y, cfg.margin_m.negated(), k + 1);
    law_sum_error(b.max_y, cfg.margin_m, k + 1);
}

/// Straight ahead.
pub open spec fn ahead() -> Heading {
    Heading { cos: unit(), sin: zero() }
}

/// A point of a submap at the origin stays where it is.
proof fn lemma_placed_at_origin(s: Submap, x: Single, y: Single)
    requires
        s.anchor().0 == zero(),
        s.anchor().1 == zero(),
        x.finite() && y.finite(),
    ensures
        ({
            let p = placed(s, ahead(), x, y);
            &&& p.0.finite() && p.1.finite()
            &&& exact(p.0) == exact(x)
            &&& exact(p.1) == exact(y)
        }),
{
    law_one_is_neutral(x);
    law_one_is_neutral(y);
    law_zero_absorbs(zero(), x);
    law_zero_absorbs(zero(), y);
    law_commutes(zero(), x);
    law_zero_adds_nothing(x, zero());
    let a = zero().plus(x);
    lemma_absolute(a);
    law_zero_adds_nothing(a, zero().times(y));
    // the other coordinate starts from nothing
    let z = zero().plus(zero().times(x));
    law_zero_adds_nothing(zero(), zero().times(x));
    lemma_absolute(z);
    lemma_absolute(zero());
    law_commutes(z, y);
    law_zero_adds_nothing(y, z);
}

/// A submap at the origin, straight ahead, has its cells where they are.
proof fn lemma_found_again(s: Submap, i: int, j: int, k: nat, q: nat)
    requires
        s.anchor().0 == zero(),
        s.anchor().1 == zero(),
        ({
            let cfg = s.map().config();
            &&& cell_is(cfg.cell, q)
            &&& cfg.x_range.0.finite() && cfg.y_range.0.finite()
            &&& -limit(k) <= exact(cfg.x_range.0) <= limit(k)
            &&& -limit(k) <= exact(cfg.y_range.0) <= limit(k)
        }),
        k + q <= 14,
        0 <= i < pow2((k + q) as nat),
        0 <= j < pow2((k + q) as nat),
    ensures
        ({
            let cfg = s.map().config();
            let p = placed(s, ahead(), cfg.centre_x(j), cfg.centre_y(i));
            cfg.row(p.1) == i && cfg.column(p.0) == j
        }),
{
    let cfg = s.map().config();
    let (x, y) = (cfg.centre_x(j), cfg.centre_y(i));
    let p = placed(s, ahead(), x, y);
    law_centres(cfg, i, j, k, q);
    lemma_centre(cfg.x_range.0, cfg.cell, j, k, q);
    lemma_centre(cfg.y_range.0, cfg.cell, i, k, q);
    lemma_placed_at_origin(s, x, y);
    lemma_fine(cfg.cell, k, q);
    lemma_binades(k);
    let c = exact(cfg.cell);
    lemma_distributes(c, j as real, half());
    lemma_distributes(c, i as real, half());
    lemma_distributes(c, j as real, 1 as real);
    lemma_distributes(c, i as real, 1 as real);
    lemma_plain(c);
    assert((j + 1) as real == j as real + 1 as real);
    assert((i + 1) as real == i as real + 1 as real);
    law_points_are_found(cfg, p.0, p.1, i, j, k + 2, q);
}

/// A submap that stands at the origin, rendered into a grid of its own geometry,
/// is rendered as it is: every certain cell in its own place, all others blank.
pub proof fn law_rendered_as_it_is(s: Submap, threshold: i16, n: int, at: int, k: nat, q: nat)
    requires
        s.anchor().0 == zero(),
        s.anchor().1 == zero(),
        s.map().wf(),
        ({
            let cfg = s.map().config();
            &&& cell_is(cfg.cell, q)
            &&& cfg.x_range.0.finite() && cfg.y_range.0.finite()
            &&& -limit(k) <= exact(cfg.x_range.0) <= limit(k)
            &&& -limit(k) <= exact(cfg.y_range.0) <= limit(k)
        }),
        k + q <= 14,
        s.map().cols() <= pow2((k + q) as nat),
        s.map().rows() <= pow2((k + q) as nat),
        0 <= n <= s.map().cells().len(),
        0 <= at < s.map().cells().len(),
    ensures
        ({
            let (m, w, h) = (s.map(), s.map().cols(), s.map().rows());
            let r = with_cells(blank(w * h), m.config(), w, h, s, ahead(), threshold, n);
            let v = m.cells()[at];
            &&& r.len() == m.cells().len()
            &&& r[at] == if at < n && certain(v, threshold) {
                clamped(v as int)
            } else {
                0i16
            }
        }),
    decreases n,
{
    let (m, w, h) = (s.map(), s.map().cols(), s.map().rows());
    if n > 0 {
        let t = n - 1;
        law_rendered_as_it_is(s, threshold, t, at, k, q);
        law_rendered_as_it_is(s, threshold, t, t, k, q);
        lemma_index_split(w, h, t);
        let (i, j) = (t / w, t % w);
        lemma_found_again(s, i, j, k, q);
        lemma_index_of(w, h, i, j);
        assert(index_of(w, i, j) == t);
    }
}

/// Where a cell of a submap is rendered: the next certain cell is added where a
/// point falls that, seen from the submap's anchor, is the centre of the cell,
/// up to rounding; an uncertain one is left out.
pub proof fn law_cells_are_rendered_in_place(
    log: Seq<i16>,
    g: GridConfig,
    w: int,
    h: int,
    s: Submap,
    heading: Heading,
    threshold: i16,
    n: int,
    k: nat,
    q: nat,
) -> (p: (Single, Single))
    requires
        on_circle(heading),
        s.map().wf(),
        0 <= n < s.map().cells().len(),
        s.anchor().0.finite() && s.anchor().1.finite(),
        -limit(k) <= exact(s.anchor().0) <= limit(k),
        -limit(k) <= exact(s.anchor().1) <= limit(k),
        ({
            let cfg = s.map().config();
            &&& cell_is(cfg.cell, q)
            &&& cfg.x_range.0.finite() && cfg.y_range.0.finite()
            &&& -limit(k) <= exact(cfg.x_range.0) <= limit(k)
            &&& -limit(k) <= exact(cfg.y_range.0) <= limit(k)
        }),
        k + q <= 14,
        s.map().cols() <= pow2((k + q) as nat),
        s.map().rows() <= pow2((k + q) as nat),
    ensures
        ({
            let before = with_cells(log, g, w, h, s, heading, threshold, n);
            let after = with_cells(log, g, w, h, s, heading, threshold, n + 1);
            let (i, j) = (n / s.map().cols(), n % s.map().cols());
            let v = s.map().cells()[n];
            let seen = local_pose(s.anchor(), heading, (p.0, p.1, s.anchor().2));
            let e = limit(k) / 1_024 as real;
            &&& certain(v, threshold) ==> after == added(
                before,
                w,
                h,
                g.row(p.1) as int,
                g.column(p.0) as int,
                v,
            )
            &&& !certain(v, threshold) ==> after == before
            &&& within(exact(seen.0), column_centre(s.map().config(), j), e)
            &&& within(exact(seen.1), row_centre(s.map().config(), i), e)
        }),
{
    let cfg = s.map().config();
    let (cols, rows) = (s.map().cols(), s.map().rows());
    lemma_index_split(cols, rows, n);
    let (i, j) = (n / cols, n % cols);
    let (x, y) = (cfg.centre_x(j), cfg.centre_y(i));
    let a = s.anchor();
    let p = placed(s, heading, x, y);
    law_centres(cfg, i, j, k, q);
    lemma_centre(cfg.x_range.0, cfg.cell, j, k, q);
    lemma_centre(cfg.y_range.0, cfg.cell, i, k, q);
    lemma_binades(k);
    lemma_binades(k + 4);
    lemma_carried(a.0, heading.cos, x, heading.sin, y, k);
    lemma_carried(a.1, heading.sin, x, heading.cos, y, k);
    let (c, z) = (exact(heading.cos), exact(heading.sin));
    let l = 4 as real * limit(k);
    lemma_shortened(c, exact(x), l);
    lemma_shortened(z, exact(y), l);
    lemma_shortened(z, exact(x), l);
    lemma_shortened(c, exact(y), l);
    // what is seen from the anchor
    let (ox, oy) = (p.0.minus(a.0), p.1.minus(a.1));
    lemma_offset(a.0, p.0, k + 4);
    lemma_offset(a.1, p.1, k + 4);
    law_negation_exact(heading.sin);
    lemma_local(heading.cos, ox, heading.sin, oy, k + 4);
    lemma_local(heading.sin.negated(), ox, heading.cos, oy, k + 4);
    lemma_negated(z, exact(ox));
    lemma_negated(z, exact(oy));
    lemma_negated(z, exact(x));
    lemma_negated(z, exact(y));
    lemma_square(z);
    let t = 16 as real * slack(k);
    lemma_turned_back(c, -z, exact(x), exact(y), exact(ox), exact(oy), t);
    p
}

/// A cell is certain if its log-odds are larger than the threshold, for a wall or
/// for free space alike; the sign of the threshold does not matter.
pub proof fn law_certain_either_way(v: i16, threshold: i16)
    ensures
        threshold >= 0 ==> (certain(v, threshold) <==> v > threshold || v < -threshold),
        threshold < 0 ==> (certain(v, threshold) <==> v > -threshold || v < threshold),
{
}

} // verus!
