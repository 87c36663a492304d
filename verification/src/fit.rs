//! How well a scan fits a map, in exact numbers.
//!
//! The distances of beam ends from the walls are held to a clamp, summed up and
//! averaged. These laws say what the average is, and that no beam counts for
//! more than the clamp.

use vstd::prelude::*;
use crate::accuracy::{exact, law_quotient_error, law_sum_error, law_whole_is_exact, limit, slack, within};
use crate::arith::one;
use crate::beams::{held_sum, Field};
use crate::conversion::rounded;
use crate::mcl::{mean_held, LocalizerView};
use crate::motion::lemma_zero_exact;
use crate::pose::{beam_end, Heading};
use crate::distance::lemma_index_of;
use crate::grid::OccupancyGrid;
use crate::relocalize::{candidate, coarse, fine, improved, judged, relocalized, RelocalizeConfig, RelocalizeResult, Search};
use crate::single::Single;
use crate::turning::{lemma_distributes, lemma_plain, product};

verus! {

/// The smaller of two numbers.
pub open spec fn least(x: real, y: real) -> real {
    if x < y {
        x
    } else {
        y
    }
}

/// Sum of the first `n` distances, each held to at most `clamp`.
pub open spec fn held_total(d: Seq<Single>, clamp: Single, n: int) -> real
    decreases n,
{
    if n <= 0 {
        0 as real
    } else {
        held_total(d, clamp, n - 1) + least(exact(d[n - 1]), exact(clamp))
    }
}

/// Distances: numbers that are not below zero.
pub open spec fn are_distances(d: Seq<Single>) -> bool {
    forall|k: int| 0 <= k < d.len() ==> (#[trigger] d[k]).finite() && exact(d[k]) >= 0 as real
}

/// The smaller of two numbers, as reals have it.
pub proof fn lemma_smaller(a: Single, b: Single)
    requires
        a.finite() && b.finite(),
    ensures
        a.smaller(b).finite(),
        exact(a.smaller(b)) == least(exact(a), exact(b)),
{
    vstd::arithmetic::power2::lemma_pow2_pos(149);
    let (x, y, o) = (a.value() as real, b.value() as real, one() as real);
    assert((x < y <==> x / o < y / o) && (x == y ==> x / o == y / o)) by (nonlinear_arith)
        requires
            o > 0 as real,
    ;
    assert(y < x <==> y / o < x / o) by (nonlinear_arith)
        requires
            o > 0 as real,
    ;
}

/// The sum of held distances lies between nothing and as many clamps.
proof fn lemma_held_total(d: Seq<Single>, clamp: Single, n: int)
    requires
        are_distances(d),
        clamp.finite(),
        exact(clamp) >= 0 as real,
        0 <= n <= d.len(),
    ensures
        0 as real <= held_total(d, clamp, n) <= product(n as real, exact(clamp)),
    decreases n,
{
    let c = exact(clamp);
    lemma_plain(c);
    if n > 0 {
        lemma_held_total(d, clamp, n - 1);
        lemma_distributes(c, (n - 1) as real, 1 as real);
        assert(d[n - 1].finite());
    }
}

/// The sum of distances held to a clamp is their exact sum, up to rounding:
/// each addition is off by at most `slack(k)`.
pub proof fn law_held_sum(d: Seq<Single>, clamp: Single, n: int, k: nat)
    requires
        are_distances(d),
        clamp.finite(),
        exact(clamp) >= 0 as real,
        0 <= n <= d.len(),
        k <= 90,
        product(n as real, exact(clamp) + slack(k)) <= limit(k),
    ensures
        held_sum(d, clamp, n).finite(),
        within(
            exact(held_sum(d, clamp, n)),
            held_total(d, clamp, n),
            product(n as real, slack(k)),
        ),
    decreases n,
{
    let (c, t) = (exact(clamp), slack(k));
    lemma_plain(t);
    lemma_zero_exact();
    crate::pose::lemma_binades(k);
    if n > 0 {
        let m = n - 1;
        lemma_distributes(n as real, c, t);
        lemma_distributes(m as real, c, t);
        lemma_distributes(c, m as real, 1 as real);
        lemma_distributes(t, m as real, 1 as real);
        lemma_plain(c);
        assert(n as real == m as real + 1 as real);
        law_held_sum(d, clamp, m, k);
        lemma_held_total(d, clamp, m);
        assert(d[m].finite() && exact(d[m]) >= 0 as real);
        lemma_smaller(d[m], clamp);
        lemma_held_total(d, clamp, n);
        lemma_product_not_negative(m as real, t);
        law_sum_error(held_sum(d, clamp, m), d[m].smaller(clamp), k);
    } else {
        lemma_plain(exact(clamp));
    }
}

pub proof fn lemma_product_not_negative(x: real, y: real)
    requires
        0 as real <= x,
        0 as real <= y,
    ensures
        0 as real <= product(x, y),
{
    crate::turning::lemma_sign(x, y);
}

/// A mean of `n` numbers, as reals have it.
proof fn lemma_mean(s: real, n: real, x: real)
    requires
        n > 0 as real,
    ensures
        s <= product(n, x) ==> s / n <= x,
        s >= product(n, x) ==> s / n >= x,
{
    reveal(product);
    assert((s <= n * x ==> s / n <= x) && (s >= n * x ==> s / n >= x)) by (nonlinear_arith)
        requires
            n > 0 as real,
    ;
}

/// The distances at the ends of the beams of a candidate.
pub open spec fn ends(
    f: Field,
    i: int,
    j: int,
    beams: Seq<Heading>,
    ranges: Seq<Single>,
) -> Seq<Single> {
    f.hits(f.cfg.centre_x(j), f.cfg.centre_y(i), beams, ranges, ranges.len() as int)
}

/// A mean of distances, each held to the clamp, is their mean, up to rounding;
/// so it is at most the clamp, however large the distances are, and one bad
/// beam cannot dominate it.
pub proof fn law_held_mean(d: Seq<Single>, clamp: Single, k: nat)
    requires
        are_distances(d),
        0 < d.len() < 0x100_0000,
        clamp.finite(),
        exact(clamp) >= 0 as real,
        k <= 90,
        product(d.len() as real, exact(clamp) + slack(k)) <= limit(k),
    ensures
        ({
            let mean = mean_held(d, clamp);
            let n = d.len() as real;
            &&& mean.finite()
            &&& product(n, exact(mean) - 2 as real * slack(k)) <= held_total(
                d,
                clamp,
                d.len() as int,
            ) <= product(n, exact(mean) + 2 as real * slack(k))
            &&& exact(mean) <= exact(clamp) + 2 as real * slack(k)
        }),
{
    let mean = mean_held(d, clamp);
    let (len, n) = (d.len() as int, d.len() as real);
    let (t, ce) = (slack(k), exact(clamp));
    crate::pose::lemma_binades(k);
    law_held_sum(d, clamp, len, k);
    lemma_held_total(d, clamp, len);
    law_whole_is_exact(len);
    let sum = held_sum(d, clamp, len);
    let s = exact(sum);
    lemma_distributes(n, ce, t);
    // the quotient lies around the exact mean
    let q = s / n;
    lemma_mean(s, n, ce + t);
    lemma_mean(s, n, q);
    lemma_quotient_back(s, n);
    lemma_distributes(n, q, t);
    lemma_distributes(n, q, -t);
    crate::turning::lemma_negated(n, t);
    lemma_mean(s, n, -t);
    lemma_product_not_negative(n, t);
    lemma_product_not_negative(n - 1 as real, ce + t);
    lemma_distributes(ce + t, n - 1 as real, 1 as real);
    lemma_plain(ce + t);
    law_quotient_error(sum, rounded(len), k);
    let m = exact(mean);
    lemma_ordered_products(n, q - t, m + t);
    lemma_ordered_products(n, m - 2 as real * t, q - t);
    lemma_ordered_products(n, q + t, m + 2 as real * t);
}

/// A candidate's residual is the mean of the distances at its beam ends, each
/// held to the clamp, up to rounding; so it is at most the clamp, however far
/// from the walls the beams end.
pub proof fn law_residual_is_held_mean(
    f: Field,
    i: int,
    j: int,
    yaw: Single,
    beams: Seq<Heading>,
    ranges: Seq<Single>,
    clamp: Single,
    k: nat,
)
    requires
        are_distances(ends(f, i, j, beams, ranges)),
        0 < ends(f, i, j, beams, ranges).len() < 0x100_0000,
        clamp.finite(),
        exact(clamp) >= 0 as real,
        k <= 90,
        product(ends(f, i, j, beams, ranges).len() as real, exact(clamp) + slack(k)) <= limit(k),
    ensures
        ({
            let d = ends(f, i, j, beams, ranges);
            let c = candidate(f, i, j, yaw, beams, ranges, clamp);
            let mean = c.mean_residual_m;
            let n = d.len() as real;
            &&& c.pose.0 == f.cfg.centre_x(j)
            &&& c.pose.1 == f.cfg.centre_y(i)
            &&& c.pose.2 == yaw
            &&& c.n_beams_used == d.len()
            &&& mean.finite()
            &&& product(n, exact(mean) - 2 as real * slack(k)) <= held_total(
                d,
                clamp,
                d.len() as int,
            ) <= product(n, exact(mean) + 2 as real * slack(k))
            &&& exact(mean) <= exact(clamp) + 2 as real * slack(k)
        }),
{
    law_held_mean(ends(f, i, j, beams, ranges), clamp, k);
}

/// The residual of a filter is that of its best particle: the mean of its beam
/// distances, each held to the clamp.
pub proof fn law_filter_residual(
    v: LocalizerView,
    f: Field,
    beams: Seq<Seq<Heading>>,
    ranges: Seq<Single>,
    b: int,
    k: nat,
)
    requires
        b == v.best(),
        ({
            let d = f.hits(
                v.particles[b].0,
                v.particles[b].1,
                beams[b],
                ranges,
                ranges.len() as int,
            );
            &&& are_distances(d)
            &&& 0 < d.len() < 0x100_0000
            &&& product(d.len() as real, exact(v.cfg.beam_clamp_m) + slack(k)) <= limit(k)
        }),
        v.cfg.beam_clamp_m.finite(),
        exact(v.cfg.beam_clamp_m) >= 0 as real,
        k <= 90,
    ensures
        ({
            let d = f.hits(
                v.particles[b].0,
                v.particles[b].1,
                beams[b],
                ranges,
                ranges.len() as int,
            );
            let r = v.measured(f, beams, ranges).residual;
            let n = d.len() as real;
            &&& product(n, exact(r) - 2 as real * slack(k)) <= held_total(
                d,
                v.cfg.beam_clamp_m,
                d.len() as int,
            ) <= product(n, exact(r) + 2 as real * slack(k))
            &&& exact(r) <= exact(v.cfg.beam_clamp_m) + 2 as real * slack(k)
        }),
{
    let d = v.hits(f, beams, ranges, b);
    law_held_mean(d, v.cfg.beam_clamp_m, k);
}

proof fn lemma_quotient_back(s: real, n: real)
    requires
        n > 0 as real,
    ensures
        product(n, s / n) == s,
{
    reveal(product);
    assert(n * (s / n) == s) by (nonlinear_arith)
        requires
            n > 0 as real,
    ;
}

proof fn lemma_ordered_products(n: real, x: real, y: real)
    requires
        n >= 0 as real,
    ensures
        x <= y ==> product(n, x) <= product(n, y),
{
    if x <= y {
        lemma_product_not_negative(n, y - x);
        lemma_distributes(n, x, y - x);
    }
}

/// The fields agree, but where both are beyond the clamp.
pub open spec fn agree_up_to(f: Field, g: Field, clamp: Single) -> bool {
    &&& f.cfg == g.cfg
    &&& f.w == g.w
    &&& f.h == g.h
    &&& forall|i: int, j: int|
        f.has(i, j) ==> #[trigger] f.at(i, j) == g.at(i, j) || (clamp.below(f.at(i, j))
            && clamp.below(g.at(i, j)))
}

/// Distances that agree, but where both are beyond the clamp, are held alike.
proof fn lemma_held_alike(d: Seq<Single>, e: Seq<Single>, clamp: Single, n: int)
    requires
        0 <= n <= d.len(),
        d.len() == e.len(),
        forall|k: int|
            0 <= k < d.len() ==> #[trigger] d[k] == e[k] || (clamp.below(d[k])
                && clamp.below(e[k])),
    ensures
        held_sum(d, clamp, n) == held_sum(e, clamp, n),
    decreases n,
{
    if n > 0 {
        lemma_held_alike(d, e, clamp, n - 1);
        assert(d[n - 1] == e[n - 1] || (clamp.below(d[n - 1]) && clamp.below(e[n - 1])));
    }
}

/// Beam ends in fields that agree, but where both are beyond the clamp.
proof fn lemma_ends_alike(
    f: Field,
    g: Field,
    x: Single,
    y: Single,
    beams: Seq<Heading>,
    ranges: Seq<Single>,
    clamp: Single,
    n: int,
)
    requires
        agree_up_to(f, g, clamp),
    ensures
        ({
            let (d, e) = (f.hits(x, y, beams, ranges, n), g.hits(x, y, beams, ranges, n));
            &&& d.len() == e.len()
            &&& forall|k: int|
                0 <= k < d.len() ==> #[trigger] d[k] == e[k] || (clamp.below(d[k])
                    && clamp.below(e[k]))
        }),
    decreases n,
{
    if n > 0 {
        lemma_ends_alike(f, g, x, y, beams, ranges, clamp, n - 1);
        let p = beam_end(x, y, beams[n - 1], ranges[n - 1]);
        let (i, j) = (f.cfg.row(p.1) as int, f.cfg.column(p.0) as int);
        if f.has(i, j) {
            assert(f.at(i, j) == g.at(i, j) || (clamp.below(f.at(i, j)) && clamp.below(
                g.at(i, j),
            )));
        }
    }
}

/// How far beyond the clamp a beam ends does not matter: with distances that
/// differ only where both are beyond it, every candidate scores the same.
pub proof fn law_beyond_the_clamp_all_is_one(
    f: Field,
    g: Field,
    i: int,
    j: int,
    yaw: Single,
    beams: Seq<Heading>,
    ranges: Seq<Single>,
    clamp: Single,
)
    requires
        agree_up_to(f, g, clamp),
    ensures
        candidate(f, i, j, yaw, beams, ranges, clamp) == candidate(
            g,
            i,
            j,
            yaw,
            beams,
            ranges,
            clamp,
        ),
{
    let (x, y) = (f.cfg.centre_x(j), f.cfg.centre_y(i));
    let n = ranges.len() as int;
    lemma_ends_alike(f, g, x, y, beams, ranges, clamp, n);
    let (d, e) = (f.hits(x, y, beams, ranges, n), g.hits(x, y, beams, ranges, n));
    lemma_held_alike(d, e, clamp, d.len() as int);
}

// ---- Searching --------------------------------------------------------------

/// A field of distances: as many as cells, none below zero.
pub open spec fn is_distance_field(f: Field) -> bool {
    f.wf() && are_distances(f.metres@)
}

/// What is looked up in a field of distances are distances.
proof fn lemma_hits(
    f: Field,
    x: Single,
    y: Single,
    beams: Seq<Heading>,
    ranges: Seq<Single>,
    n: int,
)
    requires
        is_distance_field(f),
        0 <= n,
    ensures
        are_distances(f.hits(x, y, beams, ranges, n)),
        f.hits(x, y, beams, ranges, n).len() <= n,
    decreases n,
{
    if n > 0 {
        lemma_hits(f, x, y, beams, ranges, n - 1);
        let p = beam_end(x, y, beams[n - 1], ranges[n - 1]);
        let (i, j) = (f.cfg.row(p.1) as int, f.cfg.column(p.0) as int);
        if f.has(i, j) {
            lemma_index_of(f.w as int, f.h as int, i, j);
            assert(f.at(i, j).finite() && exact(f.at(i, j)) >= 0 as real);
        }
    }
}

/// A result of a search: its residual is at most the clamp, up to rounding, it
/// explains enough beams, and it stands at the centre of a free cell.
pub open spec fn is_sound(
    r: RelocalizeResult,
    f: Field,
    grid: OccupancyGrid,
    cfg: RelocalizeConfig,
    k: nat,
) -> bool {
    &&& r.mean_residual_m.finite()
    &&& exact(r.mean_residual_m) <= exact(cfg.clamp_m) + 2 as real * slack(k)
    &&& r.n_beams_used >= cfg.min_beams_used
    &&& exists|i: int, j: int| #[trigger] stands_in(r, f, grid, i, j)
}

/// The pose stands at the centre of cell `(i, j)`, which is free.
pub open spec fn stands_in(
    r: RelocalizeResult,
    f: Field,
    grid: OccupancyGrid,
    i: int,
    j: int,
) -> bool {
    &&& grid.free(i, j)
    &&& r.pose.0 == f.cfg.centre_x(j)
    &&& r.pose.1 == f.cfg.centre_y(i)
}

/// A search that can be measured.
pub open spec fn is_measured(
    f: Field,
    ranges: Seq<Single>,
    cfg: RelocalizeConfig,
    k: nat,
) -> bool {
    &&& is_distance_field(f)
    &&& ranges.len() < 0x100_0000
    &&& cfg.min_beams_used > 0
    &&& cfg.clamp_m.finite()
    &&& exact(cfg.clamp_m) >= 0 as real
    &&& k <= 90
    &&& product(ranges.len() as real, exact(cfg.clamp_m) + slack(k)) <= limit(k)
}

/// One more candidate.
proof fn lemma_candidate_sound(
    s: Search,
    grid: OccupancyGrid,
    b: Option<RelocalizeResult>,
    i: int,
    j: int,
    y: int,
    k: nat,
)
    requires
        is_measured(s.field, s.ranges, s.cfg, k),
        grid.free(i, j),
        b matches Some(r) ==> is_sound(r, s.field, grid, s.cfg, k),
    ensures
        improved(b, s.candidate(i, j, y), s.cfg.min_beams_used) matches Some(r) ==> is_sound(
            r,
            s.field,
            grid,
            s.cfg,
            k,
        ),
{
    let f = s.field;
    let c = s.candidate(i, j, y);
    let d = ends(f, i, j, s.beams[y], s.ranges);
    let n = s.ranges.len() as int;
    lemma_hits(f, f.cfg.centre_x(j), f.cfg.centre_y(i), s.beams[y], s.ranges, n);
    assert(c.n_beams_used == d.len());
    if c.n_beams_used >= s.cfg.min_beams_used {
        let t = exact(s.cfg.clamp_m) + slack(k);
        crate::pose::lemma_binades(k);
        crate::sampling::lemma_ordered(d.len() as real, n as real, t);
        law_residual_is_held_mean(f, i, j, s.yaws[y], s.beams[y], s.ranges, s.cfg.clamp_m, k);
        assert(stands_in(c, f, grid, i, j));
    }
}

proof fn lemma_yaws_sound(
    s: Search,
    grid: OccupancyGrid,
    b: Option<RelocalizeResult>,
    i: int,
    j: int,
    n: int,
    k: nat,
)
    requires
        is_measured(s.field, s.ranges, s.cfg, k),
        grid.free(i, j),
        b matches Some(r) ==> is_sound(r, s.field, grid, s.cfg, k),
    ensures
        s.after_yaws(b, i, j, n) matches Some(r) ==> is_sound(r, s.field, grid, s.cfg, k),
    decreases n,
{
    if n > 0 {
        lemma_yaws_sound(s, grid, b, i, j, n - 1, k);
        lemma_candidate_sound(s, grid, s.after_yaws(b, i, j, n - 1), i, j, n - 1, k);
    }
}

proof fn lemma_cols_sound(
    s: Search,
    grid: OccupancyGrid,
    b: Option<RelocalizeResult>,
    i: int,
    n: int,
    k: nat,
)
    requires
        is_measured(s.field, s.ranges, s.cfg, k),
        b matches Some(r) ==> is_sound(r, s.field, grid, s.cfg, k),
    ensures
        s.after_cols(grid, b, i, n) matches Some(r) ==> is_sound(r, s.field, grid, s.cfg, k),
    decreases n,
{
    if n > 0 {
        lemma_cols_sound(s, grid, b, i, n - 1, k);
        let before = s.after_cols(grid, b, i, n - 1);
        let j = s.cols[n - 1] as int;
        if grid.free(i, j) {
            lemma_yaws_sound(s, grid, before, i, j, s.yaws.len() as int, k);
        }
    }
}

proof fn lemma_rows_sound(
    s: Search,
    grid: OccupancyGrid,
    b: Option<RelocalizeResult>,
    n: int,
    k: nat,
)
    requires
        is_measured(s.field, s.ranges, s.cfg, k),
        b matches Some(r) ==> is_sound(r, s.field, grid, s.cfg, k),
    ensures
        s.after_rows(grid, b, n) matches Some(r) ==> is_sound(r, s.field, grid, s.cfg, k),
    decreases n,
{
    if n > 0 {
        lemma_rows_sound(s, grid, b, n - 1, k);
        lemma_cols_sound(
            s,
            grid,
            s.after_rows(grid, b, n - 1),
            s.rows[n - 1] as int,
            s.cols.len() as int,
            k,
        );
    }
}

/// Whatever a relocalization finds is sound: its mean residual is at most the
/// clamp of its settings, up to rounding, it explains at least the least number
/// of beams, it stands at the centre of a free cell, and it is accepted exactly
/// if the residual is small enough.
pub proof fn law_relocalized_is_sound<T: Fn(Single) -> Heading>(
    grid: OccupancyGrid,
    f: Field,
    trig: T,
    angles: Seq<Single>,
    ranges: Seq<Single>,
    cfg: RelocalizeConfig,
    k: nat,
)
    requires
        is_measured(f, ranges, cfg, k),
    ensures
        relocalized(grid, f, trig, angles, ranges, cfg) matches Some(r) ==> {
            &&& is_sound(r, f, grid, cfg, k)
            &&& r.accepted == r.mean_residual_m.at_most(cfg.max_mean_residual_m)
        },
{
    let s = coarse(f, trig, angles, ranges, cfg);
    lemma_rows_sound(s, grid, None, s.rows.len() as int, k);
    if let Some(best) = s.result(grid, None) {
        let t = fine(f, trig, angles, ranges, cfg, best);
        lemma_rows_sound(t, grid, Some(best), t.rows.len() as int, k);
        if let Some(b) = t.result(grid, Some(best)) {
            let (i, j) = choose|i: int, j: int| #[trigger] stands_in(b, f, grid, i, j);
            assert(stands_in(judged(b, cfg), f, grid, i, j));
        }
    }
}

} // verus!
