//! Composite all submap grids into a single global occupancy grid.
//!
//! The global grid covers the corners of every submap in the world frame plus
//! a margin. Every cell of a submap that is certain enough is carried to the
//! world through the anchor pose and its log-odds are added there, clamped.

use vstd::prelude::*;
use crate::distance::{index_of, lemma_index_of};
use crate::function::{apply, heading_of, is_trig};
use crate::grid::{added, in_range, law_adding_keeps_range, GridConfig, OccupancyGrid};
use crate::accuracy::{exact, limit, within};
use crate::pose::{carried, law_local_pose_places_back, local_pose, Heading, Pose2};
use crate::turning::on_circle;
use crate::single::{Single, INFINITY_BITS, NEG_INFINITY_BITS};
use crate::submap::Submap;

verus! {

/// How to render.
#[derive(Debug, Clone, Copy)]
pub struct GlobalRenderConfig {
    /// Cell size of the rendered grid.
    pub cell_m: Single,
    /// Padding around the submaps, metres.
    pub margin_m: Single,
    /// Cells of a submap are composited only if their absolute log-odds are
    /// above this; 0 lets in every observed cell.
    pub min_hit_threshold_fp: i16,
}

impl Default for GlobalRenderConfig {
    /// Cells of 0.05 and a margin of 0.5 (metres), threshold 150.
    fn default() -> (r: Self)
        ensures
            r.cell_m.bits == 0x3d4c_cccd,
            r.margin_m.bits == 0x3f00_0000,
            r.min_hit_threshold_fp == 150,
    {
        GlobalRenderConfig {
            cell_m: Single { bits: 0x3d4c_cccd },
            margin_m: Single { bits: 0x3f00_0000 },
            min_hit_threshold_fp: 150,
        }
    }
}

/// A box in the world.
#[derive(Debug, Clone, Copy)]
pub struct Bounds {
    pub min_x: Single,
    pub max_x: Single,
    pub min_y: Single,
    pub max_y: Single,
}

/// The box that holds nothing.
pub open spec fn no_bounds() -> Bounds {
    Bounds {
        min_x: Single { bits: INFINITY_BITS },
        max_x: Single { bits: NEG_INFINITY_BITS },
        min_y: Single { bits: INFINITY_BITS },
        max_y: Single { bits: NEG_INFINITY_BITS },
    }
}

impl Bounds {
    /// The box widened to hold `(x, y)`.
    pub open spec fn with(self, p: (Single, Single)) -> Bounds {
        Bounds {
            min_x: if p.0.below(self.min_x) {
                p.0
            } else {
                self.min_x
            },
            max_x: if self.max_x.below(p.0) {
                p.0
            } else {
                self.max_x
            },
            min_y: if p.1.below(self.min_y) {
                p.1
            } else {
                self.min_y
            },
            max_y: if self.max_y.below(p.1) {
                p.1
            } else {
                self.max_y
            },
        }
    }

    /// The box widened to hold `(x, y)`.
    fn widen(self, p: (Single, Single)) -> (r: Bounds)
        ensures
            r == self.with(p),
    {
        Bounds {
            min_x: if p.0.lt(self.min_x) {
                p.0
            } else {
                self.min_x
            },
            max_x: if self.max_x.lt(p.0) {
                p.0
            } else {
                self.max_x
            },
            min_y: if p.1.lt(self.min_y) {
                p.1
            } else {
                self.min_y
            },
            max_y: if self.max_y.lt(p.1) {
                p.1
            } else {
                self.max_y
            },
        }
    }
}

/// A local point of a submap in the world; `h` is the heading of its anchor.
pub open spec fn placed(s: Submap, h: Heading, x: Single, y: Single) -> (Single, Single) {
    carried(s.anchor().0, s.anchor().1, h, x, y)
}

/// `b` widened to hold the four corners of a submap.
pub open spec fn with_submap(b: Bounds, s: Submap, h: Heading) -> Bounds {
    let (xr, yr) = (s.map().config().x_range, s.map().config().y_range);
    b.with(placed(s, h, xr.0, yr.0)).with(placed(s, h, xr.0, yr.1)).with(
        placed(s, h, xr.1, yr.0),
    ).with(placed(s, h, xr.1, yr.1))
}

/// The box of the first `n` submaps.
pub open spec fn bounds_of(submaps: Seq<&Submap>, headings: Seq<Heading>, n: int) -> Bounds
    decreases n,
{
    if n <= 0 {
        no_bounds()
    } else {
        with_submap(bounds_of(submaps, headings, n - 1), *submaps[n - 1], headings[n - 1])
    }
}

/// Geometry of the rendered grid: the box of all submaps and the margin.
pub open spec fn global_config(
    submaps: Seq<&Submap>,
    headings: Seq<Heading>,
    cfg: GlobalRenderConfig,
) -> GridConfig {
    let b = bounds_of(submaps, headings, submaps.len() as int);
    GridConfig {
        x_range: (b.min_x.minus(cfg.margin_m), b.max_x.plus(cfg.margin_m)),
        y_range: (b.min_y.minus(cfg.margin_m), b.max_y.plus(cfg.margin_m)),
        cell: cfg.cell_m,
    }
}

/// Headings of the anchors' yaws.
pub open spec fn anchor_headings<T: Fn(Single) -> Heading>(
    trig: T,
    submaps: Seq<&Submap>,
) -> Seq<Heading> {
    Seq::new(submaps.len(), |k: int| heading_of(trig, submaps[k].anchor().2))
}

/// Absolute value.
pub open spec fn size_of(v: i16) -> int {
    if v < 0 {
        -v
    } else {
        v as int
    }
}

/// A cell value is composited: it is above the threshold, of either sign.
pub open spec fn certain(v: i16, threshold: i16) -> bool {
    size_of(v) > size_of(threshold)
}

/// The cells `log` of a `w` by `h` grid of geometry `g` with the first `n`
/// cells of a submap added.
pub open spec fn with_cells(
    log: Seq<i16>,
    g: GridConfig,
    w: int,
    h: int,
    s: Submap,
    heading: Heading,
    threshold: i16,
    n: int,
) -> Seq<i16>
    decreases n,
{
    if n <= 0 {
        log
    } else {
        let before = with_cells(log, g, w, h, s, heading, threshold, n - 1);
        let v = s.map().cells()[n - 1];
        if certain(v, threshold) {
            let (i, j) = ((n - 1) / s.map().cols(), (n - 1) % s.map().cols());
            let cfg = s.map().config();
            let p = placed(s, heading, cfg.centre_x(j), cfg.centre_y(i));
            added(before, w, h, g.row(p.1) as int, g.column(p.0) as int, v)
        } else {
            before
        }
    }
}

/// The cells `log` of a `w` by `h` grid of geometry `g` with the first `n`
/// submaps added.
pub open spec fn with_submaps(
    log: Seq<i16>,
    g: GridConfig,
    w: int,
    h: int,
    submaps: Seq<&Submap>,
    headings: Seq<Heading>,
    threshold: i16,
    n: int,
) -> Seq<i16>
    decreases n,
{
    if n <= 0 {
        log
    } else {
        with_cells(
            with_submaps(log, g, w, h, submaps, headings, threshold, n - 1),
            g,
            w,
            h,
            *submaps[n - 1],
            headings[n - 1],
            threshold,
            submaps[n - 1].map().cells().len() as int,
        )
    }
}

/// A grid of unobserved cells.
pub open spec fn blank(n: int) -> Seq<i16> {
    Seq::new(n as nat, |at: int| 0i16)
}

/// True if a cell value is composited.
fn is_certain(v: i16, threshold: i16) -> (r: bool)
    ensures
        r == certain(v, threshold),
{
    let a: i32 = if v < 0 {
        -(v as i32)
    } else {
        v as i32
    };
    let b: i32 = if threshold < 0 {
        -(threshold as i32)
    } else {
        threshold as i32
    };
    a > b
}

/// The box of all submaps.
fn bounding_box(submaps: &[&Submap], headings: &[Heading]) -> (b: Bounds)
    requires
        submaps@.len() == headings@.len(),
    ensures
        b == bounds_of(submaps@, headings@, submaps@.len() as int),
{
    let mut b = Bounds {
        min_x: Single { bits: INFINITY_BITS },
        max_x: Single { bits: NEG_INFINITY_BITS },
        min_y: Single { bits: INFINITY_BITS },
        max_y: Single { bits: NEG_INFINITY_BITS },
    };
    let n = submaps.len();
    let mut k: usize = 0;
    while k < n
        invariant
            n == submaps@.len(),
            n == headings@.len(),
            k <= n,
            b == bounds_of(submaps@, headings@, k as int),
        decreases n - k,
    {
        let s = submaps[k];
        let h = headings[k];
        let (xr, yr) = (s.grid().cfg().x_range, s.grid().cfg().y_range);
        let (ax, ay, ayaw) = s.anchor_pose();
        b = b.widen(h.carry(ax, ay, xr.0, yr.0));
        b = b.widen(h.carry(ax, ay, xr.0, yr.1));
        b = b.widen(h.carry(ax, ay, xr.1, yr.0));
        b = b.widen(h.carry(ax, ay, xr.1, yr.1));
        k = k + 1;
    }
    b
}

/// Adds the cells of one submap to the global grid.
fn composite(global: &mut OccupancyGrid, s: &Submap, heading: Heading, threshold: i16)
    requires
        old(global).wf(),
        s.wf(),
    ensures
        final(global).wf(),
        final(global).same_shape(old(global)),
        final(global).cells() == with_cells(
            old(global).cells(),
            old(global).config(),
            old(global).cols(),
            old(global).rows(),
            *s,
            heading,
            threshold,
            s.map().cells().len() as int,
        ),
{
    let cfg = s.grid().cfg();
    let w = s.grid().width();
    let h = s.grid().height();
    let log = s.grid().log_raw();
    let (ax, ay, ayaw) = s.anchor_pose();
    let mut at: usize = 0;
    let mut i: usize = 0;
    proof {
        assert(0 * w == 0) by (nonlinear_arith);
    }
    while i < h
        invariant
            global.wf(),
            global.same_shape(old(global)),
            s.wf(),
            w == s.map().cols(),
            h == s.map().rows(),
            *cfg == s.map().config(),
            log@ == s.map().cells(),
            ax == s.anchor().0,
            ay == s.anchor().1,
            i <= h,
            at == i * w,
            global.cells() == with_cells(
                old(global).cells(),
                old(global).config(),
                old(global).cols(),
                old(global).rows(),
                *s,
                heading,
                threshold,
                at as int,
            ),
        decreases h - i,
    {
        let mut j: usize = 0;
        while j < w
            invariant
                global.wf(),
                global.same_shape(old(global)),
                s.wf(),
                w == s.map().cols(),
                h == s.map().rows(),
                *cfg == s.map().config(),
                log@ == s.map().cells(),
                ax == s.anchor().0,
                ay == s.anchor().1,
                i < h,
                j <= w,
                at == i * w + j,
                global.cells() == with_cells(
                    old(global).cells(),
                    old(global).config(),
                    old(global).cols(),
                    old(global).rows(),
                    *s,
                    heading,
                    threshold,
                    at as int,
                ),
            decreases w - j,
        {
            proof {
                lemma_index_of(w as int, h as int, i as int, j as int);
                assert(index_of(w as int, i as int, j as int) == at);
                vstd::arithmetic::div_mod::lemma_fundamental_div_mod_converse(
                    at as int,
                    w as int,
                    i as int,
                    j as int,
                );
                assert(log.len() == log@.len());
            }
            let v = log[at];
            if is_certain(v, threshold) {
                let (xl, yl) = cfg.centre(i, j);
                let (xw, yw) = heading.carry(ax, ay, xl, yl);
                global.add_log_odds_at_world(xw, yw, v);
            }
            at = at + 1;
            j = j + 1;
        }
        proof {
            assert((i + 1) * w == i * w + w) by (nonlinear_arith);
        }
        i = i + 1;
    }
    proof {
        assert(h * w == w * h) by (nonlinear_arith);
    }
}

/// Headings of the anchors' yaws.
fn headings_of<T: Fn(Single) -> Heading>(trig: &T, submaps: &[&Submap]) -> (r: Vec<Heading>)
    requires
        is_trig(*trig),
    ensures
        r@ == anchor_headings(*trig, submaps@),
{
    let n = submaps.len();
    let mut out: Vec<Heading> = Vec::new();
    let mut k: usize = 0;
    while k < n
        invariant
            n == submaps@.len(),
            k <= n,
            is_trig(*trig),
            out@.len() == k,
            forall|t: int|
                0 <= t < k ==> #[trigger] out@[t] == heading_of(*trig, submaps@[t].anchor().2),
        decreases n - k,
    {
        out.push(apply(trig, submaps[k].anchor_pose().2));
        k = k + 1;
    }
    assert(out@ =~= anchor_headings(*trig, submaps@));
    out
}

/// Geometry of the grid that [`render_global`] renders.
pub fn global_extent<T: Fn(Single) -> Heading>(
    submaps: &[&Submap],
    cfg: &GlobalRenderConfig,
    trig: &T,
) -> (r: GridConfig)
    requires
        is_trig(*trig),
    ensures
        r == global_config(submaps@, anchor_headings(*trig, submaps@), *cfg),
{
    let headings = headings_of(trig, submaps);
    let b = bounding_box(submaps, headings.as_slice());
    let m = cfg.margin_m;
    GridConfig {
        x_range: (b.min_x.sub(m), b.max_x.add(m)),
        y_range: (b.min_y.sub(m), b.max_y.add(m)),
        cell: cfg.cell_m,
    }
}

/// Render the union of all submaps into a fresh global grid. `None` when given
/// no submaps.
pub fn render_global<T: Fn(Single) -> Heading>(
    submaps: &[&Submap],
    cfg: &GlobalRenderConfig,
    trig: &T,
) -> (r: Option<OccupancyGrid>)
    requires
        is_trig(*trig),
        forall|k: int| 0 <= k < submaps@.len() ==> (#[trigger] submaps@[k]).wf(),
        ({
            let g = global_config(submaps@, anchor_headings(*trig, submaps@), *cfg);
            submaps@.len() > 0 ==> g.columns() * g.lines() <= usize::MAX
        }),
    ensures
        r is None <==> submaps@.len() == 0,
        r matches Some(grid) ==> {
            let g = global_config(submaps@, anchor_headings(*trig, submaps@), *cfg);
            &&& grid.wf()
            &&& grid.config() == g
            &&& grid.cols() == g.columns()
            &&& grid.rows() == g.lines()
            &&& grid.cells() == with_submaps(
                blank(grid.cols() * grid.rows()),
                g,
                grid.cols(),
                grid.rows(),
                submaps@,
                anchor_headings(*trig, submaps@),
                cfg.min_hit_threshold_fp,
                submaps@.len() as int,
            )
        },
{
    let n = submaps.len();
    if n == 0 {
        return None;
    }
    let global_cfg = global_extent(submaps, cfg, trig);
    let headings = headings_of(trig, submaps);
    let mut global = OccupancyGrid::new(global_cfg);
    let ghost start = global.cells();
    assert(start =~= blank(global.cols() * global.rows()));
    let mut k: usize = 0;
    while k < n
        invariant
            n == submaps@.len(),
            n == headings@.len(),
            k <= n,
            global.wf(),
            global.config() == global_cfg,
            global.cols() == global_cfg.columns(),
            global.rows() == global_cfg.lines(),
            forall|t: int| 0 <= t < submaps@.len() ==> (#[trigger] submaps@[t]).wf(),
            global.cells() == with_submaps(
                start,
                global_cfg,
                global.cols(),
                global.rows(),
                submaps@,
                headings@,
                cfg.min_hit_threshold_fp,
                k as int,
            ),
        decreases n - k,
    {
        assert(submaps@[k as int].wf());
        composite(&mut global, submaps[k], headings[k], cfg.min_hit_threshold_fp);
        k = k + 1;
    }
    Some(global)
}

// ---- Laws -------------------------------------------------------------------

/// The box holds a point: no coordinate of it lies outside.
pub open spec fn holds(b: Bounds, p: (Single, Single)) -> bool {
    &&& !p.0.below(b.min_x)
    &&& !b.max_x.below(p.0)
    &&& !p.1.below(b.min_y)
    &&& !b.max_y.below(p.1)
}

/// Widening a box keeps what it held, and takes in the new point.
pub proof fn law_widened_box(b: Bounds, p: (Single, Single), q: (Single, Single))
    requires
        holds(b, q),
    ensures
        holds(b.with(p), p),
        holds(b.with(p), q),
{
}

/// The four corners of a submap in the world.
pub open spec fn corner(s: Submap, h: Heading, c: int) -> (Single, Single) {
    let (xr, yr) = (s.map().config().x_range, s.map().config().y_range);
    if c == 0 {
        placed(s, h, xr.0, yr.0)
    } else if c == 1 {
        placed(s, h, xr.0, yr.1)
    } else if c == 2 {
        placed(s, h, xr.1, yr.0)
    } else {
        placed(s, h, xr.1, yr.1)
    }
}

/// The box of all submaps holds every corner of every one of them.
pub proof fn law_bounds_hold_corners(
    submaps: Seq<&Submap>,
    headings: Seq<Heading>,
    n: int,
    k: int,
    c: int,
)
    requires
        0 <= k < n <= submaps.len(),
        0 <= c < 4,
    ensures
        holds(bounds_of(submaps, headings, n), corner(*submaps[k], headings[k], c)),
    decreases n,
{
    let b = bounds_of(submaps, headings, n - 1);
    let (s, h) = (*submaps[n - 1], headings[n - 1]);
    let q = corner(*submaps[k], headings[k], c);
    let b0 = b.with(corner(s, h, 0));
    let b1 = b0.with(corner(s, h, 1));
    let b2 = b1.with(corner(s, h, 2));
    if k < n - 1 {
        law_bounds_hold_corners(submaps, headings, n - 1, k, c);
        law_widened_box(b, corner(s, h, 0), q);
    } else if c == 0 {
        assert(holds(b0, q));
    }
    if k < n - 1 || c == 0 {
        law_widened_box(b0, corner(s, h, 1), q);
    } else if c == 1 {
        assert(holds(b1, q));
    }
    if k < n - 1 || c <= 1 {
        law_widened_box(b1, corner(s, h, 2), q);
    } else if c == 2 {
        assert(holds(b2, q));
    }
    if k < n - 1 || c <= 2 {
        law_widened_box(b2, corner(s, h, 3), q);
    }
}

/// However many submaps overlap, the rendered log-odds stay in their range.
pub proof fn law_render_keeps_range(
    log: Seq<i16>,
    g: GridConfig,
    w: int,
    h: int,
    submaps: Seq<&Submap>,
    headings: Seq<Heading>,
    threshold: i16,
    n: int,
)
    requires
        in_range(log),
        0 <= w,
        log.len() == w * h,
    ensures
        in_range(with_submaps(log, g, w, h, submaps, headings, threshold, n)),
        with_submaps(log, g, w, h, submaps, headings, threshold, n).len() == log.len(),
    decreases n,
{
    if n > 0 {
        law_render_keeps_range(log, g, w, h, submaps, headings, threshold, n - 1);
        lemma_cells_keep_range(
            with_submaps(log, g, w, h, submaps, headings, threshold, n - 1),
            g,
            w,
            h,
            *submaps[n - 1],
            headings[n - 1],
            threshold,
            submaps[n - 1].map().cells().len() as int,
        );
    }
}

proof fn lemma_cells_keep_range(
    log: Seq<i16>,
    g: GridConfig,
    w: int,
    h: int,
    s: Submap,
    heading: Heading,
    threshold: i16,
    n: int,
)
    requires
        in_range(log),
        0 <= w,
        log.len() == w * h,
    ensures
        in_range(with_cells(log, g, w, h, s, heading, threshold, n)),
        with_cells(log, g, w, h, s, heading, threshold, n).len() == log.len(),
    decreases n,
{
    if n > 0 {
        lemma_cells_keep_range(log, g, w, h, s, heading, threshold, n - 1);
        let before = with_cells(log, g, w, h, s, heading, threshold, n - 1);
        let v = s.map().cells()[n - 1];
        let (i, j) = ((n - 1) / s.map().cols(), (n - 1) % s.map().cols());
        let cfg = s.map().config();
        let p = placed(s, heading, cfg.centre_x(j), cfg.centre_y(i));
        law_adding_keeps_range(before, w, h, g.row(p.1) as int, g.column(p.0) as int, v);
    }
}

/// Cells that are not certain enough leave no mark: a submap without a certain
/// cell changes nothing.
pub proof fn law_uncertain_cells_hidden(
    log: Seq<i16>,
    g: GridConfig,
    w: int,
    h: int,
    s: Submap,
    heading: Heading,
    threshold: i16,
    n: int,
)
    requires
        n <= s.map().cells().len(),
        forall|at: int|
            0 <= at < s.map().cells().len() ==> !certain(#[trigger] s.map().cells()[at], threshold),
    ensures
        with_cells(log, g, w, h, s, heading, threshold, n) == log,
    decreases n,
{
    if n > 0 {
        law_uncertain_cells_hidden(log, g, w, h, s, heading, threshold, n - 1);
        assert(!certain(s.map().cells()[n - 1], threshold));
    }
}

/// Rendering undoes the way into a submap: the place of a body in the frame of a
/// submap's anchor, carried to the world as rendering does, is the place of the
/// body, up to rounding and whatever the anchor's yaw. Positions of at most
/// `2^k` come back within `2^k / 65536`.
pub proof fn law_placed_where_it_was_seen(s: Submap, h: Heading, body: Pose2, k: nat)
    requires
        on_circle(h),
        s.anchor().0.finite() && s.anchor().1.finite() && s.anchor().2.finite(),
        body.0.finite() && body.1.finite() && body.2.finite(),
        k <= 90,
        -limit(k) <= exact(s.anchor().0) <= limit(k),
        -limit(k) <= exact(s.anchor().1) <= limit(k),
        -limit(k) <= exact(body.0) <= limit(k),
        -limit(k) <= exact(body.1) <= limit(k),
        -(17 as real) <= 5 as real * exact(s.anchor().2) <= 17 as real,
        -(17 as real) <= 5 as real * exact(body.2) <= 17 as real,
    ensures
        ({
            let local = local_pose(s.anchor(), h, body);
            let p = placed(s, h, local.0, local.1);
            &&& within(exact(p.0), exact(body.0), limit(k) / 65_536 as real)
            &&& within(exact(p.1), exact(body.1), limit(k) / 65_536 as real)
        }),
{
    law_local_pose_places_back(s.anchor(), h, body, k);
}

} // verus!
