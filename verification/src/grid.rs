//! 2D log-odds occupancy grid, fixed-point.
//!
//! Cells store log-odds times [`LOG_SCALE`] as `i16`; every update clamps to
//! `[LO_MIN, LO_MAX]`, so the inner loop is integer arithmetic only. World
//! coordinates are binary32 numbers: the cell of a coordinate is its distance
//! from the start of the range over the cell size, rounded down, and may lie
//! outside the grid. What lies below a range is in none of its cells; a NaN
//! counts as the start of the range.

use vstd::prelude::*;
use crate::arith::zero;
use crate::conversion::rounded;
use crate::distance::{distances, index_of, lemma_index_of, lemma_index_split, metric_field};
use crate::function::{apply, heading_of, is_trig};
use crate::line::{law_line_distinct, law_line_ends, line_cell, line_steps};
use crate::pose::Heading;
use crate::single::{Single, HALF_BITS, ZERO_BITS};
pub use crate::line::bresenham;

verus! {

/// Fixed-point scale: stored value = log-odds times this, rounded.
pub const LOG_SCALE: i16 = 100;

/// Lower clamp of the log-odds.
pub const LO_MIN: i16 = -400;

/// Upper clamp of the log-odds.
pub const LO_MAX: i16 = 400;

/// Increment of the cell that a beam ends in.
pub const LO_HIT: i16 = 85;

/// Increment of the cells that a beam passes through.
pub const LO_MISS: i16 = -40;

/// A cell counts as occupied for ray casting and display above this.
pub const OCC_THRESHOLD: i16 = 0;

/// Version of the map format.
pub const SAVE_VERSION: u32 = 1;

/// Geometry of an occupancy grid in world coordinates.
#[derive(Debug, Clone, Copy)]
pub struct GridConfig {
    pub x_range: (Single, Single),
    pub y_range: (Single, Single),
    pub cell: Single,
}

impl Default for GridConfig {
    /// x from -4.5 to 4.5, y from -3.5 to 3.5, cells of 0.05 (metres).
    fn default() -> (r: Self)
        ensures
            r.x_range.0.bits == 0xc090_0000,
            r.x_range.1.bits == 0x4090_0000,
            r.y_range.0.bits == 0xc060_0000,
            r.y_range.1.bits == 0x4060_0000,
            r.cell.bits == 0x3d4c_cccd,
    {
        GridConfig {
            x_range: (Single { bits: 0xc090_0000 }, Single { bits: 0x4090_0000 }),
            y_range: (Single { bits: 0xc060_0000 }, Single { bits: 0x4060_0000 }),
            cell: Single { bits: 0x3d4c_cccd },
        }
    }
}

/// Number of whole cells from `start` to `v`, rounded down; zero where either is
/// a NaN. Below the start it is negative, also where the quotient is too small
/// to be told from zero.
pub open spec fn cells_from(start: Single, v: Single, cell: Single) -> i32 {
    let n = v.minus(start).over(cell).floor_i32();
    if n >= 0 && v.below(start) && zero().below(cell) {
        -1i32
    } else {
        n
    }
}

/// Number of whole cells from `start` to `v`.
fn count_cells(start: Single, v: Single, cell: Single) -> (n: i32)
    ensures
        n == cells_from(start, v, cell),
{
    let n: i32 = v.sub(start).div(cell).floor_to_i32();
    if n >= 0 && v.lt(start) && (Single { bits: ZERO_BITS }).lt(cell) {
        -1
    } else {
        n
    }
}

impl GridConfig {
    /// Column that `x` falls into.
    pub open spec fn column(self, x: Single) -> i32 {
        cells_from(self.x_range.0, x, self.cell)
    }

    /// Row that `y` falls into.
    pub open spec fn row(self, y: Single) -> i32 {
        cells_from(self.y_range.0, y, self.cell)
    }

    /// Number of columns that cover the x range.
    pub open spec fn columns(self) -> usize {
        self.x_range.1.minus(self.x_range.0).over(self.cell).ceil_usize()
    }

    /// Number of rows that cover the y range.
    pub open spec fn lines(self) -> usize {
        self.y_range.1.minus(self.y_range.0).over(self.cell).ceil_usize()
    }

    /// World x of the centre of column `j`.
    pub open spec fn centre_x(self, j: int) -> Single {
        self.x_range.0.plus(rounded(j).plus(Single { bits: HALF_BITS }).times(self.cell))
    }

    /// World y of the centre of row `i`.
    pub open spec fn centre_y(self, i: int) -> Single {
        self.y_range.0.plus(rounded(i).plus(Single { bits: HALF_BITS }).times(self.cell))
    }

    /// True if one index reaches all cells.
    pub fn fits(&self) -> (r: bool)
        ensures
            r == (self.columns() * self.lines() <= usize::MAX),
    {
        let w: usize = self.x_range.1.sub(self.x_range.0).div(self.cell).ceil_to_usize();
        let h: usize = self.y_range.1.sub(self.y_range.0).div(self.cell).ceil_to_usize();
        w.checked_mul(h).is_some()
    }

    /// Column that `x` falls into.
    pub fn column_of(&self, x: Single) -> (j: i32)
        ensures
            j == self.column(x),
    {
        count_cells(self.x_range.0, x, self.cell)
    }

    /// Row that `y` falls into.
    pub fn row_of(&self, y: Single) -> (i: i32)
        ensures
            i == self.row(y),
    {
        count_cells(self.y_range.0, y, self.cell)
    }

    /// World coordinates of the centre of cell `(i, j)`.
    pub fn centre(&self, i: usize, j: usize) -> (r: (Single, Single))
        ensures
            r == (self.centre_x(j as int), self.centre_y(i as int)),
    {
        let half = Single { bits: HALF_BITS };
        let x = self.x_range.0.add(Single::from_u64(j as u64).add(half).mul(self.cell));
        let y = self.y_range.0.add(Single::from_u64(i as u64).add(half).mul(self.cell));
        (x, y)
    }
}

/// `v` clamped to the log-odds range.
pub open spec fn clamped(v: int) -> i16 {
    if v < LO_MIN {
        LO_MIN
    } else if v > LO_MAX {
        LO_MAX
    } else {
        v as i16
    }
}

/// Cell `(i, j)` is one of the first `n` cells of the line between two cells.
pub open spec fn visited(
    i0: int,
    j0: int,
    i1: int,
    j1: int,
    n: int,
    i: int,
    j: int,
) -> bool {
    exists|k: int| 0 <= k < n && #[trigger] line_cell(i0, j0, i1, j1, k) == (i, j)
}

/// Cell `(i, j)` lies on the line between two cells.
pub open spec fn on_line(i0: int, j0: int, i1: int, j1: int, i: int, j: int) -> bool {
    visited(i0, j0, i1, j1, line_steps(i0, j0, i1, j1) + 1, i, j)
}

/// What a beam from `(i0, j0)` to `(i1, j1)` makes of a cell that held `v`:
/// the end of an occupied beam takes the hit increment, every other cell on
/// the line the miss increment, cells off the line stay.
pub open spec fn ray_update(
    v: i16,
    i0: int,
    j0: int,
    i1: int,
    j1: int,
    hit: bool,
    i: int,
    j: int,
) -> i16 {
    if on_line(i0, j0, i1, j1, i, j) {
        if hit && i == i1 && j == j1 {
            clamped(v + LO_HIT)
        } else {
            clamped(v + LO_MISS)
        }
    } else {
        v
    }
}

/// The cells of a grid `w` wide after a beam from `(i0, j0)` to `(i1, j1)`.
pub open spec fn after_ray(
    log: Seq<i16>,
    w: int,
    i0: int,
    j0: int,
    i1: int,
    j1: int,
    hit: bool,
) -> Seq<i16> {
    Seq::new(log.len(), |at: int| ray_update(log[at], i0, j0, i1, j1, hit, at / w, at % w))
}

/// The cells of a `w` by `h` grid with `delta` added to cell `(i, j)`.
pub open spec fn added(log: Seq<i16>, w: int, h: int, i: int, j: int, delta: i16) -> Seq<i16> {
    if 0 <= i < h && 0 <= j < w {
        log.update(index_of(w, i, j), clamped(log[index_of(w, i, j)] + delta))
    } else {
        log
    }
}

/// The cells of a grid after a beam from `(x0, y0)` to `(x1, y1)` in the world.
pub open spec fn after_beam(
    log: Seq<i16>,
    cfg: GridConfig,
    w: int,
    x0: Single,
    y0: Single,
    x1: Single,
    y1: Single,
    hit: bool,
) -> Seq<i16> {
    after_ray(
        log,
        w,
        cfg.row(y0) as int,
        cfg.column(x0) as int,
        cfg.row(y1) as int,
        cfg.column(x1) as int,
        hit,
    )
}

/// 2D log-odds occupancy grid. Row-major, `(i, j)` is `(row = y, column = x)`.
pub struct OccupancyGrid {
    cfg: GridConfig,
    w: usize,
    h: usize,
    log: Vec<i16>,
    /// Distance in metres to the nearest obstacle, as last computed.
    field: Option<Vec<Single>>,
    field_threshold_fp: i16,
    field_dirty: bool,
}

impl OccupancyGrid {
    /// The geometry that the grid carries.
    pub closed spec fn config(&self) -> GridConfig {
        self.cfg
    }

    /// Number of columns.
    pub closed spec fn cols(&self) -> int {
        self.w as int
    }

    /// Number of rows.
    pub closed spec fn rows(&self) -> int {
        self.h as int
    }

    /// The log-odds of all cells, row by row.
    pub closed spec fn cells(&self) -> Seq<i16> {
        self.log@
    }

    /// Whether a distance field for this threshold is at hand.
    pub closed spec fn cached(&self, threshold: i16) -> bool {
        !self.field_dirty && self.field is Some && self.field_threshold_fp == threshold
    }

    /// A field at hand is the field of the cells as they are now.
    pub closed spec fn cache_agrees(&self) -> bool {
        !self.field_dirty && self.field is Some ==> self.field->0@ == distances(
            self.log@,
            self.w as int,
            self.h as int,
            self.field_threshold_fp,
            self.cfg.cell,
        )
    }

    /// One value per cell, and no stale distance field.
    pub open spec fn wf(&self) -> bool {
        &&& 0 <= self.cols() <= usize::MAX
        &&& 0 <= self.rows() <= usize::MAX
        &&& self.cells().len() == self.cols() * self.rows()
        &&& self.cache_agrees()
    }

    /// The grid has a cell `(i, j)`.
    pub open spec fn has(&self, i: int, j: int) -> bool {
        0 <= i < self.rows() && 0 <= j < self.cols()
    }

    /// The log-odds of cell `(i, j)`.
    pub open spec fn at(&self, i: int, j: int) -> i16 {
        self.cells()[index_of(self.cols(), i, j)]
    }

    /// Same geometry and size; only cell values may differ.
    pub open spec fn same_shape(&self, other: &OccupancyGrid) -> bool {
        &&& self.config() == other.config()
        &&& self.cols() == other.cols()
        &&& self.rows() == other.rows()
    }

    /// Distance in metres from each cell to the nearest one above the
    /// threshold, row by row.
    pub open spec fn distances(&self, threshold: i16) -> Seq<Single> {
        distances(self.cells(), self.cols(), self.rows(), threshold, self.config().cell)
    }

    /// The squared distances of a grid of this size fit in 64 bits.
    pub open spec fn measurable(&self) -> bool {
        self.cols() * self.cols() + self.rows() * self.rows() <= u64::MAX
    }

    /// The grid has been observed as free at `(i, j)` at least once: the
    /// log-odds are as low as one miss leaves them, or lower.
    pub open spec fn free(&self, i: int, j: int) -> bool {
        self.at(i, j) <= LO_MISS
    }

    /// A grid of unobserved cells that covers the ranges of `cfg`.
    pub fn new(cfg: GridConfig) -> (g: Self)
        requires
            cfg.columns() * cfg.lines() <= usize::MAX,
        ensures
            g.wf(),
            g.config() == cfg,
            g.cols() == cfg.columns(),
            g.rows() == cfg.lines(),
            forall|at: int| 0 <= at < g.cells().len() ==> #[trigger] g.cells()[at] == 0,
    {
        let w: usize = cfg.x_range.1.sub(cfg.x_range.0).div(cfg.cell).ceil_to_usize();
        let h: usize = cfg.y_range.1.sub(cfg.y_range.0).div(cfg.cell).ceil_to_usize();
        let n: usize = w * h;
        let mut log: Vec<i16> = Vec::new();
        let mut k: usize = 0;
        while k < n
            invariant
                k <= n,
                log@.len() == k,
                forall|at: int| 0 <= at < k ==> #[trigger] log@[at] == 0,
            decreases n - k,
        {
            log.push(0);
            k = k + 1;
        }
        OccupancyGrid {
            cfg,
            w,
            h,
            log,
            field: None,
            field_threshold_fp: 0,
            field_dirty: true,
        }
    }

    /// A grid from its geometry, sides and cells; `None` if there is not one
    /// value for each cell.
    pub fn from_parts(cfg: GridConfig, w: usize, h: usize, log: Vec<i16>) -> (r: Option<Self>)
        ensures
            r is Some <==> log@.len() == w * h,
            r matches Some(g) ==> {
                &&& g.wf()
                &&& g.config() == cfg
                &&& g.cols() == w
                &&& g.rows() == h
                &&& g.cells() == log@
            },
    {
        assert(w * h <= u128::MAX) by (nonlinear_arith)
            requires
                0 <= w <= u64::MAX,
                0 <= h <= u64::MAX,
        ;
        if log.len() as u128 != w as u128 * h as u128 {
            return None;
        }
        Some(
            OccupancyGrid {
                cfg,
                w,
                h,
                log,
                field: None,
                field_threshold_fp: 0,
                field_dirty: true,
            },
        )
    }

    /// The geometry that the grid carries.
    pub fn cfg(&self) -> (r: &GridConfig)
        ensures
            *r == self.config(),
    {
        &self.cfg
    }

    /// Number of columns.
    pub fn width(&self) -> (r: usize)
        ensures
            r == self.cols(),
    {
        self.w
    }

    /// Number of rows.
    pub fn height(&self) -> (r: usize)
        ensures
            r == self.rows(),
    {
        self.h
    }

    /// Side length of a cell.
    pub fn cell(&self) -> (r: Single)
        ensures
            r == self.config().cell,
    {
        self.cfg.cell
    }

    /// The log-odds of all cells, row by row.
    pub fn log_raw(&self) -> (r: &[i16])
        ensures
            r@ == self.cells(),
    {
        self.log.as_slice()
    }

    /// World coordinate to grid index. `None` if out of bounds.
    pub fn world_to_idx(&self, x: Single, y: Single) -> (r: Option<(usize, usize)>)
        ensures
            r is Some <==> self.has(self.config().row(y) as int, self.config().column(x) as int),
            r matches Some(ij) ==> ij.0 == self.config().row(y) && ij.1 == self.config().column(x),
            r is Some && zero().below(self.config().cell) ==> !x.below(self.config().x_range.0)
                && !y.below(self.config().y_range.0),
    {
        let j = self.cfg.column_of(x);
        let i = self.cfg.row_of(y);
        if self.in_bounds(i, j) {
            Some((i as usize, j as usize))
        } else {
            None
        }
    }

    /// True if the grid has a cell `(i, j)`.
    pub fn in_bounds(&self, i: i32, j: i32) -> (r: bool)
        ensures
            r == self.has(i as int, j as int),
    {
        i >= 0 && j >= 0 && (i as usize) < self.h && (j as usize) < self.w
    }

    /// Row-major position of a cell.
    fn position(&self, i: usize, j: usize) -> (at: usize)
        requires
            self.wf(),
            self.has(i as int, j as int),
        ensures
            at == index_of(self.cols(), i as int, j as int),
            at < self.log@.len(),
    {
        proof {
            lemma_index_of(self.w as int, self.h as int, i as int, j as int);
            lemma_index_of(self.w as int, self.h as int, i as int, 0);
        }
        assert(self.log.len() == self.log@.len());
        i * self.w + j
    }

    /// The log-odds of a cell.
    pub fn log_at(&self, i: usize, j: usize) -> (r: i16)
        requires
            self.wf(),
            self.has(i as int, j as int),
        ensures
            r == self.at(i as int, j as int),
    {
        let at = self.position(i, j);
        self.log[at]
    }

    /// True if this cell has been explicitly observed as free at least once.
    pub fn is_known_free(&self, i: usize, j: usize) -> (r: bool)
        requires
            self.wf(),
            self.has(i as int, j as int),
        ensures
            r == self.free(i as int, j as int),
    {
        self.log_at(i, j) <= LO_MISS
    }

    /// True if this cell counts as occupied.
    pub fn is_occupied(&self, i: usize, j: usize) -> (r: bool)
        requires
            self.wf(),
            self.has(i as int, j as int),
        ensures
            r == (self.at(i as int, j as int) > OCC_THRESHOLD),
    {
        self.log_at(i, j) > OCC_THRESHOLD
    }

    /// Apply one log-odds increment to a cell, clamped to `[LO_MIN, LO_MAX]`.
    fn bump(&mut self, i: usize, j: usize, delta: i16)
        requires
            old(self).wf(),
            old(self).field_dirty,
            old(self).has(i as int, j as int),
        ensures
            final(self).wf(),
            final(self).field_dirty,
            final(self).same_shape(old(self)),
            final(self).cells() == old(self).cells().update(
                index_of(old(self).cols(), i as int, j as int),
                clamped(old(self).at(i as int, j as int) + delta),
            ),
    {
        let at = self.position(i, j);
        let v: i32 = self.log[at] as i32 + delta as i32;
        let c: i16 = if v < LO_MIN as i32 {
            LO_MIN
        } else if v > LO_MAX as i32 {
            LO_MAX
        } else {
            v as i16
        };
        self.log.set(at, c);
    }

    /// Integrate one beam from `(x0, y0)` (sensor) to `(x1, y1)` (hit). Cells
    /// along the beam are marked free; the end is marked occupied iff
    /// `hit_is_occupied`. Cells outside the grid are skipped.
    pub fn integrate_ray(
        &mut self,
        x0: Single,
        y0: Single,
        x1: Single,
        y1: Single,
        hit_is_occupied: bool,
    )
        requires
            old(self).wf(),
        ensures
            final(self).wf(),
            final(self).same_shape(old(self)),
            final(self).cells() == after_beam(
                old(self).cells(),
                old(self).config(),
                old(self).cols(),
                x0,
                y0,
                x1,
                y1,
                hit_is_occupied,
            ),
    {
        let i0 = self.cfg.row_of(y0);
        let j0 = self.cfg.column_of(x0);
        let i1 = self.cfg.row_of(y1);
        let j1 = self.cfg.column_of(x1);
        self.integrate_cells(i0, j0, i1, j1, hit_is_occupied);
    }

    /// Integrate one beam from cell `(i0, j0)` to cell `(i1, j1)`.
    fn integrate_cells(&mut self, i0: i32, j0: i32, i1: i32, j1: i32, hit_is_occupied: bool)
        requires
            old(self).wf(),
        ensures
            final(self).wf(),
            final(self).same_shape(old(self)),
            final(self).cells() == after_ray(
                old(self).cells(),
                old(self).cols(),
                i0 as int,
                j0 as int,
                i1 as int,
                j1 as int,
                hit_is_occupied,
            ),
    {
        self.field_dirty = true;
        let line = bresenham(i0, j0, i1, j1);
        let n = line.len();
        let ghost steps = line_steps(i0 as int, j0 as int, i1 as int, j1 as int);
        let mut t: usize = 0;
        while t < n
            invariant
                self.wf(),
                self.field_dirty,
                self.same_shape(old(self)),
                old(self).wf(),
                n == line@.len(),
                n == steps + 1,
                steps == line_steps(i0 as int, j0 as int, i1 as int, j1 as int),
                t <= n,
                forall|k: int|
                    0 <= k < line@.len() ==> {
                        let c = line_cell(i0 as int, j0 as int, i1 as int, j1 as int, k);
                        &&& (#[trigger] line@[k]).0 == c.0
                        &&& line@[k].1 == c.1
                        &&& line@[k].2 == (k == line@.len() - 1)
                    },
                forall|i: int, j: int|
                    self.has(i, j) ==> #[trigger] self.at(i, j) == if visited(
                        i0 as int,
                        j0 as int,
                        i1 as int,
                        j1 as int,
                        t as int,
                        i,
                        j,
                    ) {
                        clamped(
                            old(self).at(i, j) + if hit_is_occupied && i == i1 && j == j1 {
                                LO_HIT as int
                            } else {
                                LO_MISS as int
                            },
                        )
                    } else {
                        old(self).at(i, j)
                    },
            decreases n - t,
        {
            let (i, j, at_end) = line[t];
            let ghost before = *self;
            assert(line@[t as int].0 == i);
            proof {
                law_line_ends(i0 as int, j0 as int, i1 as int, j1 as int);
                if (t as int) < steps {
                    law_line_distinct(i0 as int, j0 as int, i1 as int, j1 as int, t as int, steps);
                }
                if visited(
                    i0 as int,
                    j0 as int,
                    i1 as int,
                    j1 as int,
                    t as int,
                    i as int,
                    j as int,
                ) {
                    let k = choose|k: int|
                        0 <= k < t && #[trigger] line_cell(
                            i0 as int,
                            j0 as int,
                            i1 as int,
                            j1 as int,
                            k,
                        ) == (i as int, j as int);
                    law_line_distinct(i0 as int, j0 as int, i1 as int, j1 as int, k, t as int);
                }
                lemma_visited_next(
                    i0 as int,
                    j0 as int,
                    i1 as int,
                    j1 as int,
                    t as int,
                );
            }
            assert(at_end == (i == i1 && j == j1));
            if self.in_bounds(i, j) {
                let delta: i16 = if at_end && hit_is_occupied {
                    LO_HIT
                } else {
                    LO_MISS
                };
                assert(self.at(i as int, j as int) == old(self).at(i as int, j as int));
                self.bump(i as usize, j as usize, delta);
            }
            proof {
                assert forall|p: int, q: int| self.has(p, q) implies #[trigger] self.at(p, q)
                    == if visited(
                    i0 as int,
                    j0 as int,
                    i1 as int,
                    j1 as int,
                    t + 1,
                    p,
                    q,
                ) {
                    clamped(
                        old(self).at(p, q) + if hit_is_occupied && p == i1 && q == j1 {
                            LO_HIT as int
                        } else {
                            LO_MISS as int
                        },
                    )
                } else {
                    old(self).at(p, q)
                } by {
                    assert(before.has(p, q));
                    assert(before.at(p, q) == before.at(p, q));
                    lemma_index_of(before.cols(), before.rows(), p, q);
                    if before.has(i as int, j as int) {
                        lemma_index_of(before.cols(), before.rows(), i as int, j as int);
                    }
                    assert((p, q) != (i as int, j as int) ==> self.at(p, q) == before.at(p, q));
                    assert(visited(i0 as int, j0 as int, i1 as int, j1 as int, t + 1, p, q) == (
                    visited(i0 as int, j0 as int, i1 as int, j1 as int, t as int, p, q) || (p, q)
                        == (i as int, j as int)));
                }
            }
            t = t + 1;
        }
        proof {
            let want = after_ray(
                old(self).cells(),
                old(self).cols(),
                i0 as int,
                j0 as int,
                i1 as int,
                j1 as int,
                hit_is_occupied,
            );
            assert forall|at: int| 0 <= at < self.cells().len() implies self.cells()[at]
                == #[trigger] want[at] by {
                lemma_index_split(self.cols(), self.rows(), at);
                assert(self.at(at / self.cols(), at % self.cols()) == self.cells()[at]);
            }
            assert(self.cells() =~= want);
        }
    }

    /// Add to the log-odds of the cell at a world point, clamped; nothing
    /// outside the grid.
    pub fn add_log_odds_at_world(&mut self, x: Single, y: Single, delta: i16)
        requires
            old(self).wf(),
        ensures
            final(self).wf(),
            final(self).same_shape(old(self)),
            final(self).cells() == added(
                old(self).cells(),
                old(self).cols(),
                old(self).rows(),
                old(self).config().row(y) as int,
                old(self).config().column(x) as int,
                delta,
            ),
    {
        let i = self.cfg.row_of(y);
        let j = self.cfg.column_of(x);
        if self.in_bounds(i, j) {
            self.field_dirty = true;
            self.bump(i as usize, j as usize, delta);
        }
    }

    /// A march stops in this cell: it is occupied or outside the grid.
    pub open spec fn stops(&self, i: int, j: int) -> bool {
        !self.has(i, j) || self.at(i, j) > OCC_THRESHOLD
    }

    /// Distance from the start of a ray of step `k`: half a cell each.
    pub open spec fn reach(&self, k: int) -> Single {
        rounded(k).times(self.config().cell.times(Single { bits: HALF_BITS }))
    }

    /// A ray from `(x, y)` stops at step `k`.
    pub open spec fn ray_stops(&self, x: Single, y: Single, heading: Heading, k: int) -> bool {
        self.stops(
            self.config().row(y.plus(heading.sin.times(self.reach(k)))) as int,
            self.config().column(x.plus(heading.cos.times(self.reach(k)))) as int,
        )
    }

    /// Number of steps of a ray that runs `max_range`.
    pub open spec fn ray_steps(&self, max_range: Single) -> int {
        max_range.over(self.config().cell.times(Single { bits: HALF_BITS })).as_i32() as int
    }

    /// `r` is the distance from `(x, y)` along `heading` until the first
    /// occupied cell or the bound of the grid, capped at `max_range`.
    pub open spec fn ray_length(
        &self,
        x: Single,
        y: Single,
        heading: Heading,
        max_range: Single,
        r: Single,
    ) -> bool {
        (exists|k: int|
            {
                &&& 1 <= k <= self.ray_steps(max_range)
                &&& #[trigger] self.ray_stops(x, y, heading, k)
                &&& r == self.reach(k).smaller(max_range)
                &&& forall|t: int| 1 <= t < k ==> !self.ray_stops(x, y, heading, t)
            }) || (r == max_range && forall|t: int|
            1 <= t <= self.ray_steps(max_range) ==> !self.ray_stops(x, y, heading, t))
    }

    /// Cast a ray from `(x, y)` at `angle_world`; the distance until the first
    /// occupied cell or the bound of the grid, capped at `max_range`.
    pub fn cast_ray<T: Fn(Single) -> Heading>(
        &self,
        x: Single,
        y: Single,
        angle_world: Single,
        max_range: Single,
        trig: &T,
    ) -> (r: Single)
        requires
            self.wf(),
            is_trig(*trig),
        ensures
            self.ray_length(x, y, heading_of(*trig, angle_world), max_range, r),
            !max_range.below(r),
    {
        let heading = apply(trig, angle_world);
        let step = self.cfg.cell.mul(Single { bits: HALF_BITS });
        let n_steps: i32 = max_range.div(step).to_i32();
        let mut k: i32 = 0;
        while k < n_steps
            invariant
                self.wf(),
                0 <= k,
                k <= n_steps || k == 0,
                step == self.config().cell.times(Single { bits: HALF_BITS }),
                n_steps == self.ray_steps(max_range),
                heading == heading_of(*trig, angle_world),
                forall|t: int| 1 <= t <= k ==> !self.ray_stops(x, y, heading, t),
            decreases n_steps - k,
        {
            k = k + 1;
            let r = Single::from_u64(k as u64).mul(step);
            assert(r == self.reach(k as int));
            let j = self.cfg.column_of(x.add(heading.cos.mul(r)));
            let i = self.cfg.row_of(y.add(heading.sin.mul(r)));
            if !self.in_bounds(i, j) || self.log_at(i as usize, j as usize) > OCC_THRESHOLD {
                assert(self.ray_stops(x, y, heading, k as int));
                return r.min(max_range);
            }
        }
        max_range
    }

    /// Distance in metres from each cell to the nearest one whose log-odds
    /// exceed `occ_threshold_fp`; the width of the grid where there is none.
    /// Computed when the map or the threshold changed, kept otherwise.
    pub fn distance_field(&mut self, occ_threshold_fp: i16) -> (field: &[Single])
        requires
            old(self).wf(),
            old(self).measurable(),
        ensures
            field@ == old(self).distances(occ_threshold_fp),
            final(self).wf(),
            final(self).same_shape(old(self)),
            final(self).cells() == old(self).cells(),
            final(self).cached(occ_threshold_fp),
            old(self).cached(occ_threshold_fp) ==> *final(self) == *old(self),
    {
        let needs_recompute = self.field_dirty || self.field.is_none() || self.field_threshold_fp
            != occ_threshold_fp;
        if needs_recompute {
            self.recompute_distance_field(occ_threshold_fp);
        }
        match &self.field {
            Some(f) => f.as_slice(),
            None => vstd::pervasive::unreached(),
        }
    }

    fn recompute_distance_field(&mut self, occ_threshold_fp: i16)
        requires
            old(self).wf(),
            old(self).measurable(),
        ensures
            final(self).wf(),
            final(self).same_shape(old(self)),
            final(self).cells() == old(self).cells(),
            final(self).cached(occ_threshold_fp),
    {
        self.field = Some(
            metric_field(self.log.as_slice(), self.w, self.h, occ_threshold_fp, self.cfg.cell),
        );
        self.field_threshold_fp = occ_threshold_fp;
        self.field_dirty = false;
    }
}

/// One more cell of the line is one more visited cell.
proof fn lemma_visited_next(i0: int, j0: int, i1: int, j1: int, t: int)
    requires
        0 <= t,
    ensures
        forall|p: int, q: int|
            #[trigger] visited(i0, j0, i1, j1, t + 1, p, q) == (visited(
                i0,
                j0,
                i1,
                j1,
                t,
                p,
                q,
            ) || line_cell(i0, j0, i1, j1, t) == (p, q)),
{
    assert forall|p: int, q: int|
        #[trigger] visited(i0, j0, i1, j1, t + 1, p, q) == (visited(i0, j0, i1, j1, t, p, q)
            || line_cell(i0, j0, i1, j1, t) == (p, q)) by {
        if visited(i0, j0, i1, j1, t + 1, p, q) {
            let k = choose|k: int|
                0 <= k < t + 1 && #[trigger] line_cell(i0, j0, i1, j1, k) == (p, q);
            assert(k == t || 0 <= k < t);
        }
    }
}

// ---- Laws -------------------------------------------------------------------

/// All values lie in the log-odds range.
pub open spec fn in_range(log: Seq<i16>) -> bool {
    forall|at: int| 0 <= at < log.len() ==> LO_MIN <= #[trigger] log[at] <= LO_MAX
}

/// Beams keep all values in the log-odds range.
pub proof fn law_beam_keeps_range(
    log: Seq<i16>,
    w: int,
    i0: int,
    j0: int,
    i1: int,
    j1: int,
    hit: bool,
)
    requires
        in_range(log),
    ensures
        in_range(after_ray(log, w, i0, j0, i1, j1, hit)),
        after_ray(log, w, i0, j0, i1, j1, hit).len() == log.len(),
{
}

/// Added log-odds stay in the range.
pub proof fn law_adding_keeps_range(log: Seq<i16>, w: int, h: int, i: int, j: int, delta: i16)
    requires
        in_range(log),
        0 <= w,
        log.len() == w * h,
    ensures
        in_range(added(log, w, h, i, j, delta)),
        added(log, w, h, i, j, delta).len() == log.len(),
{
    if 0 <= i < h && 0 <= j < w {
        lemma_index_of(w, h, i, j);
    }
}

/// A beam that hit something makes its end no less likely occupied, and every
/// other cell on its way no less likely free; cells off its way stay.
pub proof fn law_beam_evidence(
    v: i16,
    i0: int,
    j0: int,
    i1: int,
    j1: int,
    i: int,
    j: int,
)
    requires
        LO_MIN <= v <= LO_MAX,
    ensures
        ({
            let after = ray_update(v, i0, j0, i1, j1, true, i, j);
            &&& (i, j) == (i1, j1) ==> after >= v
            &&& (i, j) != (i1, j1) ==> after <= v
            &&& !on_line(i0, j0, i1, j1, i, j) ==> after == v
        }),
{
    law_line_ends(i0, j0, i1, j1);
}

/// One miss makes a cell known free: a beam that passes through a cell without
/// ending on an obstacle in it brings it down to what one miss leaves, unless
/// it was taken for occupied before.
pub proof fn law_one_miss_is_known_free(
    v: i16,
    i0: int,
    j0: int,
    i1: int,
    j1: int,
    hit: bool,
    i: int,
    j: int,
)
    requires
        on_line(i0, j0, i1, j1, i, j),
        !(hit && i == i1 && j == j1),
        v <= 0,
    ensures
        ray_update(v, i0, j0, i1, j1, hit, i, j) <= LO_MISS,
{
}

/// Both ends of a beam lie on its way.
pub proof fn law_beam_reaches_ends(i0: int, j0: int, i1: int, j1: int)
    ensures
        on_line(i0, j0, i1, j1, i0, j0),
        on_line(i0, j0, i1, j1, i1, j1),
{
    law_line_ends(i0, j0, i1, j1);
    let n = line_steps(i0, j0, i1, j1);
    assert(line_cell(i0, j0, i1, j1, 0) == (i0, j0));
    assert(line_cell(i0, j0, i1, j1, n) == (i1, j1));
    assert(0 <= n < n + 1);
}

/// A cell is known free once its log-odds are down to what one beam through an
/// unobserved cell leaves.
pub proof fn law_known_free(g: OccupancyGrid, i: int, j: int)
    ensures
        g.free(i, j) <==> g.at(i, j) <= -40,
        g.at(i, j) == 0 ==> !g.free(i, j),
{
}

} // verus!
