//! Brute-force relocalization against a saved global map.
//!
//! Given one scan and an occupancy grid, search over `(x, y, yaw)` candidates
//! for the pose with the smallest mean distance from the beam ends to the
//! walls: a coarse pass over the free cells of the whole grid, then a finer one
//! around the best coarse candidate.

use vstd::prelude::*;
use crate::beams::{beam_table, held_sum, sum_held, turned, turned_beams, Field};
use crate::conversion::{rounded, PI_BITS, TWO_PI_BITS};
use crate::function::is_trig;
use crate::grid::{OccupancyGrid, OCC_THRESHOLD};
use crate::pose::{Heading, Pose2};
use crate::single::{Single, TWO_BITS, ZERO_BITS};

verus! {

/// How to search.
#[derive(Debug, Clone, Copy)]
pub struct RelocalizeConfig {
    /// Coarse stride over the free cells.
    pub coarse_xy_stride: usize,
    /// Coarse number of yaw bins of a whole turn.
    pub coarse_yaw_bins: usize,
    /// Half-width of the refinement window (cells).
    pub refine_xy_radius: usize,
    /// Refinement yaw bins of plus and minus `refine_yaw_half_rad`.
    pub refine_yaw_bins: usize,
    pub refine_yaw_half_rad: Single,
    /// Largest mean distance (metres) of an accepted pose.
    pub max_mean_residual_m: Single,
    /// Least number of beams that a candidate must explain.
    pub min_beams_used: u32,
    /// Distances are held to this so that one far beam cannot dominate.
    pub clamp_m: Single,
}

impl Default for RelocalizeConfig {
    /// Stride 2, 36 bins; radius 4, 11 bins of plus and minus 10 degrees; mean
    /// at most 0.20 over at least 16 beams, distances held to 0.50 (metres).
    fn default() -> (r: Self)
        ensures
            r.coarse_xy_stride == 2,
            r.coarse_yaw_bins == 36,
            r.refine_xy_radius == 4,
            r.refine_yaw_bins == 11,
            r.refine_yaw_half_rad.bits == 0x3e32_b8c2,
            r.max_mean_residual_m.bits == 0x3e4c_cccd,
            r.min_beams_used == 16,
            r.clamp_m.bits == 0x3f00_0000,
    {
        RelocalizeConfig {
            coarse_xy_stride: 2,
            coarse_yaw_bins: 36,
            refine_xy_radius: 4,
            refine_yaw_bins: 11,
            refine_yaw_half_rad: Single { bits: 0x3e32_b8c2 },
            max_mean_residual_m: Single { bits: 0x3e4c_cccd },
            min_beams_used: 16,
            clamp_m: Single { bits: 0x3f00_0000 },
        }
    }
}

/// A candidate pose and how well it explains the scan.
#[derive(Debug, Clone, Copy)]
pub struct RelocalizeResult {
    pub pose: Pose2,
    pub mean_residual_m: Single,
    pub n_beams_used: u32,
    /// The mean is at most `max_mean_residual_m` over at least
    /// `min_beams_used` beams.
    pub accepted: bool,
}

// ---- What the search is -----------------------------------------------------

/// A number of bins or a stride, at least one.
pub open spec fn at_least_one(n: usize) -> int {
    if n == 0 {
        1
    } else {
        n as int
    }
}

/// Yaw of coarse bin `k`.
pub open spec fn coarse_yaw(cfg: RelocalizeConfig, k: int) -> Single {
    (Single { bits: PI_BITS }).negated().plus(
        rounded(k).times(
            (Single { bits: TWO_PI_BITS }).over(rounded(at_least_one(cfg.coarse_yaw_bins))),
        ),
    )
}

/// Step between refinement yaws.
pub open spec fn refine_step(cfg: RelocalizeConfig) -> Single {
    if at_least_one(cfg.refine_yaw_bins) == 1 {
        Single { bits: ZERO_BITS }
    } else {
        (Single { bits: TWO_BITS }).times(cfg.refine_yaw_half_rad).over(
            rounded(cfg.refine_yaw_bins - 1),
        )
    }
}

/// Yaw of refinement bin `k` around `yaw`.
pub open spec fn refine_yaw(cfg: RelocalizeConfig, yaw: Single, k: int) -> Single {
    yaw.minus(cfg.refine_yaw_half_rad).plus(rounded(k).times(refine_step(cfg)))
}

/// Every `stride`-th index below `n`.
pub open spec fn strided(n: int, stride: int) -> Seq<usize> {
    Seq::new(((n + stride - 1) / stride) as nat, |k: int| (k * stride) as usize)
}

/// First index of the window of `radius` around `c` among `n`.
pub open spec fn window_start(c: int, radius: int) -> int {
    if c - radius < 0 {
        0
    } else {
        c - radius
    }
}

/// The indices below `n` that are at most `radius` away from `c`.
pub open spec fn window(c: int, radius: int, n: int) -> Seq<usize> {
    let lo = window_start(c, radius);
    let end = if c + radius + 1 < n {
        c + radius + 1
    } else {
        n
    };
    Seq::new((if end > lo { end - lo } else { 0 }) as nat, |k: int| (lo + k) as usize)
}

/// The candidate at the centre of cell `(i, j)` with this yaw.
pub open spec fn candidate(
    f: Field,
    i: int,
    j: int,
    yaw: Single,
    beams: Seq<Heading>,
    ranges: Seq<Single>,
    clamp: Single,
) -> RelocalizeResult {
    let (x, y) = (f.cfg.centre_x(j), f.cfg.centre_y(i));
    let d = f.hits(x, y, beams, ranges, ranges.len() as int);
    RelocalizeResult {
        pose: (x, y, yaw),
        mean_residual_m: held_sum(d, clamp, d.len() as int).over(rounded(d.len() as int)),
        n_beams_used: d.len() as u32,
        accepted: false,
    }
}

/// The better of the best so far and a candidate: the candidate takes over if
/// it explains enough beams and its mean is smaller.
pub open spec fn improved(
    best: Option<RelocalizeResult>,
    c: RelocalizeResult,
    min_beams: u32,
) -> Option<RelocalizeResult> {
    if c.n_beams_used < min_beams {
        best
    } else {
        match best {
            Some(b) if !c.mean_residual_m.below(b.mean_residual_m) => best,
            _ => Some(c),
        }
    }
}

/// What a search looks at.
pub struct Search {
    pub field: Field,
    pub rows: Seq<usize>,
    pub cols: Seq<usize>,
    pub yaws: Seq<Single>,
    pub beams: Seq<Seq<Heading>>,
    pub ranges: Seq<Single>,
    pub cfg: RelocalizeConfig,
}

impl Search {
    /// The candidate in row `i`, column `j` with yaw number `y`.
    pub open spec fn candidate(self, i: int, j: int, y: int) -> RelocalizeResult {
        candidate(
            self.field,
            i,
            j,
            self.yaws[y],
            self.beams[y],
            self.ranges,
            self.cfg.clamp_m,
        )
    }

    /// The best after the first `n` yaws in a cell.
    pub open spec fn after_yaws(
        self,
        best: Option<RelocalizeResult>,
        i: int,
        j: int,
        n: int,
    ) -> Option<RelocalizeResult>
        decreases n,
    {
        if n <= 0 {
            best
        } else {
            improved(
                self.after_yaws(best, i, j, n - 1),
                self.candidate(i, j, n - 1),
                self.cfg.min_beams_used,
            )
        }
    }

    /// The best after the first `n` columns in a row; only free cells count.
    pub open spec fn after_cols(
        self,
        grid: OccupancyGrid,
        best: Option<RelocalizeResult>,
        i: int,
        n: int,
    ) -> Option<RelocalizeResult>
        decreases n,
    {
        if n <= 0 {
            best
        } else {
            let before = self.after_cols(grid, best, i, n - 1);
            if grid.free(i, self.cols[n - 1] as int) {
                self.after_yaws(before, i, self.cols[n - 1] as int, self.yaws.len() as int)
            } else {
                before
            }
        }
    }

    /// The best after the first `n` rows.
    pub open spec fn after_rows(
        self,
        grid: OccupancyGrid,
        best: Option<RelocalizeResult>,
        n: int,
    ) -> Option<RelocalizeResult>
        decreases n,
    {
        if n <= 0 {
            best
        } else {
            self.after_cols(
                grid,
                self.after_rows(grid, best, n - 1),
                self.rows[n - 1] as int,
                self.cols.len() as int,
            )
        }
    }

    /// The best of all candidates, where `best` was found before.
    pub open spec fn result(
        self,
        grid: OccupancyGrid,
        best: Option<RelocalizeResult>,
    ) -> Option<RelocalizeResult> {
        self.after_rows(grid, best, self.rows.len() as int)
    }
}

// ---- Searching --------------------------------------------------------------

/// Yaws of the coarse pass.
pub fn coarse_yaws(cfg: &RelocalizeConfig) -> (r: Vec<Single>)
    ensures
        r@.len() == at_least_one(cfg.coarse_yaw_bins),
        forall|k: int| 0 <= k < r@.len() ==> #[trigger] r@[k] == coarse_yaw(*cfg, k),
{
    let n: usize = if cfg.coarse_yaw_bins == 0 {
        1
    } else {
        cfg.coarse_yaw_bins
    };
    let dyaw = (Single { bits: TWO_PI_BITS }).div(Single::from_u64(n as u64));
    let start = (Single { bits: PI_BITS }).neg();
    let mut out: Vec<Single> = Vec::new();
    let mut k: usize = 0;
    while k < n
        invariant
            n == at_least_one(cfg.coarse_yaw_bins),
            dyaw == (Single { bits: TWO_PI_BITS }).over(rounded(n as int)),
            start == (Single { bits: PI_BITS }).negated(),
            k <= n,
            out@.len() == k,
            forall|t: int| 0 <= t < k ==> #[trigger] out@[t] == coarse_yaw(*cfg, t),
        decreases n - k,
    {
        out.push(start.add(Single::from_u64(k as u64).mul(dyaw)));
        k = k + 1;
    }
    out
}

/// Yaws of the refinement pass around `yaw`.
pub fn refine_yaws(cfg: &RelocalizeConfig, yaw: Single) -> (r: Vec<Single>)
    ensures
        r@.len() == at_least_one(cfg.refine_yaw_bins),
        forall|k: int| 0 <= k < r@.len() ==> #[trigger] r@[k] == refine_yaw(*cfg, yaw, k),
{
    let n: usize = if cfg.refine_yaw_bins == 0 {
        1
    } else {
        cfg.refine_yaw_bins
    };
    let step = if n == 1 {
        Single { bits: ZERO_BITS }
    } else {
        (Single { bits: TWO_BITS }).mul(cfg.refine_yaw_half_rad).div(
            Single::from_u64((n - 1) as u64),
        )
    };
    let start = yaw.sub(cfg.refine_yaw_half_rad);
    let mut out: Vec<Single> = Vec::new();
    let mut k: usize = 0;
    while k < n
        invariant
            n == at_least_one(cfg.refine_yaw_bins),
            step == refine_step(*cfg),
            start == yaw.minus(cfg.refine_yaw_half_rad),
            k <= n,
            out@.len() == k,
            forall|t: int| 0 <= t < k ==> #[trigger] out@[t] == refine_yaw(*cfg, yaw, t),
        decreases n - k,
    {
        out.push(start.add(Single::from_u64(k as u64).mul(step)));
        k = k + 1;
    }
    out
}

/// Every `stride`-th index below `n`.
fn strides(n: usize, stride: usize) -> (r: Vec<usize>)
    requires
        stride > 0,
    ensures
        r@ == strided(n as int, stride as int),
        forall|k: int| 0 <= k < r@.len() ==> #[trigger] r@[k] < n,
{
    let mut out: Vec<usize> = Vec::new();
    let mut at: usize = 0;
    let mut done = n == 0;
    let ghost want = strided(n as int, stride as int);
    let ghost count = (n + stride - 1) / (stride as int);
    proof {
        vstd::arithmetic::div_mod::lemma_fundamental_div_mod(n + stride - 1, stride as int);
        vstd::arithmetic::div_mod::lemma_mod_bound(n + stride - 1, stride as int);
        assert(0 * stride == 0) by (nonlinear_arith);
        assert(stride * count == count * stride) by (nonlinear_arith);
        // count strides reach n, one fewer does not
        assert(count * stride >= n);
        assert((count - 1) * stride == count * stride - stride) by (nonlinear_arith);
        assert(count >= 0) by (nonlinear_arith)
            requires
                count * stride >= n,
                n >= 0,
                stride > 0,
        ;
        assert(n == 0 ==> count == 0) by (nonlinear_arith)
            requires
                (count - 1) * stride <= n - 1,
                count >= 0,
                stride > 0,
        ;
    }
    while !done
        invariant
            stride > 0,
            count * stride >= n,
            (count - 1) * stride <= n - 1,
            count >= 0,
            want == strided(n as int, stride as int),
            want.len() == count,
            out@.len() <= count,
            !done ==> at < n && at == out@.len() * stride && out@.len() < count,
            done ==> out@.len() == count,
            forall|k: int| 0 <= k < out@.len() ==> #[trigger] out@[k] == want[k] && out@[k] < n,
        decreases
                count - out@.len(),
                if done {
                    0int
                } else {
                    1int
                },
    {
        let ghost len = out@.len() as int;
        out.push(at);
        proof {
            assert((len + 1) * stride == len * stride + stride) by (nonlinear_arith);
        }
        if stride >= n - at {
            done = true;
            proof {
                assert(len + 1 >= count) by (nonlinear_arith)
                    requires
                        (count - 1) * stride <= n - 1,
                        len * stride + stride >= n,
                        stride > 0,
                ;
            }
        } else {
            at = at + stride;
            proof {
                assert(len + 1 < count) by (nonlinear_arith)
                    requires
                        count * stride >= n,
                        len * stride + stride < n,
                        stride > 0,
                ;
            }
        }
    }
    assert(out@ =~= want);
    out
}

/// The indices below `n` that are at most `radius` away from `c`.
fn window_indices(c: i32, radius: usize, n: usize) -> (r: Vec<usize>)
    ensures
        r@ == window(c as int, radius as int, n as int),
        forall|k: int| 0 <= k < r@.len() ==> #[trigger] r@[k] < n,
{
    let lo: i128 = if (c as i128) < radius as i128 {
        0
    } else {
        c as i128 - radius as i128
    };
    let past: i128 = c as i128 + radius as i128 + 1;
    let end: i128 = if past < n as i128 {
        past
    } else {
        n as i128
    };
    let mut out: Vec<usize> = Vec::new();
    let mut at: i128 = lo;
    while at < end
        invariant
            0 <= lo <= at,
            at <= end || at == lo,
            end <= n,
            out@.len() == at - lo,
            forall|k: int| 0 <= k < out@.len() ==> #[trigger] out@[k] == lo + k,
        decreases end - at,
    {
        out.push(at as usize);
        at = at + 1;
    }
    assert(out@ =~= window(c as int, radius as int, n as int));
    out
}

/// Scores one candidate.
fn score_candidate(
    field: &Field,
    i: usize,
    j: usize,
    yaw: Single,
    beams: &[Heading],
    ranges: &[Single],
    clamp_m: Single,
) -> (c: RelocalizeResult)
    requires
        field.wf(),
        beams@.len() == ranges@.len(),
        ranges@.len() <= u32::MAX,
    ensures
        c == candidate(*field, i as int, j as int, yaw, beams@, ranges@, clamp_m),
{
    let (cx, cy) = field.cfg.centre(i, j);
    let d = field.beam_hits(cx, cy, beams, ranges);
    let sum = sum_held(d.as_slice(), clamp_m);
    let n = d.len();
    RelocalizeResult {
        pose: (cx, cy, yaw),
        mean_residual_m: sum.div(Single::from_u64(n as u64)),
        n_beams_used: n as u32,
        accepted: false,
    }
}

/// Tries all yaws in the free cells of some rows and columns, and gives the
/// best candidate; `best` was found before.
fn search(
    grid: &OccupancyGrid,
    field: &Field,
    rows: &[usize],
    cols: &[usize],
    yaws: &[Single],
    beams: &[Vec<Heading>],
    ranges: &[Single],
    cfg: &RelocalizeConfig,
    best: Option<RelocalizeResult>,
) -> (r: Option<RelocalizeResult>)
    requires
        grid.wf(),
        field.wf(),
        ranges@.len() <= u32::MAX,
        beams@.len() == yaws@.len(),
        forall|k: int| 0 <= k < beams@.len() ==> (#[trigger] beams@[k])@.len() == ranges@.len(),
        forall|k: int| 0 <= k < rows@.len() ==> #[trigger] rows@[k] < grid.rows(),
        forall|k: int| 0 <= k < cols@.len() ==> #[trigger] cols@[k] < grid.cols(),
    ensures
        r == (Search {
            field: *field,
            rows: rows@,
            cols: cols@,
            yaws: yaws@,
            beams: beam_table(beams@),
            ranges: ranges@,
            cfg: *cfg,
        }).result(*grid, best),
{
    let ghost s = Search {
        field: *field,
        rows: rows@,
        cols: cols@,
        yaws: yaws@,
        beams: beam_table(beams@),
        ranges: ranges@,
        cfg: *cfg,
    };
    let nr = rows.len();
    let nc = cols.len();
    let ny = yaws.len();
    let mut b = best;
    let mut ri: usize = 0;
    while ri < nr
        invariant
            grid.wf(),
            field.wf(),
            ranges@.len() <= u32::MAX,
            nr == rows@.len(),
            nc == cols@.len(),
            ny == yaws@.len(),
            beams@.len() == ny,
            forall|k: int| 0 <= k < beams@.len() ==> (#[trigger] beams@[k])@.len() == ranges@.len(),
            forall|k: int| 0 <= k < rows@.len() ==> #[trigger] rows@[k] < grid.rows(),
            forall|k: int| 0 <= k < cols@.len() ==> #[trigger] cols@[k] < grid.cols(),
            s == (Search {
                field: *field,
                rows: rows@,
                cols: cols@,
                yaws: yaws@,
                beams: beam_table(beams@),
                ranges: ranges@,
                cfg: *cfg,
            }),
            ri <= nr,
            b == s.after_rows(*grid, best, ri as int),
        decreases nr - ri,
    {
        let i = rows[ri];
        let ghost row_start = b;
        let mut ci: usize = 0;
        while ci < nc
            invariant
                grid.wf(),
                field.wf(),
                ranges@.len() <= u32::MAX,
                nr == rows@.len(),
                nc == cols@.len(),
                ny == yaws@.len(),
                beams@.len() == ny,
                forall|k: int|
                    0 <= k < beams@.len() ==> (#[trigger] beams@[k])@.len() == ranges@.len(),
                forall|k: int| 0 <= k < cols@.len() ==> #[trigger] cols@[k] < grid.cols(),
                s == (Search {
                    field: *field,
                    rows: rows@,
                    cols: cols@,
                    yaws: yaws@,
                    beams: beam_table(beams@),
                    ranges: ranges@,
                    cfg: *cfg,
                }),
                i < grid.rows(),
                ci <= nc,
                b == s.after_cols(*grid, row_start, i as int, ci as int),
            decreases nc - ci,
        {
            let j = cols[ci];
            if grid.is_known_free(i, j) {
                let ghost cell_start = b;
                let mut yi: usize = 0;
                while yi < ny
                    invariant
                        field.wf(),
                        ranges@.len() <= u32::MAX,
                        ny == yaws@.len(),
                        beams@.len() == ny,
                        forall|k: int|
                            0 <= k < beams@.len() ==> (#[trigger] beams@[k])@.len()
                                == ranges@.len(),
                        s == (Search {
                            field: *field,
                            rows: rows@,
                            cols: cols@,
                            yaws: yaws@,
                            beams: beam_table(beams@),
                            ranges: ranges@,
                            cfg: *cfg,
                        }),
                        yi <= ny,
                        b == s.after_yaws(cell_start, i as int, j as int, yi as int),
                    decreases ny - yi,
                {
                    assert(beams@[yi as int]@.len() == ranges@.len());
                    let c = score_candidate(
                        field,
                        i,
                        j,
                        yaws[yi],
                        beams[yi].as_slice(),
                        ranges,
                        cfg.clamp_m,
                    );
                    assert(c == s.candidate(i as int, j as int, yi as int));
                    if c.n_beams_used >= cfg.min_beams_used {
                        let better = match &b {
                            Some(x) => c.mean_residual_m.lt(x.mean_residual_m),
                            None => true,
                        };
                        if better {
                            b = Some(c);
                        }
                    }
                    yi = yi + 1;
                }
            }
            ci = ci + 1;
        }
        ri = ri + 1;
    }
    b
}

/// The search of the coarse pass: strided cells, all coarse yaws.
pub open spec fn coarse<T: Fn(Single) -> Heading>(
    f: Field,
    trig: T,
    angles: Seq<Single>,
    ranges: Seq<Single>,
    cfg: RelocalizeConfig,
) -> Search {
    let yaws = Seq::new(
        at_least_one(cfg.coarse_yaw_bins) as nat,
        |k: int| coarse_yaw(cfg, k),
    );
    Search {
        field: f,
        rows: strided(f.h as int, at_least_one(cfg.coarse_xy_stride)),
        cols: strided(f.w as int, at_least_one(cfg.coarse_xy_stride)),
        yaws,
        beams: turned(trig, yaws, angles),
        ranges,
        cfg,
    }
}

/// The search of the refinement pass around `best`.
pub open spec fn fine<T: Fn(Single) -> Heading>(
    f: Field,
    trig: T,
    angles: Seq<Single>,
    ranges: Seq<Single>,
    cfg: RelocalizeConfig,
    best: RelocalizeResult,
) -> Search {
    let yaws = Seq::new(
        at_least_one(cfg.refine_yaw_bins) as nat,
        |k: int| refine_yaw(cfg, best.pose.2, k),
    );
    Search {
        field: f,
        rows: window(
            f.cfg.row(best.pose.1) as int,
            cfg.refine_xy_radius as int,
            f.h as int,
        ),
        cols: window(
            f.cfg.column(best.pose.0) as int,
            cfg.refine_xy_radius as int,
            f.w as int,
        ),
        yaws,
        beams: turned(trig, yaws, angles),
        ranges,
        cfg,
    }
}

/// A result that is accepted if the mean is small enough over enough
/// beams.
pub open spec fn judged(b: RelocalizeResult, cfg: RelocalizeConfig) -> RelocalizeResult {
    RelocalizeResult {
        accepted: b.mean_residual_m.at_most(cfg.max_mean_residual_m) && b.n_beams_used
            >= cfg.min_beams_used,
        ..b
    }
}

/// Coarse pass: the best candidate over the strided free cells and the coarse
/// yaws; `None` if no candidate explains enough beams.
fn coarse_search<T: Fn(Single) -> Heading>(
    grid: &OccupancyGrid,
    field: &Field,
    angles_body: &[Single],
    ranges: &[Single],
    cfg: &RelocalizeConfig,
    trig: &T,
) -> (r: Option<RelocalizeResult>)
    requires
        grid.wf(),
        field.wf(),
        field.is_of(grid),
        is_trig(*trig),
        ranges@.len() <= u32::MAX,
        angles_body@.len() == ranges@.len(),
    ensures
        r == coarse(*field, *trig, angles_body@, ranges@, *cfg).result(*grid, None),
{
    let stride: usize = if cfg.coarse_xy_stride == 0 {
        1
    } else {
        cfg.coarse_xy_stride
    };
    let rows = strides(field.h, stride);
    let cols = strides(field.w, stride);
    let yaws = coarse_yaws(cfg);
    let beams = turned_beams(trig, yaws.as_slice(), angles_body);
    proof {
        let want = coarse(*field, *trig, angles_body@, ranges@, *cfg);
        assert(yaws@ =~= want.yaws);
    }
    search(
        grid,
        field,
        rows.as_slice(),
        cols.as_slice(),
        yaws.as_slice(),
        beams.as_slice(),
        ranges,
        cfg,
        None,
    )
}

/// Refinement pass around the best coarse candidate.
fn refine_search<T: Fn(Single) -> Heading>(
    grid: &OccupancyGrid,
    field: &Field,
    angles_body: &[Single],
    ranges: &[Single],
    cfg: &RelocalizeConfig,
    trig: &T,
    best: RelocalizeResult,
) -> (r: RelocalizeResult)
    requires
        grid.wf(),
        field.wf(),
        field.is_of(grid),
        is_trig(*trig),
        ranges@.len() <= u32::MAX,
        angles_body@.len() == ranges@.len(),
    ensures
        fine(*field, *trig, angles_body@, ranges@, *cfg, best).result(*grid, Some(best)) == Some(r),
{
    let bj = field.cfg.column_of(best.pose.0);
    let bi = field.cfg.row_of(best.pose.1);
    let rows = window_indices(bi, cfg.refine_xy_radius, field.h);
    let cols = window_indices(bj, cfg.refine_xy_radius, field.w);
    let yaws = refine_yaws(cfg, best.pose.2);
    let beams = turned_beams(trig, yaws.as_slice(), angles_body);
    proof {
        let want = fine(*field, *trig, angles_body@, ranges@, *cfg, best);
        assert(yaws@ =~= want.yaws);
        lemma_search_keeps(want, *grid, Some(best), want.rows.len() as int);
    }
    let found = search(
        grid,
        field,
        rows.as_slice(),
        cols.as_slice(),
        yaws.as_slice(),
        beams.as_slice(),
        ranges,
        cfg,
        Some(best),
    );
    match found {
        Some(b) => b,
        None => best,
    }
}

/// The pose that both passes come to.
pub open spec fn relocalized<T: Fn(Single) -> Heading>(
    grid: OccupancyGrid,
    f: Field,
    trig: T,
    angles: Seq<Single>,
    ranges: Seq<Single>,
    cfg: RelocalizeConfig,
) -> Option<RelocalizeResult> {
    match coarse(f, trig, angles, ranges, cfg).result(grid, None) {
        None => None,
        Some(best) => match fine(f, trig, angles, ranges, cfg, best).result(grid, Some(best)) {
            None => None,
            Some(b) => Some(judged(b, cfg)),
        },
    }
}

/// Search the grid for the best matching pose: a coarse pass over the free
/// cells and all yaws, then a refinement around its best candidate. `None`
/// without beams, with angles and ranges of different numbers, or if no
/// candidate explains enough beams. `accepted` tells whether the pose is good
/// enough to use.
pub fn relocalize_against_grid<T: Fn(Single) -> Heading>(
    grid: &mut OccupancyGrid,
    angles_body: &[Single],
    ranges: &[Single],
    cfg: &RelocalizeConfig,
    trig: &T,
) -> (r: Option<RelocalizeResult>)
    requires
        old(grid).wf(),
        old(grid).measurable(),
        ranges@.len() <= u32::MAX,
        is_trig(*trig),
    ensures
        final(grid).wf(),
        final(grid).same_shape(old(grid)),
        final(grid).cells() == old(grid).cells(),
        if angles_body@.len() == 0 || angles_body@.len() != ranges@.len() {
            r is None && *final(grid) == *old(grid)
        } else {
            exists|f: Field|
                {
                    &&& #[trigger] f.is_of(final(grid))
                    &&& f.threshold == OCC_THRESHOLD
                    &&& r == relocalized(*final(grid), f, *trig, angles_body@, ranges@, *cfg)
                }
        },
{
    if angles_body.len() == 0 || ranges.len() == 0 {
        return None;
    }
    if angles_body.len() != ranges.len() {
        return None;
    }
    let field = grid.field(OCC_THRESHOLD);
    assert(field.is_of(grid));
    let best = match coarse_search(grid, &field, angles_body, ranges, cfg, trig) {
        Some(b) => b,
        None => {
            return None;
        },
    };
    let mut b = refine_search(grid, &field, angles_body, ranges, cfg, trig, best);
    b.accepted = b.mean_residual_m.le(cfg.max_mean_residual_m) && b.n_beams_used
        >= cfg.min_beams_used;
    Some(b)
}

// ---- Laws -------------------------------------------------------------------

/// `b` is there, and `c` is not better than it.
pub open spec fn no_worse(b: Option<RelocalizeResult>, c: RelocalizeResult) -> bool {
    b is Some && !c.mean_residual_m.below(b->0.mean_residual_m)
}

/// What was not better than the best stays so when the best improves.
proof fn lemma_improved_keeps(
    b: Option<RelocalizeResult>,
    next: RelocalizeResult,
    min_beams: u32,
    c: RelocalizeResult,
)
    requires
        no_worse(b, c),
    ensures
        no_worse(improved(b, next, min_beams), c),
{
}

proof fn lemma_yaws_keep(
    s: Search,
    b: Option<RelocalizeResult>,
    i: int,
    j: int,
    n: int,
    c: RelocalizeResult,
)
    requires
        no_worse(b, c),
    ensures
        no_worse(s.after_yaws(b, i, j, n), c),
    decreases n,
{
    if n > 0 {
        lemma_yaws_keep(s, b, i, j, n - 1, c);
        lemma_improved_keeps(
            s.after_yaws(b, i, j, n - 1),
            s.candidate(i, j, n - 1),
            s.cfg.min_beams_used,
            c,
        );
    }
}

proof fn lemma_cols_keep(
    s: Search,
    grid: OccupancyGrid,
    b: Option<RelocalizeResult>,
    i: int,
    n: int,
    c: RelocalizeResult,
)
    requires
        no_worse(b, c),
    ensures
        no_worse(s.after_cols(grid, b, i, n), c),
    decreases n,
{
    if n > 0 {
        lemma_cols_keep(s, grid, b, i, n - 1, c);
        lemma_yaws_keep(
            s,
            s.after_cols(grid, b, i, n - 1),
            i,
            s.cols[n - 1] as int,
            s.yaws.len() as int,
            c,
        );
    }
}

proof fn lemma_rows_keep(
    s: Search,
    grid: OccupancyGrid,
    b: Option<RelocalizeResult>,
    m: int,
    n: int,
    c: RelocalizeResult,
)
    requires
        m <= n,
        no_worse(s.after_rows(grid, b, m), c),
    ensures
        no_worse(s.after_rows(grid, b, n), c),
    decreases n - m,
{
    if m < n && n > 0 {
        lemma_rows_keep(s, grid, b, m, n - 1, c);
        lemma_cols_keep(
            s,
            grid,
            s.after_rows(grid, b, n - 1),
            s.rows[n - 1] as int,
            s.cols.len() as int,
            c,
        );
    }
}

/// A search that starts from a candidate ends with one.
proof fn lemma_search_keeps(s: Search, grid: OccupancyGrid, b: Option<RelocalizeResult>, n: int)
    requires
        b is Some,
    ensures
        s.after_rows(grid, b, n) is Some,
{
    // a NaN mean is never better than anything
    let nothing = RelocalizeResult {
        pose: b->0.pose,
        mean_residual_m: Single { bits: 0x7fc0_0000 },
        n_beams_used: 0,
        accepted: false,
    };
    if n > 0 {
        assert(s.after_rows(grid, b, 0) == b);
        lemma_rows_keep(s, grid, b, 0, n, nothing);
    }
}

proof fn lemma_yaw_offered(
    s: Search,
    b: Option<RelocalizeResult>,
    i: int,
    j: int,
    n: int,
    y: int,
)
    requires
        0 <= y < n,
        s.candidate(i, j, y).n_beams_used >= s.cfg.min_beams_used,
    ensures
        no_worse(s.after_yaws(b, i, j, n), s.candidate(i, j, y)),
    decreases n,
{
    let c = s.candidate(i, j, y);
    if y < n - 1 {
        lemma_yaw_offered(s, b, i, j, n - 1, y);
        lemma_improved_keeps(
            s.after_yaws(b, i, j, n - 1),
            s.candidate(i, j, n - 1),
            s.cfg.min_beams_used,
            c,
        );
    }
}

proof fn lemma_col_offered(
    s: Search,
    grid: OccupancyGrid,
    b: Option<RelocalizeResult>,
    i: int,
    n: int,
    k: int,
    y: int,
)
    requires
        0 <= k < n,
        0 <= y < s.yaws.len(),
        grid.free(i, s.cols[k] as int),
        s.candidate(i, s.cols[k] as int, y).n_beams_used >= s.cfg.min_beams_used,
    ensures
        no_worse(s.after_cols(grid, b, i, n), s.candidate(i, s.cols[k] as int, y)),
    decreases n,
{
    let c = s.candidate(i, s.cols[k] as int, y);
    let before = s.after_cols(grid, b, i, n - 1);
    if k < n - 1 {
        lemma_col_offered(s, grid, b, i, n - 1, k, y);
        lemma_yaws_keep(s, before, i, s.cols[n - 1] as int, s.yaws.len() as int, c);
    } else {
        lemma_yaw_offered(s, before, i, s.cols[k] as int, s.yaws.len() as int, y);
    }
}

/// The search gives the global minimum: no candidate in a free cell that
/// explains enough beams has a smaller mean than the result.
pub proof fn law_search_is_least(
    s: Search,
    grid: OccupancyGrid,
    b: Option<RelocalizeResult>,
    r: int,
    k: int,
    y: int,
)
    requires
        0 <= r < s.rows.len(),
        0 <= k < s.cols.len(),
        0 <= y < s.yaws.len(),
        grid.free(s.rows[r] as int, s.cols[k] as int),
        s.candidate(s.rows[r] as int, s.cols[k] as int, y).n_beams_used >= s.cfg.min_beams_used,
    ensures
        no_worse(
            s.result(grid, b),
            s.candidate(s.rows[r] as int, s.cols[k] as int, y),
        ),
{
    let c = s.candidate(s.rows[r] as int, s.cols[k] as int, y);
    lemma_col_offered(
        s,
        grid,
        s.after_rows(grid, b, r),
        s.rows[r] as int,
        s.cols.len() as int,
        k,
        y,
    );
    lemma_rows_keep(s, grid, b, r + 1, s.rows.len() as int, c);
}

/// The result is the minimum: wherever some candidate of the coarse pass in a
/// free cell explains enough beams there is a result, and no such candidate has
/// a smaller mean than it.
pub proof fn law_relocalized_is_least<T: Fn(Single) -> Heading>(
    grid: OccupancyGrid,
    f: Field,
    trig: T,
    angles: Seq<Single>,
    ranges: Seq<Single>,
    cfg: RelocalizeConfig,
    r: int,
    k: int,
    y: int,
)
    requires
        ({
            let s = coarse(f, trig, angles, ranges, cfg);
            &&& 0 <= r < s.rows.len()
            &&& 0 <= k < s.cols.len()
            &&& 0 <= y < s.yaws.len()
            &&& grid.free(s.rows[r] as int, s.cols[k] as int)
            &&& s.candidate(s.rows[r] as int, s.cols[k] as int, y).n_beams_used
                >= cfg.min_beams_used
        }),
    ensures
        ({
            let s = coarse(f, trig, angles, ranges, cfg);
            no_worse(
                relocalized(grid, f, trig, angles, ranges, cfg),
                s.candidate(s.rows[r] as int, s.cols[k] as int, y),
            )
        }),
{
    let s = coarse(f, trig, angles, ranges, cfg);
    let c = s.candidate(s.rows[r] as int, s.cols[k] as int, y);
    law_search_is_least(s, grid, None, r, k, y);
    let best = s.result(grid, None)->0;
    let t = fine(f, trig, angles, ranges, cfg, best);
    assert(t.after_rows(grid, Some(best), 0) == Some(best));
    lemma_rows_keep(t, grid, Some(best), 0, t.rows.len() as int, c);
}

/// The refinement never gives a worse pose than the coarse pass found.
pub proof fn law_refinement_improves(s: Search, grid: OccupancyGrid, best: RelocalizeResult)
    requires
        !best.mean_residual_m.nan(),
    ensures
        no_worse(s.result(grid, Some(best)), best),
{
    assert(s.after_rows(grid, Some(best), 0) == Some(best));
    lemma_rows_keep(s, grid, Some(best), 0, s.rows.len() as int, best);
}

/// A pose is accepted exactly if its mean is small enough over enough beams,
/// and judging it changes nothing else.
pub proof fn law_acceptance(b: RelocalizeResult, cfg: RelocalizeConfig)
    ensures
        judged(b, cfg).accepted <==> b.mean_residual_m.at_most(cfg.max_mean_residual_m)
            && b.n_beams_used >= cfg.min_beams_used,
        judged(b, cfg).pose == b.pose,
        judged(b, cfg).mean_residual_m == b.mean_residual_m,
        judged(b, cfg).n_beams_used == b.n_beams_used,
{
}

} // verus!
