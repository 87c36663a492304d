//! Hector-style scan-to-map matching.
//!
//! Gauss-Newton minimization of the sum of squared distances from each beam
//! end to the nearest mapped obstacle. The distance field gives the distance
//! and, by bilinear interpolation, its gradient at any point of the map.

use vstd::prelude::*;
use vstd::arithmetic::power2::{lemma2_to64, lemma_pow2_adds, lemma_pow2_pos, pow2};
use crate::accuracy::{exact, law_wrapping_keeps_angle, lemma_nearest_error, within};
use crate::arith::{absolute, law_commutes, law_one_is_neutral, law_products_ordered, law_zero_absorbs, law_zero_adds_nothing, lemma_absolute, lemma_unit, one, unit, zero};
use crate::beams::{beam_headings, beams_at, shorter, Field};
use crate::conversion::{rounded, wrap_pi, wrapped_angle, PI_BITS};
use crate::function::is_trig;
use crate::grid::OccupancyGrid;
use crate::pose::{beam_end, Heading, Pose2};
use crate::rounding::{law_multiple_rounds_back, law_rounding_monotone, lemma_magnitudes_ordered, lemma_nearest_in_range};
use crate::single::{law_order, magnitude_value, Single, HALF_BITS, INFINITY_BITS, ONE_BITS, ZERO_BITS};

verus! {

/// Pattern of the determinant (1e-9) below which a system counts as singular.
pub const SINGULAR_BITS: u32 = 0x3089_705f;

/// Hyperparameters of a matching.
#[derive(Debug, Clone, Copy)]
pub struct ScanMatchConfig {
    pub max_iters: u32,
    /// Stop when a step is below both thresholds.
    pub eps_translation_m: Single,
    pub eps_rotation_rad: Single,
    /// Levenberg damping of the Hessian's diagonal; zero is pure Gauss-Newton.
    pub lambda: Single,
    /// Beams that end farther than this from any wall add this distance in
    /// place of theirs, and no pull, so that unmapped regions do not dominate.
    pub sigma_m: Single,
    /// Occupancy threshold of the distance field.
    pub occ_threshold_fp: i16,
    /// Widths of the pull toward a prior pose; zero is off.
    pub prior_sigma_xy: Single,
    pub prior_sigma_yaw: Single,
}

impl Default for ScanMatchConfig {
    /// 12 steps, thresholds and damping 1e-3, distances held to 0.30, occupied
    /// above 150, prior widths 0.50.
    fn default() -> (r: Self)
        ensures
            r.max_iters == 12,
            r.eps_translation_m.bits == 0x3a83_126f,
            r.eps_rotation_rad.bits == 0x3a83_126f,
            r.lambda.bits == 0x3a83_126f,
            r.sigma_m.bits == 0x3e99_999a,
            r.occ_threshold_fp == 150,
            r.prior_sigma_xy.bits == 0x3f00_0000,
            r.prior_sigma_yaw.bits == 0x3f00_0000,
    {
        ScanMatchConfig {
            max_iters: 12,
            eps_translation_m: Single { bits: 0x3a83_126f },
            eps_rotation_rad: Single { bits: 0x3a83_126f },
            lambda: Single { bits: 0x3a83_126f },
            sigma_m: Single { bits: 0x3e99_999a },
            occ_threshold_fp: 150,
            prior_sigma_xy: Single { bits: 0x3f00_0000 },
            prior_sigma_yaw: Single { bits: 0x3f00_0000 },
        }
    }
}

/// What a matching came to.
#[derive(Debug, Clone, Copy)]
pub struct ScanMatchResult {
    pub pose: Pose2,
    /// Root of the mean squared distance of the beams, metres.
    pub residual_m: Single,
    pub iterations: u32,
    pub converged: bool,
    /// Number of beams that contributed.
    pub n_beams_used: u32,
}

/// A 3 by 3 matrix.
#[derive(Debug, Clone, Copy)]
pub struct Matrix {
    pub a00: Single,
    pub a01: Single,
    pub a02: Single,
    pub a10: Single,
    pub a11: Single,
    pub a12: Single,
    pub a20: Single,
    pub a21: Single,
    pub a22: Single,
}

/// A vector of three.
#[derive(Debug, Clone, Copy)]
pub struct Triple {
    pub v0: Single,
    pub v1: Single,
    pub v2: Single,
}

/// Normal equations of a step and the squared distances of the beams.
#[derive(Debug, Clone, Copy)]
pub struct Sums {
    pub h: Matrix,
    pub g: Triple,
    pub squares: Single,
}

/// Distance from the walls at a point, and its gradient.
#[derive(Debug, Clone, Copy)]
pub struct Slope {
    pub d: Single,
    pub dx: Single,
    pub dy: Single,
}

// ---- What a step is ---------------------------------------------------------

/// Coordinate of a point in cells, measured between cell centres.
pub open spec fn between_centres(v: Single, start: Single, cell: Single) -> Single {
    v.minus(start).times(unit().over(cell)).minus(Single { bits: HALF_BITS })
}

/// Bilinear mix of four corner distances at the fractions `fx` and `fy` of a
/// cell of size `1 / inv`.
pub open spec fn mixed(
    d00: Single,
    d01: Single,
    d10: Single,
    d11: Single,
    fx: Single,
    fy: Single,
    inv: Single,
) -> Slope {
    let gx = unit().minus(fx);
    let gy = unit().minus(fy);
    Slope {
        d: gx.times(gy).times(d00).plus(fx.times(gy).times(d01)).plus(gx.times(fy).times(d10)).plus(
            fx.times(fy).times(d11),
        ),
        dx: d01.minus(d00).times(gy).plus(d11.minus(d10).times(fy)).times(inv),
        dy: d10.minus(d00).times(gx).plus(d11.minus(d01).times(fx)).times(inv),
    }
}

/// Distance and gradient of the field at a point: a bilinear mix of the four
/// cells around it; `sigma` and no gradient where one of them is missing.
pub open spec fn sampled(f: Field, p: (Single, Single), sigma: Single) -> Slope {
    let cx = between_centres(p.0, f.cfg.x_range.0, f.cfg.cell);
    let cy = between_centres(p.1, f.cfg.y_range.0, f.cfg.cell);
    let (i, j) = (cy.floor_i32() as int, cx.floor_i32() as int);
    if i < 0 || j < 0 || i + 1 >= f.h || j + 1 >= f.w {
        Slope { d: sigma, dx: zero(), dy: zero() }
    } else {
        mixed(
            f.at(i, j),
            f.at(i, j + 1),
            f.at(i + 1, j),
            f.at(i + 1, j + 1),
            cx.minus(rounded(j)),
            cy.minus(rounded(i)),
            unit().over(f.cfg.cell),
        )
    }
}

/// Nothing summed up yet.
pub open spec fn no_sums() -> Sums {
    Sums {
        h: Matrix {
            a00: zero(),
            a01: zero(),
            a02: zero(),
            a10: zero(),
            a11: zero(),
            a12: zero(),
            a20: zero(),
            a21: zero(),
            a22: zero(),
        },
        g: Triple { v0: zero(), v1: zero(), v2: zero() },
        squares: zero(),
    }
}

/// `s` with one beam of direction `b` and range `r` that ends at slope `p`. A
/// beam that ends farther than `sigma` from the walls does not pull: it adds
/// the square of `sigma` and nothing else.
pub open spec fn with_beam(s: Sums, b: Heading, r: Single, p: Slope, sigma: Single) -> Sums {
    let d = p.d.smaller(sigma);
    let j0 = p.dx;
    let j1 = p.dy;
    let j2 = p.dx.times(r.negated().times(b.sin)).plus(p.dy.times(r.times(b.cos)));
    if sigma.below(p.d) {
        Sums { squares: s.squares.plus(d.times(d)), ..s }
    } else {
        Sums {
            h: Matrix {
                a00: s.h.a00.plus(j0.times(j0)),
                a01: s.h.a01.plus(j0.times(j1)),
                a02: s.h.a02.plus(j0.times(j2)),
                a10: s.h.a10.plus(j1.times(j0)),
                a11: s.h.a11.plus(j1.times(j1)),
                a12: s.h.a12.plus(j1.times(j2)),
                a20: s.h.a20.plus(j2.times(j0)),
                a21: s.h.a21.plus(j2.times(j1)),
                a22: s.h.a22.plus(j2.times(j2)),
            },
            g: Triple {
                v0: s.g.v0.plus(j0.times(d)),
                v1: s.g.v1.plus(j1.times(d)),
                v2: s.g.v2.plus(j2.times(d)),
            },
            squares: s.squares.plus(d.times(d)),
        }
    }
}

/// The sums over the first `n` beams of a scan from `pose`; beams without a
/// usable range are skipped.
pub open spec fn beam_sums(
    f: Field,
    pose: Pose2,
    beams: Seq<Heading>,
    ranges: Seq<Single>,
    sigma: Single,
    n: int,
) -> Sums
    decreases n,
{
    if n <= 0 {
        no_sums()
    } else {
        let before = beam_sums(f, pose, beams, ranges, sigma, n - 1);
        if ranges[n - 1].usable() {
            with_beam(
                before,
                beams[n - 1],
                ranges[n - 1],
                sampled(f, beam_end(pose.0, pose.1, beams[n - 1], ranges[n - 1]), sigma),
                sigma,
            )
        } else {
            before
        }
    }
}

/// `s` with the pull of a prior position.
pub open spec fn with_position(s: Sums, pose: Pose2, prior: Pose2, sigma: Single) -> Sums {
    let inv2 = unit().over(sigma.times(sigma));
    let dx = pose.0.minus(prior.0);
    let dy = pose.1.minus(prior.1);
    Sums {
        h: Matrix { a00: s.h.a00.plus(inv2), a11: s.h.a11.plus(inv2), ..s.h },
        g: Triple {
            v0: s.g.v0.plus(inv2.times(dx)),
            v1: s.g.v1.plus(inv2.times(dy)),
            v2: s.g.v2,
        },
        squares: s.squares,
    }
}

/// `s` with the pull of a prior yaw.
pub open spec fn with_yaw(s: Sums, pose: Pose2, prior: Pose2, sigma: Single) -> Sums {
    let inv2 = unit().over(sigma.times(sigma));
    let dyaw = wrapped_angle(pose.2.minus(prior.2));
    Sums {
        h: Matrix { a22: s.h.a22.plus(inv2), ..s.h },
        g: Triple { v0: s.g.v0, v1: s.g.v1, v2: s.g.v2.plus(inv2.times(dyaw)) },
        squares: s.squares,
    }
}

/// `s` with the pull of a prior pose, as far as it is switched on.
pub open spec fn with_prior(
    s: Sums,
    pose: Pose2,
    prior: Option<Pose2>,
    cfg: ScanMatchConfig,
) -> Sums {
    match prior {
        None => s,
        Some(p) => {
            let placed = if zero().below(cfg.prior_sigma_xy) {
                with_position(s, pose, p, cfg.prior_sigma_xy)
            } else {
                s
            };
            if zero().below(cfg.prior_sigma_yaw) {
                with_yaw(placed, pose, p, cfg.prior_sigma_yaw)
            } else {
                placed
            }
        },
    }
}

/// `m` with `lambda` added to its diagonal.
pub open spec fn damped(m: Matrix, lambda: Single) -> Matrix {
    Matrix {
        a00: m.a00.plus(lambda),
        a11: m.a11.plus(lambda),
        a22: m.a22.plus(lambda),
        ..m
    }
}

/// `a * d - b * c`.
pub open spec fn minor(a: Single, d: Single, b: Single, c: Single) -> Single {
    a.times(d).minus(b.times(c))
}

/// The determinant.
pub open spec fn determinant(m: Matrix) -> Single {
    m.a00.times(minor(m.a11, m.a22, m.a12, m.a21)).minus(
        m.a01.times(minor(m.a10, m.a22, m.a12, m.a20)),
    ).plus(m.a02.times(minor(m.a10, m.a21, m.a11, m.a20)))
}

/// The inverse, given the inverse of the determinant: the adjugate times it.
pub open spec fn inverse(m: Matrix, inv_det: Single) -> Matrix {
    Matrix {
        a00: minor(m.a11, m.a22, m.a12, m.a21).times(inv_det),
        a01: minor(m.a02, m.a21, m.a01, m.a22).times(inv_det),
        a02: minor(m.a01, m.a12, m.a02, m.a11).times(inv_det),
        a10: minor(m.a12, m.a20, m.a10, m.a22).times(inv_det),
        a11: minor(m.a00, m.a22, m.a02, m.a20).times(inv_det),
        a12: minor(m.a02, m.a10, m.a00, m.a12).times(inv_det),
        a20: minor(m.a10, m.a21, m.a11, m.a20).times(inv_det),
        a21: minor(m.a01, m.a20, m.a00, m.a21).times(inv_det),
        a22: minor(m.a00, m.a11, m.a01, m.a10).times(inv_det),
    }
}

/// A row times a vector.
pub open spec fn dot(a: Single, b: Single, c: Single, v: Triple) -> Single {
    a.times(v.v0).plus(b.times(v.v1)).plus(c.times(v.v2))
}

/// The solution of `m x = v`, `None` for a singular `m`.
pub open spec fn solution(m: Matrix, v: Triple) -> Option<Triple> {
    let det = determinant(m);
    if det.unsigned().below(Single { bits: SINGULAR_BITS }) {
        None
    } else {
        let inv = inverse(m, unit().over(det));
        Some(
            Triple {
                v0: dot(inv.a00, inv.a01, inv.a02, v),
                v1: dot(inv.a10, inv.a11, inv.a12, v),
                v2: dot(inv.a20, inv.a21, inv.a22, v),
            },
        )
    }
}

/// `pose` moved against the step `d`.
pub open spec fn stepped(pose: Pose2, d: Triple) -> Pose2 {
    (
        pose.0.plus(d.v0.negated()),
        pose.1.plus(d.v1.negated()),
        wrapped_angle(pose.2.plus(d.v2.negated())),
    )
}

/// The step `d` is below the thresholds.
pub open spec fn negligible(d: Triple, cfg: ScanMatchConfig) -> bool {
    &&& d.v0.negated().unsigned().below(cfg.eps_translation_m)
    &&& d.v1.negated().unsigned().below(cfg.eps_translation_m)
    &&& d.v2.negated().unsigned().below(cfg.eps_rotation_rad)
}

/// Number of usable ranges among the first `n`.
pub open spec fn used(ranges: Seq<Single>, n: int) -> int {
    crate::beams::usable_count(ranges, n)
}

/// A matching under way.
#[derive(Debug, Clone, Copy)]
pub struct Matching {
    pub pose: Pose2,
    pub residual_m: Single,
    pub iterations: u32,
    pub converged: bool,
    pub n_beams_used: u32,
    /// No further step is taken.
    pub stopped: bool,
}

impl Matching {
    /// Another step is due.
    pub open spec fn goes_on(self, cfg: ScanMatchConfig) -> bool {
        !self.stopped && self.iterations < cfg.max_iters
    }

    /// The matching after one more step.
    pub open spec fn after_step(
        self,
        f: Field,
        beams: Seq<Heading>,
        ranges: Seq<Single>,
        prior: Option<Pose2>,
        cfg: ScanMatchConfig,
    ) -> Matching {
        let n = used(ranges, ranges.len() as int);
        let iterations = (self.iterations + 1) as u32;
        if n == 0 {
            Matching { iterations, stopped: true, ..self }
        } else {
            let s = with_prior(
                beam_sums(f, self.pose, beams, ranges, cfg.sigma_m, ranges.len() as int),
                self.pose,
                prior,
                cfg,
            );
            let residual_m = s.squares.over(rounded(n)).root();
            match solution(damped(s.h, cfg.lambda), s.g) {
                None => Matching {
                    iterations,
                    n_beams_used: n as u32,
                    residual_m,
                    stopped: true,
                    ..self
                },
                Some(d) => Matching {
                    pose: stepped(self.pose, d),
                    residual_m,
                    iterations,
                    converged: negligible(d, cfg),
                    n_beams_used: n as u32,
                    stopped: negligible(d, cfg),
                },
            }
        }
    }

    /// What the matching came to.
    pub open spec fn outcome(self) -> ScanMatchResult {
        ScanMatchResult {
            pose: self.pose,
            residual_m: self.residual_m,
            iterations: self.iterations,
            converged: self.converged,
            n_beams_used: self.n_beams_used,
        }
    }

    /// The matching after all further steps. Each step turns the beams to the
    /// yaw that it starts from.
    pub open spec fn finished<T: Fn(Single) -> Heading>(
        self,
        f: Field,
        trig: T,
        angles: Seq<Single>,
        ranges: Seq<Single>,
        prior: Option<Pose2>,
        cfg: ScanMatchConfig,
    ) -> Matching
        decreases cfg.max_iters - self.iterations,
    {
        if self.goes_on(cfg) {
            self.after_step(f, beams_at(trig, self.pose.2, angles), ranges, prior, cfg).finished(
                f,
                trig,
                angles,
                ranges,
                prior,
                cfg,
            )
        } else {
            self
        }
    }
}

/// A matching from `pose`, with no step taken yet.
pub open spec fn unmatched(pose: Pose2) -> Matching {
    Matching {
        pose,
        residual_m: Single { bits: INFINITY_BITS },
        iterations: 0,
        converged: false,
        n_beams_used: 0,
        stopped: false,
    }
}

// ---- Computing a step -------------------------------------------------------

/// Distance and gradient of the field at a point.
fn sample(field: &Field, x: Single, y: Single, sigma: Single) -> (r: Slope)
    requires
        field.wf(),
    ensures
        r == sampled(*field, (x, y), sigma),
{
    let zero = Single { bits: ZERO_BITS };
    let one = Single { bits: ONE_BITS };
    let half = Single { bits: HALF_BITS };
    let inv = one.div(field.cfg.cell);
    let cx = x.sub(field.cfg.x_range.0).mul(inv).sub(half);
    let cy = y.sub(field.cfg.y_range.0).mul(inv).sub(half);
    let i0: i32 = cy.floor_to_i32();
    let j0: i32 = cx.floor_to_i32();
    if i0 < 0 || j0 < 0 || i0 as u64 + 1 >= field.h as u64 || j0 as u64 + 1 >= field.w as u64 {
        return Slope { d: sigma, dx: zero, dy: zero };
    }
    let i = i0 as usize;
    let j = j0 as usize;
    let fx = cx.sub(Single::from_u64(j as u64));
    let fy = cy.sub(Single::from_u64(i as u64));
    let d00 = field.distance(i, j);
    let d01 = field.distance(i, j + 1);
    let d10 = field.distance(i + 1, j);
    let d11 = field.distance(i + 1, j + 1);
    let gx = one.sub(fx);
    let gy = one.sub(fy);
    let d = gx.mul(gy).mul(d00).add(fx.mul(gy).mul(d01)).add(gx.mul(fy).mul(d10)).add(
        fx.mul(fy).mul(d11),
    );
    let dx = d01.sub(d00).mul(gy).add(d11.sub(d10).mul(fy)).mul(inv);
    let dy = d10.sub(d00).mul(gx).add(d11.sub(d01).mul(fx)).mul(inv);
    Slope { d, dx, dy }
}

/// Adds one beam to the sums.
fn add_beam(s: Sums, b: Heading, r: Single, p: Slope, sigma: Single) -> (t: Sums)
    ensures
        t == with_beam(s, b, r, p, sigma),
{
    // saturate so that one beam outside the map does not dominate
    let d = p.d.min(sigma);
    if sigma.lt(p.d) {
        return Sums { squares: s.squares.add(d.mul(d)), ..s };
    }
    let j0 = p.dx;
    let j1 = p.dy;
    let j2 = p.dx.mul(r.neg().mul(b.sin)).add(p.dy.mul(r.mul(b.cos)));
    Sums {
        h: Matrix {
            a00: s.h.a00.add(j0.mul(j0)),
            a01: s.h.a01.add(j0.mul(j1)),
            a02: s.h.a02.add(j0.mul(j2)),
            a10: s.h.a10.add(j1.mul(j0)),
            a11: s.h.a11.add(j1.mul(j1)),
            a12: s.h.a12.add(j1.mul(j2)),
            a20: s.h.a20.add(j2.mul(j0)),
            a21: s.h.a21.add(j2.mul(j1)),
            a22: s.h.a22.add(j2.mul(j2)),
        },
        g: Triple {
            v0: s.g.v0.add(j0.mul(d)),
            v1: s.g.v1.add(j1.mul(d)),
            v2: s.g.v2.add(j2.mul(d)),
        },
        squares: s.squares.add(d.mul(d)),
    }
}

/// Sums up the beams of a scan, and counts them.
fn sum_beams(
    field: &Field,
    pose: Pose2,
    beams: &[Heading],
    ranges: &[Single],
    sigma: Single,
) -> (r: (Sums, usize))
    requires
        field.wf(),
        beams@.len() == ranges@.len(),
    ensures
        r.0 == beam_sums(*field, pose, beams@, ranges@, sigma, ranges@.len() as int),
        r.1 == used(ranges@, ranges@.len() as int),
        r.1 <= ranges@.len(),
{
    let z = Single { bits: ZERO_BITS };
    let mut s = Sums {
        h: Matrix { a00: z, a01: z, a02: z, a10: z, a11: z, a12: z, a20: z, a21: z, a22: z },
        g: Triple { v0: z, v1: z, v2: z },
        squares: z,
    };
    let mut c: usize = 0;
    let n = ranges.len();
    let mut k: usize = 0;
    while k < n
        invariant
            field.wf(),
            n == ranges@.len(),
            n == beams@.len(),
            k <= n,
            s == beam_sums(*field, pose, beams@, ranges@, sigma, k as int),
            c == used(ranges@, k as int),
            c <= k,
        decreases n - k,
    {
        let r = ranges[k];
        if r.is_usable() {
            let (ex, ey) = beams[k].beam_end(pose.0, pose.1, r);
            let p = sample(field, ex, ey, sigma);
            s = add_beam(s, beams[k], r, p, sigma);
            c = c + 1;
        }
        k = k + 1;
    }
    (s, c)
}

/// Adds the pull of a prior pose, as far as it is switched on.
fn add_prior(s: Sums, pose: Pose2, prior: Option<Pose2>, cfg: &ScanMatchConfig) -> (t: Sums)
    ensures
        t == with_prior(s, pose, prior, *cfg),
{
    let zero = Single { bits: ZERO_BITS };
    let one = Single { bits: ONE_BITS };
    let mut t = s;
    if let Some((px, py, pyaw)) = prior {
        if zero.lt(cfg.prior_sigma_xy) {
            let inv2 = one.div(cfg.prior_sigma_xy.mul(cfg.prior_sigma_xy));
            let dx = pose.0.sub(px);
            let dy = pose.1.sub(py);
            t = Sums {
                h: Matrix { a00: t.h.a00.add(inv2), a11: t.h.a11.add(inv2), ..t.h },
                g: Triple {
                    v0: t.g.v0.add(inv2.mul(dx)),
                    v1: t.g.v1.add(inv2.mul(dy)),
                    v2: t.g.v2,
                },
                squares: t.squares,
            };
        }
        if zero.lt(cfg.prior_sigma_yaw) {
            let inv2 = one.div(cfg.prior_sigma_yaw.mul(cfg.prior_sigma_yaw));
            let dyaw = wrap_pi(pose.2.sub(pyaw));
            t = Sums {
                h: Matrix { a22: t.h.a22.add(inv2), ..t.h },
                g: Triple { v0: t.g.v0, v1: t.g.v1, v2: t.g.v2.add(inv2.mul(dyaw)) },
                squares: t.squares,
            };
        }
    }
    t
}

/// `a * d - b * c`.
fn minor_of(a: Single, d: Single, b: Single, c: Single) -> (r: Single)
    ensures
        r == minor(a, d, b, c),
{
    a.mul(d).sub(b.mul(c))
}

/// A row times a vector.
fn dot_of(a: Single, b: Single, c: Single, v: &Triple) -> (r: Single)
    ensures
        r == dot(a, b, c, *v),
{
    a.mul(v.v0).add(b.mul(v.v1)).add(c.mul(v.v2))
}

/// Solves `m x = v`; `None` for a singular `m`.
pub fn solve_3x3(m: &Matrix, v: &Triple) -> (r: Option<Triple>)
    ensures
        r == solution(*m, *v),
{
    let det = m.a00.mul(minor_of(m.a11, m.a22, m.a12, m.a21)).sub(
        m.a01.mul(minor_of(m.a10, m.a22, m.a12, m.a20)),
    ).add(m.a02.mul(minor_of(m.a10, m.a21, m.a11, m.a20)));
    if det.abs().lt(Single { bits: SINGULAR_BITS }) {
        return None;
    }
    let inv_det = (Single { bits: ONE_BITS }).div(det);
    let i00 = minor_of(m.a11, m.a22, m.a12, m.a21).mul(inv_det);
    let i01 = minor_of(m.a02, m.a21, m.a01, m.a22).mul(inv_det);
    let i02 = minor_of(m.a01, m.a12, m.a02, m.a11).mul(inv_det);
    let i10 = minor_of(m.a12, m.a20, m.a10, m.a22).mul(inv_det);
    let i11 = minor_of(m.a00, m.a22, m.a02, m.a20).mul(inv_det);
    let i12 = minor_of(m.a02, m.a10, m.a00, m.a12).mul(inv_det);
    let i20 = minor_of(m.a10, m.a21, m.a11, m.a20).mul(inv_det);
    let i21 = minor_of(m.a01, m.a20, m.a00, m.a21).mul(inv_det);
    let i22 = minor_of(m.a00, m.a11, m.a01, m.a10).mul(inv_det);
    Some(
        Triple {
            v0: dot_of(i00, i01, i02, v),
            v1: dot_of(i10, i11, i12, v),
            v2: dot_of(i20, i21, i22, v),
        },
    )
}

impl Matching {
    /// Takes one step: shifts the pose so that the beam ends come nearer to the
    /// walls. `beams` are the directions of the beams at the present yaw,
    /// `ranges` their ranges; those that are not finite and positive are
    /// skipped. `prior` pulls toward a pose.
    fn step(
        &mut self,
        field: &Field,
        beams: &[Heading],
        ranges: &[Single],
        prior: Option<Pose2>,
        cfg: &ScanMatchConfig,
    )
        requires
            field.wf(),
            field.threshold == cfg.occ_threshold_fp,
            old(self).goes_on(*cfg),
            beams@.len() == ranges@.len(),
            ranges@.len() <= u32::MAX,
        ensures
            *final(self) == old(self).after_step(*field, beams@, ranges@, prior, *cfg),
    {
        self.iterations = self.iterations + 1;
        let (sums, n) = sum_beams(field, self.pose, beams, ranges, cfg.sigma_m);
        if n == 0 {
            self.stopped = true;
            return;
        }
        self.n_beams_used = n as u32;
        let s = add_prior(sums, self.pose, prior, cfg);
        self.residual_m = s.squares.div(Single::from_u64(n as u64)).sqrt();
        let h = Matrix {
            a00: s.h.a00.add(cfg.lambda),
            a11: s.h.a11.add(cfg.lambda),
            a22: s.h.a22.add(cfg.lambda),
            ..s.h
        };
        match solve_3x3(&h, &s.g) {
            None => {
                self.stopped = true;
            },
            Some(d) => {
                let (d0, d1, d2) = (d.v0.neg(), d.v1.neg(), d.v2.neg());
                let (x, y, yaw) = self.pose;
                self.pose = (x.add(d0), y.add(d1), wrap_pi(yaw.add(d2)));
                let small = d0.abs().lt(cfg.eps_translation_m) && d1.abs().lt(cfg.eps_translation_m)
                    && d2.abs().lt(cfg.eps_rotation_rad);
                self.converged = small;
                self.stopped = small;
            },
        }
    }
}

/// Scan-to-map matching. Shifts `initial_pose` step by step so that the beam
/// ends land on mapped obstacles. `angles_body` and `ranges` are the body-frame
/// azimuths and horizontal ranges of the beams; ranges that are not finite and
/// positive are skipped, and so is what has no counterpart. `prior_pose` pulls
/// the result toward a pose.
pub fn match_scan<T: Fn(Single) -> Heading>(
    grid: &mut OccupancyGrid,
    angles_body: &[Single],
    ranges: &[Single],
    initial_pose: Pose2,
    prior_pose: Option<Pose2>,
    cfg: &ScanMatchConfig,
    trig: &T,
) -> (r: ScanMatchResult)
    requires
        old(grid).wf(),
        old(grid).measurable(),
        ranges@.len() <= u32::MAX,
        is_trig(*trig),
    ensures
        final(grid).wf(),
        final(grid).same_shape(old(grid)),
        final(grid).cells() == old(grid).cells(),
        final(grid).cached(cfg.occ_threshold_fp),
        exists|f: Field|
            {
                &&& #[trigger] f.is_of(old(grid))
                &&& f.threshold == cfg.occ_threshold_fp
                &&& r == unmatched(initial_pose).finished(
                    f,
                    *trig,
                    angles_body@.take(shorter(angles_body@.len(), ranges@.len())),
                    ranges@.take(shorter(angles_body@.len(), ranges@.len())),
                    prior_pose,
                    *cfg,
                ).outcome()
            },
{
    let n = if angles_body.len() < ranges.len() {
        angles_body.len()
    } else {
        ranges.len()
    };
    let angles = vstd::slice::slice_subrange(angles_body, 0, n);
    let ranges = vstd::slice::slice_subrange(ranges, 0, n);
    let field = grid.field(cfg.occ_threshold_fp);
    let mut m = Matching {
        pose: initial_pose,
        residual_m: Single { bits: INFINITY_BITS },
        iterations: 0,
        converged: false,
        n_beams_used: 0,
        stopped: false,
    };
    while !m.stopped && m.iterations < cfg.max_iters
        invariant
            field.wf(),
            field.threshold == cfg.occ_threshold_fp,
            angles@.len() == ranges@.len(),
            ranges@.len() <= u32::MAX,
            is_trig(*trig),
            m.finished(field, *trig, angles@, ranges@, prior_pose, *cfg) == unmatched(
                initial_pose,
            ).finished(field, *trig, angles@, ranges@, prior_pose, *cfg),
        decreases cfg.max_iters - m.iterations,
    {
        let beams = beam_headings(trig, m.pose.2, angles);
        m.step(&field, beams.as_slice(), ranges, prior_pose, cfg);
    }
    assert(field.is_of(old(grid)));
    ScanMatchResult {
        pose: m.pose,
        residual_m: m.residual_m,
        iterations: m.iterations,
        converged: m.converged,
        n_beams_used: m.n_beams_used,
    }
}

// ---- Laws -------------------------------------------------------------------

/// A matching takes at most `max_iters` steps, and then no more is due.
pub proof fn law_steps_are_bounded<T: Fn(Single) -> Heading>(
    m: Matching,
    f: Field,
    trig: T,
    angles: Seq<Single>,
    ranges: Seq<Single>,
    prior: Option<Pose2>,
    cfg: ScanMatchConfig,
)
    requires
        m.iterations <= cfg.max_iters,
    ensures
        m.iterations <= m.finished(f, trig, angles, ranges, prior, cfg).iterations
            <= cfg.max_iters,
        !m.finished(f, trig, angles, ranges, prior, cfg).goes_on(cfg),
    decreases cfg.max_iters - m.iterations,
{
    if m.goes_on(cfg) {
        law_steps_are_bounded(
            m.after_step(f, beams_at(trig, m.pose.2, angles), ranges, prior, cfg),
            f,
            trig,
            angles,
            ranges,
            prior,
            cfg,
        );
    }
}

/// A matching that converged takes no further step.
pub proof fn law_converged_is_final(
    m: Matching,
    f: Field,
    beams: Seq<Heading>,
    ranges: Seq<Single>,
    prior: Option<Pose2>,
    cfg: ScanMatchConfig,
)
    requires
        m.goes_on(cfg),
        !m.converged,
        m.after_step(f, beams, ranges, prior, cfg).converged,
    ensures
        !m.after_step(f, beams, ranges, prior, cfg).goes_on(cfg),
{
}

/// A scan without usable beams leaves the pose: the result is the initial pose,
/// not converged, with no beams used and an infinite residual.
pub proof fn law_no_beams_no_motion<T: Fn(Single) -> Heading>(
    pose: Pose2,
    f: Field,
    trig: T,
    angles: Seq<Single>,
    ranges: Seq<Single>,
    prior: Option<Pose2>,
    cfg: ScanMatchConfig,
)
    requires
        used(ranges, ranges.len() as int) == 0,
    ensures
        ({
            let r = unmatched(pose).finished(f, trig, angles, ranges, prior, cfg);
            &&& r.pose == pose
            &&& !r.converged
            &&& r.n_beams_used == 0
            &&& r.residual_m.bits == INFINITY_BITS
            &&& r.iterations <= 1
        }),
{
    let m = unmatched(pose);
    if m.goes_on(cfg) {
        let next = m.after_step(f, beams_at(trig, m.pose.2, angles), ranges, prior, cfg);
        assert(!next.goes_on(cfg));
        assert(next.finished(f, trig, angles, ranges, prior, cfg) == next);
    }
}

/// Outside the map, on any of its four sides, there is no gradient: such a beam
/// only adds to the residual.
pub proof fn law_no_pull_outside(f: Field, p: (Single, Single), sigma: Single)
    requires
        ({
            let j = between_centres(p.0, f.cfg.x_range.0, f.cfg.cell).floor_i32();
            let i = between_centres(p.1, f.cfg.y_range.0, f.cfg.cell).floor_i32();
            j < 0 || i < 0 || j + 1 >= f.w || i + 1 >= f.h
        }),
    ensures
        sampled(f, p, sigma) == (Slope { d: sigma, dx: zero(), dy: zero() }),
{
}

/// Every usable beam of a scan from `pose` ends farther than `sigma` from the
/// walls.
pub open spec fn all_far(
    f: Field,
    pose: Pose2,
    beams: Seq<Heading>,
    ranges: Seq<Single>,
    sigma: Single,
) -> bool {
    forall|k: int|
        0 <= k < ranges.len() && (#[trigger] ranges[k]).usable() ==> sigma.below(
            sampled(f, beam_end(pose.0, pose.1, beams[k], ranges[k]), sigma).d,
        )
}

/// A beam that ends farther than `sigma` from the walls does not pull: the
/// normal equations stay as they were without it, and the cost grows by the
/// square of `sigma`.
pub proof fn law_far_beam_does_not_pull(s: Sums, b: Heading, r: Single, p: Slope, sigma: Single)
    requires
        sigma.below(p.d),
    ensures
        with_beam(s, b, r, p, sigma).h == s.h,
        with_beam(s, b, r, p, sigma).g == s.g,
        with_beam(s, b, r, p, sigma).squares == s.squares.plus(sigma.times(sigma)),
{
}

/// Where all beams are far from the walls nothing pulls.
proof fn lemma_far_sums(
    f: Field,
    pose: Pose2,
    beams: Seq<Heading>,
    ranges: Seq<Single>,
    sigma: Single,
    n: int,
)
    requires
        0 <= n <= ranges.len(),
        all_far(f, pose, beams, ranges, sigma),
    ensures
        beam_sums(f, pose, beams, ranges, sigma, n).h == no_sums().h,
        beam_sums(f, pose, beams, ranges, sigma, n).g == no_sums().g,
    decreases n,
{
    if n > 0 {
        lemma_far_sums(f, pose, beams, ranges, sigma, n - 1);
        assert(ranges[n - 1].usable() ==> sigma.below(
            sampled(f, beam_end(pose.0, pose.1, beams[n - 1], ranges[n - 1]), sigma).d,
        ));
    }
}

/// The inverse of a determinant that is not singular, times the minor that it
/// came from, is finite.
proof fn lemma_inverse_finite(lambda: Single, q: Single, det: Single)
    requires
        lambda.finite(),
        q == lambda.times(lambda),
        q.finite(),
        det == lambda.times(q),
        det.finite(),
        !det.unsigned().below(Single { bits: SINGULAR_BITS }),
    ensures
        unit().over(det).finite(),
        q.times(unit().over(det)).finite(),
{
    let inv = unit().over(det);
    let o = one();
    lemma_unit();
    lemma_absolute(det);
    law_order(det.unsigned(), Single { bits: SINGULAR_BITS });
    assert(det.magnitude() >= SINGULAR_BITS);
    let d = absolute(det.value());
    assert(inv.finite()) by {
        let m = SINGULAR_BITS as int;
        assert(m / 0x80_0000 == 97 && m % 0x80_0000 == 0x09_705f);
        assert(magnitude_value(m) == 0x89_705f * pow2(96));
        lemma_magnitudes_ordered(m, det.magnitude());
        lemma2_to64();
        lemma_pow2_adds(23, 96);
        lemma_pow2_adds(119, 30);
        lemma_pow2_pos(96);
        lemma_pow2_adds(30, 149);
        let (low, t) = (pow2(119) as int, pow2(30) as int);
        assert(low <= d);
        lemma_pow2_pos(30);
        assert(0 <= o * o <= (t * o) * d) by (nonlinear_arith)
            requires
                o == low * t,
                low <= d,
                o > 0,
                t > 0,
        ;
        lemma_nearest_error(o * o, d, 30);
        reveal(Single::over);
        lemma_absolute(unit());
    }
    law_products_ordered(lambda, lambda, lambda);
    if lambda.magnitude() <= unit().magnitude() {
        // a small factor: the minor is at most one
        law_products_ordered(lambda, unit(), lambda);
        law_one_is_neutral(lambda);
        law_products_ordered(q, unit(), inv);
        law_one_is_neutral(inv);
    } else {
        // a large one: the inverse is at most one
        law_products_ordered(unit(), lambda, lambda);
        law_products_ordered(unit(), lambda, q);
        law_one_is_neutral(lambda);
        law_one_is_neutral(q);
        assert(inv.magnitude() <= unit().magnitude()) by {
            reveal(Single::over);
            lemma_absolute(unit());
            lemma_magnitudes_ordered(unit().magnitude(), det.magnitude());
            assert(o * o <= o * d) by (nonlinear_arith)
                requires
                    o <= d,
                    o > 0,
            ;
            law_rounding_monotone(o * o, o * d, d);
            law_multiple_rounds_back(unit().magnitude(), d);
            lemma_nearest_in_range(o * o, d);
        }
        law_products_ordered(inv, unit(), q);
        law_commutes(inv, q);
    }
}

/// A step of a system without any pull, only damped, goes nowhere.
proof fn lemma_no_pull_no_step(lambda: Single)
    requires
        lambda.finite(),
        lambda.times(lambda.times(lambda)).finite(),
    ensures
        match solution(damped(no_sums().h, lambda), no_sums().g) {
            None => true,
            Some(d) => d.v0.zero() && d.v1.zero() && d.v2.zero(),
        },
{
    let z = zero();
    let m = damped(no_sums().h, lambda);
    law_commutes(z, lambda);
    law_zero_adds_nothing(lambda, z);
    let l = m.a00;
    assert(m.a11 == l && m.a22 == l);
    assert(l.finite() && (lambda.zero() ==> l.zero()) && (!lambda.zero() ==> l == lambda));
    if lambda.zero() {
        law_zero_absorbs(lambda, lambda);
    }
    let q = l.times(l);
    if l.zero() {
        law_zero_absorbs(l, l);
        law_zero_absorbs(l, q);
    } else {
        // a product that overflows does not come back
        reveal(Single::times);
        lemma_absolute(l);
        assert(q.finite());
    }
    lemma_diagonal(l);
}

/// The same for a matrix with `l` on its diagonal.
proof fn lemma_diagonal(l: Single)
    requires
        l.finite(),
        l.times(l).finite(),
        l.times(l.times(l)).finite(),
    ensures
        ({
            let z = zero();
            let m = Matrix {
                a00: l,
                a01: z,
                a02: z,
                a10: z,
                a11: l,
                a12: z,
                a20: z,
                a21: z,
                a22: l,
            };
            match solution(m, Triple { v0: z, v1: z, v2: z }) {
                None => true,
                Some(d) => d.v0.zero() && d.v1.zero() && d.v2.zero(),
            }
        }),
{
    let z = zero();
    let q = l.times(l);
    // minors: the diagonal ones are the square, the others zero
    law_zero_absorbs(z, z);
    law_zero_absorbs(z, l);
    law_zero_adds_nothing(q, z.times(z));
    law_zero_adds_nothing(z.times(z), z.times(l));
    law_zero_adds_nothing(z.times(z), l.times(z));
    law_zero_adds_nothing(z.times(l), z.times(z));
    law_zero_adds_nothing(z.times(l), z.times(l));
    law_zero_adds_nothing(l.times(z), z.times(z));
    let n = minor(l, l, z, z);
    let (n1, n2, n3) = (minor(z, l, z, z), minor(z, z, l, z), minor(z, z, z, l));
    assert(n.finite() && (q.zero() ==> n.zero()) && (!q.zero() ==> n == q));
    assert(n1.zero() && n2.zero() && n3.zero());
    // the determinant
    let p = l.times(n);
    if q.zero() {
        law_zero_absorbs(n, l);
    }
    law_zero_absorbs(z, n1);
    law_zero_absorbs(z, n2);
    law_zero_adds_nothing(p, z.times(n1));
    let p1 = p.minus(z.times(n1));
    law_zero_adds_nothing(p1, z.times(n2));
    let det = p1.plus(z.times(n2));
    assert(det.magnitude() == p.magnitude() && (!p.zero() ==> det == p));
    if !det.unsigned().below(Single { bits: SINGULAR_BITS }) {
        lemma_absolute(det);
        law_order(det.unsigned(), Single { bits: SINGULAR_BITS });
        assert(!p.zero());
        assert(!q.zero());
        lemma_inverse_finite(l, q, det);
        let inv = unit().over(det);
        law_zero_absorbs(n1, inv);
        law_zero_absorbs(n2, inv);
        law_zero_absorbs(n3, inv);
        lemma_zero_row(n.times(inv), n3.times(inv), n3.times(inv));
        lemma_zero_row(n3.times(inv), n.times(inv), n2.times(inv));
        lemma_zero_row(n2.times(inv), n2.times(inv), n.times(inv));
    }
}

/// A finite row times zero.
proof fn lemma_zero_row(a: Single, b: Single, c: Single)
    requires
        a.finite(),
        b.finite(),
        c.finite(),
    ensures
        dot(a, b, c, Triple { v0: zero(), v1: zero(), v2: zero() }).zero(),
{
    let z = zero();
    law_zero_absorbs(z, a);
    law_zero_absorbs(z, b);
    law_zero_absorbs(z, c);
    law_zero_adds_nothing(a.times(z), b.times(z));
    law_zero_adds_nothing(a.times(z).plus(b.times(z)), c.times(z));
}

/// A pose moved by nothing.
proof fn lemma_moved_by_nothing(pose: Pose2, d: Triple)
    requires
        pose.0.finite() && pose.1.finite() && pose.2.finite(),
        d.v0.zero() && d.v1.zero() && d.v2.zero(),
    ensures
        ({
            let r = stepped(pose, d);
            let pi = Single { bits: PI_BITS };
            &&& r.0.value() == pose.0.value() && r.0.finite()
            &&& r.1.value() == pose.1.value() && r.1.finite()
            &&& !pose.2.zero() ==> r.2 == wrapped_angle(pose.2)
            &&& pi.negated().at_most(pose.2) && pose.2.below(pi) ==> within(
                exact(r.2),
                exact(pose.2),
                1 as real / 1_048_576 as real,
            )
        }),
{
    let (x, y, yaw) = pose;
    assert(d.v0.negated().zero() && d.v1.negated().zero() && d.v2.negated().zero());
    law_zero_adds_nothing(x, d.v0.negated());
    law_zero_adds_nothing(y, d.v1.negated());
    law_zero_adds_nothing(yaw, d.v2.negated());
    let pi = Single { bits: PI_BITS };
    if pi.negated().at_most(yaw) && yaw.below(pi) {
        law_wrapping_keeps_angle(yaw.plus(d.v2.negated()));
    }
}

/// A step of nothing is below any threshold.
proof fn lemma_nothing_is_negligible(d: Triple, cfg: ScanMatchConfig)
    requires
        d.v0.zero() && d.v1.zero() && d.v2.zero(),
        zero().below(cfg.eps_translation_m),
        zero().below(cfg.eps_rotation_rad),
    ensures
        negligible(d, cfg),
{
    lemma_absolute(zero());
    assert(d.v0.negated().unsigned() == zero());
    assert(d.v1.negated().unsigned() == zero());
    assert(d.v2.negated().unsigned() == zero());
}

/// Beams far from the walls do not move the pose: where all usable beams end
/// farther than `sigma_m` from the walls and there is no prior, the matching
/// ends after one step at the pose it started from. The position is the same;
/// a yaw within one turn is the same up to the rounding of wrapping it.
#[verifier::spinoff_prover]
#[verifier::rlimit(60)]
pub proof fn law_far_beams_no_motion<T: Fn(Single) -> Heading>(
    pose: Pose2,
    f: Field,
    trig: T,
    angles: Seq<Single>,
    ranges: Seq<Single>,
    cfg: ScanMatchConfig,
)
    requires
        pose.0.finite() && pose.1.finite() && pose.2.finite(),
        all_far(f, pose, beams_at(trig, pose.2, angles), ranges, cfg.sigma_m),
        cfg.lambda.finite(),
        cfg.lambda.times(cfg.lambda.times(cfg.lambda)).finite(),
        zero().below(cfg.eps_translation_m),
        zero().below(cfg.eps_rotation_rad),
    ensures
        ({
            let r = unmatched(pose).finished(f, trig, angles, ranges, None, cfg);
            let pi = Single { bits: PI_BITS };
            &&& r.pose.0.value() == pose.0.value() && r.pose.0.finite()
            &&& r.pose.1.value() == pose.1.value() && r.pose.1.finite()
            &&& r.pose.2 == pose.2 || pose.2.zero() || r.pose.2 == wrapped_angle(pose.2)
            &&& pi.negated().at_most(pose.2) && pose.2.below(pi) ==> within(
                exact(r.pose.2),
                exact(pose.2),
                1 as real / 1_048_576 as real,
            )
            &&& r.iterations <= 1
        }),
{
    let m = unmatched(pose);
    if m.goes_on(cfg) {
        let beams = beams_at(trig, pose.2, angles);
        let n = ranges.len() as int;
        lemma_far_sums(f, pose, beams, ranges, cfg.sigma_m, n);
        lemma_no_pull_no_step(cfg.lambda);
        let sums = beam_sums(f, pose, beams, ranges, cfg.sigma_m, n);
        let next = m.after_step(f, beams, ranges, None, cfg);
        match solution(damped(sums.h, cfg.lambda), sums.g) {
            None => {},
            Some(d) => {
                lemma_moved_by_nothing(pose, d);
                lemma_nothing_is_negligible(d, cfg);
            },
        }
        assert(!next.goes_on(cfg));
        assert(next.finished(f, trig, angles, ranges, None, cfg) == next);
    }
}

} // verus!
