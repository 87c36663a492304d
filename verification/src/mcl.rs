//! Particle-filter relocalization against a saved global grid.
//!
//! A [`Localizer`] narrows a cloud of `(x, y, yaw)` hypotheses over a few
//! seconds of scans. Sensor model: distance from each beam end to the nearest
//! wall, Gaussian likelihood, distances held so that a single bad beam cannot
//! flatten the weight. Motion model: body-frame translation and yaw delta with
//! noise that grows with the motion. Resampling: low-variance sampler, when the
//! effective sample size falls too low.
//!
//! Sines, cosines, exponentials and logarithms are supplied by the caller (see
//! [`crate::function`]), and so is the normal noise; everything that is done
//! with them is here.

use vstd::prelude::*;
use rand::rngs::StdRng;
use crate::beams::{beam_table, count_usable, held_sum, sum_held, turned, turned_beams, usable_count, Field};
use crate::function::{angle_to, apply, apply_each, heading_of, image, is_atan2, is_numeric, is_trig};
use crate::cloud::{best_index, effective_sample_size, heading_concentration, picks, running_sums, spread_of_positions, spread_of_yaws, weighted_sums, WeightedSums};
use crate::cloud::{concentration, effective_size, heaviest, pick, position_spread, running, total, weighted, yaw_spread};
use crate::arith::{law_commutes, law_one_is_neutral, law_products_ordered, law_quotients_ordered, lemma_absolute, lemma_unit, unit, zero};
use crate::conversion::{rounded, wrap_pi, wrapped_angle};
use crate::grid::{GridConfig, OccupancyGrid};
use crate::distance::{index_of, lemma_index_of, lemma_index_split};
use crate::pose::{Heading, Pose2};
use crate::random::{angle_of, draw_index, draw_word, drawn_angle, fraction, fraction_of, seeded, seeded_generator};
use crate::rounding::lemma_magnitudes_ordered;
use crate::single::{Single, HALF_BITS, NAN_BITS, NEG_INFINITY_BITS, ONE_BITS, TWO_BITS, ZERO_BITS};

verus! {

/// Pattern of the least noise width and the least tempering factor, 1e-6.
pub const LEAST_BITS: u32 = 0x3586_37bd;

/// Pattern of the log-likelihood of a particle that no beam speaks for, -1e6.
pub const HOPELESS_BITS: u32 = 0xc974_2400;

/// Tuning of the filter.
#[derive(Debug, Clone, Copy)]
pub struct MclConfig {
    pub n_particles: usize,
    /// Motion noise: the width in xy is `sigma_xy_per_m` times the distance
    /// plus `sigma_xy_per_rad` times the turn. Same for yaw.
    pub sigma_xy_per_m: Single,
    pub sigma_xy_per_rad: Single,
    pub sigma_yaw_per_m: Single,
    pub sigma_yaw_per_rad: Single,
    /// Width of the beam likelihood.
    pub beam_sigma_m: Single,
    /// Distances of beams are held to this.
    pub beam_clamp_m: Single,
    /// Scans with fewer usable beams are skipped.
    pub min_beams_used: u32,
    /// Resample when the effective sample size is below this part of the cloud.
    pub resample_ess_frac: Single,
    /// Lock criteria: spread of the cloud and residual of the best particle.
    pub locked_xy_std_m: Single,
    pub locked_yaw_std_rad: Single,
    pub locked_max_residual_m: Single,
    /// Number of frames in a row that must meet the lock criteria.
    pub locked_min_frames: u32,
    /// Noise of every prediction, however small the motion.
    pub jitter_xy_m: Single,
    pub jitter_yaw_rad: Single,
    /// Part of the cloud replaced by fresh uniform samples after resampling.
    pub random_inject_frac: Single,
    /// Log-odds above which a cell counts as a wall.
    pub wall_threshold_fp: i16,
    /// Factor of the log-likelihoods. One takes them as they are; less keeps
    /// competing modes alive; zero ignores the scan entirely. What is below
    /// zero or no number counts as a millionth.
    pub likelihood_temper: Single,
    /// Translation that must accumulate between two streak increments ...
    pub lock_min_motion_per_streak_m: Single,
    /// ... or else this much rotation.
    pub lock_min_rotation_per_streak_rad: Single,
    /// No resampling for the first this many updates.
    pub min_updates_before_resample: u32,
}

impl MclConfig {
    /// What the log-likelihoods are multiplied by, unless the scan is ignored.
    pub open spec fn temper(self) -> Single {
        if zero().below(self.likelihood_temper) {
            self.likelihood_temper
        } else {
            Single { bits: LEAST_BITS }
        }
    }
}

impl Default for MclConfig {
    /// The tuning for 64-beam scans in a room of a few metres.
    fn default() -> (r: Self)
        ensures
            r.n_particles == 800,
            r.sigma_xy_per_m.bits == 0x3dcc_cccd,
            r.sigma_xy_per_rad.bits == 0x3d4c_cccd,
            r.sigma_yaw_per_m.bits == 0x3d4c_cccd,
            r.sigma_yaw_per_rad.bits == 0x3dcc_cccd,
            r.beam_sigma_m.bits == 0x3e4c_cccd,
            r.beam_clamp_m.bits == 0x3f00_0000,
            r.min_beams_used == 16,
            r.resample_ess_frac.bits == 0x3f00_0000,
            r.locked_xy_std_m.bits == 0x3e19_999a,
            r.locked_yaw_std_rad.bits == 0x3e0e_fa35,
            r.locked_max_residual_m.bits == 0x3df5_c28f,
            r.locked_min_frames == 25,
            r.jitter_xy_m.bits == 0x3ba3_d70a,
            r.jitter_yaw_rad.bits == 0x3ba3_d70a,
            r.random_inject_frac.bits == 0x3d4c_cccd,
            r.wall_threshold_fp == 200,
            r.likelihood_temper.bits == 0x3e19_999a,
            r.lock_min_motion_per_streak_m.bits == 0x3d4c_cccd,
            r.lock_min_rotation_per_streak_rad.bits == 0x3d4c_cccd,
            r.min_updates_before_resample == 5,
    {
        MclConfig {
            n_particles: 800,
            sigma_xy_per_m: Single { bits: 0x3dcc_cccd },
            sigma_xy_per_rad: Single { bits: 0x3d4c_cccd },
            sigma_yaw_per_m: Single { bits: 0x3d4c_cccd },
            sigma_yaw_per_rad: Single { bits: 0x3dcc_cccd },
            beam_sigma_m: Single { bits: 0x3e4c_cccd },
            beam_clamp_m: Single { bits: 0x3f00_0000 },
            min_beams_used: 16,
            resample_ess_frac: Single { bits: 0x3f00_0000 },
            locked_xy_std_m: Single { bits: 0x3e19_999a },
            locked_yaw_std_rad: Single { bits: 0x3e0e_fa35 },
            locked_max_residual_m: Single { bits: 0x3df5_c28f },
            locked_min_frames: 25,
            jitter_xy_m: Single { bits: 0x3ba3_d70a },
            jitter_yaw_rad: Single { bits: 0x3ba3_d70a },
            random_inject_frac: Single { bits: 0x3d4c_cccd },
            wall_threshold_fp: 200,
            likelihood_temper: Single { bits: 0x3e19_999a },
            lock_min_motion_per_streak_m: Single { bits: 0x3d4c_cccd },
            lock_min_rotation_per_streak_rad: Single { bits: 0x3d4c_cccd },
            min_updates_before_resample: 5,
        }
    }
}

/// What was drawn for one particle: a free cell, where there is one, with a
/// word for the place inside it in x and y, and a word for the yaw.
#[derive(Debug, Clone, Copy)]
pub struct SeedDraw {
    pub pick: Option<usize>,
    pub x_word: u32,
    pub y_word: u32,
    pub yaw_word: u32,
}

/// What was drawn for one injected particle: a free cell and a word for the
/// yaw.
#[derive(Debug, Clone, Copy)]
pub struct InjectDraw {
    pub i: usize,
    pub j: usize,
    pub yaw_word: u32,
}

/// A cloud of pose hypotheses.
pub struct Localizer {
    cfg: MclConfig,
    particles: Vec<Pose2>,
    weights: Vec<Single>,
    rng: StdRng,
    /// Residual of the best particle at the last update, NaN before the first.
    last_residual_m: Single,
    /// Frames that met the lock criteria, with motion between them.
    locked_streak: u32,
    /// Translation since the streak last advanced.
    motion_since_streak_m: Single,
    /// Rotation since the streak last advanced.
    rotation_since_streak_rad: Single,
    /// Number of updates since the cloud was seeded.
    update_count: u32,
}

// ---- Seeding ----------------------------------------------------------------

/// The free cells among the first `n` cells of a grid, row by row.
pub open spec fn free_among(grid: OccupancyGrid, n: int) -> Seq<(usize, usize)>
    decreases n,
{
    if n <= 0 {
        Seq::empty()
    } else {
        let before = free_among(grid, n - 1);
        let (i, j) = ((n - 1) / grid.cols(), (n - 1) % grid.cols());
        if grid.free(i, j) {
            before.push((i as usize, j as usize))
        } else {
            before
        }
    }
}

/// The free cells of a grid, row by row.
pub open spec fn free_list(grid: OccupancyGrid) -> Seq<(usize, usize)> {
    free_among(grid, grid.cells().len() as int)
}

/// A pose drawn in a free cell: the centre of the cell, off by at most half a
/// cell each way, any yaw; the origin where there is no free cell.
pub open spec fn seed_pose(cfg: GridConfig, free: Seq<(usize, usize)>, d: SeedDraw) -> Pose2 {
    match d.pick {
        None => (zero(), zero(), drawn_angle(d.yaw_word)),
        Some(k) => {
            let half = Single { bits: HALF_BITS };
            let (i, j) = free[k as int];
            (
                cfg.centre_x(j as int).plus(fraction(d.x_word).minus(half).times(cfg.cell)),
                cfg.centre_y(i as int).plus(fraction(d.y_word).minus(half).times(cfg.cell)),
                drawn_angle(d.yaw_word),
            )
        },
    }
}

/// The draws pick free cells, as long as there are any.
pub open spec fn seed_draws(draws: Seq<SeedDraw>, n_free: int) -> bool {
    forall|k: int|
        0 <= k < draws.len() ==> match (#[trigger] draws[k]).pick {
            None => n_free == 0,
            Some(p) => p < n_free,
        }
}

/// A pose off a seed by noise.
pub open spec fn noisy(s: Pose2, noise: Pose2) -> Pose2 {
    (s.0.plus(noise.0), s.1.plus(noise.1), wrapped_angle(s.2.plus(noise.2)))
}

/// A pose at the centre of a cell, any yaw.
pub open spec fn injected(cfg: GridConfig, d: InjectDraw) -> Pose2 {
    (cfg.centre_x(d.j as int), cfg.centre_y(d.i as int), drawn_angle(d.yaw_word))
}

/// All injected cells are free cells of the grid.
pub open spec fn inject_draws(draws: Seq<InjectDraw>, grid: OccupancyGrid) -> bool {
    forall|k: int|
        0 <= k < draws.len() ==> grid.has(
            (#[trigger] draws[k]).i as int,
            draws[k].j as int,
        ) && grid.free(draws[k].i as int, draws[k].j as int)
}

/// The tries that hit a free cell, in order.
pub open spec fn free_tries(tries: Seq<InjectDraw>, grid: OccupancyGrid) -> Seq<InjectDraw>
    decreases tries.len(),
{
    if tries.len() == 0 {
        tries
    } else {
        let before = free_tries(tries.drop_last(), grid);
        let last = tries.last();
        if grid.free(last.i as int, last.j as int) {
            before.push(last)
        } else {
            before
        }
    }
}

/// Cells of the grid were tried one at a time until `count` of them were free,
/// or twenty times as many were tried; `draws` are the free ones.
pub open spec fn tried(
    tries: Seq<InjectDraw>,
    grid: OccupancyGrid,
    count: int,
    draws: Seq<InjectDraw>,
) -> bool {
    &&& forall|k: int|
        0 <= k < tries.len() ==> grid.has((#[trigger] tries[k]).i as int, tries[k].j as int)
    &&& draws == free_tries(tries, grid)
    &&& tries.len() > 0 ==> free_tries(tries.drop_last(), grid).len() < count
    &&& tries.len() <= count * 20
    &&& draws.len() == count || tries.len() == count * 20
}

/// `draws` are up to `count` free cells, as many as came up in time.
pub open spec fn injection(draws: Seq<InjectDraw>, grid: OccupancyGrid, count: int) -> bool {
    &&& draws.len() <= count
    &&& inject_draws(draws, grid)
    &&& exists|tries: Seq<InjectDraw>| #[trigger] tried(tries, grid, count, draws)
}

/// A part of `n`, rounded down; the part is held between zero and one.
pub open spec fn share(n: int, part: Single) -> usize {
    rounded(n).times(part.held(zero(), unit())).as_usize()
}

/// The free cells of a grid, row by row.
pub fn free_cells(grid: &OccupancyGrid) -> (r: Vec<(usize, usize)>)
    requires
        grid.wf(),
    ensures
        r@ == free_list(*grid),
{
    let w = grid.width();
    let h = grid.height();
    let mut out: Vec<(usize, usize)> = Vec::new();
    let mut i: usize = 0;
    proof {
        assert(0 * w == 0) by (nonlinear_arith);
    }
    while i < h
        invariant
            grid.wf(),
            w == grid.cols(),
            h == grid.rows(),
            i <= h,
            out@ == free_among(*grid, i * w),
        decreases h - i,
    {
        let mut j: usize = 0;
        while j < w
            invariant
                grid.wf(),
                w == grid.cols(),
                h == grid.rows(),
                i < h,
                j <= w,
                out@ == free_among(*grid, i * w + j),
            decreases w - j,
        {
            proof {
                lemma_index_of(w as int, h as int, i as int, j as int);
                vstd::arithmetic::div_mod::lemma_fundamental_div_mod_converse(
                    i * w + j,
                    w as int,
                    i as int,
                    j as int,
                );
                assert(0 <= i * w) by (nonlinear_arith);
            }
            if grid.is_known_free(i, j) {
                out.push((i, j));
            }
            j = j + 1;
        }
        proof {
            assert((i + 1) * w == i * w + w) by (nonlinear_arith);
        }
        i = i + 1;
    }
    proof {
        assert(h * w == w * h) by (nonlinear_arith);
    }
    out
}

/// The free cells that were listed are free cells of the grid.
proof fn lemma_free_among(grid: OccupancyGrid, n: int, k: int)
    requires
        grid.wf(),
        n <= grid.cells().len(),
        0 <= k < free_among(grid, n).len(),
    ensures
        ({
            let (i, j) = free_among(grid, n)[k];
            grid.has(i as int, j as int) && grid.free(i as int, j as int)
        }),
    decreases n,
{
    if n > 0 {
        lemma_index_split(grid.cols(), grid.rows(), n - 1);
        if k < free_among(grid, n - 1).len() {
            lemma_free_among(grid, n - 1, k);
        }
    }
}

// ---- The filter's state -----------------------------------------------------

/// What a filter holds, but for its generator.
#[verifier::ext_equal]
pub struct LocalizerView {
    pub cfg: MclConfig,
    pub particles: Seq<Pose2>,
    pub weights: Seq<Single>,
    pub residual: Single,
    pub streak: u32,
    pub motion: Single,
    pub rotation: Single,
    pub updates: u32,
}

/// Equal weights of `n` particles.
pub open spec fn even(n: nat) -> Seq<Single> {
    Seq::new(n, |k: int| unit().over(rounded(n as int)))
}

impl LocalizerView {
    /// The filter starts over with these particles.
    pub open spec fn seeded(self, particles: Seq<Pose2>) -> LocalizerView {
        LocalizerView {
            particles,
            weights: even(self.weights.len()),
            residual: Single { bits: NAN_BITS },
            streak: 0,
            motion: zero(),
            rotation: zero(),
            updates: 0,
            ..self
        }
    }

    /// The particles with the front ones replaced.
    pub open spec fn with_front(self, front: Seq<Pose2>) -> LocalizerView {
        LocalizerView {
            particles: front + self.particles.skip(front.len() as int),
            ..self
        }
    }
}

impl View for Localizer {
    type V = LocalizerView;

    closed spec fn view(&self) -> LocalizerView {
        LocalizerView {
            cfg: self.cfg,
            particles: self.particles@,
            weights: self.weights@,
            residual: self.last_residual_m,
            streak: self.locked_streak,
            motion: self.motion_since_streak_m,
            rotation: self.rotation_since_streak_rad,
            updates: self.update_count,
        }
    }
}

/// The front `n` particles around the seeds in turn.
pub open spec fn around(seeds: Seq<Pose2>, noise: Seq<Pose2>) -> Seq<Pose2> {
    Seq::new(noise.len(), |k: int| noisy(seeds[k % (seeds.len() as int)], noise[k]))
}

/// A particle after a body-frame motion with noise; `h` is its heading.
pub open spec fn predicted(
    p: Pose2,
    h: Heading,
    dx: Single,
    dy: Single,
    dyaw: Single,
    noise: Pose2,
) -> Pose2 {
    (
        p.0.plus(h.cos.times(dx).minus(h.sin.times(dy)).plus(noise.0)),
        p.1.plus(h.sin.times(dx).plus(h.cos.times(dy)).plus(noise.1)),
        wrapped_angle(p.2.plus(dyaw).plus(noise.2)),
    )
}

/// Length of a translation.
pub open spec fn travelled(dx: Single, dy: Single) -> Single {
    dx.times(dx).plus(dy.times(dy)).root()
}

/// Width of noise for a motion: so much per metre, so much per radian, and a
/// base; not below the least width.
pub open spec fn noise_width(
    per_m: Single,
    per_rad: Single,
    base: Single,
    trans: Single,
    rot: Single,
) -> Single {
    per_m.times(trans).plus(per_rad.times(rot)).plus(base).larger(Single { bits: LEAST_BITS })
}

/// Widths of the noise in xy and in yaw for a body-frame motion.
pub open spec fn widths_of(c: MclConfig, dx: Single, dy: Single, dyaw: Single) -> (
    Single,
    Single,
) {
    let (trans, rot) = (travelled(dx, dy), dyaw.unsigned());
    (
        noise_width(c.sigma_xy_per_m, c.sigma_xy_per_rad, c.jitter_xy_m, trans, rot),
        noise_width(c.sigma_yaw_per_m, c.sigma_yaw_per_rad, c.jitter_yaw_rad, trans, rot),
    )
}

impl LocalizerView {
    /// The filter after a body-frame motion: each particle is moved, with its
    /// noise, and the motion counts toward the next lock frame.
    pub open spec fn after_motion<T: Fn(Single) -> Heading>(
        self,
        trig: T,
        dx: Single,
        dy: Single,
        dyaw: Single,
        noise: Seq<Pose2>,
    ) -> LocalizerView {
        LocalizerView {
            particles: Seq::new(
                self.particles.len(),
                |k: int|
                    predicted(
                        self.particles[k],
                        heading_of(trig, self.particles[k].2),
                        dx,
                        dy,
                        dyaw,
                        noise[k],
                    ),
            ),
            motion: self.motion.plus(travelled(dx, dy)),
            rotation: self.rotation.plus(dyaw.unsigned()),
            ..self
        }
    }
}

impl Localizer {
    /// As many weights as particles, and at least one.
    pub open spec fn wf(&self) -> bool {
        self@.particles.len() == self@.weights.len() && self@.particles.len() >= 1
    }

    /// The generator.
    pub closed spec fn generator(&self) -> StdRng {
        self.rng
    }

    /// A cloud at the origin. The number of particles is at least one.
    pub fn new(cfg: MclConfig, seed: u64) -> (s: Self)
        ensures
            s.wf(),
            s.generator() == seeded_generator(seed),
            s@.cfg == cfg,
            s@.particles.len() == if cfg.n_particles == 0 {
                1
            } else {
                cfg.n_particles as int
            },
            forall|k: int|
                0 <= k < s@.particles.len() ==> #[trigger] s@.particles[k] == (
                    zero(),
                    zero(),
                    zero(),
                ),
            forall|k: int| 0 <= k < s@.weights.len() ==> #[trigger] s@.weights[k] == unit(),
            s@.residual.bits == NAN_BITS,
            s@.streak == 0,
            s@.motion == zero(),
            s@.rotation == zero(),
            s@.updates == 0,
    {
        let n: usize = if cfg.n_particles == 0 {
            1
        } else {
            cfg.n_particles
        };
        let z = Single { bits: ZERO_BITS };
        let mut particles: Vec<Pose2> = Vec::new();
        let mut weights: Vec<Single> = Vec::new();
        let mut k: usize = 0;
        while k < n
            invariant
                k <= n,
                z == zero(),
                particles@.len() == k,
                weights@.len() == k,
                forall|t: int| 0 <= t < k ==> #[trigger] particles@[t] == (zero(), zero(), zero()),
                forall|t: int| 0 <= t < k ==> #[trigger] weights@[t] == unit(),
            decreases n - k,
        {
            particles.push((z, z, z));
            weights.push(Single { bits: ONE_BITS });
            k = k + 1;
        }
        Localizer {
            cfg,
            particles,
            weights,
            rng: seeded(seed),
            last_residual_m: Single { bits: NAN_BITS },
            locked_streak: 0,
            motion_since_streak_m: z,
            rotation_since_streak_rad: z,
            update_count: 0,
        }
    }

    /// Number of particles.
    pub fn n_particles(&self) -> (r: usize)
        ensures
            r == self@.particles.len(),
    {
        self.particles.len()
    }

    /// Residual of the best particle at the last update, NaN before the first.
    pub fn last_residual_m(&self) -> (r: Single)
        ensures
            r == self@.residual,
    {
        self.last_residual_m
    }

    /// Frames that met the lock criteria, with motion between them.
    pub fn locked_streak(&self) -> (r: u32)
        ensures
            r == self@.streak,
    {
        self.locked_streak
    }

    /// Number of scans that were weighed since the cloud was seeded.
    pub fn updates(&self) -> (r: u32)
        ensures
            r == self@.updates,
    {
        self.update_count
    }

    /// The particles.
    pub fn particles(&self) -> (r: &[Pose2])
        ensures
            r@ == self@.particles,
    {
        self.particles.as_slice()
    }

    /// The weights of the particles.
    pub fn weights(&self) -> (r: &[Single])
        ensures
            r@ == self@.weights,
    {
        self.weights.as_slice()
    }

    /// The tuning of the filter.
    pub fn cfg(&self) -> (r: &MclConfig)
        ensures
            *r == self@.cfg,
    {
        &self.cfg
    }

    /// The generator, to draw noise from.
    pub fn rng_mut(&mut self) -> (r: &mut StdRng)
        ensures
            *r == old(self).generator(),
            final(self).generator() == *final(r),
            final(self)@ == old(self)@,
    {
        &mut self.rng
    }

    /// Moves the particles elsewhere, one for one.
    pub fn set_particles(&mut self, particles: Vec<Pose2>)
        requires
            particles@.len() == old(self)@.particles.len(),
        ensures
            final(self)@ == (LocalizerView { particles: particles@, ..old(self)@ }),
    {
        self.particles = particles;
    }

    /// Makes all weights equal.
    pub fn reset_weights(&mut self)
        requires
            old(self).wf(),
        ensures
            final(self)@ == (LocalizerView {
                weights: even(old(self)@.weights.len()),
                ..old(self)@
            }),
            final(self).generator() == old(self).generator(),
    {
        let n = self.particles.len();
        let w = (Single { bits: ONE_BITS }).div(Single::from_u64(n as u64));
        let mut k: usize = 0;
        while k < n
            invariant
                self@ == (LocalizerView { weights: self@.weights, ..old(self)@ }),
                self.generator() == old(self).generator(),
                n == self@.weights.len(),
                n == old(self)@.weights.len(),
                k <= n,
                w == unit().over(rounded(n as int)),
                forall|t: int| 0 <= t < k ==> #[trigger] self@.weights[t] == w,
            decreases n - k,
        {
            self.weights.set(k, w);
            k = k + 1;
        }
        assert(self@.weights =~= even(old(self)@.weights.len()));
    }

    /// Starts over with the present particles: equal weights, no residual, no
    /// streak, no motion, no updates.
    fn start_over(&mut self)
        requires
            old(self).wf(),
        ensures
            final(self)@ == old(self)@.seeded(old(self)@.particles),
            final(self).generator() == old(self).generator(),
    {
        self.reset_weights();
        self.locked_streak = 0;
        self.last_residual_m = Single { bits: NAN_BITS };
        self.motion_since_streak_m = Single { bits: ZERO_BITS };
        self.rotation_since_streak_rad = Single { bits: ZERO_BITS };
        self.update_count = 0;
    }

    /// Draws a free cell, a place in it and a yaw for each particle; only a yaw
    /// where there is no free cell.
    fn draw_seeds(&mut self, n_free: usize) -> (draws: Vec<SeedDraw>)
        ensures
            final(self)@ == old(self)@,
            draws@.len() == old(self)@.particles.len(),
            seed_draws(draws@, n_free as int),
    {
        let n = self.particles.len();
        let mut draws: Vec<SeedDraw> = Vec::new();
        let mut k: usize = 0;
        while k < n
            invariant
                self@ == old(self)@,
                n == self@.particles.len(),
                k <= n,
                draws@.len() == k,
                seed_draws(draws@, n_free as int),
            decreases n - k,
        {
            let d = if n_free == 0 {
                let yaw_word = draw_word(&mut self.rng);
                SeedDraw { pick: None, x_word: 0, y_word: 0, yaw_word }
            } else {
                let pick = draw_index(&mut self.rng, n_free);
                let x_word = draw_word(&mut self.rng);
                let y_word = draw_word(&mut self.rng);
                let yaw_word = draw_word(&mut self.rng);
                SeedDraw { pick: Some(pick), x_word, y_word, yaw_word }
            };
            draws.push(d);
            k = k + 1;
        }
        draws
    }

    /// Places the particles where the draws say, and starts over.
    pub fn place_seeds(&mut self, grid: &OccupancyGrid, draws: &[SeedDraw])
        requires
            old(self).wf(),
            grid.wf(),
            draws@.len() == old(self)@.particles.len(),
            seed_draws(draws@, free_list(*grid).len() as int),
        ensures
            final(self).wf(),
            final(self).generator() == old(self).generator(),
            final(self)@ == old(self)@.seeded(
                Seq::new(
                    draws@.len(),
                    |k: int| seed_pose(grid.config(), free_list(*grid), draws@[k]),
                ),
            ),
    {
        let free = free_cells(grid);
        let cfg = grid.cfg();
        let half = Single { bits: HALF_BITS };
        let n = draws.len();
        let mut particles: Vec<Pose2> = Vec::new();
        let mut k: usize = 0;
        while k < n
            invariant
                n == draws@.len(),
                k <= n,
                free@ == free_list(*grid),
                *cfg == grid.config(),
                half.bits == HALF_BITS,
                seed_draws(draws@, free@.len() as int),
                particles@.len() == k,
                forall|t: int|
                    0 <= t < k ==> #[trigger] particles@[t] == seed_pose(
                        grid.config(),
                        free@,
                        draws@[t],
                    ),
            decreases n - k,
        {
            let d = draws[k];
            assert(draws@[k as int] == d);
            let yaw = angle_of(d.yaw_word);
            let p = match d.pick {
                None => (Single { bits: ZERO_BITS }, Single { bits: ZERO_BITS }, yaw),
                Some(pick) => {
                    let (i, j) = free[pick];
                    let (cx, cy) = cfg.centre(i, j);
                    let jx = fraction_of(d.x_word).sub(half).mul(cfg.cell);
                    let jy = fraction_of(d.y_word).sub(half).mul(cfg.cell);
                    (cx.add(jx), cy.add(jy), yaw)
                },
            };
            particles.push(p);
            k = k + 1;
        }
        assert(particles@ =~= Seq::new(
            draws@.len(),
            |k: int| seed_pose(grid.config(), free_list(*grid), draws@[k]),
        ));
        self.particles = particles;
        self.start_over();
    }

    /// Spreads the particles uniformly over the free cells of `grid` with random
    /// yaw, over the origin if there are none, and starts over.
    pub fn seed_uniform(&mut self, grid: &OccupancyGrid)
        requires
            old(self).wf(),
            grid.wf(),
        ensures
            final(self).wf(),
            exists|draws: Seq<SeedDraw>|
                {
                    &&& draws.len() == old(self)@.particles.len()
                    &&& #[trigger] seed_draws(draws, free_list(*grid).len() as int)
                    &&& final(self)@ == old(self)@.seeded(
                        Seq::new(
                            draws.len(),
                            |k: int| seed_pose(grid.config(), free_list(*grid), draws[k]),
                        ),
                    )
                },
    {
        let n_free = free_cells(grid).len();
        let draws = self.draw_seeds(n_free);
        self.place_seeds(grid, draws.as_slice());
        assert(seed_draws(draws@, free_list(*grid).len() as int));
    }

    /// Spreads the particles evenly over candidate poses, each off by its noise,
    /// and starts over; without candidates nothing changes.
    pub fn seed_around(&mut self, seeds: &[Pose2], noise: &[Pose2])
        requires
            old(self).wf(),
            seeds@.len() > 0 ==> noise@.len() == old(self)@.particles.len(),
        ensures
            final(self).wf(),
            final(self).generator() == old(self).generator(),
            final(self)@ == if seeds@.len() == 0 {
                old(self)@
            } else {
                old(self)@.seeded(around(seeds@, noise@))
            },
    {
        if seeds.len() == 0 {
            return;
        }
        self.put_front(seeds, noise);
        proof {
            let front = around(seeds@, noise@);
            assert(front + old(self)@.particles.skip(front.len() as int) =~= front);
        }
        self.start_over();
    }

    /// How many particles a mixed seed puts around the candidates.
    pub fn mixed_count(&self, seeds_frac: Single) -> (r: usize)
        ensures
            r == share(self@.particles.len() as int, seeds_frac),
    {
        share_of(self.particles.len(), seeds_frac)
    }

    /// Combines candidate poses with exploration: spreads the particles
    /// uniformly over the free cells of `grid`, then puts the front
    /// `seeds_frac` of them around the candidates, each off by its noise.
    /// Without candidates all stay uniform.
    pub fn seed_mixed(
        &mut self,
        seeds: &[Pose2],
        seeds_frac: Single,
        grid: &OccupancyGrid,
        noise: &[Pose2],
    )
        requires
            old(self).wf(),
            grid.wf(),
            seeds@.len() > 0 ==> {
                let count = share(old(self)@.particles.len() as int, seeds_frac);
                noise@.len() == count <= old(self)@.particles.len()
            },
        ensures
            final(self).wf(),
            exists|draws: Seq<SeedDraw>|
                {
                    let uniform = Seq::new(
                        draws.len(),
                        |k: int| seed_pose(grid.config(), free_list(*grid), draws[k]),
                    );
                    &&& draws.len() == old(self)@.particles.len()
                    &&& #[trigger] seed_draws(draws, free_list(*grid).len() as int)
                    &&& final(self)@ == if seeds@.len() == 0 {
                        old(self)@.seeded(uniform)
                    } else {
                        old(self)@.seeded(uniform).with_front(around(seeds@, noise@))
                    }
                },
    {
        self.seed_uniform(grid);
        if seeds.len() > 0 {
            self.put_front(seeds, noise);
        }
    }

    /// Puts the front particles around candidate poses.
    fn put_front(&mut self, seeds: &[Pose2], noise: &[Pose2])
        requires
            old(self).wf(),
            seeds@.len() > 0,
            noise@.len() <= old(self)@.particles.len(),
        ensures
            final(self).wf(),
            final(self).generator() == old(self).generator(),
            final(self)@ == old(self)@.with_front(around(seeds@, noise@)),
    {
        let m = seeds.len();
        let n = noise.len();
        let mut k: usize = 0;
        while k < n
            invariant
                self.wf(),
                self.generator() == old(self).generator(),
                m == seeds@.len(),
                m > 0,
                n == noise@.len(),
                n <= old(self)@.particles.len(),
                k <= n,
                self@ == (LocalizerView { particles: self@.particles, ..old(self)@ }),
                self@.particles.len() == old(self)@.particles.len(),
                forall|t: int|
                    0 <= t < k ==> #[trigger] self@.particles[t] == noisy(
                        seeds@[t % (m as int)],
                        noise@[t],
                    ),
                forall|t: int|
                    k <= t < self@.particles.len() ==> #[trigger] self@.particles[t] == old(
                        self,
                    )@.particles[t],
            decreases n - k,
        {
            let s = seeds[k % m];
            let e = noise[k];
            self.particles.set(k, (s.0.add(e.0), s.1.add(e.1), wrap_pi(s.2.add(e.2))));
            k = k + 1;
        }
        proof {
            let front = around(seeds@, noise@);
            assert(self@.particles =~= front + old(self)@.particles.skip(front.len() as int));
        }
    }

    /// Widths of the noise in xy and in yaw for a body-frame motion.
    pub fn noise_widths(&self, dx_b: Single, dy_b: Single, dyaw: Single) -> (r: (Single, Single))
        ensures
            r == widths_of(self@.cfg, dx_b, dy_b, dyaw),
    {
        let trans = dx_b.mul(dx_b).add(dy_b.mul(dy_b)).sqrt();
        let rot = dyaw.abs();
        let least = Single { bits: LEAST_BITS };
        let c = &self.cfg;
        let xy = c.sigma_xy_per_m.mul(trans).add(c.sigma_xy_per_rad.mul(rot)).add(c.jitter_xy_m);
        let yaw = c.sigma_yaw_per_m.mul(trans).add(c.sigma_yaw_per_rad.mul(rot)).add(
            c.jitter_yaw_rad,
        );
        (xy.max(least), yaw.max(least))
    }

    /// Moves the particles by a body-frame delta, each with its noise.
    pub fn predict<T: Fn(Single) -> Heading>(
        &mut self,
        dx_b: Single,
        dy_b: Single,
        dyaw: Single,
        noise: &[Pose2],
        trig: &T,
    )
        requires
            old(self).wf(),
            is_trig(*trig),
            noise@.len() == old(self)@.particles.len(),
        ensures
            final(self).wf(),
            final(self).generator() == old(self).generator(),
            final(self)@ == old(self)@.after_motion(*trig, dx_b, dy_b, dyaw, noise@),
    {
        let trans = dx_b.mul(dx_b).add(dy_b.mul(dy_b)).sqrt();
        let rot = dyaw.abs();
        self.motion_since_streak_m = self.motion_since_streak_m.add(trans);
        self.rotation_since_streak_rad = self.rotation_since_streak_rad.add(rot);
        let ghost before = self@;
        let n = self.particles.len();
        let mut moved: Vec<Pose2> = Vec::new();
        let mut k: usize = 0;
        while k < n
            invariant
                self@ == before,
                self.generator() == old(self).generator(),
                before.particles == old(self)@.particles,
                n == before.particles.len(),
                is_trig(*trig),
                n == noise@.len(),
                k <= n,
                moved@.len() == k,
                forall|t: int|
                    0 <= t < k ==> #[trigger] moved@[t] == predicted(
                        before.particles[t],
                        heading_of(*trig, before.particles[t].2),
                        dx_b,
                        dy_b,
                        dyaw,
                        noise@[t],
                    ),
            decreases n - k,
        {
            let p = self.particles[k];
            let h = apply(trig, p.2);
            let e = noise[k];
            let dx_w = h.cos.mul(dx_b).sub(h.sin.mul(dy_b)).add(e.0);
            let dy_w = h.sin.mul(dx_b).add(h.cos.mul(dy_b)).add(e.1);
            moved.push((p.0.add(dx_w), p.1.add(dy_w), wrap_pi(p.2.add(dyaw).add(e.2))));
            k = k + 1;
        }
        self.particles = moved;
        assert(self@.particles =~= Seq::new(
            old(self)@.particles.len(),
            |k: int|
                predicted(
                    old(self)@.particles[k],
                    heading_of(*trig, old(self)@.particles[k].2),
                    dx_b,
                    dy_b,
                    dyaw,
                    noise@[k],
                ),
        ));
    }
}

/// A part of `n`, rounded down.
fn share_of(n: usize, part: Single) -> (r: usize)
    ensures
        r == share(n as int, part),
{
    let lo = Single { bits: ZERO_BITS };
    let hi = Single { bits: ONE_BITS };
    proof {
        crate::single::law_order(lo, hi);
    }
    Single::from_u64(n as u64).mul(part.clamp(lo, hi)).to_usize()
}

// ---- Updating ---------------------------------------------------------------

/// Headings of the particles' yaws.
pub open spec fn yaw_headings<T: Fn(Single) -> Heading>(
    trig: T,
    particles: Seq<Pose2>,
) -> Seq<Heading> {
    Seq::new(particles.len(), |k: int| heading_of(trig, particles[k].2))
}

/// Circular standard deviation of the particles' yaws.
pub open spec fn yaw_deviation<T: Fn(Single) -> Heading, L: Fn(Single) -> Single>(
    trig: T,
    ln: L,
    particles: Seq<Pose2>,
) -> Single {
    let c = concentration(yaw_headings(trig, particles));
    yaw_spread(particles.len() as int, c, image::<Single, Single, L>(ln, c))
}

/// The pose that weighted sums stand for: the origin if no weight is left.
pub open spec fn mean_pose<A: Fn((Single, Single)) -> Single>(
    atan2: A,
    s: WeightedSums,
) -> Pose2 {
    if s.weight.at_most(zero()) {
        (zero(), zero(), zero())
    } else {
        (s.x.over(s.weight), s.y.over(s.weight), angle_to(atan2, s.sin, s.cos))
    }
}

/// Log-likelihood of the first `n` distances: minus the squares of the held
/// distances over `width`.
pub open spec fn log_sum(d: Seq<Single>, clamp: Single, width: Single, n: int) -> Single
    decreases n,
{
    if n <= 0 {
        zero()
    } else {
        let h = d[n - 1].smaller(clamp);
        log_sum(d, clamp, width, n - 1).plus(h.times(h).negated().over(width))
    }
}

/// Twice the square of the beam width.
pub open spec fn double_square(sigma: Single) -> Single {
    (Single { bits: TWO_BITS }).times(sigma).times(sigma)
}

/// Log-likelihood of a particle, given the distances at its beam ends.
pub open spec fn log_likelihood(d: Seq<Single>, cfg: MclConfig) -> Single {
    if d.len() == 0 {
        Single { bits: HOPELESS_BITS }
    } else {
        log_sum(d, cfg.beam_clamp_m, double_square(cfg.beam_sigma_m), d.len() as int)
    }
}

/// The largest of the first `n` numbers.
pub open spec fn largest(v: Seq<Single>, n: int) -> Single
    decreases n,
{
    if n <= 0 {
        Single { bits: NEG_INFINITY_BITS }
    } else {
        largest(v, n - 1).larger(v[n - 1])
    }
}

/// Mean of distances, each held to at most `clamp`; NaN of none.
pub open spec fn mean_held(d: Seq<Single>, clamp: Single) -> Single {
    if d.len() > 0 {
        held_sum(d, clamp, d.len() as int).over(rounded(d.len() as int))
    } else {
        Single { bits: NAN_BITS }
    }
}

impl LocalizerView {
    /// Yaws of the particles.
    pub open spec fn yaws(self) -> Seq<Single> {
        Seq::new(self.particles.len(), |k: int| self.particles[k].2)
    }

    /// Distances at the beam ends of particle `k`.
    pub open spec fn hits(
        self,
        f: Field,
        beams: Seq<Seq<Heading>>,
        ranges: Seq<Single>,
        k: int,
    ) -> Seq<Single> {
        f.hits(
            self.particles[k].0,
            self.particles[k].1,
            beams[k],
            ranges,
            ranges.len() as int,
        )
    }

    /// Log-likelihoods of the particles.
    pub open spec fn log_likelihoods(
        self,
        f: Field,
        beams: Seq<Seq<Heading>>,
        ranges: Seq<Single>,
    ) -> Seq<Single> {
        Seq::new(
            self.particles.len(),
            |k: int| log_likelihood(self.hits(f, beams, ranges, k), self.cfg),
        )
    }

    /// What the weight of particle `k` is multiplied by is the exponential of
    /// this: its log-likelihood below the best one, tempered; zero if the scan
    /// is ignored.
    pub open spec fn exponent(
        self,
        f: Field,
        beams: Seq<Seq<Heading>>,
        ranges: Seq<Single>,
        k: int,
    ) -> Single {
        let l = self.log_likelihoods(f, beams, ranges);
        if self.cfg.likelihood_temper.zero() {
            zero()
        } else {
            l[k].minus(largest(l, l.len() as int)).times(self.cfg.temper())
        }
    }

    /// The weights times factors, before they are scaled to a sum of one.
    pub open spec fn products(self, factors: Seq<Single>) -> Seq<Single> {
        Seq::new(self.weights.len(), |k: int| self.weights[k].times(factors[k]))
    }

    /// The filter after its weights were multiplied by factors.
    pub open spec fn reweighted(self, factors: Seq<Single>) -> LocalizerView {
        let p = self.products(factors);
        let sum = total(p, p.len() as int);
        LocalizerView {
            weights: if zero().below(sum) {
                Seq::new(p.len(), |k: int| p[k].over(sum))
            } else {
                even(p.len())
            },
            updates: (self.updates + 1) as u32,
            ..self
        }
    }

    /// Position of the heaviest particle.
    pub open spec fn best(self) -> int {
        heaviest(self.weights, self.weights.len() as int)
    }

    /// The filter with the residual of its best particle.
    pub open spec fn measured(
        self,
        f: Field,
        beams: Seq<Seq<Heading>>,
        ranges: Seq<Single>,
    ) -> LocalizerView {
        LocalizerView {
            residual: mean_held(self.hits(f, beams, ranges, self.best()), self.cfg.beam_clamp_m),
            ..self
        }
    }

    /// A scan is worth an update: as many angles as ranges, and enough usable
    /// ones.
    pub open spec fn taken(self, n_angles: int, ranges: Seq<Single>) -> bool {
        &&& n_angles > 0
        &&& n_angles == ranges.len()
        &&& usable_count(ranges, ranges.len() as int) >= self.cfg.min_beams_used
    }

    /// Directions of the beams at the yaw of each particle.
    pub open spec fn beams<T: Fn(Single) -> Heading>(
        self,
        trig: T,
        angles: Seq<Single>,
    ) -> Seq<Seq<Heading>> {
        turned(trig, self.yaws(), angles)
    }

    /// What the weights are multiplied by for a scan.
    pub open spec fn factors<T: Fn(Single) -> Heading, E: Fn(Single) -> Single>(
        self,
        f: Field,
        trig: T,
        exp: E,
        angles: Seq<Single>,
        ranges: Seq<Single>,
    ) -> Seq<Single> {
        Seq::new(
            self.particles.len(),
            |k: int|
                image::<Single, Single, E>(
                    exp,
                    self.exponent(f, self.beams(trig, angles), ranges, k),
                ),
        )
    }

    /// The filter after a scan was weighed.
    pub open spec fn weighed<T: Fn(Single) -> Heading, E: Fn(Single) -> Single>(
        self,
        f: Field,
        trig: T,
        exp: E,
        angles: Seq<Single>,
        ranges: Seq<Single>,
    ) -> LocalizerView {
        self.reweighted(self.factors(f, trig, exp, angles, ranges)).measured(
            f,
            self.beams(trig, angles),
            ranges,
        )
    }

    /// How many particles are replaced after resampling.
    pub open spec fn injections(self) -> usize {
        share(self.particles.len() as int, self.cfg.random_inject_frac)
    }

    /// Where resampling is due and particles are to be replaced, there are cells
    /// to draw from, and the number of tries fits.
    pub open spec fn can_resample(self, grid: OccupancyGrid) -> bool {
        self.resampling_due() && self.injections() > 0 ==> {
            &&& grid.cols() > 0
            &&& grid.rows() > 0
            &&& self.injections() <= self.particles.len()
            &&& self.injections() * 20 <= usize::MAX
        }
    }

    /// `v` is the filter after resampling, if that was due, with some draws.
    pub open spec fn may_resample_to(self, grid: OccupancyGrid, v: LocalizerView) -> bool {
        if self.resampling_due() {
            exists|word: u32, draws: Seq<InjectDraw>|
                {
                    &&& #[trigger] injection(draws, grid, self.injections() as int)
                    &&& v == #[trigger] self.resampled(word).with_injected(grid.config(), draws)
                }
        } else {
            v == self
        }
    }

    /// The filter after its lock streak was brought up to date.
    pub open spec fn checked<T: Fn(Single) -> Heading, L: Fn(Single) -> Single>(
        self,
        trig: T,
        ln: L,
    ) -> LocalizerView {
        self.streaked(
            position_spread(self.particles),
            yaw_deviation(trig, ln, self.particles),
        )
    }

    /// The cloud is to be resampled: past the grace period, and too few
    /// particles carry the weight.
    pub open spec fn resampling_due(self) -> bool {
        &&& self.updates > self.cfg.min_updates_before_resample
        &&& effective_size(self.weights).below(
            self.cfg.resample_ess_frac.times(rounded(self.particles.len() as int)),
        )
    }

    /// The cloud after systematic resampling with a drawn word.
    pub open spec fn resampled(self, word: u32) -> LocalizerView {
        let n = self.weights.len();
        let acc = total(self.weights, n as int);
        if acc.at_most(zero()) {
            LocalizerView { weights: even(n), ..self }
        } else {
            let step = acc.over(rounded(n as int));
            let u0 = fraction(word).times(step);
            LocalizerView {
                particles: Seq::new(
                    n,
                    |i: int| self.particles[pick(running(self.weights), u0, step, i)],
                ),
                weights: even(n),
                ..self
            }
        }
    }

    /// The cloud with its front replaced by injected particles.
    pub open spec fn with_injected(self, g: GridConfig, draws: Seq<InjectDraw>) -> LocalizerView {
        self.with_front(Seq::new(draws.len(), |k: int| injected(g, draws[k])))
    }

    /// The best particle fits the scan.
    pub open spec fn fits(self) -> bool {
        self.residual.finite() && self.residual.at_most(self.cfg.locked_max_residual_m)
    }

    /// The cloud is narrow.
    pub open spec fn narrow(self, xy_std: Single, yaw_std: Single) -> bool {
        xy_std.at_most(self.cfg.locked_xy_std_m) && yaw_std.at_most(self.cfg.locked_yaw_std_rad)
    }

    /// The robot moved enough since the streak last advanced.
    pub open spec fn moved(self) -> bool {
        self.cfg.lock_min_motion_per_streak_m.at_most(self.motion)
            || self.cfg.lock_min_rotation_per_streak_rad.at_most(self.rotation)
    }

    /// The filter after its lock streak was brought up to date.
    pub open spec fn streaked(self, xy_std: Single, yaw_std: Single) -> LocalizerView {
        if self.fits() && self.narrow(xy_std, yaw_std) {
            if self.moved() {
                LocalizerView {
                    streak: (self.streak + 1) as u32,
                    motion: zero(),
                    rotation: zero(),
                    ..self
                }
            } else {
                self
            }
        } else {
            LocalizerView { streak: 0, ..self }
        }
    }
}

/// Log-likelihood of a particle, given the distances at its beam ends.
fn likelihood_of(d: &[Single], cfg: &MclConfig) -> (r: Single)
    ensures
        r == log_likelihood(d@, *cfg),
{
    let n = d.len();
    if n == 0 {
        return Single { bits: HOPELESS_BITS };
    }
    let width = (Single { bits: TWO_BITS }).mul(cfg.beam_sigma_m).mul(cfg.beam_sigma_m);
    let mut sum = Single { bits: ZERO_BITS };
    let mut k: usize = 0;
    while k < n
        invariant
            n == d@.len(),
            k <= n,
            width == double_square(cfg.beam_sigma_m),
            sum == log_sum(d@, cfg.beam_clamp_m, width, k as int),
        decreases n - k,
    {
        let h = d[k].min(cfg.beam_clamp_m);
        sum = sum.add(h.mul(h).neg().div(width));
        k = k + 1;
    }
    sum
}

impl Localizer {
    /// True if a scan is worth an update: as many angles as ranges, and enough
    /// usable ones.
    pub fn takes(&self, n_angles: usize, ranges: &[Single]) -> (r: bool)
        requires
            ranges@.len() <= u32::MAX,
        ensures
            r == self@.taken(n_angles as int, ranges@),
    {
        if n_angles == 0 || n_angles != ranges.len() {
            return false;
        }
        count_usable(ranges) as u32 >= self.cfg.min_beams_used
    }

    /// What each weight is to be multiplied by the exponential of. `field` is
    /// the map's distance field, `beams[k]` the directions of the beams at the
    /// yaw of particle `k`.
    pub fn exponents(&self, field: &Field, beams: &[Vec<Heading>], ranges: &[Single]) -> (r: Vec<
        Single,
    >)
        requires
            self.wf(),
            field.wf(),
            field.threshold == self@.cfg.wall_threshold_fp,
            beams@.len() == self@.particles.len(),
            forall|k: int| 0 <= k < beams@.len() ==> (#[trigger] beams@[k])@.len() == ranges@.len(),
        ensures
            r@.len() == self@.particles.len(),
            forall|k: int|
                0 <= k < r@.len() ==> #[trigger] r@[k] == self@.exponent(*field, beam_table(beams@), ranges@, k),
    {
        let n = self.particles.len();
        let mut logs: Vec<Single> = Vec::new();
        let mut top = Single { bits: NEG_INFINITY_BITS };
        let ghost want = self@.log_likelihoods(*field, beam_table(beams@), ranges@);
        let mut k: usize = 0;
        while k < n
            invariant
                field.wf(),
                n == self@.particles.len(),
                n == beams@.len(),
                forall|t: int|
                    0 <= t < beams@.len() ==> (#[trigger] beams@[t])@.len() == ranges@.len(),
                want == self@.log_likelihoods(*field, beam_table(beams@), ranges@),
                k <= n,
                logs@.len() == k,
                forall|t: int| 0 <= t < k ==> #[trigger] logs@[t] == want[t],
                top == largest(want, k as int),
            decreases n - k,
        {
            let p = self.particles[k];
            assert(beams@[k as int]@.len() == ranges@.len());
            let d = field.beam_hits(p.0, p.1, beams[k].as_slice(), ranges);
            let l = likelihood_of(d.as_slice(), &self.cfg);
            assert(l == want[k as int]);
            logs.push(l);
            top = top.max(l);
            k = k + 1;
        }
        let none = Single { bits: ZERO_BITS };
        let ignored = self.cfg.likelihood_temper.abs() == none;
        let temper = if none.lt(self.cfg.likelihood_temper) {
            self.cfg.likelihood_temper
        } else {
            Single { bits: LEAST_BITS }
        };
        let mut out: Vec<Single> = Vec::new();
        k = 0;
        while k < n
            invariant
                n == self@.particles.len(),
                n == logs@.len(),
                want == self@.log_likelihoods(*field, beam_table(beams@), ranges@),
                forall|t: int| 0 <= t < n ==> #[trigger] logs@[t] == want[t],
                top == largest(want, want.len() as int),
                none == zero(),
                temper == self@.cfg.temper(),
                ignored == self@.cfg.likelihood_temper.zero(),
                k <= n,
                out@.len() == k,
                forall|t: int|
                    0 <= t < k ==> #[trigger] out@[t] == self@.exponent(*field, beam_table(beams@), ranges@, t),
            decreases n - k,
        {
            out.push(
                if ignored {
                    none
                } else {
                    logs[k].sub(top).mul(temper)
                },
            );
            k = k + 1;
        }
        out
    }

    /// Multiplies the weights by `factors` (the exponentials of
    /// [`Localizer::exponents`]) and scales them to a sum of one; equal weights
    /// if nothing is left of them. The evidence of earlier scans stays.
    fn reweight(&mut self, factors: &[Single])
        requires
            old(self).wf(),
            factors@.len() == old(self)@.weights.len(),
            old(self)@.updates < u32::MAX,
        ensures
            final(self).wf(),
            final(self).generator() == old(self).generator(),
            final(self)@ == old(self)@.reweighted(factors@),
    {
        let n = self.weights.len();
        let mut sum = Single { bits: ZERO_BITS };
        let ghost want = old(self)@.products(factors@);
        let mut k: usize = 0;
        while k < n
            invariant
                self.wf(),
                self.generator() == old(self).generator(),
                self@ == (LocalizerView { weights: self@.weights, ..old(self)@ }),
                n == self@.weights.len(),
                n == old(self)@.weights.len(),
                n == factors@.len(),
                want == old(self)@.products(factors@),
                k <= n,
                forall|t: int| 0 <= t < k ==> #[trigger] self@.weights[t] == want[t],
                forall|t: int|
                    k <= t < n ==> #[trigger] self@.weights[t] == old(self)@.weights[t],
                sum == total(want, k as int),
            decreases n - k,
        {
            let w = self.weights[k].mul(factors[k]);
            self.weights.set(k, w);
            sum = sum.add(w);
            k = k + 1;
        }
        if (Single { bits: ZERO_BITS }).lt(sum) {
            k = 0;
            while k < n
                invariant
                    self.wf(),
                    self.generator() == old(self).generator(),
                    self@ == (LocalizerView { weights: self@.weights, ..old(self)@ }),
                    n == self@.weights.len(),
                    n == want.len(),
                    k <= n,
                    forall|t: int| 0 <= t < k ==> #[trigger] self@.weights[t] == want[t].over(sum),
                    forall|t: int| k <= t < n ==> #[trigger] self@.weights[t] == want[t],
                decreases n - k,
            {
                let w = self.weights[k].div(sum);
                self.weights.set(k, w);
                k = k + 1;
            }
            assert(self@.weights =~= Seq::new(want.len(), |k: int| want[k].over(sum)));
        } else {
            self.reset_weights();
        }
        self.update_count = self.update_count + 1;
        assert(self@.weights =~= old(self)@.reweighted(factors@).weights);
    }

    /// Reweights the particles against one scan and measures how well the best
    /// one fits. `factors` are the exponentials of [`Localizer::exponents`] for
    /// the same field, beams and ranges.
    pub fn weigh(
        &mut self,
        field: &Field,
        beams: &[Vec<Heading>],
        ranges: &[Single],
        factors: &[Single],
    )
        requires
            old(self).wf(),
            field.wf(),
            field.threshold == old(self)@.cfg.wall_threshold_fp,
            beams@.len() == old(self)@.particles.len(),
            forall|k: int| 0 <= k < beams@.len() ==> (#[trigger] beams@[k])@.len() == ranges@.len(),
            factors@.len() == old(self)@.particles.len(),
            old(self)@.updates < u32::MAX,
        ensures
            final(self).wf(),
            final(self).generator() == old(self).generator(),
            final(self)@ == old(self)@.reweighted(factors@).measured(*field, beam_table(beams@), ranges@),
    {
        self.reweight(factors);
        let b = best_index(self.weights.as_slice());
        let p = self.particles[b];
        assert(beams@[b as int]@.len() == ranges@.len());
        let d = field.beam_hits(p.0, p.1, beams[b].as_slice(), ranges);
        let n = d.len();
        self.last_residual_m = if n > 0 {
            sum_held(d.as_slice(), self.cfg.beam_clamp_m).div(Single::from_u64(n as u64))
        } else {
            Single { bits: NAN_BITS }
        };
    }

    /// Highest-weight particle.
    pub fn best(&self) -> (r: Pose2)
        requires
            self.wf(),
        ensures
            r == self@.particles[self@.best()],
    {
        self.particles[best_index(self.weights.as_slice())]
    }

    /// Headings of the particles' yaws.
    fn headings<T: Fn(Single) -> Heading>(&self, trig: &T) -> (r: Vec<Heading>)
        requires
            is_trig(*trig),
        ensures
            r@ == yaw_headings(*trig, self@.particles),
    {
        let yaws = self.yaws();
        let r = apply_each(trig, yaws.as_slice());
        assert(r@ =~= yaw_headings(*trig, self@.particles));
        r
    }

    /// Yaws of the particles.
    fn yaws(&self) -> (r: Vec<Single>)
        ensures
            r@ == self@.yaws(),
    {
        let n = self.particles.len();
        let mut out: Vec<Single> = Vec::new();
        let mut k: usize = 0;
        while k < n
            invariant
                n == self@.particles.len(),
                k <= n,
                out@.len() == k,
                forall|t: int| 0 <= t < k ==> #[trigger] out@[t] == self@.particles[t].2,
            decreases n - k,
        {
            out.push(self.particles[k].2);
            k = k + 1;
        }
        assert(out@ =~= self@.yaws());
        out
    }

    /// Weighted mean of the particles, the centre of mass of a cloud with
    /// several modes; the origin if no weight is left.
    pub fn weighted_mean<T: Fn(Single) -> Heading, A: Fn((Single, Single)) -> Single>(
        &self,
        trig: &T,
        atan2: &A,
    ) -> (r: Pose2)
        requires
            self.wf(),
            is_trig(*trig),
            is_atan2(*atan2),
        ensures
            r == mean_pose(
                *atan2,
                weighted(
                    self@.particles,
                    yaw_headings(*trig, self@.particles),
                    self@.weights,
                    self@.particles.len() as int,
                ),
            ),
    {
        let headings = self.headings(trig);
        let s = weighted_sums(
            self.particles.as_slice(),
            headings.as_slice(),
            self.weights.as_slice(),
        );
        let none = Single { bits: ZERO_BITS };
        if s.weight.le(none) {
            (none, none, none)
        } else {
            (s.x.div(s.weight), s.y.div(s.weight), apply(atan2, (s.sin, s.cos)))
        }
    }

    /// Standard deviation of the particles' positions, equally weighted.
    pub fn position_std(&self) -> (r: Single)
        ensures
            r == position_spread(self@.particles),
    {
        spread_of_positions(self.particles.as_slice())
    }

    /// Circular standard deviation of the particles' yaws; `ln` is the natural
    /// logarithm.
    pub fn yaw_std<T: Fn(Single) -> Heading, L: Fn(Single) -> Single>(
        &self,
        trig: &T,
        ln: &L,
    ) -> (r: Single)
        requires
            is_trig(*trig),
            is_numeric(*ln),
        ensures
            r == yaw_deviation(*trig, *ln, self@.particles),
    {
        let headings = self.headings(trig);
        let c = heading_concentration(headings.as_slice());
        spread_of_yaws(self.particles.len(), c, apply(ln, c))
    }

    /// True if the lock criteria have held for `locked_min_frames` frames.
    pub fn is_locked(&self) -> (r: bool)
        ensures
            r == (self@.streak >= self@.cfg.locked_min_frames),
    {
        self.locked_streak >= self.cfg.locked_min_frames
    }

    /// True if the cloud is to be resampled.
    pub fn is_resampling_due(&self) -> (r: bool)
        ensures
            r == self@.resampling_due(),
    {
        let ess = effective_sample_size(self.weights.as_slice());
        self.update_count > self.cfg.min_updates_before_resample && ess.lt(
            self.cfg.resample_ess_frac.mul(Single::from_u64(self.particles.len() as u64)),
        )
    }

    /// Resamples the cloud with a drawn word: one walk over the running sums of
    /// the weights with as many equal steps as there are particles.
    pub fn resample_with(&mut self, word: u32)
        requires
            old(self).wf(),
        ensures
            final(self).wf(),
            final(self).generator() == old(self).generator(),
            final(self)@ == old(self)@.resampled(word),
    {
        let n = self.particles.len();
        let cum = running_sums(self.weights.as_slice());
        let acc = cum[n - 1];
        if acc.le(Single { bits: ZERO_BITS }) {
            self.reset_weights();
            return;
        }
        let step = acc.div(Single::from_u64(n as u64));
        let u0 = fraction_of(word).mul(step);
        let chosen = picks(cum.as_slice(), u0, step);
        let mut particles: Vec<Pose2> = Vec::new();
        let mut i: usize = 0;
        while i < n
            invariant
                self@ == old(self)@,
                self.generator() == old(self).generator(),
                n == self@.particles.len(),
                n == chosen@.len(),
                n == cum@.len(),
                cum@ == running(old(self)@.weights),
                i <= n,
                particles@.len() == i,
                forall|t: int| 0 <= t < n ==> #[trigger] chosen@[t] == pick(cum@, u0, step, t),
                forall|t: int| 0 <= t < n ==> #[trigger] chosen@[t] < n,
                forall|t: int|
                    0 <= t < i ==> #[trigger] particles@[t] == old(self)@.particles[pick(
                        cum@,
                        u0,
                        step,
                        t,
                    )],
            decreases n - i,
        {
            assert(chosen@[i as int] < n);
            particles.push(self.particles[chosen[i]]);
            i = i + 1;
        }
        assert(particles@ =~= old(self)@.resampled(word).particles);
        self.particles = particles;
        self.reset_weights();
    }

    /// Low-variance resampling. A cloud without weight only gets equal weights.
    fn systematic_resample(&mut self)
        requires
            old(self).wf(),
        ensures
            final(self).wf(),
            exists|word: u32| final(self)@ == #[trigger] old(self)@.resampled(word),
    {
        let n = self.particles.len();
        let cum = running_sums(self.weights.as_slice());
        if cum[n - 1].le(Single { bits: ZERO_BITS }) {
            self.resample_with(0);
            assert(self@ == old(self)@.resampled(0));
            return;
        }
        let word = draw_word(&mut self.rng);
        self.resample_with(word);
        assert(self@ == old(self)@.resampled(word));
    }

    /// Replaces the front particles by the drawn ones, one for each draw.
    pub fn inject(&mut self, grid: &OccupancyGrid, draws: &[InjectDraw])
        requires
            old(self).wf(),
            draws@.len() <= old(self)@.particles.len(),
        ensures
            final(self).wf(),
            final(self).generator() == old(self).generator(),
            final(self)@ == old(self)@.with_injected(grid.config(), draws@),
    {
        let n = draws.len();
        let cfg = grid.cfg();
        let mut k: usize = 0;
        while k < n
            invariant
                self.wf(),
                self.generator() == old(self).generator(),
                *cfg == grid.config(),
                n == draws@.len(),
                n <= old(self)@.particles.len(),
                k <= n,
                self@ == (LocalizerView { particles: self@.particles, ..old(self)@ }),
                self@.particles.len() == old(self)@.particles.len(),
                forall|t: int|
                    0 <= t < k ==> #[trigger] self@.particles[t] == injected(
                        grid.config(),
                        draws@[t],
                    ),
                forall|t: int|
                    k <= t < self@.particles.len() ==> #[trigger] self@.particles[t] == old(
                        self,
                    )@.particles[t],
            decreases n - k,
        {
            let d = draws[k];
            let (cx, cy) = cfg.centre(d.i, d.j);
            self.particles.set(k, (cx, cy, angle_of(d.yaw_word)));
            k = k + 1;
        }
        assert(self@.particles =~= old(self)@.with_injected(grid.config(), draws@).particles);
    }

    /// Draws free cells one at a time, up to `count` of them; gives up after
    /// twenty times as many tries.
    fn draw_injections(&mut self, grid: &OccupancyGrid, count: usize) -> (draws: Vec<InjectDraw>)
        requires
            grid.wf(),
            count > 0 ==> grid.cols() > 0 && grid.rows() > 0,
            count * 20 <= usize::MAX,
        ensures
            final(self)@ == old(self)@,
            injection(draws@, *grid, count as int),
    {
        let w = grid.width();
        let h = grid.height();
        let mut draws: Vec<InjectDraw> = Vec::new();
        let mut tries: usize = 0;
        let ghost mut all = Seq::<InjectDraw>::empty();
        while draws.len() < count && tries < count * 20
            invariant
                grid.wf(),
                w == grid.cols(),
                h == grid.rows(),
                count > 0 ==> w > 0 && h > 0,
                count * 20 <= usize::MAX,
                self@ == old(self)@,
                draws@.len() <= count,
                tries <= count * 20,
                inject_draws(draws@, *grid),
                all.len() == tries,
                forall|k: int|
                    0 <= k < all.len() ==> grid.has((#[trigger] all[k]).i as int, all[k].j as int),
                draws@ == free_tries(all, *grid),
                all.len() > 0 ==> free_tries(all.drop_last(), *grid).len() < count,
            decreases count * 20 - tries,
        {
            tries = tries + 1;
            let i = draw_index(&mut self.rng, h);
            let j = draw_index(&mut self.rng, w);
            let mut yaw_word: u32 = 0;
            if grid.is_known_free(i, j) {
                yaw_word = draw_word(&mut self.rng);
                draws.push(InjectDraw { i, j, yaw_word });
            }
            proof {
                let before = all;
                all = before.push(InjectDraw { i, j, yaw_word });
                assert(all.drop_last() =~= before);
            }
        }
        assert(tried(all, *grid, count as int, draws@));
        draws
    }

    /// Replaces up to `count` of the front particles by fresh samples at the
    /// centres of free cells. The weights stay.
    fn inject_uniform(&mut self, grid: &OccupancyGrid, count: usize)
        requires
            old(self).wf(),
            grid.wf(),
            count > 0 ==> grid.cols() > 0 && grid.rows() > 0,
            count <= old(self)@.particles.len(),
            count * 20 <= usize::MAX,
        ensures
            final(self).wf(),
            exists|draws: Seq<InjectDraw>|
                {
                    &&& #[trigger] injection(draws, *grid, count as int)
                    &&& final(self)@ == old(self)@.with_injected(grid.config(), draws)
                },
    {
        let draws = self.draw_injections(grid, count);
        self.inject(grid, draws.as_slice());
        assert(injection(draws@, *grid, count as int));
    }

    /// Resamples the cloud if that is due, and then replaces a part of it by
    /// fresh samples, which keeps exploration alive.
    pub fn resample_if_due(&mut self, grid: &OccupancyGrid) -> (r: bool)
        requires
            old(self).wf(),
            grid.wf(),
            old(self)@.can_resample(*grid),
        ensures
            final(self).wf(),
            r == old(self)@.resampling_due(),
            !r ==> final(self).generator() == old(self).generator(),
            old(self)@.may_resample_to(*grid, final(self)@),
    {
        if !self.is_resampling_due() {
            return false;
        }
        self.systematic_resample();
        let ghost middle = self@;
        let count = share_of(self.particles.len(), self.cfg.random_inject_frac);
        if count > 0 {
            self.inject_uniform(grid, count);
        } else {
            proof {
                let none = Seq::<InjectDraw>::empty();
                assert(tried(none, *grid, 0, none));
                assert(injection(none, *grid, 0));
                assert(middle.with_injected(grid.config(), none).particles =~= middle.particles);
                assert(self@ =~= middle.with_injected(grid.config(), none));
            }
        }
        proof {
            let word = choose|word: u32| middle == #[trigger] old(self)@.resampled(word);
            let draws = choose|draws: Seq<InjectDraw>|
                {
                    &&& #[trigger] injection(draws, *grid, count as int)
                    &&& self@ == middle.with_injected(grid.config(), draws)
                };
            assert(injection(draws, *grid, count as int));
            assert(self@ == old(self)@.resampled(word).with_injected(grid.config(), draws));
        }
        true
    }

    /// Brings the lock streak up to date: it advances if the best particle fits,
    /// the cloud is narrow and the robot moved since it last advanced; it falls
    /// back to zero on a bad fit or a wide cloud. `yaw_std` is that of
    /// [`Localizer::yaw_std`].
    pub fn update_lock(&mut self, yaw_std: Single)
        requires
            old(self).wf(),
            old(self)@.streak < u32::MAX,
        ensures
            final(self).wf(),
            final(self).generator() == old(self).generator(),
            final(self)@ == old(self)@.streaked(position_spread(old(self)@.particles), yaw_std),
    {
        let xy_std = self.position_std();
        let fits = self.last_residual_m.is_finite() && self.last_residual_m.le(
            self.cfg.locked_max_residual_m,
        );
        let narrow = xy_std.le(self.cfg.locked_xy_std_m) && yaw_std.le(self.cfg.locked_yaw_std_rad);
        let moved = self.cfg.lock_min_motion_per_streak_m.le(self.motion_since_streak_m)
            || self.cfg.lock_min_rotation_per_streak_rad.le(self.rotation_since_streak_rad);
        if fits && narrow && moved {
            self.locked_streak = self.locked_streak + 1;
            self.motion_since_streak_m = Single { bits: ZERO_BITS };
            self.rotation_since_streak_rad = Single { bits: ZERO_BITS };
        } else if !fits || !narrow {
            self.locked_streak = 0;
        }
    }
}

impl Localizer {
    /// Reweights the particles against one scan and measures how well the best
    /// one fits. False for a scan that says too little: nothing changes.
    pub fn weigh_scan<T: Fn(Single) -> Heading, E: Fn(Single) -> Single>(
        &mut self,
        grid: &mut OccupancyGrid,
        angles_body: &[Single],
        ranges_horiz: &[Single],
        trig: &T,
        exp: &E,
    ) -> (r: bool)
        requires
            old(self).wf(),
            old(grid).wf(),
            old(grid).measurable(),
            ranges_horiz@.len() <= u32::MAX,
            is_trig(*trig),
            is_numeric(*exp),
            old(self)@.taken(angles_body@.len() as int, ranges_horiz@) ==> old(self)@.updates
                < u32::MAX,
        ensures
            final(self).wf(),
            final(self).generator() == old(self).generator(),
            final(grid).wf(),
            final(grid).same_shape(old(grid)),
            final(grid).cells() == old(grid).cells(),
            r == old(self)@.taken(angles_body@.len() as int, ranges_horiz@),
            r ==> exists|f: Field|
                {
                    &&& #[trigger] f.is_of(old(grid))
                    &&& f.threshold == old(self)@.cfg.wall_threshold_fp
                    &&& final(self)@ == old(self)@.weighed(
                        f,
                        *trig,
                        *exp,
                        angles_body@,
                        ranges_horiz@,
                    )
                },
            !r ==> final(self)@ == old(self)@ && *final(grid) == *old(grid),
    {
        if !self.takes(angles_body.len(), ranges_horiz) {
            return false;
        }
        let field = grid.field(self.cfg.wall_threshold_fp);
        let yaws = self.yaws();
        let beams = turned_beams(trig, yaws.as_slice(), angles_body);
        let exponents = self.exponents(&field, beams.as_slice(), ranges_horiz);
        let factors = apply_each(exp, exponents.as_slice());
        proof {
            assert(field.is_of(old(grid)));
            assert(factors@ =~= old(self)@.factors(
                field,
                *trig,
                *exp,
                angles_body@,
                ranges_horiz@,
            ));
        }
        self.weigh(&field, beams.as_slice(), ranges_horiz, factors.as_slice());
        assert(self@ == old(self)@.weighed(field, *trig, *exp, angles_body@, ranges_horiz@));
        true
    }

    /// True if [`Localizer::settle`] can do its work: where resampling is due
    /// and particles are to be replaced, there are cells to draw from, and the
    /// number of tries fits.
    pub fn can_settle(&self, grid: &OccupancyGrid) -> (r: bool)
        requires
            self.wf(),
        ensures
            r == self@.can_resample(*grid),
    {
        let n = self.particles.len();
        let count = share_of(n, self.cfg.random_inject_frac);
        if count == 0 || !self.is_resampling_due() {
            return true;
        }
        grid.width() > 0 && grid.height() > 0 && count <= n && count.checked_mul(20).is_some()
    }

    /// What follows the weighing of a scan: resamples the particles if that is
    /// due, and brings the lock streak up to date.
    pub fn settle<T: Fn(Single) -> Heading, L: Fn(Single) -> Single>(
        &mut self,
        grid: &OccupancyGrid,
        trig: &T,
        ln: &L,
    )
        requires
            old(self).wf(),
            grid.wf(),
            old(self)@.can_resample(*grid),
            old(self)@.streak < u32::MAX,
            is_trig(*trig),
            is_numeric(*ln),
        ensures
            final(self).wf(),
            exists|v: LocalizerView|
                old(self)@.may_resample_to(*grid, v) && final(self)@ == #[trigger] v.checked(
                    *trig,
                    *ln,
                ),
    {
        self.resample_if_due(grid);
        let ghost v = self@;
        let yaw_std = self.yaw_std(trig, ln);
        self.update_lock(yaw_std);
        assert(self@ == v.checked(*trig, *ln));
    }

    /// Reweights the particles against one scan, resamples them if that is due
    /// and brings the lock streak up to date. A scan that says too little
    /// changes nothing. `exp` is the exponential, `ln` the natural logarithm.
    pub fn update<
        T: Fn(Single) -> Heading,
        E: Fn(Single) -> Single,
        L: Fn(Single) -> Single,
    >(
        &mut self,
        grid: &mut OccupancyGrid,
        angles_body: &[Single],
        ranges_horiz: &[Single],
        trig: &T,
        exp: &E,
        ln: &L,
    )
        requires
            old(self).wf(),
            old(grid).wf(),
            old(grid).measurable(),
            ranges_horiz@.len() <= u32::MAX,
            is_trig(*trig),
            is_numeric(*exp),
            is_numeric(*ln),
            old(self)@.taken(angles_body@.len() as int, ranges_horiz@) ==> {
                &&& old(self)@.updates < u32::MAX
                &&& old(self)@.streak < u32::MAX
                &&& forall|f: Field|
                    #![trigger f.is_of(old(grid))]
                    f.is_of(old(grid)) && f.threshold == old(self)@.cfg.wall_threshold_fp
                        ==> old(self)@.weighed(
                        f,
                        *trig,
                        *exp,
                        angles_body@,
                        ranges_horiz@,
                    ).can_resample(*old(grid))
            },
        ensures
            final(self).wf(),
            final(grid).wf(),
            final(grid).same_shape(old(grid)),
            final(grid).cells() == old(grid).cells(),
            if old(self)@.taken(angles_body@.len() as int, ranges_horiz@) {
                exists|f: Field, v: LocalizerView|
                    {
                        &&& #[trigger] f.is_of(old(grid))
                        &&& f.threshold == old(self)@.cfg.wall_threshold_fp
                        &&& old(self)@.weighed(
                            f,
                            *trig,
                            *exp,
                            angles_body@,
                            ranges_horiz@,
                        ).may_resample_to(*final(grid), v)
                        &&& final(self)@ == #[trigger] v.checked(*trig, *ln)
                    }
            } else {
                &&& final(self)@ == old(self)@
                &&& final(self).generator() == old(self).generator()
                &&& *final(grid) == *old(grid)
            },
    {
        if !self.weigh_scan(grid, angles_body, ranges_horiz, trig, exp) {
            return;
        }
        let ghost weighed = self@;
        let ghost f = choose|f: Field|
            {
                &&& #[trigger] f.is_of(old(grid))
                &&& f.threshold == old(self)@.cfg.wall_threshold_fp
                &&& weighed == old(self)@.weighed(f, *trig, *exp, angles_body@, ranges_horiz@)
            };
        assert(f.is_of(old(grid)));
        self.settle(grid, trig, ln);
        proof {
            let v = choose|v: LocalizerView|
                weighed.may_resample_to(*grid, v) && self@ == #[trigger] v.checked(*trig, *ln);
            assert(self@ == v.checked(*trig, *ln));
        }
    }
}

// ---- Laws -------------------------------------------------------------------

/// A single bad beam cannot flatten the weight of a particle: however far from
/// the walls it ends, it takes no more off the log-likelihood than a beam that
/// ends at the clamp.
pub proof fn law_bad_beam_is_bounded(d: Single, clamp: Single, width: Single)
    requires
        !d.nan(),
        !d.negative(),
        clamp.finite(),
        !clamp.negative(),
        clamp.times(clamp).finite(),
        width.finite(),
        !width.negative(),
        !width.zero(),
    ensures
        ({
            let h = d.smaller(clamp);
            clamp.times(clamp).negated().over(width).at_most(h.times(h).negated().over(width))
        }),
{
    let h = d.smaller(clamp);
    lemma_absolute(h);
    lemma_absolute(clamp);
    if h.magnitude() > clamp.magnitude() {
        lemma_magnitudes_ordered(clamp.magnitude(), h.magnitude());
    }
    law_products_ordered(h, clamp, h);
    law_products_ordered(h, clamp, clamp);
    law_commutes(h, clamp);
    let (p, q) = (h.times(h), clamp.times(clamp));
    law_quotients_ordered(p.negated(), q.negated(), width);
    let (s, t) = (p.negated().over(width), q.negated().over(width));
    lemma_absolute(s);
    lemma_absolute(t);
    lemma_magnitudes_ordered(s.magnitude(), t.magnitude());
}

/// A robot that does not move never gains on its streak, however narrow its
/// cloud is.
pub proof fn law_no_lock_without_motion(v: LocalizerView, xy_std: Single, yaw_std: Single)
    requires
        !v.moved(),
    ensures
        v.streaked(xy_std, yaw_std).streak <= v.streak,
{
}

/// A streak advances one frame at a time, and only on a good fit and a narrow
/// cloud; it then asks for fresh motion.
pub proof fn law_streak_advances_by_one(v: LocalizerView, xy_std: Single, yaw_std: Single)
    requires
        v.streak < u32::MAX,
        v.streaked(xy_std, yaw_std).streak > v.streak,
    ensures
        v.streaked(xy_std, yaw_std).streak == v.streak + 1,
        v.fits() && v.narrow(xy_std, yaw_std) && v.moved(),
        v.streaked(xy_std, yaw_std).motion == zero(),
        v.streaked(xy_std, yaw_std).rotation == zero(),
{
}

/// A bad fit or a wide cloud ends the streak, and keeps the motion that was
/// gathered.
pub proof fn law_bad_fit_ends_streak(v: LocalizerView, xy_std: Single, yaw_std: Single)
    requires
        !v.fits() || !v.narrow(xy_std, yaw_std),
    ensures
        v.streaked(xy_std, yaw_std).streak == 0,
        v.streaked(xy_std, yaw_std).motion == v.motion,
        v.streaked(xy_std, yaw_std).rotation == v.rotation,
{
}

/// Every cell that a uniform seed can pick is a free cell of the grid.
pub proof fn law_seeds_in_free_space(grid: OccupancyGrid, k: int)
    requires
        grid.wf(),
        0 <= k < free_list(grid).len(),
    ensures
        ({
            let (i, j) = free_list(grid)[k];
            grid.has(i as int, j as int) && grid.free(i as int, j as int)
        }),
{
    lemma_free_among(grid, grid.cells().len() as int, k);
}

/// Every free cell of the grid can be picked by a uniform seed.
pub proof fn law_all_free_space_is_seeded(grid: OccupancyGrid, i: int, j: int)
    requires
        grid.wf(),
        grid.has(i, j),
        grid.free(i, j),
    ensures
        free_list(grid).contains((i as usize, j as usize)),
{
    lemma_index_of(grid.cols(), grid.rows(), i, j);
    let at = index_of(grid.cols(), i, j);
    vstd::arithmetic::div_mod::lemma_fundamental_div_mod_converse(at, grid.cols(), i, j);
    lemma_free_listed(grid, grid.cells().len() as int, at);
}

proof fn lemma_free_listed(grid: OccupancyGrid, n: int, at: int)
    requires
        grid.wf(),
        0 <= at < n <= grid.cells().len(),
        grid.free(at / grid.cols(), at % grid.cols()),
    ensures
        free_among(grid, n).contains(
            ((at / grid.cols()) as usize, (at % grid.cols()) as usize),
        ),
    decreases n,
{
    let c = ((at / grid.cols()) as usize, (at % grid.cols()) as usize);
    let all = free_among(grid, n);
    if at < n - 1 {
        lemma_free_listed(grid, n - 1, at);
        let before = free_among(grid, n - 1);
        let k = choose|k: int| 0 <= k < before.len() && before[k] == c;
        assert(all[k] == c);
    } else {
        assert(all[all.len() - 1] == c);
    }
}

/// Resampling only repeats and drops particles: each one of the new cloud was
/// in the old one, in the same order, and all weigh the same.
pub proof fn law_resampling_keeps_particles(v: LocalizerView, word: u32, i: int)
    requires
        v.particles.len() == v.weights.len(),
        0 <= i < v.particles.len(),
    ensures
        v.resampled(word).particles.len() == v.particles.len(),
        v.particles.contains(v.resampled(word).particles[i]),
        v.resampled(word).weights == even(v.weights.len()),
{
    let n = v.weights.len() as int;
    let acc = total(v.weights, n);
    if !acc.at_most(zero()) {
        let step = acc.over(rounded(n));
        let u0 = fraction(word).times(step);
        crate::cloud::law_picks_in_order(running(v.weights), u0, step, i);
        assert(v.resampled(word).particles[i] == v.particles[pick(
            running(v.weights),
            u0,
            step,
            i,
        )]);
    }
}

/// An update neither adds nor loses particles, whatever is drawn, and touches
/// neither the tuning nor the counts.
pub proof fn law_resampling_keeps_counts(v: LocalizerView, grid: OccupancyGrid, w: LocalizerView)
    requires
        v.weights.len() == v.particles.len(),
        v.can_resample(grid),
        v.may_resample_to(grid, w),
    ensures
        w.particles.len() == v.particles.len(),
        w.weights.len() == v.weights.len(),
        w.cfg == v.cfg,
        w.updates == v.updates,
        w.streak == v.streak,
        w.residual == v.residual,
        w.motion == v.motion,
        w.rotation == v.rotation,
{
}

/// A temper of zero ignores the scan entirely: it multiplies all weights by one,
/// so that they stay as they are up to rounding, and exactly where they add up
/// to one.
pub proof fn law_zero_temper_ignores_scan<T: Fn(Single) -> Heading, E: Fn(Single) -> Single>(
    v: LocalizerView,
    f: Field,
    trig: T,
    exp: E,
    angles: Seq<Single>,
    ranges: Seq<Single>,
)
    requires
        v.cfg.likelihood_temper.zero(),
        image::<Single, Single, E>(exp, zero()) == unit(),
        v.particles.len() == v.weights.len(),
        forall|k: int| 0 <= k < v.weights.len() ==> (#[trigger] v.weights[k]).finite(),
    ensures
        ({
            let after = v.weighed(f, trig, exp, angles, ranges);
            let sum = total(v.weights, v.weights.len() as int);
            &&& v.products(v.factors(f, trig, exp, angles, ranges)) == v.weights
            &&& zero().below(sum) ==> after.weights.len() == v.weights.len() && forall|k: int|
                0 <= k < v.weights.len() ==> #[trigger] after.weights[k] == v.weights[k].over(sum)
            &&& sum == unit() ==> after.weights == v.weights
        }),
{
    let factors = v.factors(f, trig, exp, angles, ranges);
    let temper = v.cfg.likelihood_temper;
    lemma_absolute(temper);
    lemma_absolute(zero());
    assert forall|k: int| 0 <= k < v.weights.len() implies #[trigger] v.products(factors)[k]
        == v.weights[k] by {
        assert(factors[k] == unit());
        law_one_is_neutral(v.weights[k]);
    }
    assert(v.products(factors) =~= v.weights);
    let after = v.weighed(f, trig, exp, angles, ranges);
    let sum = total(v.weights, v.weights.len() as int);
    if sum == unit() {
        lemma_unit();
        assert(zero().below(sum));
        assert forall|k: int| 0 <= k < v.weights.len() implies #[trigger] after.weights[k]
            == v.weights[k] by {
            law_one_is_neutral(v.weights[k]);
        }
        assert(after.weights =~= v.weights);
    }
}

/// In the grace period, the first `min_updates_before_resample` updates, the
/// cloud is not resampled.
pub proof fn law_grace_period(v: LocalizerView)
    requires
        v.updates <= v.cfg.min_updates_before_resample,
    ensures
        !v.resampling_due(),
{
}

} // verus!
