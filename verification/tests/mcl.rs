use maploc::beams::beam_headings;
use maploc::conversion::wrap_pi;
use maploc::grid::{GridConfig, OccupancyGrid};
use maploc::mcl::{free_cells, InjectDraw, Localizer, MclConfig, SeedDraw};
use maploc::pose::{Heading, Pose2};
use maploc::random::{angle_of, fraction_of};
use maploc::single::Single;
use rand::rngs::StdRng;
use rand::{Rng, SeedableRng};
use rand_distr::{Distribution, Normal};

fn single(v: f32) -> Single {
    Single { bits: v.to_bits() }
}

fn value(s: Single) -> f32 {
    f32::from_bits(s.bits)
}

fn heading(a: f32) -> Heading {
    Heading { cos: single(a.cos()), sin: single(a.sin()) }
}

fn trig(a: Single) -> Heading {
    heading(value(a))
}

fn exp(a: Single) -> Single {
    single(value(a).exp())
}

fn ln(a: Single) -> Single {
    single(value(a).ln())
}

fn atan2(p: (Single, Single)) -> Single {
    single(value(p.0).atan2(value(p.1)))
}

fn pose(x: f32, y: f32, yaw: f32) -> Pose2 {
    (single(x), single(y), single(yaw))
}

/// Directions of the beams at the yaw of each particle.
fn all_beams(m: &Localizer, angles: &[Single]) -> Vec<Vec<Heading>> {
    m.particles().iter().map(|p| beam_headings(&trig, p.2, angles)).collect()
}

fn make_room() -> OccupancyGrid {
    // 4x4 m room with asymmetric divider. Cast rays from many origins so free
    // cells densely fill the inside.
    let mut g = OccupancyGrid::new(GridConfig {
        x_range: (single(-2.5), single(2.5)),
        y_range: (single(-2.5), single(2.5)),
        cell: single(0.05),
    });
    let perim = 200;
    let mut walls: Vec<(f32, f32)> = Vec::new();
    for i in 0..perim {
        let t = -2.0 + 4.0 * (i as f32 / (perim - 1) as f32);
        walls.push((t, 2.0));
        walls.push((t, -2.0));
        walls.push((2.0, t));
        walls.push((-2.0, t));
    }
    for i in 0..perim / 2 {
        let t = 2.0 * (i as f32 / ((perim / 2) as f32));
        walls.push((t, 0.5)); // asymmetric divider
    }
    let mut origins = Vec::new();
    let mut y = -1.5_f32;
    while y <= 1.5 {
        let mut x = -1.5_f32;
        while x <= 1.5 {
            origins.push((x, y));
            x += 0.30;
        }
        y += 0.30;
    }
    for (ox, oy) in &origins {
        for (wx, wy) in &walls {
            g.integrate_ray(single(*ox), single(*oy), single(*wx), single(*wy), true);
        }
    }
    g
}

fn fake_scan(grid: &OccupancyGrid, at: (f32, f32, f32), n_beams: usize) -> (Vec<Single>, Vec<Single>) {
    let mut a = Vec::new();
    let mut r = Vec::new();
    let half = std::f32::consts::FRAC_PI_2; // +-90 degree fan
    for k in 0..n_beams {
        let aa = -half + (k as f32 / (n_beams - 1) as f32) * 2.0 * half;
        let rr = grid.cast_ray(single(at.0), single(at.1), single(at.2 + aa), single(4.0), &trig);
        if value(rr) > 0.0 {
            a.push(single(aa));
            r.push(rr);
        }
    }
    (a, r)
}

/// Moves the cloud, with noise from the cloud's own generator.
fn predict(m: &mut Localizer, dx: f32, dy: f32, dyaw: f32) {
    let (xy, yaw) = m.noise_widths(single(dx), single(dy), single(dyaw));
    let nx = Normal::new(0.0_f32, value(xy)).unwrap();
    let nt = Normal::new(0.0_f32, value(yaw)).unwrap();
    let noise: Vec<Pose2> = (0..m.n_particles())
        .map(|_| {
            let x = nx.sample(m.rng_mut());
            let y = nx.sample(m.rng_mut());
            let t = nt.sample(m.rng_mut());
            pose(x, y, t)
        })
        .collect();
    m.predict(single(dx), single(dy), single(dyaw), &noise, &trig);
}

/// One whole update against a scan.
fn update(m: &mut Localizer, grid: &mut OccupancyGrid, angles: &[Single], ranges: &[Single]) {
    m.update(grid, angles, ranges, &trig, &exp, &ln);
}

#[test]
fn seed_uniform_lands_inside_free_space() {
    let grid = make_room();
    let mut mcl = Localizer::new(MclConfig { n_particles: 200, ..MclConfig::default() }, 0);
    mcl.seed_uniform(&grid);
    // Most particles should be in cells marked as known-free (the jitter inside
    // a cell can land just over its edge).
    let mut inside_free = 0usize;
    for p in mcl.particles() {
        if let Some((i, j)) = grid.world_to_idx(p.0, p.1) {
            if grid.is_known_free(i, j) {
                inside_free += 1;
            }
        }
    }
    assert!(
        inside_free as f32 / mcl.n_particles() as f32 > 0.95,
        "{} of {} particles fell outside known-free",
        mcl.n_particles() - inside_free,
        mcl.n_particles()
    );
    // spread out, and reproducible from the seed
    assert!(value(mcl.position_std()) > 0.5);
    let mut again = Localizer::new(MclConfig { n_particles: 200, ..MclConfig::default() }, 0);
    again.seed_uniform(&grid);
    assert_eq!(mcl.particles(), again.particles());
    let mut other = Localizer::new(MclConfig { n_particles: 200, ..MclConfig::default() }, 1);
    other.seed_uniform(&grid);
    assert_ne!(mcl.particles(), other.particles());
}

#[test]
fn predict_advances_particles_with_noise() {
    let mut mcl = Localizer::new(
        MclConfig {
            n_particles: 200,
            jitter_xy_m: single(0.0),
            jitter_yaw_rad: single(0.0),
            ..MclConfig::default()
        },
        0,
    );
    // All particles start at the origin facing +x.
    predict(&mut mcl, 1.0, 0.0, 0.0);
    // Mean should be close to +1 m on x.
    let mut mx = 0.0;
    for p in mcl.particles() {
        mx += value(p.0);
    }
    mx /= mcl.n_particles() as f32;
    assert!((mx - 1.0).abs() < 0.10, "mean x after predict = {mx}");
    // Spread should be > 0 (noise injected).
    assert!(value(mcl.position_std()) > 0.0);
}

#[test]
fn update_concentrates_weight_around_truth_seed() {
    let mut grid = make_room();
    let truth = (0.5_f32, -0.5_f32, 0.0_f32);
    // Seed half the particles around truth, half on a decoy 1.5 m away.
    let mut mcl = Localizer::new(MclConfig { n_particles: 400, ..MclConfig::default() }, 0);
    let half = mcl.n_particles() / 2;
    let nx = Normal::new(0.0_f32, 0.05).unwrap();
    let nt = Normal::new(0.0_f32, 0.02).unwrap();
    let decoy = (-1.0_f32, 0.5_f32, std::f32::consts::PI);
    let mut cloud = Vec::new();
    for i in 0..mcl.n_particles() {
        let s = if i < half { truth } else { decoy };
        let x = s.0 + nx.sample(mcl.rng_mut());
        let y = s.1 + nx.sample(mcl.rng_mut());
        let t = wrap_pi(single(s.2 + nt.sample(mcl.rng_mut())));
        cloud.push((single(x), single(y), t));
    }
    mcl.set_particles(cloud);
    mcl.reset_weights();
    let (a, r) = fake_scan(&grid, truth, 64);
    // Several updates, past the grace period without resampling.
    for _ in 0..8 {
        update(&mut mcl, &mut grid, &a, &r);
    }
    let near = |p: &Pose2, c: (f32, f32, f32), r: f32| {
        let dx = value(p.0) - c.0;
        let dy = value(p.1) - c.1;
        (dx * dx + dy * dy).sqrt() < r
    };
    let n_truth = mcl.particles().iter().filter(|p| near(p, truth, 0.30)).count();
    let n_decoy = mcl.particles().iter().filter(|p| near(p, decoy, 0.30)).count();
    assert!(
        n_truth > 3 * n_decoy.max(1),
        "truth cluster didn't dominate: near_truth={n_truth} near_decoy={n_decoy}"
    );
    // the residual of the best particle is held to the clamp
    let residual = value(mcl.last_residual_m());
    assert!(residual >= 0.0 && residual <= 0.5, "{residual}");
}

#[test]
fn a_fresh_filter_is_at_the_origin() {
    let m = Localizer::new(MclConfig { n_particles: 0, ..MclConfig::default() }, 3);
    assert_eq!(m.n_particles(), 1);
    assert_eq!(m.best(), pose(0.0, 0.0, 0.0));
    assert!(value(m.last_residual_m()).is_nan());
    assert_eq!(m.locked_streak(), 0);
    assert!(!m.is_locked());
    assert_eq!(value(m.position_std()), 0.0);
    assert_eq!(value(m.yaw_std(&trig, &ln)), 0.0);
    assert_eq!(value(m.weights()[0]), 1.0);
    let n = Localizer::new(MclConfig::default(), 3);
    assert_eq!(n.n_particles(), 800);
}

#[test]
fn defaults_are_the_documented_numbers() {
    let c = MclConfig::default();
    let want: [(Single, f32); 17] = [
        (c.sigma_xy_per_m, 0.10),
        (c.sigma_xy_per_rad, 0.05),
        (c.sigma_yaw_per_m, 0.05),
        (c.sigma_yaw_per_rad, 0.10),
        (c.beam_sigma_m, 0.20),
        (c.beam_clamp_m, 0.50),
        (c.random_inject_frac, 0.05),
        (c.resample_ess_frac, 0.5),
        (c.locked_xy_std_m, 0.15),
        (c.locked_yaw_std_rad, 8.0_f32.to_radians()),
        (c.locked_max_residual_m, 0.12),
        (c.jitter_xy_m, 0.005),
        (c.jitter_yaw_rad, 0.005),
        (c.likelihood_temper, 0.15),
        (c.lock_min_motion_per_streak_m, 0.05),
        (c.lock_min_rotation_per_streak_rad, 0.05),
        (single(1e-6), 1e-6),
    ];
    for (got, want) in want {
        assert_eq!(value(got), want);
    }
    assert_eq!((c.min_beams_used, c.locked_min_frames), (16, 25));
    assert_eq!((c.wall_threshold_fp, c.min_updates_before_resample), (200, 5));
}

#[test]
fn a_blank_grid_seeds_the_origin() {
    let grid = OccupancyGrid::new(GridConfig::default());
    assert!(free_cells(&grid).is_empty());
    let mut m = Localizer::new(MclConfig { n_particles: 50, ..MclConfig::default() }, 9);
    m.seed_uniform(&grid);
    let pi = std::f32::consts::PI;
    assert!(m.particles().iter().all(|p| value(p.0) == 0.0 && value(p.1) == 0.0));
    assert!(m.particles().iter().all(|p| value(p.2) >= -pi && value(p.2) < pi));
    assert!(m.particles().iter().any(|p| value(p.2) != value(m.particles()[0].2)));
    assert_eq!(value(m.weights()[7]), 1.0 / 50.0);
}

#[test]
fn drawn_words_place_particles() {
    let cfg = GridConfig {
        x_range: (single(0.0), single(0.4)),
        y_range: (single(0.0), single(0.2)),
        cell: single(0.1),
    };
    let grid = OccupancyGrid::from_parts(cfg, 4, 2, vec![0, -60, 0, 0, 0, 0, -400, 10]).unwrap();
    assert_eq!(free_cells(&grid), vec![(0, 1), (1, 2)]);
    let mut m = Localizer::new(MclConfig { n_particles: 2, ..MclConfig::default() }, 0);
    let draws = [
        SeedDraw { pick: Some(1), x_word: 0x8000_0000, y_word: 0x8000_0000, yaw_word: 0x8000_0000 },
        SeedDraw { pick: Some(0), x_word: 0, y_word: u32::MAX, yaw_word: 0 },
    ];
    m.place_seeds(&grid, &draws);
    // the middle of the second free cell, facing ahead
    assert_eq!(m.particles()[0], pose(2.5 * 0.1, 1.5 * 0.1, 0.0));
    let p = m.particles()[1];
    assert_eq!(value(p.0), 1.5 * 0.1 + (0.0 - 0.5) * 0.1);
    assert_eq!(value(p.1), 0.5 * 0.1 + (16777215.0 / 16777216.0 - 0.5) * 0.1);
    assert_eq!(value(p.2), -std::f32::consts::PI);
    m.inject(&grid, &[InjectDraw { i: 1, j: 2, yaw_word: 0x8000_0000 }]);
    assert_eq!(m.particles()[0], pose(2.5 * 0.1, 1.5 * 0.1, 0.0));
    assert_eq!(m.particles()[1], p);
}

#[test]
fn words_are_the_fractions_of_the_generator() {
    let mut a = StdRng::seed_from_u64(5);
    let mut b = StdRng::seed_from_u64(5);
    for _ in 0..1000 {
        let u: f32 = a.gen();
        let word: u32 = b.gen();
        assert_eq!(value(fraction_of(word)), u);
        let pi = std::f32::consts::PI;
        assert_eq!(value(angle_of(word)), u * (2.0 * pi) - pi);
    }
    // the ends of the range
    assert_eq!((value(fraction_of(0)), value(angle_of(0))), (0.0, -std::f32::consts::PI));
    assert!(value(fraction_of(u32::MAX)) < 1.0);
    assert!(value(angle_of(u32::MAX)) < std::f32::consts::PI);
}

#[test]
fn uniform_seeds_are_those_of_the_generator() {
    let cfg = GridConfig {
        x_range: (single(0.0), single(1.0)),
        y_range: (single(0.0), single(1.0)),
        cell: single(0.1),
    };
    let log: Vec<i16> = (0..100).map(|k| if k % 3 == 0 { -100 } else { 0 }).collect();
    let grid = OccupancyGrid::from_parts(cfg, 10, 10, log).unwrap();
    let mut m = Localizer::new(MclConfig { n_particles: 20, ..MclConfig::default() }, 77);
    m.seed_uniform(&grid);
    let free: Vec<(f32, f32)> = (0..100)
        .filter(|k| k % 3 == 0)
        .map(|k| (((k % 10) as f32 + 0.5) * 0.1, ((k / 10) as f32 + 0.5) * 0.1))
        .collect();
    let mut rng = StdRng::seed_from_u64(77);
    let pi = std::f32::consts::PI;
    for p in m.particles() {
        let (cx, cy) = free[rng.gen_range(0..free.len())];
        let jx = (rng.gen::<f32>() - 0.5) * 0.1;
        let jy = (rng.gen::<f32>() - 0.5) * 0.1;
        let yaw = rng.gen::<f32>() * (2.0 * pi) - pi;
        assert_eq!(*p, pose(cx + jx, cy + jy, yaw));
    }
}

#[test]
fn seeds_are_split_evenly() {
    let mut m = Localizer::new(MclConfig { n_particles: 5, ..MclConfig::default() }, 0);
    let before = m.particles().to_vec();
    m.seed_around(&[], &[]);
    assert_eq!(m.particles(), &before[..]);
    let noise: Vec<Pose2> = (0..5).map(|k| pose(0.1 * k as f32, 0.0, 3.0)).collect();
    m.seed_around(&[pose(1.0, 0.0, 1.0), pose(2.0, 0.0, -1.0)], &noise);
    let want_yaw = |s: f32| value(wrap_pi(single(s + 3.0)));
    for (k, p) in m.particles().iter().enumerate() {
        let s = if k % 2 == 0 { (1.0, 1.0) } else { (2.0, -1.0) };
        assert_eq!(*p, pose(s.0 + 0.1 * k as f32, 0.0, want_yaw(s.1)));
    }
    assert_eq!(value(m.weights()[0]), 0.2);
}

#[test]
fn a_mixed_seed_puts_some_in_front() {
    let mut m = Localizer::new(MclConfig { n_particles: 10, ..MclConfig::default() }, 0);
    assert_eq!(m.mixed_count(single(0.35)), 3);
    assert_eq!(m.mixed_count(single(7.0)), 10);
    assert_eq!(m.mixed_count(single(-1.0)), 0);
    assert_eq!(m.mixed_count(single(f32::NAN)), 0);
    let grid = make_room();
    let noise = [pose(0.5, 0.5, 0.0); 3];
    m.seed_mixed(&[pose(1.0, 2.0, 0.0)], single(0.35), &grid, &noise);
    // the rest are spread over the free cells
    let mut u = Localizer::new(MclConfig { n_particles: 10, ..MclConfig::default() }, 0);
    u.seed_uniform(&grid);
    for (k, p) in m.particles().iter().enumerate() {
        assert_eq!(*p, if k < 3 { pose(1.5, 2.5, 0.0) } else { u.particles()[k] });
    }
    assert!(m.weights().iter().all(|w| value(*w) == 0.1));
    assert_eq!(m.locked_streak(), 0);
    // the uniform draws are all that it takes from the generator
    assert_eq!(m.rng_mut().gen::<u32>(), u.rng_mut().gen::<u32>());
    // without candidates all are
    let mut m = Localizer::new(MclConfig { n_particles: 10, ..MclConfig::default() }, 0);
    m.seed_mixed(&[], single(0.35), &grid, &[]);
    assert_eq!(m.particles(), u.particles());
}

#[test]
fn a_temper_of_zero_ignores_the_scan() {
    let mut grid = make_room();
    let (a, r) = fake_scan(&grid, (0.5, -0.5, 0.0), 20);
    let cfg = MclConfig { n_particles: 4, likelihood_temper: single(0.0), ..MclConfig::default() };
    let mut m = Localizer::new(cfg, 0);
    // one fits, one is hopeless
    let cloud = vec![pose(0.5, -0.5, 0.0), pose(-1.0, 0.5, 1.0), pose(90.0, 0.0, 0.0), pose(0.5, -0.5, 3.0)];
    m.set_particles(cloud);
    update(&mut m, &mut grid, &a, &r);
    assert!(m.weights().iter().all(|w| value(*w) == 0.25));
    let field = grid.field(200);
    let beams = all_beams(&m, &a);
    assert!(m.exponents(&field, &beams, &r).iter().all(|e| value(*e) == 0.0));
}

#[test]
fn a_small_temper_is_taken_as_it_is() {
    let mut grid = make_room();
    let (a, r) = fake_scan(&grid, (0.5, -0.5, 0.0), 20);
    let cfg = MclConfig { n_particles: 2, likelihood_temper: single(1e-9), ..MclConfig::default() };
    let mut m = Localizer::new(cfg.clone(), 0);
    m.set_particles(vec![pose(0.5, -0.5, 0.0), pose(90.0, 0.0, 0.0)]);
    let field = grid.field(200);
    let beams = all_beams(&m, &a);
    let e = value(m.exponents(&field, &beams, &r)[1]);
    assert!(e < -0.9e-3 && e > -1.1e-3, "{e}");
    // below zero and no number count as a millionth
    for t in [-1.0, f32::NEG_INFINITY, f32::NAN] {
        let odd = MclConfig { likelihood_temper: single(t), ..cfg.clone() };
        let mut m = Localizer::new(odd, 0);
        m.set_particles(vec![pose(0.5, -0.5, 0.0), pose(90.0, 0.0, 0.0)]);
        let e = value(m.exponents(&field, &beams, &r)[1]);
        assert!(e < -0.9 && e > -1.1, "{e}");
    }
}

#[test]
fn a_scan_is_weighed_and_then_settled() {
    let mut grid = make_room();
    let (a, r) = fake_scan(&grid, (0.5, -0.5, 0.0), 20);
    let cfg = MclConfig { n_particles: 30, min_updates_before_resample: 0, ..MclConfig::default() };
    let mut m = Localizer::new(cfg.clone(), 8);
    let mut n = Localizer::new(cfg, 8);
    m.seed_uniform(&grid);
    n.seed_uniform(&grid);
    for _ in 0..3 {
        m.update(&mut grid, &a, &r, &trig, &exp, &ln);
        assert!(n.weigh_scan(&mut grid, &a, &r, &trig, &exp));
        assert!(n.can_settle(&grid));
        n.settle(&grid, &trig, &ln);
        assert_eq!(m.particles(), n.particles());
        assert_eq!(m.weights(), n.weights());
    }
    assert!(!n.weigh_scan(&mut grid, &a[..3], &r, &trig, &exp));
    // nowhere to inject: only a due resampling minds
    let none = OccupancyGrid::new(GridConfig { x_range: (single(0.0), single(0.0)), ..GridConfig::default() });
    let field = grid.field(200);
    let mut m = Localizer::new(MclConfig { n_particles: 40, min_updates_before_resample: 0, ..MclConfig::default() }, 1);
    let beams = all_beams(&m, &a);
    m.weigh(&field, &beams, &r, &[single(1.0); 40]);
    assert!(!m.is_resampling_due() && m.can_settle(&none));
    let mut f = [single(1e-6); 40];
    f[7] = single(1.0);
    m.weigh(&field, &beams, &r, &f);
    assert!(m.is_resampling_due() && !m.can_settle(&none) && m.can_settle(&grid));
}

#[test]
fn prediction_is_plain_arithmetic() {
    let mut m = Localizer::new(MclConfig { n_particles: 1, ..MclConfig::default() }, 0);
    m.set_particles(vec![pose(1.0, 2.0, 0.5)]);
    m.predict(
        single(0.3),
        single(0.1),
        single(0.2),
        &[pose(0.01, -0.02, 0.03)],
        &trig,
    );
    let (c, s) = (0.5_f32.cos(), 0.5_f32.sin());
    let p = m.particles()[0];
    assert_eq!(value(p.0), 1.0 + (c * 0.3 - s * 0.1 + 0.01));
    assert_eq!(value(p.1), 2.0 + (s * 0.3 + c * 0.1 + -0.02));
    assert_eq!(value(p.2), value(wrap_pi(single(0.5 + 0.2 + 0.03))));
    let (xy, yaw) = m.noise_widths(single(0.3), single(0.4), single(-0.2));
    let t = (0.3_f32 * 0.3 + 0.4 * 0.4).sqrt();
    assert_eq!(value(xy), 0.10 * t + 0.05 * 0.2 + 0.005);
    assert_eq!(value(yaw), 0.05 * t + 0.10 * 0.2 + 0.005);
}

#[test]
fn scans_that_say_too_little_are_skipped() {
    let m = Localizer::new(MclConfig { min_beams_used: 2, ..MclConfig::default() }, 0);
    let r = [single(1.0), single(f32::NAN), single(2.0), single(0.0)];
    assert!(m.takes(4, &r));
    assert!(!m.takes(3, &r));
    assert!(!m.takes(0, &[]));
    assert!(!m.takes(2, &r[..2]));
    // such a scan changes nothing at all
    let mut m = m;
    let mut grid = make_room();
    let before = m.particles().to_vec();
    m.update(&mut grid, &r[..2], &r[..2], &trig, &exp, &ln);
    m.update(&mut grid, &r[..3], &r, &trig, &exp, &ln);
    assert_eq!(m.particles(), &before[..]);
    assert!(m.weights().iter().all(|w| value(*w) == 1.0));
    assert!(value(m.last_residual_m()).is_nan());
}

#[test]
fn exponents_are_tempered_log_likelihoods() {
    let mut grid = make_room();
    let mut m = Localizer::new(MclConfig { n_particles: 3, ..MclConfig::default() }, 0);
    m.set_particles(vec![pose(0.5, -0.5, 0.0), pose(-1.0, 0.5, 1.0), pose(90.0, 0.0, 0.0)]);
    let (a, r) = fake_scan(&grid, (0.5, -0.5, 0.0), 20);
    let field = grid.field(m.cfg().wall_threshold_fp);
    let beams = all_beams(&m, &a);
    let got = m.exponents(&field, &beams, &r);
    let mut logs = Vec::new();
    for p in m.particles() {
        let mut sum = 0.0_f32;
        let mut n = 0;
        for (aa, rr) in a.iter().zip(&r) {
            let theta = value(p.2) + value(*aa);
            let hx = value(p.0) + value(*rr) * theta.cos();
            let hy = value(p.1) + value(*rr) * theta.sin();
            let j = ((hx - -2.5) / 0.05).floor() as i32;
            let i = ((hy - -2.5) / 0.05).floor() as i32;
            if i < 0 || j < 0 || i as usize >= field.h || j as usize >= field.w {
                continue;
            }
            let d = value(field.metres[i as usize * field.w + j as usize]).min(0.50);
            sum += -(d * d) / (2.0 * 0.20 * 0.20);
            n += 1;
        }
        logs.push(if n == 0 { -1e6 } else { sum });
    }
    let top = logs.iter().cloned().fold(f32::NEG_INFINITY, f32::max);
    for k in 0..3 {
        assert_eq!(value(got[k]), (logs[k] - top) * 0.15);
    }
    assert_eq!(value(got[0]), 0.0);
    // no beam takes off more than one that ends at the clamp
    let worst = -(0.50_f32 * 0.50) / (2.0 * 0.20 * 0.20);
    assert!(value(got[1]) >= 20.0 * worst * 0.15);
}

#[test]
fn weights_are_scaled_or_made_even() {
    let mut grid = make_room();
    let (a, r) = fake_scan(&grid, (0.5, -0.5, 0.0), 20);
    let field = grid.field(200);
    let mut m = Localizer::new(MclConfig { n_particles: 4, ..MclConfig::default() }, 0);
    let beams = all_beams(&m, &a);
    let f = [single(1.0), single(2.0), single(4.0), single(1.0)];
    m.weigh(&field, &beams, &r, &f);
    let w: Vec<f32> = m.weights().iter().map(|w| value(*w)).collect();
    assert_eq!(w, vec![0.125, 0.25, 0.5, 0.125]);
    // evidence multiplies up
    m.weigh(&field, &beams, &r, &f);
    assert_eq!(value(m.weights()[2]), 0.5 * 4.0 / (0.125 + 0.5 + 2.0 + 0.125));
    m.weigh(&field, &beams, &r, &[single(0.0); 4]);
    assert!(m.weights().iter().all(|w| value(*w) == 0.25));
}

#[test]
fn the_last_of_the_heaviest_is_best() {
    let mut grid = make_room();
    let (a, r) = fake_scan(&grid, (0.5, -0.5, 0.0), 20);
    let field = grid.field(200);
    let mut m = Localizer::new(MclConfig { n_particles: 4, ..MclConfig::default() }, 0);
    m.set_particles((0..4).map(|k| pose(k as f32, 0.0, 0.0)).collect());
    let beams = all_beams(&m, &a);
    let f = [single(1.0), single(3.0), single(3.0), single(1.0)];
    m.weigh(&field, &beams, &r, &f);
    assert_eq!(value(m.best().0), 2.0);
    let mean = m.weighted_mean(&trig, &atan2);
    assert_eq!(value(mean.0), 0.375 * 1.0 + 0.375 * 2.0 + 0.125 * 3.0);
    assert_eq!(value(mean.1), 0.0);
    assert_eq!(value(mean.2), 0.0);
    m.set_particles(vec![pose(0.0, 0.0, 1.0), pose(0.0, 0.0, 0.5), pose(0.0, 0.0, 0.5), pose(0.0, 0.0, 1.0)]);
    let (mut sx, mut cy) = (0.0_f32, 0.0_f32);
    for (w, t) in [(0.125_f32, 1.0_f32), (0.375, 0.5), (0.375, 0.5), (0.125, 1.0)] {
        sx += w * t.sin();
        cy += w * t.cos();
    }
    assert_eq!(value(m.weighted_mean(&trig, &atan2).2), sx.atan2(cy));
}

#[test]
fn a_walk_over_the_weights_resamples() {
    let mut grid = make_room();
    let (a, r) = fake_scan(&grid, (0.5, -0.5, 0.0), 20);
    let field = grid.field(200);
    let mut m = Localizer::new(MclConfig { n_particles: 4, ..MclConfig::default() }, 0);
    m.set_particles((0..4).map(|k| pose(k as f32, 0.0, 0.0)).collect());
    let beams = all_beams(&m, &a);
    // running sums 0.125, 0.125, 0.875, 1.0
    let f = [single(1.0), single(0.0), single(6.0), single(1.0)];
    m.weigh(&field, &beams, &r, &f);
    // half a step in: 0.125, 0.375, 0.625, 0.875
    m.resample_with(0x8000_0000);
    let xs: Vec<f32> = m.particles().iter().map(|p| value(p.0)).collect();
    assert_eq!(xs, vec![0.0, 2.0, 2.0, 2.0]);
    assert!(m.weights().iter().all(|w| value(*w) == 0.25));
}

#[test]
fn resampling_waits_for_the_grace_period() {
    let mut grid = make_room();
    let (a, r) = fake_scan(&grid, (0.5, -0.5, 0.0), 20);
    let field = grid.field(200);
    let mut m = Localizer::new(
        MclConfig { n_particles: 40, random_inject_frac: single(0.1), ..MclConfig::default() },
        4,
    );
    m.set_particles((0..40).map(|k| pose(k as f32, 9.0, 0.0)).collect());
    let beams = all_beams(&m, &a);
    let mut f = vec![single(1e-3); 40];
    f[7] = single(1.0);
    // the first five updates leave the cloud alone
    for _ in 0..5 {
        m.weigh(&field, &beams, &r, &f);
        assert!(!m.resample_if_due(&grid));
        assert_eq!(value(m.particles()[39].0), 39.0);
    }
    m.weigh(&field, &beams, &r, &f);
    assert!(m.is_resampling_due());
    assert!(m.resample_if_due(&grid));
    // all weight was on one particle; four of the front ones are fresh
    for (k, p) in m.particles().iter().enumerate() {
        if k < 4 {
            let (i, j) = grid.world_to_idx(p.0, p.1).unwrap();
            assert!(grid.is_known_free(i, j));
        } else {
            assert_eq!((value(p.0), value(p.1)), (7.0, 9.0));
        }
    }
    assert!(!m.is_resampling_due());
}

#[test]
fn a_lock_takes_a_good_fit_and_motion() {
    let mut grid = make_room();
    let truth = (0.5_f32, -0.5_f32, 0.0_f32);
    let (a, r) = fake_scan(&grid, truth, 40);
    let cfg = MclConfig {
        n_particles: 10,
        locked_min_frames: 2,
        wall_threshold_fp: 0,
        random_inject_frac: single(0.0),
        ..MclConfig::default()
    };
    let mut m = Localizer::new(cfg, 0);
    let still = vec![pose(truth.0, truth.1, truth.2); 10];
    m.set_particles(still.clone());
    // a stationary robot never gains, however good the fit
    for _ in 0..5 {
        update(&mut m, &mut grid, &a, &r);
        assert!(value(m.last_residual_m()) <= 0.12, "{}", value(m.last_residual_m()));
        assert_eq!(m.locked_streak(), 0);
    }
    let none = vec![pose(0.0, 0.0, 0.0); 10];
    for k in 1..=2 {
        m.predict(single(0.06), single(0.0), single(0.0), &none, &trig);
        m.set_particles(still.clone());
        update(&mut m, &mut grid, &a, &r);
        assert_eq!(m.locked_streak(), k);
    }
    assert!(m.is_locked());
    // without fresh motion the streak holds
    update(&mut m, &mut grid, &a, &r);
    assert_eq!(m.locked_streak(), 2);
    // turning counts too
    m.predict(single(0.0), single(0.0), single(-0.05), &none, &trig);
    m.set_particles(still.clone());
    update(&mut m, &mut grid, &a, &r);
    assert_eq!(m.locked_streak(), 3);
    // a wide cloud ends it
    let mut wide = still.clone();
    wide[3] = pose(-1.5, 1.5, 0.0);
    m.set_particles(wide);
    update(&mut m, &mut grid, &a, &r);
    assert_eq!(m.locked_streak(), 0);
    assert!(!m.is_locked());
}

#[test]
fn spreads_are_plain_statistics() {
    let mut m = Localizer::new(MclConfig { n_particles: 3, ..MclConfig::default() }, 0);
    m.set_particles(vec![pose(0.0, 0.0, 0.1), pose(3.0, 0.0, 0.3), pose(0.0, 3.0, -0.2)]);
    let mut var = 0.0_f32;
    for (x, y) in [(0.0_f32, 0.0_f32), (3.0, 0.0), (0.0, 3.0)] {
        var += (x - 1.0) * (x - 1.0) + (y - 1.0) * (y - 1.0);
    }
    assert_eq!(value(m.position_std()), (var / 3.0).sqrt());
    let (mut sx, mut cy) = (0.0_f32, 0.0_f32);
    for a in [0.1_f32, 0.3, -0.2] {
        sx += a.sin();
        cy += a.cos();
    }
    let r = ((sx * sx + cy * cy).sqrt()) / 3.0;
    assert_eq!(value(m.yaw_std(&trig, &ln)), (-2.0 * r.ln()).sqrt());
}
