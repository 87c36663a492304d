use maploc::grid::{GridConfig, OccupancyGrid, OCC_THRESHOLD};
use maploc::pose::Heading;
use maploc::relocalize::{coarse_yaws, refine_yaws, relocalize_against_grid, RelocalizeConfig};
use maploc::single::Single;

fn single(v: f32) -> Single {
    Single { bits: v.to_bits() }
}

fn value(s: Single) -> f32 {
    f32::from_bits(s.bits)
}

fn trig(a: Single) -> Heading {
    let a = f32::from_bits(a.bits);
    Heading { cos: single(a.cos()), sin: single(a.sin()) }
}

fn make_test_room() -> OccupancyGrid {
    // 4x4 m square room, walls at +-2 m, with an asymmetric divider.
    let mut g = OccupancyGrid::new(GridConfig {
        x_range: (single(-2.5), single(2.5)),
        y_range: (single(-2.5), single(2.5)),
        cell: single(0.05),
    });
    let z = single(0.0);
    let n = 200;
    for i in 0..n {
        let t = single(-2.0 + 4.0 * (i as f32 / (n - 1) as f32));
        g.integrate_ray(z, z, t, single(2.0), true);
        g.integrate_ray(z, z, t, single(-2.0), true);
        g.integrate_ray(z, z, single(2.0), t, true);
        g.integrate_ray(z, z, single(-2.0), t, true);
    }
    for i in 0..n / 2 {
        let t = 0.0 + 2.0 * (i as f32 / ((n / 2) as f32));
        g.integrate_ray(z, z, single(t), single(0.5), true);
    }
    g
}

fn scan(grid: &OccupancyGrid, truth: (f32, f32, f32), n_beams: usize) -> (Vec<Single>, Vec<Single>) {
    let mut angles = Vec::new();
    let mut ranges = Vec::new();
    for k in 0..n_beams {
        // +-90 degree fan in body frame.
        let a = -std::f32::consts::FRAC_PI_2
            + (k as f32 / (n_beams - 1) as f32) * std::f32::consts::PI;
        let r = grid.cast_ray(single(truth.0), single(truth.1), single(truth.2 + a), single(4.0), &trig);
        if value(r) > 0.0 {
            angles.push(single(a));
            ranges.push(r);
        }
    }
    (angles, ranges)
}

#[test]
fn relocalize_finds_known_pose() {
    let mut grid = make_test_room();
    let truth = (0.5_f32, -0.5_f32, 0.0_f32);
    let (angles, ranges) = scan(&grid, truth, 36);
    let cfg = RelocalizeConfig::default();
    let res = relocalize_against_grid(&mut grid, &angles, &ranges, &cfg, &trig)
        .expect("relocalize returns a candidate");
    assert!(
        res.accepted,
        "expected accepted, got mean_residual={:.3} m, n={}",
        value(res.mean_residual_m),
        res.n_beams_used
    );
    // Should land within a couple of cells of ground truth and within a few
    // degrees of the right yaw.
    let dx = value(res.pose.0) - truth.0;
    let dy = value(res.pose.1) - truth.1;
    let dist = (dx * dx + dy * dy).sqrt();
    assert!(dist < 0.20, "position {:.2} m off truth", dist);
    let dyaw = (value(res.pose.2) - truth.2).abs();
    assert!(
        dyaw < 0.20 || (2.0 * std::f32::consts::PI - dyaw) < 0.20,
        "yaw {:.1} deg off truth",
        dyaw.to_degrees()
    );
}

#[test]
fn scans_that_do_not_fit_together_find_nothing() {
    let mut grid = make_test_room();
    let (angles, ranges) = scan(&grid, (0.5, -0.5, 0.0), 36);
    let cfg = RelocalizeConfig::default();
    assert!(relocalize_against_grid(&mut grid, &[], &[], &cfg, &trig).is_none());
    assert!(relocalize_against_grid(&mut grid, &angles[1..], &ranges, &cfg, &trig).is_none());
    // more beams asked for than there are
    let strict = RelocalizeConfig { min_beams_used: 37, ..cfg };
    assert!(relocalize_against_grid(&mut grid, &angles, &ranges, &strict, &trig).is_none());
    // no free cell, no candidate
    let mut blank = OccupancyGrid::new(GridConfig::default());
    assert!(relocalize_against_grid(&mut blank, &angles, &ranges, &cfg, &trig).is_none());
}

#[test]
fn the_result_is_the_first_least_mean() {
    // a small room, searched by hand
    let cfg_g = GridConfig {
        x_range: (single(0.0), single(0.6)),
        y_range: (single(0.0), single(0.5)),
        cell: single(0.1),
    };
    let mut log = vec![-100_i16; 30];
    for k in [0, 5, 17, 29] {
        log[k] = 100;
    }
    let mut grid = OccupancyGrid::from_parts(cfg_g, 6, 5, log).unwrap();
    let cfg = RelocalizeConfig {
        coarse_xy_stride: 1,
        coarse_yaw_bins: 4,
        refine_xy_radius: 0,
        refine_yaw_bins: 1,
        refine_yaw_half_rad: single(0.0),
        min_beams_used: 2,
        ..RelocalizeConfig::default()
    };
    let angles = [single(0.0), single(0.4), single(1.1)];
    let ranges = [single(0.22), single(0.31), single(0.17)];
    let field = grid.field(OCC_THRESHOLD);
    let yaws = coarse_yaws(&cfg);
    // the refinement looks at nothing but the best coarse candidate
    let got = relocalize_against_grid(&mut grid, &angles, &ranges, &cfg, &trig).unwrap();
    let mut best: Option<((f32, f32, f32), f32, u32)> = None;
    for i in 0..5 {
        for j in 0..6 {
            if !grid.is_known_free(i, j) {
                continue;
            }
            let (cx, cy) = ((j as f32 + 0.5) * 0.1, (i as f32 + 0.5) * 0.1);
            for yaw in &yaws {
                let (mut sum, mut n) = (0.0_f32, 0u32);
                for (a, r) in angles.iter().zip(&ranges) {
                    let t = value(*yaw) + value(*a);
                    let hx = cx + value(*r) * t.cos();
                    let hy = cy + value(*r) * t.sin();
                    let (bi, bj) = ((hy / 0.1).floor() as i32, (hx / 0.1).floor() as i32);
                    if bi < 0 || bj < 0 || bi >= 5 || bj >= 6 {
                        continue;
                    }
                    sum += value(field.metres[(bi * 6 + bj) as usize]).min(0.5);
                    n += 1;
                }
                if n < 2 {
                    continue;
                }
                let mean = sum / n as f32;
                if best.map_or(true, |b| mean < b.1) {
                    best = Some(((cx, cy, value(*yaw)), mean, n));
                }
            }
        }
    }
    let best = best.unwrap();
    assert_eq!((value(got.pose.0), value(got.pose.1), value(got.pose.2)), best.0);
    assert_eq!((value(got.mean_residual_m), got.n_beams_used), (best.1, best.2));
    assert_eq!(got.accepted, best.1 <= 0.20);
    // a finer look around it never makes it worse
    let finer = RelocalizeConfig {
        refine_xy_radius: 2,
        refine_yaw_bins: 5,
        refine_yaw_half_rad: single(0.3),
        ..cfg
    };
    let fine = relocalize_against_grid(&mut grid, &angles, &ranges, &finer, &trig).unwrap();
    assert!(value(fine.mean_residual_m) <= best.1);
}

#[test]
fn yaw_bins_cover_a_turn_and_a_window() {
    let pi = std::f32::consts::PI;
    let cfg = RelocalizeConfig::default();
    let yaws = coarse_yaws(&cfg);
    assert_eq!(yaws.len(), 36);
    let dyaw = (2.0 * pi) / 36.0_f32;
    for (k, y) in yaws.iter().enumerate() {
        assert_eq!(value(*y), -pi + k as f32 * dyaw);
    }
    let fine = refine_yaws(&cfg, single(1.0));
    assert_eq!(fine.len(), 11);
    let half = 10.0_f32.to_radians();
    assert_eq!(value(cfg.refine_yaw_half_rad), half);
    for (k, y) in fine.iter().enumerate() {
        assert_eq!(value(*y), 1.0 - half + k as f32 * (2.0 * half / 10.0));
    }
    let none = RelocalizeConfig { coarse_yaw_bins: 0, refine_yaw_bins: 0, ..cfg };
    assert_eq!(coarse_yaws(&none).len(), 1);
    assert_eq!(refine_yaws(&none, single(1.0)), vec![single(1.0 - half)]);
}

#[test]
fn poor_matches_are_not_accepted() {
    let mut grid = make_test_room();
    let (angles, ranges) = scan(&grid, (0.5, -0.5, 0.0), 36);
    let cfg = RelocalizeConfig { max_mean_residual_m: single(-1.0), ..RelocalizeConfig::default() };
    let res = relocalize_against_grid(&mut grid, &angles, &ranges, &cfg, &trig).unwrap();
    assert!(!res.accepted);
}
