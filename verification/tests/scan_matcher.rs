use maploc::beams::Field;
use maploc::conversion::wrap_pi;
use maploc::grid::{GridConfig, OccupancyGrid};
use maploc::pose::Heading;
use maploc::scan_matcher::{match_scan, solve_3x3, Matrix, ScanMatchConfig, Triple};
use maploc::single::Single;

fn single(v: f32) -> Single {
    Single { bits: v.to_bits() }
}

fn value(s: Single) -> f32 {
    f32::from_bits(s.bits)
}

fn trig(a: Single) -> Heading {
    let a = f32::from_bits(a.bits);
    Heading { cos: single(a.cos()), sin: single(a.sin()) }
}

fn room() -> OccupancyGrid {
    let mut g = OccupancyGrid::new(GridConfig {
        x_range: (single(-2.0), single(2.0)),
        y_range: (single(-2.0), single(2.0)),
        cell: single(0.05),
    });
    for k in 0..120 {
        let t = -1.5 + 3.0 * k as f32 / 119.0;
        for (x, y) in [(t, 1.5), (t, -1.5), (1.5, t), (-1.5, t)] {
            g.add_log_odds_at_world(single(x), single(y), 400);
        }
    }
    g
}

/// Ranges to the walls of the room from a pose, computed exactly.
fn scan(at: (f32, f32, f32)) -> (Vec<Single>, Vec<Single>) {
    let mut a = Vec::new();
    let mut r = Vec::new();
    for k in 0..60 {
        let ang = -3.0 + 6.0 * k as f32 / 59.0;
        let (c, s) = ((at.2 + ang).cos(), (at.2 + ang).sin());
        let tx = if c > 0.0 { (1.5 - at.0) / c } else { (-1.5 - at.0) / c };
        let ty = if s > 0.0 { (1.5 - at.1) / s } else { (-1.5 - at.1) / s };
        a.push(single(ang));
        r.push(single(tx.min(ty)));
    }
    (a, r)
}

#[test]
fn a_matching_pulls_toward_the_walls() {
    let mut g = room();
    let cfg = ScanMatchConfig::default();
    let truth = (0.1_f32, -0.2_f32, 0.05_f32);
    let (a, r) = scan(truth);
    let start = (single(0.18), single(-0.14), single(0.0));
    let m = match_scan(&mut g, &a, &r, start, None, &cfg, &trig);
    assert!(m.iterations >= 1 && m.iterations <= 12);
    assert_eq!(m.n_beams_used, 60);
    let (dx, dy) = (value(m.pose.0) - truth.0, value(m.pose.1) - truth.1);
    assert!((dx * dx + dy * dy).sqrt() < 0.06, "{dx} {dy}");
    assert!((value(m.pose.2) - truth.2).abs() < 0.03, "{}", value(m.pose.2));
    assert!(value(m.residual_m) < 0.05);
}

#[test]
fn a_scan_without_beams_stays_where_it_is() {
    let mut g = room();
    let cfg = ScanMatchConfig::default();
    let start = (single(0.3), single(0.4), single(0.5));
    let m = match_scan(&mut g, &[single(0.0)], &[single(f32::NAN)], start, None, &cfg, &trig);
    assert_eq!(m.pose, start);
    assert_eq!((m.iterations, m.n_beams_used, m.converged), (1, 0, false));
    assert_eq!(value(m.residual_m), f32::INFINITY);
    // no steps allowed
    let none = ScanMatchConfig { max_iters: 0, ..cfg };
    let m = match_scan(&mut g, &[single(0.0)], &[single(1.0)], start, None, &none, &trig);
    assert_eq!((m.pose, m.iterations), (start, 0));
}

#[test]
fn singular_systems_end_a_matching() {
    let mut g = room();
    let cfg = ScanMatchConfig { lambda: single(0.0), ..ScanMatchConfig::default() };
    let start = (single(50.0), single(50.0), single(0.0));
    // outside the map there is no gradient at all
    let m = match_scan(&mut g, &[single(0.0)], &[single(1.0)], start, None, &cfg, &trig);
    assert_eq!((m.pose, m.iterations, m.converged), (start, 1, false));
    assert_eq!(m.n_beams_used, 1);
    assert_eq!(value(m.residual_m), 0.30);
}

#[test]
fn a_prior_pulls_a_lost_matching_back() {
    let mut g = room();
    let cfg = ScanMatchConfig::default();
    let start = (single(50.0), single(50.0), single(1.0));
    let prior = (single(49.0), single(50.5), single(0.5));
    let m = match_scan(&mut g, &[single(0.0)], &[single(1.0)], start, Some(prior), &cfg, &trig);
    assert!(m.converged);
    assert!((value(m.pose.0) - 49.0).abs() < 1e-2);
    assert!((value(m.pose.1) - 50.5).abs() < 1e-2);
    assert!((value(m.pose.2) - 0.5).abs() < 1e-2);
    // switched off, it does not
    let off = ScanMatchConfig { prior_sigma_xy: single(0.0), prior_sigma_yaw: single(0.0), ..cfg };
    let m = match_scan(&mut g, &[single(0.0)], &[single(1.0)], start, Some(prior), &off, &trig);
    assert_eq!(m.pose.0, start.0);
}

/// The step written out in plain arithmetic.
fn plain_step(
    f: &Field,
    angles: &[Single],
    ranges: &[Single],
    pose: (f32, f32, f32),
    prior: (f32, f32, f32),
    cfg: &ScanMatchConfig,
) -> ((f32, f32, f32), f32) {
    let cell = value(f.cfg.cell);
    let inv = 1.0 / cell;
    let sigma = value(cfg.sigma_m);
    let (x, y, yaw) = pose;
    let mut hm = [[0.0_f32; 3]; 3];
    let mut gv = [0.0_f32; 3];
    let mut sq = 0.0_f32;
    let mut n = 0u32;
    for (a, r) in angles.iter().zip(ranges) {
        let r = value(*r);
        if !r.is_finite() || r <= 0.0 {
            continue;
        }
        let t = yaw + value(*a);
        let (st, ct) = (t.sin(), t.cos());
        let (ex, ey) = (x + r * ct, y + r * st);
        let cx = (ex - value(f.cfg.x_range.0)) * inv - 0.5;
        let cy = (ey - value(f.cfg.y_range.0)) * inv - 0.5;
        let (i0, j0) = (cy.floor() as i32, cx.floor() as i32);
        let (d, dx, dy) = if i0 < 0 || j0 < 0 || (i0 + 1) as usize >= f.h || (j0 + 1) as usize >= f.w {
            (sigma, 0.0, 0.0)
        } else {
            let (i, j) = (i0 as usize, j0 as usize);
            let (fx, fy) = (cx - j0 as f32, cy - i0 as f32);
            let at = |i: usize, j: usize| value(f.metres[i * f.w + j]);
            let (d00, d01, d10, d11) = (at(i, j), at(i, j + 1), at(i + 1, j), at(i + 1, j + 1));
            let d = (1.0 - fx) * (1.0 - fy) * d00
                + fx * (1.0 - fy) * d01
                + (1.0 - fx) * fy * d10
                + fx * fy * d11;
            (
                d,
                ((d01 - d00) * (1.0 - fy) + (d11 - d10) * fy) * inv,
                ((d10 - d00) * (1.0 - fx) + (d11 - d01) * fx) * inv,
            )
        };
        let ds = d.min(sigma);
        sq += ds * ds;
        n += 1;
        if d > sigma {
            continue;
        }
        let js = [dx, dy, dx * (-r * st) + dy * (r * ct)];
        for p in 0..3 {
            for q in 0..3 {
                hm[p][q] += js[p] * js[q];
            }
            gv[p] += js[p] * ds;
        }
    }
    let inv2 = 1.0 / (value(cfg.prior_sigma_xy) * value(cfg.prior_sigma_xy));
    let (px, py) = (x - prior.0, y - prior.1);
    hm[0][0] += inv2;
    hm[1][1] += inv2;
    gv[0] += inv2 * px;
    gv[1] += inv2 * py;
    let inv2 = 1.0 / (value(cfg.prior_sigma_yaw) * value(cfg.prior_sigma_yaw));
    let pt = value(wrap_pi(single(yaw - prior.2)));
    hm[2][2] += inv2;
    gv[2] += inv2 * pt;
    let residual = (sq / n as f32).sqrt();
    for k in 0..3 {
        hm[k][k] += value(cfg.lambda);
    }
    let a = hm;
    let det = a[0][0] * (a[1][1] * a[2][2] - a[1][2] * a[2][1])
        - a[0][1] * (a[1][0] * a[2][2] - a[1][2] * a[2][0])
        + a[0][2] * (a[1][0] * a[2][1] - a[1][1] * a[2][0]);
    let id = 1.0 / det;
    let m = [
        [
            (a[1][1] * a[2][2] - a[1][2] * a[2][1]) * id,
            (a[0][2] * a[2][1] - a[0][1] * a[2][2]) * id,
            (a[0][1] * a[1][2] - a[0][2] * a[1][1]) * id,
        ],
        [
            (a[1][2] * a[2][0] - a[1][0] * a[2][2]) * id,
            (a[0][0] * a[2][2] - a[0][2] * a[2][0]) * id,
            (a[0][2] * a[1][0] - a[0][0] * a[1][2]) * id,
        ],
        [
            (a[1][0] * a[2][1] - a[1][1] * a[2][0]) * id,
            (a[0][1] * a[2][0] - a[0][0] * a[2][1]) * id,
            (a[0][0] * a[1][1] - a[0][1] * a[1][0]) * id,
        ],
    ];
    let mut d = [0.0_f32; 3];
    for k in 0..3 {
        d[k] = -(m[k][0] * gv[0] + m[k][1] * gv[1] + m[k][2] * gv[2]);
    }
    ((x + d[0], y + d[1], value(wrap_pi(single(yaw + d[2])))), residual)
}

#[test]
fn a_step_is_plain_arithmetic() {
    let mut g = room();
    let cfg = ScanMatchConfig::default();
    let field = g.field(cfg.occ_threshold_fp);
    let (a, mut r) = scan((0.1, -0.2, 0.05));
    r[3] = single(f32::NAN);
    r[4] = single(70.0);
    let start = (0.18_f32, -0.14_f32, 0.0_f32);
    let prior = (0.0_f32, 0.0_f32, 0.1_f32);
    let p = (single(prior.0), single(prior.1), single(prior.2));
    let from = (single(start.0), single(start.1), single(start.2));
    let mut pose = start;
    for steps in 1..4 {
        let limited = ScanMatchConfig { max_iters: steps, ..cfg };
        let m = match_scan(&mut g, &a, &r, from, Some(p), &limited, &trig);
        let (next, residual) = plain_step(&field, &a, &r, pose, prior, &cfg);
        assert_eq!((value(m.pose.0), value(m.pose.1), value(m.pose.2)), next);
        assert_eq!(value(m.residual_m), residual);
        assert_eq!((m.n_beams_used, m.iterations), (59, steps));
        pose = next;
        if m.converged {
            break;
        }
    }
}

#[test]
fn beams_far_from_the_walls_do_not_move_the_pose() {
    let mut g = room();
    let cfg = ScanMatchConfig::default();
    // all end well inside the room, more than 0.30 from its walls
    let angles: Vec<Single> = (0..12).map(|k| single(-3.0 + 0.5 * k as f32)).collect();
    let ranges: Vec<Single> = (0..12).map(|k| single(0.2 + 0.05 * k as f32)).collect();
    let start = (single(0.1), single(0.2), single(0.5));
    let m = match_scan(&mut g, &angles, &ranges, start, None, &cfg, &trig);
    assert_eq!((m.pose.0, m.pose.1), (start.0, start.1));
    assert!((value(m.pose.2) - 0.5).abs() < 1e-6);
    assert_eq!((m.n_beams_used, m.iterations), (12, 1));
    let capped = (0..12).fold(0.0_f32, |sum, _| sum + 0.30 * 0.30);
    assert_eq!(value(m.residual_m), (capped / 12.0).sqrt());
    // pure Gauss-Newton has nothing to solve
    let pure = ScanMatchConfig { lambda: single(0.0), ..cfg };
    let m = match_scan(&mut g, &angles, &ranges, start, None, &pure, &trig);
    assert_eq!((m.pose, m.converged), (start, false));
    // strong damping does not matter either
    for lambda in [1e-2_f32, 1.0, 50.0, 1e12] {
        let strong = ScanMatchConfig { lambda: single(lambda), ..cfg };
        let m = match_scan(&mut g, &angles, &ranges, start, None, &strong, &trig);
        assert_eq!((m.pose.0, m.pose.1, m.converged), (start.0, start.1, true));
    }
}

#[test]
fn the_residual_is_that_of_the_beams() {
    let mut g = room();
    let cfg = ScanMatchConfig { max_iters: 1, ..ScanMatchConfig::default() };
    let (a, r) = scan((0.1, -0.2, 0.05));
    let start = (single(0.18), single(-0.14), single(0.0));
    let prior = (single(1.0), single(1.0), single(1.0));
    let with = match_scan(&mut g, &a, &r, start, Some(prior), &cfg, &trig);
    let without = match_scan(&mut g, &a, &r, start, None, &cfg, &trig);
    assert_eq!(with.residual_m, without.residual_m);
    assert!(with.pose != without.pose);
}

#[test]
fn scans_without_a_counterpart_are_cut() {
    let mut g = room();
    let cfg = ScanMatchConfig::default();
    let (a, r) = scan((0.1, -0.2, 0.05));
    let start = (single(0.18), single(-0.14), single(0.0));
    let m = match_scan(&mut g, &a, &r[..40], start, None, &cfg, &trig);
    let n = match_scan(&mut g, &a[..40], &r[..40], start, None, &cfg, &trig);
    let o = match_scan(&mut g, &a[..40], &r, start, None, &cfg, &trig);
    assert_eq!((m.pose, m.n_beams_used), (n.pose, 40));
    assert_eq!((o.pose, o.n_beams_used), (n.pose, 40));
}

#[test]
fn systems_of_three_are_solved() {
    let m = Matrix {
        a00: single(2.0),
        a01: single(0.0),
        a02: single(0.0),
        a10: single(0.0),
        a11: single(4.0),
        a12: single(0.0),
        a20: single(0.0),
        a21: single(0.0),
        a22: single(8.0),
    };
    let v = Triple { v0: single(2.0), v1: single(2.0), v2: single(2.0) };
    let x = solve_3x3(&m, &v).unwrap();
    assert_eq!((value(x.v0), value(x.v1), value(x.v2)), (1.0, 0.5, 0.25));
    let singular = Matrix { a22: single(0.0), ..m };
    assert!(solve_3x3(&singular, &v).is_none());
}

#[test]
fn matching_defaults_are_the_documented_numbers() {
    let c = ScanMatchConfig::default();
    assert_eq!((c.max_iters, c.occ_threshold_fp), (12, 150));
    assert_eq!(value(c.eps_translation_m), 1e-3);
    assert_eq!(value(c.eps_rotation_rad), 1e-3);
    assert_eq!(value(c.lambda), 1e-3);
    assert_eq!(value(c.sigma_m), 0.30);
    assert_eq!(value(c.prior_sigma_xy), 0.50);
    assert_eq!(value(c.prior_sigma_yaw), 0.50);
}
