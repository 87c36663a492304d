use maploc::conversion::wrap_pi;
use maploc::global_render::{render_global, GlobalRenderConfig};
use maploc::grid::GridConfig;
use maploc::pose::Heading;
use maploc::single::Single;
use maploc::submap::{world_to_local, Pose2, Submap, MAX_RAW_SCANS};

fn single(v: f32) -> Single {
    Single { bits: v.to_bits() }
}

fn value(s: Single) -> f32 {
    f32::from_bits(s.bits)
}

fn trig(a: Single) -> Heading {
    let a = f32::from_bits(a.bits);
    Heading { cos: single(a.cos()), sin: single(a.sin()) }
}

fn pose(x: f32, y: f32, yaw: f32) -> Pose2 {
    (single(x), single(y), single(yaw))
}

fn config(half: f32) -> GridConfig {
    GridConfig {
        x_range: (single(-half), single(half)),
        y_range: (single(-half), single(half)),
        cell: single(0.05),
    }
}

/// Integrates a scan with the directions of its beams.
fn integrate(s: &mut Submap, body: Pose2, angles: &[f32], ranges: &[f32]) {
    let a: Vec<Single> = angles.iter().map(|v| single(*v)).collect();
    let r: Vec<Single> = ranges.iter().map(|v| single(*v)).collect();
    s.integrate_scan(body, &a, &r, &trig);
}

#[test]
fn world_to_local_is_inverse_of_compose() {
    let anchor = (1.0_f32, -0.5, 0.6);
    let body = (2.5_f32, 0.3, 0.2);
    let local = world_to_local(
        pose(anchor.0, anchor.1, anchor.2),
        pose(body.0, body.1, body.2),
        &trig,
    );
    let local = (value(local.0), value(local.1), value(local.2));
    // recompose: world = anchor with local
    let (ax, ay, ayaw) = anchor;
    let (ca, sa) = (ayaw.cos(), ayaw.sin());
    let wx = ax + ca * local.0 - sa * local.1;
    let wy = ay + sa * local.0 + ca * local.1;
    let wyaw = value(wrap_pi(single(ayaw + local.2)));
    assert!((wx - body.0).abs() < 1e-5);
    assert!((wy - body.1).abs() < 1e-5);
    assert!((wyaw - body.2).abs() < 1e-5);
}

#[test]
fn integrating_a_perpendicular_wall_lights_up_the_right_cell() {
    // 4 m square grid, 5 cm cells, anchor at world origin, no rotation.
    let mut s = Submap::new_at(pose(0.0, 0.0, 0.0), config(2.0));
    // Body at world origin too. One beam pointing +x at 1 m.
    integrate(&mut s, pose(0.0, 0.0, 0.0), &[0.0], &[1.0]);
    let (i, j) = s.grid().world_to_idx(single(1.0), single(0.0)).unwrap();
    assert!(
        s.grid().log_at(i, j) > 0,
        "wall cell wasn't marked occupied (log_odds={})",
        s.grid().log_at(i, j)
    );
    let (i, j) = s.grid().world_to_idx(single(0.5), single(0.0)).unwrap();
    assert!(
        s.grid().log_at(i, j) < 0,
        "free cell wasn't marked free (log_odds={})",
        s.grid().log_at(i, j)
    );
}

#[test]
fn integrating_at_offset_anchor_uses_local_frame() {
    // Anchor and body at world (5, 5, 0): the wall is at local (1, 0).
    let mut s = Submap::new_at(pose(5.0, 5.0, 0.0), config(2.0));
    integrate(&mut s, pose(5.0, 5.0, 0.0), &[0.0], &[1.0]);
    let (i, j) = s.grid().world_to_idx(single(1.0), single(0.0)).unwrap();
    assert!(s.grid().log_at(i, j) > 0);
}

#[test]
fn unusable_ranges_leave_no_mark() {
    let mut s = Submap::new_at(pose(0.0, 0.0, 0.0), config(2.0));
    integrate(
        &mut s,
        pose(0.0, 0.0, 0.0),
        &[0.0, 0.5, 1.0, 1.5],
        &[f32::NAN, 0.0, -1.0, f32::INFINITY],
    );
    assert!(s.grid().log_raw().iter().all(|v| *v == 0));
    assert_eq!(s.raw_scans().len(), 1);
}

#[test]
fn only_the_first_scans_are_kept() {
    let mut s = Submap::new_at(pose(1.0, 0.0, 0.0), config(2.0));
    for k in 0..MAX_RAW_SCANS + 3 {
        integrate(&mut s, pose(1.0, 0.1 * k as f32, 0.0), &[0.0, 0.1], &[1.0, 1.5]);
    }
    assert_eq!(s.raw_scans().len(), MAX_RAW_SCANS);
    let third = &s.raw_scans()[2];
    assert_eq!(value(third.pose_in_submap.0), 0.0);
    assert_eq!(value(third.pose_in_submap.1), 0.1 * 2.0_f32);
    assert_eq!(third.angles_body, vec![single(0.0), single(0.1)]);
    assert_eq!(third.ranges_horiz, vec![single(1.0), single(1.5)]);
    assert_eq!(third.clone().ranges_horiz, third.ranges_horiz);
}

#[test]
fn moving_the_anchor_keeps_the_content() {
    let mut s = Submap::new_at(pose(0.0, 0.0, 0.0), config(1.0));
    integrate(&mut s, pose(0.0, 0.0, 0.0), &[0.0], &[0.5]);
    let before = s.grid().log_raw().to_vec();
    s.set_anchor_pose(pose(3.0, 4.0, 1.0));
    assert_eq!(s.anchor_pose(), pose(3.0, 4.0, 1.0));
    assert_eq!(s.grid().log_raw(), &before[..]);
    assert_eq!(s.raw_scans().len(), 1);
    s.grid_mut().add_log_odds_at_world(single(0.0), single(0.9), 7);
    assert_ne!(s.grid().log_raw(), &before[..]);
}

#[test]
fn render_two_overlapping_submaps_combines_their_marks() {
    let cfg = config(1.0);
    // Submap A at (0, 0, 0): mark a wall at world (0.5, 0). Repeat the same
    // beam so the cell crosses the render confidence threshold.
    let mut a = Submap::new_at(pose(0.0, 0.0, 0.0), cfg);
    for _ in 0..5 {
        integrate(&mut a, pose(0.0, 0.0, 0.0), &[0.0], &[0.5]);
    }
    // Submap B anchored at (0.5, 0, 0): same world wall is at LOCAL (0, 0).
    let mut b = Submap::new_at(pose(0.5, 0.0, 0.0), cfg);
    for _ in 0..5 {
        integrate(&mut b, pose(0.5, 0.0, 0.0), &[0.0], &[0.05]);
    }
    let g = render_global(&[&a, &b], &GlobalRenderConfig::default(), &trig).unwrap();
    let (i, j) = g.world_to_idx(single(0.5), single(0.0)).expect("inside global bbox");
    assert!(
        g.log_at(i, j) > 0,
        "world (0.5, 0) wasn't marked occupied (log = {})",
        g.log_at(i, j)
    );
}

#[test]
fn nothing_is_rendered_of_no_submaps() {
    assert!(render_global(&[], &GlobalRenderConfig::default(), &trig).is_none());
}

#[test]
fn the_rendered_grid_covers_all_corners() {
    let a = Submap::new_at(pose(0.0, 0.0, 0.0), config(1.0));
    let b = Submap::new_at(pose(3.0, 1.0, 0.0), config(1.0));
    let g = render_global(&[&a, &b], &GlobalRenderConfig::default(), &trig).unwrap();
    assert_eq!((value(g.cfg().x_range.0), value(g.cfg().x_range.1)), (-1.5, 4.5));
    assert_eq!((value(g.cfg().y_range.0), value(g.cfg().y_range.1)), (-1.5, 2.5));
    assert_eq!(value(g.cell()), 0.05);
    assert!(g.log_raw().iter().all(|v| *v == 0));
}

#[test]
fn single_flickers_are_not_rendered() {
    let mut a = Submap::new_at(pose(0.0, 0.0, 0.0), config(1.0));
    integrate(&mut a, pose(0.0, 0.0, 0.0), &[0.0], &[0.5]);
    let g = render_global(&[&a], &GlobalRenderConfig::default(), &trig).unwrap();
    assert!(g.log_raw().iter().all(|v| *v == 0));
    // with no threshold every observed cell counts
    let all = GlobalRenderConfig { min_hit_threshold_fp: 0, ..GlobalRenderConfig::default() };
    let g = render_global(&[&a], &all, &trig).unwrap();
    assert!(g.log_raw().iter().any(|v| *v != 0));
    // and the sign of the threshold does not matter
    let neg = GlobalRenderConfig { min_hit_threshold_fp: -150, ..GlobalRenderConfig::default() };
    let g = render_global(&[&a], &neg, &trig).unwrap();
    assert!(g.log_raw().iter().all(|v| *v == 0));
}

#[test]
fn overlapping_marks_stay_clamped() {
    let mut a = Submap::new_at(pose(0.0, 0.0, 0.0), config(1.0));
    for _ in 0..9 {
        integrate(&mut a, pose(0.0, 0.0, 0.0), &[0.0], &[0.525]);
    }
    let g = render_global(&[&a, &a, &a], &GlobalRenderConfig::default(), &trig).unwrap();
    assert_eq!(g.log_raw().iter().max(), Some(&400));
    assert_eq!(g.log_raw().iter().min(), Some(&-400));
}

#[test]
fn only_cells_above_the_threshold_are_rendered() {
    let mut a = Submap::new_at(pose(0.0, 0.0, 0.0), config(1.0));
    integrate(&mut a, pose(0.0, 0.0, 0.0), &[0.0], &[0.5]);
    assert_eq!(a.grid().log_raw().iter().max(), Some(&85));
    let at = GlobalRenderConfig { min_hit_threshold_fp: 85, ..GlobalRenderConfig::default() };
    let g = render_global(&[&a], &at, &trig).unwrap();
    assert!(g.log_raw().iter().all(|v| *v == 0));
    let below = GlobalRenderConfig { min_hit_threshold_fp: 84, ..GlobalRenderConfig::default() };
    let g = render_global(&[&a], &below, &trig).unwrap();
    assert_eq!(g.log_raw().iter().max(), Some(&85));
    assert_eq!(g.log_raw().iter().min(), Some(&0));
}

#[test]
fn what_has_no_counterpart_is_not_integrated() {
    let mut a = Submap::new_at(pose(0.0, 0.0, 0.0), config(1.0));
    let mut b = Submap::new_at(pose(0.0, 0.0, 0.0), config(1.0));
    integrate(&mut a, pose(0.0, 0.0, 0.0), &[0.0, 1.0], &[0.5]);
    integrate(&mut b, pose(0.0, 0.0, 0.0), &[0.0], &[0.5, 0.7]);
    assert_eq!(a.grid().log_raw(), b.grid().log_raw());
    assert_eq!(a.raw_scans()[0].angles_body.len(), 2);
    assert_eq!(b.raw_scans()[0].ranges_horiz.len(), 2);
}

#[test]
fn local_poses_are_placed_back() {
    let pi = std::f32::consts::PI;
    for k in 0..60 {
        let f = k as f32;
        let anchor = (13.0 - 0.4 * f, -9.0 + 0.3 * f, -3.1 + 0.1 * f);
        let body = (-15.9 + 0.5 * f, 15.0 - 0.45 * f, 3.0 - 0.09 * f);
        let a = pose(anchor.0, anchor.1, anchor.2);
        let local = world_to_local(a, pose(body.0, body.1, body.2), &trig);
        let (x, y) = trig(a.2).carry(a.0, a.1, local.0, local.1);
        // all coordinates are at most 16
        let tolerance = 16.0 / 65536.0;
        assert!((value(x) - body.0).abs() <= tolerance);
        assert!((value(y) - body.1).abs() <= tolerance);
        let off = (anchor.2 + value(local.2) - body.2).rem_euclid(2.0 * pi);
        assert!(off.min(2.0 * pi - off) <= 1e-5, "{off}");
    }
}
