use maploc::follower::{follow_step, FollowCommand, FollowerState};
use maploc::single::Single;

fn single(v: f32) -> Single {
    Single { bits: v.to_bits() }
}

fn value(s: Single) -> f32 {
    f32::from_bits(s.bits)
}

fn path(points: &[(f32, f32)]) -> FollowerState {
    FollowerState::new(points.iter().map(|p| (single(p.0), single(p.1))).collect())
}

/// One tick with plain numbers.
fn tick(
    s: &mut FollowerState,
    est_pos: (f32, f32),
    est_yaw: f32,
    lin_speed: f32,
    yaw_speed: f32,
    dt: f32,
    arrive_radius: f32,
) -> FollowCommand {
    let pos = (single(est_pos.0), single(est_pos.1));
    let atan2 = |p: (Single, Single)| single(value(p.0).atan2(value(p.1)));
    follow_step(
        s,
        pos,
        single(est_yaw),
        single(lin_speed),
        single(yaw_speed),
        single(dt),
        single(arrive_radius),
        &atan2,
    )
}

#[test]
fn turns_first_then_drives() {
    // Waypoint due north of (0, 0); robot initially facing east.
    let mut s = path(&[(0.0, 1.0)]);
    let cmd = tick(&mut s, (0.0, 0.0), 0.0, 0.5, 1.0, 0.1, 0.05);
    assert!(value(cmd.forward).abs() < 1e-6, "should not translate yet, got {}", value(cmd.forward));
    assert!(value(cmd.dyaw) > 0.0, "should turn CCW toward +y, got {}", value(cmd.dyaw));
}

#[test]
fn translates_when_aimed() {
    let mut s = path(&[(1.0, 0.0)]);
    let cmd = tick(&mut s, (0.0, 0.0), 0.0, 0.5, 1.0, 0.1, 0.05);
    assert!(value(cmd.forward) > 0.0, "should translate forward; got {}", value(cmd.forward));
    // 0.5 m/s for 0.1 s, and nothing to turn
    assert_eq!(value(cmd.forward), 0.5_f32 * 0.1_f32);
    assert_eq!(value(cmd.dyaw), 0.0);
}

#[test]
fn arrives_and_advances() {
    let mut s = path(&[(0.01, 0.0), (1.0, 0.0)]);
    let cmd = tick(&mut s, (0.0, 0.0), 0.0, 0.5, 1.0, 0.1, 0.05);
    // Inside arrive_radius (0.05) of the first waypoint: on to the next.
    assert!(value(cmd.forward).abs() < 1e-6 && value(cmd.dyaw).abs() < 1e-6);
    assert_eq!(s.current(), Some((single(1.0), single(0.0))));
    assert!(!s.done());
}

#[test]
fn a_finished_path_stands_still() {
    let mut s = path(&[(0.01, 0.0)]);
    tick(&mut s, (0.0, 0.0), 0.0, 0.5, 1.0, 0.1, 0.05);
    assert!(s.done());
    assert_eq!(s.current(), None);
    assert_eq!(s.waypoints().len(), 1);
    let cmd = tick(&mut s, (0.0, 0.0), 0.0, 0.5, 1.0, 0.1, 0.05);
    assert_eq!((cmd.forward, cmd.dyaw), (single(0.0), single(0.0)));
    assert!(s.done());
    assert!(FollowerState::empty().done());
    assert!(FollowerState::default().current().is_none());
}

#[test]
fn turns_the_short_way_round() {
    // facing 3.0 rad, target at -3.0 rad: 0.283 rad on, not 6 rad back
    let (x, y) = ((-3.0_f32).cos(), (-3.0_f32).sin());
    let mut s = path(&[(x, y)]);
    let cmd = tick(&mut s, (0.0, 0.0), 3.0, 0.5, 10.0, 0.1, 0.05);
    assert!((value(cmd.dyaw) - 0.28318).abs() < 1e-3, "{}", value(cmd.dyaw));
    assert!(value(cmd.forward) > 0.0);
    // and the other way
    let (x, y) = (3.0_f32.cos(), 3.0_f32.sin());
    let mut s = path(&[(x, y)]);
    let cmd = tick(&mut s, (0.0, 0.0), -3.0, 0.5, 10.0, 0.1, 0.05);
    assert!((value(cmd.dyaw) + 0.28318).abs() < 1e-3, "{}", value(cmd.dyaw));
}

#[test]
fn turn_rate_and_last_step_are_held() {
    let mut s = path(&[(-1.0, 0.0)]);
    let cmd = tick(&mut s, (0.0, 0.0), 0.5, 0.5, 1.0, 0.1, 0.05);
    assert_eq!(value(cmd.dyaw), 0.1);
    assert_eq!(value(cmd.forward), 0.0);
    // the waypoint is nearer than one tick reaches
    let mut s = path(&[(0.25, 0.0)]);
    let cmd = tick(&mut s, (0.0, 0.0), 0.0, 5.0, 1.0, 0.1, 0.05);
    assert_eq!(value(cmd.forward), 0.25);
}

#[test]
fn a_turn_rate_out_of_order_is_told() {
    let s = path(&[(1.0, 0.0)]);
    let at = (single(0.0), single(0.0));
    assert!(s.can_step(at, single(1.0), single(0.1), single(0.05)));
    assert!(!s.can_step(at, single(-1.0), single(0.1), single(0.05)));
    assert!(!s.can_step(at, single(f32::NAN), single(0.1), single(0.05)));
    // on arrival and at the end no turn is asked for
    assert!(s.can_step(at, single(-1.0), single(0.1), single(2.0)));
    assert!(FollowerState::empty().can_step(at, single(-1.0), single(0.1), single(0.05)));
}

#[test]
fn the_robot_never_moves_backward() {
    for k in 0..20 {
        let mut s = path(&[(1.0, 0.1 * k as f32)]);
        let cmd = tick(&mut s, (0.0, 0.0), 0.2, 0.5, 1.0, 0.1, 0.05);
        assert!(value(cmd.forward) >= 0.0);
    }
}
