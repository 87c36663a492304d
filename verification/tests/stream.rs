use maploc::single::Single;
use maploc::stream::{GoalServer, Telemetry, GOAL_DEFAULT_PORT, TELEMETRY_DEFAULT_PORT};
use maploc::wire::{
    read_message, write_goal, write_hello, Goal, Hello, LockState, Message, Path, Pose, Scan,
    PROTOCOL_VERSION, TAG_HELLO,
};

fn single(v: f32) -> Single {
    Single { bits: v.to_bits() }
}

fn some_pose() -> Pose {
    Pose {
        x: single(1.0),
        y: single(2.0),
        yaw: single(0.5),
        std_xy: single(0.1),
        residual_m: single(0.2),
        lock: LockState::Searching,
        timestamp_ms: 7,
    }
}

fn goal_bytes(x: f32, y: f32) -> Vec<u8> {
    let mut b = Vec::new();
    write_goal(&mut b, Goal { x: single(x), y: single(y) });
    b
}

#[test]
fn telemetry_handshake_and_pose() {
    let mut srv = Telemetry::new();
    assert!(!srv.has_client());
    assert!(srv.send_pose(some_pose()).is_none());
    let hello = srv.poll_accept().expect("expected a greeting");
    // 4 len + 1 tag + 4 version
    assert_eq!(hello.len(), 9);
    assert_eq!(hello[4], TAG_HELLO);
    srv.greeted(true);
    assert!(srv.has_client(), "expected telemetry client to connect");
    let frame = srv.send_pose(some_pose()).unwrap();
    assert!(matches!(read_message(&mut frame.as_slice()), Ok(Message::Pose(p)) if p.timestamp_ms == 7));
}

#[test]
fn a_single_telemetry_client_at_a_time() {
    let mut srv = Telemetry::new();
    srv.greeted(false);
    assert!(!srv.has_client());
    assert!(srv.poll_accept().is_some());
    srv.greeted(true);
    assert!(srv.poll_accept().is_none());
    srv.sent(true);
    assert!(srv.has_client());
    srv.sent(false);
    assert!(!srv.has_client());
    assert!(srv.poll_accept().is_some());
}

#[test]
fn telemetry_frames_all_messages() {
    let mut srv = Telemetry::new();
    let path = Path { waypoints: vec![(single(1.0), single(2.0))] };
    assert!(srv.send_map(&[1]).is_none());
    assert!(srv.send_path(&path).is_none());
    assert!(srv.send_scan(&Scan::default()).is_none());
    srv.greeted(true);
    let m = srv.send_map(&[1]).unwrap();
    assert!(matches!(read_message(&mut m.as_slice()), Ok(Message::MapBlob(b)) if b == vec![1]));
    let p = srv.send_path(&path).unwrap();
    assert!(matches!(read_message(&mut p.as_slice()), Ok(Message::Path(q)) if q.waypoints == path.waypoints));
    let s = srv.send_scan(&Scan::default()).unwrap();
    assert!(matches!(read_message(&mut s.as_slice()), Ok(Message::Scan(_))));
}

#[test]
fn goal_server_receives_click() {
    let mut srv = GoalServer::new();
    assert!(!srv.has_client());
    srv.joined();
    assert!(srv.tick(false).is_none());
    srv.arrived(&goal_bytes(0.5, -1.2));
    let g = srv.tick(false).expect("expected a goal to arrive");
    assert_eq!(f32::from_bits(g.x.bits), 0.5);
    assert_eq!(f32::from_bits(g.y.bits), -1.2);
    assert!(srv.has_client());
    assert!(srv.tick(false).is_none());
}

#[test]
fn newest_click_wins() {
    let mut srv = GoalServer::new();
    srv.joined();
    srv.arrived(&goal_bytes(1.0, 1.0));
    let mut hello = Vec::new();
    write_hello(&mut hello, Hello { version: PROTOCOL_VERSION });
    srv.arrived(&hello);
    srv.arrived(&goal_bytes(2.0, 2.0));
    assert_eq!(srv.tick(false).unwrap().x, single(2.0));
    assert!(srv.has_client());
}

#[test]
fn a_click_may_arrive_in_parts() {
    let mut srv = GoalServer::new();
    srv.joined();
    let b = goal_bytes(1.5, 0.0);
    for k in 0..b.len() - 1 {
        srv.arrived(&b[k..k + 1]);
        assert!(srv.tick(false).is_none());
    }
    srv.arrived(&b[b.len() - 1..]);
    assert_eq!(srv.tick(false).unwrap().x, single(1.5));
}

#[test]
fn a_client_that_talks_nonsense_is_dropped() {
    let mut srv = GoalServer::new();
    srv.joined();
    srv.arrived(&goal_bytes(1.0, 0.0));
    srv.arrived(&[1, 0, 0, 0, 0x55]);
    srv.arrived(&goal_bytes(2.0, 0.0));
    // what came before the nonsense still counts
    assert_eq!(srv.tick(false).unwrap().x, single(1.0));
    assert!(!srv.has_client());
    assert!(srv.tick(false).is_none());
    srv.joined();
    srv.arrived(&goal_bytes(3.0, 0.0));
    assert_eq!(srv.tick(true).unwrap().x, single(3.0));
    assert!(!srv.has_client());
}

#[test]
fn default_ports() {
    assert_eq!(TELEMETRY_DEFAULT_PORT, 9874);
    assert_eq!(GOAL_DEFAULT_PORT, 9875);
}
