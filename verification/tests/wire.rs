use maploc::single::Single;
use maploc::wire::{
    decode_message, read_message, write_goal, write_hello, write_map, write_path, write_pose,
    write_scan, Goal, Hello, IoKind, LockState, Message, Path, Pose, Scan, WireError,
    PROTOCOL_VERSION, TAG_GOAL, TAG_HELLO, TAG_PATH, TAG_POSE, TAG_SCAN,
};

fn single(v: f32) -> Single {
    Single { bits: v.to_bits() }
}

fn value(s: Single) -> f32 {
    f32::from_bits(s.bits)
}

fn round_trip(buf: Vec<u8>) -> Message {
    let mut r: &[u8] = &buf;
    let m = read_message(&mut r).unwrap();
    assert!(r.is_empty());
    m
}

#[test]
fn hello_round_trip() {
    let mut b = Vec::new();
    write_hello(&mut b, Hello { version: PROTOCOL_VERSION });
    assert_eq!(b, vec![5, 0, 0, 0, TAG_HELLO, 1, 0, 0, 0]);
    let msg = round_trip(b);
    assert!(matches!(msg, Message::Hello(Hello { version: 1 })));
}

#[test]
fn pose_round_trip() {
    let p = Pose {
        x: single(1.5),
        y: single(-0.7),
        yaw: single(0.3),
        std_xy: single(0.05),
        residual_m: single(0.12),
        lock: LockState::Tracking,
        timestamp_ms: 123_456,
    };
    let mut b = Vec::new();
    write_pose(&mut b, p);
    assert_eq!(b.len(), 4 + 1 + 29);
    match round_trip(b) {
        Message::Pose(q) => {
            assert!((value(q.x) - value(p.x)).abs() < 1e-6);
            assert!((value(q.yaw) - value(p.yaw)).abs() < 1e-6);
            assert_eq!(q.lock, LockState::Tracking);
            assert_eq!(q.timestamp_ms, p.timestamp_ms);
            assert_eq!((q.y, q.std_xy, q.residual_m), (p.y, p.std_xy, p.residual_m));
        }
        _ => panic!("expected pose"),
    }
}

#[test]
fn path_round_trip() {
    let points = vec![
        (single(0.0), single(0.0)),
        (single(1.0), single(0.5)),
        (single(1.5), single(0.5)),
    ];
    let p = Path { waypoints: points.clone() };
    let mut b = Vec::new();
    write_path(&mut b, &p);
    match round_trip(b) {
        Message::Path(q) => {
            assert_eq!(q.waypoints.len(), 3);
            assert_eq!(q.waypoints, points);
        }
        _ => panic!("expected path"),
    }
}

#[test]
fn goal_round_trip() {
    let mut b = Vec::new();
    write_goal(&mut b, Goal { x: single(-1.2), y: single(0.4) });
    match round_trip(b) {
        Message::Goal(g) => {
            assert_eq!(value(g.x), -1.2);
            assert_eq!(value(g.y), 0.4);
        }
        _ => panic!("expected goal"),
    }
}

#[test]
fn unknown_tag_errors() {
    // length=1, tag=0x55, no body
    let mut buf = Vec::new();
    buf.extend_from_slice(&1u32.to_le_bytes());
    buf.push(0x55);
    let r = read_message(&mut buf.as_slice());
    assert!(matches!(r, Err(WireError::BadTag(0x55))));
}

#[test]
fn scan_round_trip() {
    let s = Scan {
        angles_body: vec![single(-0.1), single(0.0), single(0.1)],
        ranges: vec![single(1.0), single(f32::NAN), single(2.0)],
        origin: (single(0.5), single(-0.5)),
    };
    let mut b = Vec::new();
    write_scan(&mut b, &s);
    match round_trip(b) {
        Message::Scan(t) => {
            assert_eq!(t.angles_body, s.angles_body);
            assert_eq!(t.ranges, s.ranges);
            assert_eq!(t.origin, s.origin);
        }
        _ => panic!("expected scan"),
    }
}

#[test]
fn map_round_trip() {
    let mut b = Vec::new();
    write_map(&mut b, &[1, 2, 3]);
    assert!(matches!(round_trip(b), Message::MapBlob(m) if m == vec![1, 2, 3]));
    let mut b = Vec::new();
    write_map(&mut b, &[]);
    assert_eq!(b, vec![1, 0, 0, 0, 3]);
    assert!(matches!(round_trip(b), Message::MapBlob(m) if m.is_empty()));
}

#[test]
fn messages_follow_one_another() {
    let mut b = Vec::new();
    write_hello(&mut b, Hello { version: PROTOCOL_VERSION });
    write_goal(&mut b, Goal { x: single(1.0), y: single(2.0) });
    let mut r: &[u8] = &b;
    assert!(matches!(read_message(&mut r), Ok(Message::Hello(_))));
    assert!(matches!(read_message(&mut r), Ok(Message::Goal(_))));
    assert!(matches!(read_message(&mut r), Err(WireError::Io(IoKind::UnexpectedEof))));
}

#[test]
fn another_version_is_refused() {
    let mut b = Vec::new();
    write_hello(&mut b, Hello { version: 2 });
    assert!(matches!(read_message(&mut b.as_slice()), Err(WireError::BadVersion(2))));
}

#[test]
fn cut_frames_end_early() {
    let mut b = Vec::new();
    write_goal(&mut b, Goal { x: single(1.0), y: single(2.0) });
    for n in 0..b.len() {
        let mut r: &[u8] = &b[..n];
        assert!(matches!(read_message(&mut r), Err(WireError::Io(IoKind::UnexpectedEof))), "{n}");
        assert!(r.is_empty());
    }
}

#[test]
fn an_empty_frame_is_truncated() {
    let buf = [0u8, 0, 0, 0, 9];
    let mut r: &[u8] = &buf;
    assert!(matches!(read_message(&mut r), Err(WireError::Truncated)));
    assert_eq!(r, &[9]);
}

#[test]
fn short_payloads_are_truncated() {
    for (tag, len) in [(TAG_HELLO, 3), (TAG_POSE, 28), (TAG_PATH, 3), (TAG_SCAN, 11), (TAG_GOAL, 7)] {
        let r = decode_message(tag, vec![0; len]);
        assert!(matches!(r, Err(WireError::Truncated)), "{tag}");
    }
    // counts that the payload does not hold
    let r = decode_message(TAG_PATH, vec![2, 0, 0, 0, 0, 0, 0, 0, 0, 0, 0, 0]);
    assert!(matches!(r, Err(WireError::Truncated)));
    let mut scan = vec![0xff; 4];
    scan.extend([0; 16]);
    assert!(matches!(decode_message(TAG_SCAN, scan), Err(WireError::Truncated)));
}

#[test]
fn appended_fields_are_ignored() {
    let r = decode_message(TAG_HELLO, vec![1, 0, 0, 0, 7, 7]);
    assert!(matches!(r, Ok(Message::Hello(Hello { version: 1 }))));
}

#[test]
fn unknown_lock_bytes_mean_searching() {
    assert_eq!(LockState::from_u8(LockState::Tracking.to_u8()), LockState::Tracking);
    assert_eq!(LockState::from_u8(LockState::Searching.to_u8()), LockState::Searching);
    assert_eq!(LockState::from_u8(7), LockState::Searching);
    assert_eq!(LockState::Tracking.to_u8(), 1);
}
