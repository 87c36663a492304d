use maploc::replay::{decode_tof, decode_twin, Record, ReplayError, SessionReplayer};
use maploc::single::Single;

fn value(s: Single) -> f32 {
    f32::from_bits(s.bits)
}

fn header() -> Vec<u8> {
    let mut f = Vec::new();
    f.extend(b"MDLG");
    f.extend(&1u32.to_le_bytes());
    f.extend(&123_456_789u64.to_le_bytes());
    f
}

fn record(ts: u64, stream: u8, payload: &[u8]) -> Vec<u8> {
    let mut f = Vec::new();
    f.extend(&ts.to_le_bytes());
    f.push(stream);
    f.extend(&(payload.len() as u32).to_le_bytes());
    f.extend(payload);
    f
}

fn tof_payload() -> Vec<u8> {
    let mut p = Vec::new();
    p.extend(&3.1415_f64.to_le_bytes());
    p.push(8); // rows
    p.push(8); // cols
    p.extend(&[0u8, 0u8]); // reserved
    for r in 0..8 {
        for c in 0..8 {
            let v = (r * 8 + c) as f32 / 100.0;
            p.extend(&v.to_le_bytes());
        }
    }
    for r in 0..8 {
        for c in 0..8 {
            p.push((r * 8 + c) as u8);
        }
    }
    p
}

fn twin_payload() -> Vec<u8> {
    let mut p = Vec::new();
    p.extend(&2.71_f64.to_le_bytes());
    for i in 0..41 {
        p.extend(&((i as f32) * 0.1).to_le_bytes());
    }
    p
}

#[test]
fn round_trip_decode() {
    let mut log = header();
    log.extend(record(1000, 0, &tof_payload()));
    log.extend(record(2000, 1, &twin_payload()));
    let mut r = SessionReplayer::open(log).unwrap();
    assert_eq!(r.epoch_unix_ms(), 123_456_789);
    let rec1 = r.next().unwrap().unwrap();
    assert_eq!(rec1.ts_us(), 1000);
    if let Record::Tof(t) = rec1 {
        assert_eq!(t.ts_us, 1000);
        assert!((f64::from_bits(t.sender_ts_s.bits) - 3.1415).abs() < 1e-9);
        assert_eq!(t.status[0][0], 0);
        assert_eq!(t.status[7][7], 63);
        assert!((value(t.ranges_m[0][0]) - 0.0).abs() < 1e-6);
        assert!((value(t.ranges_m[7][7]) - 0.63).abs() < 1e-5);
    } else {
        panic!("expected Tof");
    }
    let rec2 = r.next().unwrap().unwrap();
    assert_eq!(rec2.ts_us(), 2000);
    if let Record::Twin(d) = rec2 {
        assert_eq!(d.ts_us, 2000);
        assert!((f64::from_bits(d.sender_ts_s.bits) - 2.71).abs() < 1e-9);
        // Quat is the first 4 floats.
        assert!((value(d.quat_wxyz[0]) - 0.0).abs() < 1e-6);
        assert!((value(d.quat_wxyz[3]) - 0.3).abs() < 1e-5);
        // odom_yaw is the last float: index 40.
        assert!((value(d.odom_yaw) - 4.0).abs() < 1e-5);
    } else {
        panic!("expected Twin");
    }
    assert!(r.next().is_none());
    assert!(r.next().is_none());
}

#[test]
fn every_zone_and_field_has_its_place() {
    let t = decode_tof(5, &tof_payload()).unwrap();
    for r in 0..8 {
        for c in 0..8 {
            assert_eq!(value(t.ranges_m[r][c]), (r * 8 + c) as f32 / 100.0);
            assert_eq!(t.status[r][c] as usize, r * 8 + c);
        }
    }
    let d = decode_twin(6, &twin_payload()).unwrap();
    let f = |i: usize| i as f32 * 0.1;
    for k in 0..4 {
        assert_eq!(value(d.quat_wxyz[k]), f(k));
    }
    for k in 0..15 {
        assert_eq!(value(d.joints[k]), f(4 + k));
        assert_eq!(value(d.motor_currents_ma[k]), f(19 + k));
    }
    assert_eq!((value(d.odom_x), value(d.odom_y)), (f(34), f(35)));
    for k in 0..3 {
        assert_eq!(value(d.ball_xyz[k]), f(36 + k));
    }
    assert_eq!((value(d.odom_z), value(d.odom_yaw)), (f(39), f(40)));
}

#[test]
fn malformed_payloads_are_errors() {
    let tof = tof_payload();
    assert!(matches!(decode_tof(0, &tof[..11]), Err(ReplayError::TofTooShort)));
    assert!(matches!(decode_tof(0, &tof[..331]), Err(ReplayError::TofLength(331))));
    let mut shape = tof.clone();
    shape[8] = 4;
    assert!(matches!(decode_tof(0, &shape), Err(ReplayError::TofShape(4, 8))));
    // bytes after the zones are ignored
    let mut longer = tof.clone();
    longer.push(1);
    assert!(decode_tof(0, &longer).is_ok());
    let twin = twin_payload();
    assert!(matches!(decode_twin(0, &twin[..171]), Err(ReplayError::TwinLength(171))));
    let mut longer = twin.clone();
    longer.push(1);
    assert!(matches!(decode_twin(0, &longer), Err(ReplayError::TwinLength(173))));
}

#[test]
fn malformed_headers_are_errors() {
    for n in 0..16 {
        let r = SessionReplayer::open(header()[..n].to_vec());
        assert!(matches!(r, Err(ReplayError::UnexpectedEof)), "{n}");
    }
    let mut log = header();
    log[0] = b'X';
    assert!(matches!(SessionReplayer::open(log), Err(ReplayError::BadMagic)));
    let mut log = header();
    log[4] = 2;
    assert!(matches!(SessionReplayer::open(log), Err(ReplayError::UnsupportedVersion(2))));
}

#[test]
fn a_bad_record_does_not_end_the_log() {
    let mut log = header();
    log.extend(record(1, 7, &[1, 2, 3]));
    log.extend(record(2, 1, &[0; 10]));
    log.extend(record(3, 1, &twin_payload()));
    let mut r = SessionReplayer::open(log).unwrap();
    assert!(matches!(r.next(), Some(Err(ReplayError::UnknownStream(7)))));
    assert!(matches!(r.next(), Some(Err(ReplayError::TwinLength(10)))));
    assert!(matches!(r.next(), Some(Ok(Record::Twin(_)))));
    assert!(r.next().is_none());
}

#[test]
fn a_cut_log_ends_with_an_error_or_quietly() {
    let whole = record(9, 1, &twin_payload());
    for n in 0..whole.len() {
        let mut log = header();
        log.extend(&whole[..n]);
        let mut r = SessionReplayer::open(log).unwrap();
        if n < 8 {
            assert!(r.next().is_none(), "{n}");
        } else {
            assert!(matches!(r.next(), Some(Err(ReplayError::UnexpectedEof))), "{n}");
            assert!(r.next().is_none());
        }
    }
}
