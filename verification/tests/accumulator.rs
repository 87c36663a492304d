use maploc::accumulator::{azimuth_bin, AccumulatorConfig, ScanAccumulator};
use maploc::double::Double;
use maploc::single::Single;

fn single(v: f32) -> Single {
    Single { bits: v.to_bits() }
}

fn value(s: Single) -> f32 {
    f32::from_bits(s.bits)
}

fn time(t: f64) -> Double {
    Double { bits: t.to_bits() }
}

fn add(acc: &mut ScanAccumulator, t: f64, yaw: f32, angles: &[f32], ranges: &[f32]) {
    let a: Vec<Single> = angles.iter().map(|v| single(*v)).collect();
    let r: Vec<Single> = ranges.iter().map(|v| single(*v)).collect();
    acc.add_scan(time(t), (single(1.0), single(2.0), single(yaw)), &a, &r);
}

#[test]
fn beams_are_buffered_with_their_pose() {
    let mut acc = ScanAccumulator::default();
    assert!(!acc.ready(time(100.0)));
    add(&mut acc, 5.0, 0.3, &[0.0, 0.1, 0.2], &[1.0, f32::NAN, 2.0]);
    assert_eq!(acc.n_beams(), 2);
    add(&mut acc, 6.0, 0.3, &[0.0], &[f32::INFINITY]);
    assert_eq!(acc.n_beams(), 2);
    let out = acc.drain();
    assert_eq!(out.len(), 2);
    assert_eq!(value(out[1].range_m), 2.0);
    assert_eq!(value(out[1].angle_body), 0.2);
    assert_eq!(value(out[1].est_yaw), 0.3);
    assert_eq!((value(out[1].est_origin.0), value(out[1].est_origin.1)), (1.0, 2.0));
    assert_eq!(acc.n_beams(), 0);
    assert!(!acc.ready(time(100.0)));
    assert_eq!(value(acc.coverage_frac()), 0.0);
}

#[test]
fn readiness_comes_with_age_beams_or_coverage() {
    let mut acc = ScanAccumulator::default();
    add(&mut acc, 0.0, 0.0, &[0.05], &[1.0]);
    assert_eq!(value(acc.coverage_frac()), 1.0 / 36.0);
    assert!(!acc.ready(time(2.4999)));
    assert!(acc.ready(time(2.5)));
    // 29 of 36 bins is 0.806
    for k in 1..28 {
        add(&mut acc, 0.0, 0.0, &[0.05 + k as f32 * std::f32::consts::PI / 18.0], &[1.0]);
    }
    assert!(!acc.ready(time(0.0)));
    add(&mut acc, 0.0, 0.0, &[0.05 + 28.0 * std::f32::consts::PI / 18.0], &[1.0]);
    assert_eq!(value(acc.coverage_frac()), 29.0 / 36.0);
    assert!(acc.ready(time(0.0)));
    let mut few = ScanAccumulator::new(AccumulatorConfig {
        max_beams: 2,
        ..AccumulatorConfig::default()
    });
    add(&mut few, 0.0, 0.0, &[0.0], &[1.0]);
    assert!(!few.ready(time(0.0)));
    add(&mut few, 0.0, 0.0, &[0.0], &[1.0]);
    assert!(few.ready(time(0.0)));
}

#[test]
fn scans_of_different_lengths_are_cut() {
    let mut acc = ScanAccumulator::default();
    add(&mut acc, 0.0, 0.0, &[0.0, 0.1, 0.2], &[1.0]);
    assert_eq!(acc.n_beams(), 1);
    add(&mut acc, 0.0, 0.0, &[0.0], &[1.0, 2.0]);
    assert_eq!(acc.n_beams(), 2);
}

#[test]
fn age_counts_from_the_first_scan() {
    let mut acc = ScanAccumulator::default();
    add(&mut acc, 5.0, 0.3, &[0.0], &[f32::NAN]);
    add(&mut acc, 6.0, 0.3, &[0.0], &[1.0]);
    for t in [5.0, 6.0, 7.0, 7.25, 7.4999999, 7.5, 7.6, 100.0, -3.0, f64::INFINITY, f64::NAN] {
        assert_eq!(acc.ready(time(t)), t - 5.0 >= 2.5, "{t}");
    }
}

#[test]
fn beams_fall_into_the_bins_of_their_azimuths() {
    for n in [1, 2, 7, 36, 1000] {
        for k in -200..200 {
            let (yaw, angle) = (k as f32 * 0.171, k as f32 * 0.013 - 0.4);
            let az = ((yaw + angle).rem_euclid(2.0 * std::f32::consts::PI)) as f64;
            let expected = ((az / (2.0 * std::f64::consts::PI)) * n as f64) as usize;
            assert_eq!(azimuth_bin(single(yaw), single(angle), n), expected, "{n} {k}");
        }
    }
    assert_eq!(azimuth_bin(single(f32::NAN), single(0.0), 36), 0);
}

#[test]
fn a_turn_that_was_rounded_up_marks_nothing() {
    // Just below zero, the azimuth rounds to a whole turn.
    let mut acc = ScanAccumulator::default();
    assert_eq!(azimuth_bin(single(-1e-9), single(0.0), 36), 36);
    add(&mut acc, 0.0, -1e-9, &[0.0], &[1.0]);
    assert_eq!(value(acc.coverage_frac()), 0.0);
    assert_eq!(acc.n_beams(), 1);
}
