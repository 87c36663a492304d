use maploc::mount::{
    precompute_zone_lookups, project_frame, TofMount, ZoneLut, N_ZONES, TOF_COLS, TOF_ROWS,
};
use maploc::pose::Heading;
use maploc::single::Single;

fn single(v: f32) -> Single {
    Single { bits: v.to_bits() }
}

fn value(s: Single) -> f32 {
    f32::from_bits(s.bits)
}

fn trig(a: Single) -> Heading {
    let a = f32::from_bits(a.bits);
    Heading { cos: single(a.cos()), sin: single(a.sin()) }
}

fn lookups(m: &TofMount) -> ZoneLut {
    let atan2 = |p: (Single, Single)| single(value(p.0).atan2(value(p.1)));
    precompute_zone_lookups(m, &trig, &atan2)
}

#[test]
fn level_mount_centre_zone_points_forward() {
    let lut = lookups(&TofMount::default());
    // The central zones should have body azimuth near 0 and cos_elev near 1.
    for &k in &[(3, 3), (4, 4)] {
        let (r, c) = k;
        let idx = r * TOF_COLS + c;
        assert!(value(lut.angles_body[idx]).abs() < 0.05);
        assert!(value(lut.cos_elev[idx]) > 0.998);
    }
}

#[test]
fn pitch_down_makes_bottom_rows_look_below() {
    let m = TofMount { pitch_rad: single(10.0_f32.to_radians()), ..TofMount::default() };
    let lut = lookups(&m);
    // Row 7 (bottom) should have the largest sin_below.
    let s_top = value(lut.sin_below[0 * TOF_COLS + 3]);
    let s_bottom = value(lut.sin_below[7 * TOF_COLS + 3]);
    assert!(s_bottom > 0.4);
    assert!(s_top < 0.0); // top row actually looks slightly up
}

#[test]
fn floor_filter_drops_steep_short_returns() {
    let m = TofMount {
        pitch_rad: single(10.0_f32.to_radians()),
        sensor_height_m: single(0.10),
        floor_safety: single(0.85),
        ..TofMount::default()
    };
    let lut = lookups(&m);
    let mut raw = [[single(1.5); 8]; 8];
    // Row 7: pretend the chip returns 0.3 m (a floor hit at our height).
    raw[7] = [single(0.30); 8];
    let (_, ranges) = project_frame(&raw, &lut, &m);
    for c in 0..8 {
        let floor = value(ranges[7 * 8 + c]);
        assert!(floor.is_nan(), "row 7 col {} expected NaN, got {}", c, floor);
        assert!(value(ranges[0 * 8 + c]).is_finite());
    }
}

#[test]
fn lookups_are_those_of_plain_arithmetic() {
    let (pitch, yaw) = (0.2_f32, -0.1_f32);
    let m = TofMount { pitch_rad: single(pitch), yaw_rad: single(yaw), ..TofMount::default() };
    let lut = lookups(&m);
    let half = ((45.0_f32 / 2.0) - (45.0 / 8.0) / 2.0).to_radians();
    let step = (2.0 * half) / 7.0;
    for r in 0..TOF_ROWS {
        let el = half - (r as f32) * step;
        for c in 0..TOF_COLS {
            let az = half - (c as f32) * step;
            let cx = el.cos() * az.cos();
            let cy = el.cos() * az.sin();
            let cz = el.sin();
            let dx_p = pitch.cos() * cx + pitch.sin() * cz;
            let dz_p = -pitch.sin() * cx + pitch.cos() * cz;
            let dx_b = yaw.cos() * dx_p - yaw.sin() * cy;
            let dy_b = yaw.sin() * dx_p + yaw.cos() * cy;
            let k = r * TOF_COLS + c;
            assert_eq!(value(lut.angles_body[k]), dy_b.atan2(dx_b));
            assert_eq!(value(lut.cos_elev[k]), (dx_b * dx_b + dy_b * dy_b).sqrt());
            assert_eq!(value(lut.sin_below[k]), -dz_p);
        }
    }
}

#[test]
fn invalid_and_near_readings_are_dropped() {
    let m = TofMount { min_range_m: single(0.2), ..TofMount::default() };
    let lut = lookups(&m);
    let mut raw = [[single(1.0); 8]; 8];
    raw[0][0] = single(f32::NAN);
    raw[0][1] = single(f32::INFINITY);
    raw[0][2] = single(0.1);
    let (angles, ranges) = project_frame(&raw, &lut, &m);
    assert_eq!(angles.len(), N_ZONES);
    for k in 0..3 {
        assert!(value(ranges[k]).is_nan());
    }
    for k in 3..N_ZONES {
        assert_eq!(value(ranges[k]), value(lut.cos_elev[k]));
        assert_eq!(angles[k], lut.angles_body[k]);
    }
}

#[test]
fn a_beam_that_just_reaches_the_floor_threshold_stays() {
    let m = TofMount {
        sensor_height_m: single(0.5),
        floor_safety: single(1.0),
        ..TofMount::default()
    };
    let mut lut = lookups(&m);
    lut.sin_below = [single(0.5); 64];
    let mut raw = [[single(1.0); 8]; 8];
    raw[0][1] = single(1.0000001);
    raw[0][2] = single(0.9);
    let (_, ranges) = project_frame(&raw, &lut, &m);
    assert_eq!(value(ranges[0]), value(lut.cos_elev[0]));
    assert!(value(ranges[1]).is_nan());
    assert!(value(ranges[2]).is_finite());
}

#[test]
fn directions_have_unit_length_and_follow_the_mount() {
    let level = lookups(&TofMount::default());
    let tilted = TofMount { pitch_rad: single(0.4), ..TofMount::default() };
    let a = lookups(&tilted);
    let b = lookups(&TofMount { yaw_rad: single(0.7), ..tilted });
    for k in 0..N_ZONES {
        let (c, s) = (value(a.cos_elev[k]), value(a.sin_below[k]));
        assert!((c * c + s * s - 1.0).abs() < 1e-4);
        // yaw turns the azimuth and keeps the elevation
        assert_eq!(b.sin_below[k], a.sin_below[k]);
        assert!((value(b.cos_elev[k]) - c).abs() < 1e-4);
        assert!((value(b.angles_body[k]) - value(a.angles_body[k]) - 0.7).abs() < 1e-4);
        // on a level mount the upper rows look up, the left columns left
        assert_eq!(value(level.sin_below[k]) < 0.0, k / 8 <= 3);
        assert_eq!(value(level.angles_body[k]) > 0.0, k % 8 <= 3);
    }
}

#[test]
fn a_positive_pitch_is_nose_down() {
    let level = lookups(&TofMount::default());
    for pitch in [0.05_f32, 0.4, -0.3] {
        let a = lookups(&TofMount { pitch_rad: single(pitch), yaw_rad: single(0.2), ..TofMount::default() });
        for k in 0..N_ZONES {
            let ahead = value(level.cos_elev[k]) * value(level.angles_body[k]).cos();
            let flat = value(level.sin_below[k]);
            let down = value(a.sin_below[k]);
            assert!((down - (pitch.sin() * ahead + pitch.cos() * flat)).abs() < 1e-5);
            assert_eq!(down > pitch.cos() * flat, pitch > 0.0);
        }
    }
}
