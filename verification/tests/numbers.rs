use maploc::conversion::wrap_pi;
use maploc::double::Double;
use maploc::single::Single;

fn single(v: f32) -> Single {
    Single { bits: v.to_bits() }
}

fn value(s: Single) -> f32 {
    f32::from_bits(s.bits)
}

/// Patterns that reach every class of number, and many in between.
fn patterns() -> Vec<u32> {
    let mut v = vec![
        0, 1, 2, 3, 0x7f_ffff, 0x80_0000, 0x80_0001, 0x3f80_0000, 0x3f80_0001, 0x3f7f_ffff,
        0x4b00_0000, 0x4b80_0000, 0x4f00_0000, 0x5f00_0000, 0x5f80_0000, 0x7f7f_ffff, 0x7f80_0000,
        0x7f80_0001, 0x7fc0_0000, 0x4049_0fdb, 0x3d4c_cccd, 0x3e99_999a, 0x1c00_0000, 0x0080_0000,
        0x3380_0000, 0x3300_0000,
    ];
    let mut x: u32 = 12345;
    for _ in 0..140 {
        x = x.wrapping_mul(1664525).wrapping_add(1013904223);
        v.push(x & 0x7fff_ffff);
        // numbers of similar size
        v.push(0x3f00_0000 + (x >> 7));
    }
    let negatives: Vec<u32> = v.iter().map(|b| b | 0x8000_0000).collect();
    v.extend(negatives);
    v
}

fn agrees(got: Single, want: f32) -> bool {
    if want.is_nan() {
        value(got).is_nan()
    } else {
        got.bits == want.to_bits()
    }
}

#[test]
fn sums_and_differences_are_rounded_as_the_machine_does() {
    for &a in &patterns() {
        for &b in &patterns() {
            let (x, y) = (f32::from_bits(a), f32::from_bits(b));
            assert!(agrees(single(x).add(single(y)), x + y), "{a:#x} + {b:#x}");
            assert!(agrees(single(x).sub(single(y)), x - y), "{a:#x} - {b:#x}");
        }
    }
}

#[test]
fn products_and_quotients_are_rounded_as_the_machine_does() {
    for &a in &patterns() {
        for &b in &patterns() {
            let (x, y) = (f32::from_bits(a), f32::from_bits(b));
            assert!(agrees(single(x).mul(single(y)), x * y), "{a:#x} * {b:#x}");
            assert!(agrees(single(x).div(single(y)), x / y), "{a:#x} / {b:#x}");
        }
    }
}

#[test]
fn remainders_are_those_of_the_machine() {
    for &a in &patterns() {
        for &b in &patterns() {
            let (x, y) = (f32::from_bits(a), f32::from_bits(b));
            assert!(agrees(single(x).rem(single(y)), x % y), "{a:#x} % {b:#x}");
            assert!(agrees(single(x).rem_euclid(single(y)), x.rem_euclid(y)), "{a:#x} {b:#x}");
        }
    }
}

#[test]
fn comparisons_are_those_of_the_machine() {
    for &a in &patterns() {
        for &b in &patterns() {
            let (x, y) = (f32::from_bits(a), f32::from_bits(b));
            assert_eq!(single(x).lt(single(y)), x < y);
            assert_eq!(single(x).le(single(y)), x <= y);
            // zeros of either sign compare equal, so compare numbers here
            let (lo, hi) = (value(single(x).min(single(y))), value(single(x).max(single(y))));
            assert!(lo == x.min(y) || (lo.is_nan() && x.min(y).is_nan()));
            assert!(hi == x.max(y) || (hi.is_nan() && x.max(y).is_nan()));
        }
    }
}

#[test]
fn roots_and_conversions_are_those_of_the_machine() {
    for &a in &patterns() {
        let x = f32::from_bits(a);
        let s = single(x);
        assert!(agrees(s.sqrt(), x.sqrt()), "sqrt {a:#x}");
        assert_eq!(s.to_i32(), x as i32, "{a:#x}");
        assert_eq!(s.floor_to_i32(), x.floor() as i32, "{a:#x}");
        assert_eq!(s.to_usize(), x as usize, "{a:#x}");
        assert_eq!(s.ceil_to_usize(), x.ceil() as usize, "{a:#x}");
        assert_eq!(s.is_nan(), x.is_nan());
        assert_eq!(s.is_finite(), x.is_finite());
        assert_eq!(s.abs().bits, x.abs().to_bits());
        assert_eq!(s.neg().bits, (-x).to_bits());
        assert_eq!(s.is_usable(), x.is_finite() && x > 0.0);
    }
}

#[test]
fn whole_numbers_are_rounded_as_the_machine_does() {
    let mut n: u64 = 0;
    for k in 0..4000u64 {
        assert_eq!(Single::from_u64(n).bits, (n as f32).to_bits(), "{n}");
        assert_eq!(Single::from_u64(k).bits, (k as f32).to_bits());
        n = n.wrapping_mul(6364136223846793005).wrapping_add(1442695040888963407);
    }
    assert_eq!(Single::from_u64(u64::MAX).bits, (u64::MAX as f32).to_bits());
    assert_eq!(Single::from_u64(0x100_0001).bits, 16777216.0_f32.to_bits());
}

#[test]
fn clamping_holds_numbers_between_the_bounds() {
    let (lo, hi) = (single(-1.0), single(2.0));
    assert_eq!(value(single(-3.0).clamp(lo, hi)), -1.0);
    assert_eq!(value(single(0.25).clamp(lo, hi)), 0.25);
    assert_eq!(value(single(5.0).clamp(lo, hi)), 2.0);
    assert!(value(single(f32::NAN).clamp(lo, hi)).is_nan());
}

#[test]
fn angles_are_brought_into_one_turn() {
    let pi = std::f32::consts::PI;
    let reference = |a: f32| -> f32 {
        let y = (a + pi).rem_euclid(2.0 * pi) - pi;
        if y == pi {
            -pi
        } else {
            y
        }
    };
    for k in -2000..2000 {
        let a = k as f32 * 0.0137;
        assert_eq!(wrap_pi(single(a)).bits, reference(a).to_bits(), "{a}");
        let w = value(wrap_pi(single(a)));
        assert!(w >= -pi && w < pi);
    }
    assert_eq!(value(wrap_pi(single(pi))), -pi);
    for a in [f32::MAX, -f32::MAX, 1e20, -pi, 3.0 * pi, f32::from_bits(pi.to_bits() - 1)] {
        let w = value(wrap_pi(single(a)));
        assert!(w >= -pi && w < pi, "{a}");
    }
    assert_eq!(value(wrap_pi(single(0.3))), reference(0.3));
}

fn double(v: f64) -> Double {
    Double { bits: v.to_bits() }
}

/// Binary64 patterns that reach every class of number, and many in between.
fn wide_patterns() -> Vec<u64> {
    let mut v = vec![
        0,
        1,
        2,
        3,
        0xf_ffff_ffff_ffff,
        0x10_0000_0000_0000,
        0x10_0000_0000_0001,
        0x3ff0_0000_0000_0000,
        0x3ff0_0000_0000_0001,
        0x3fef_ffff_ffff_ffff,
        0x4340_0000_0000_0000,
        0x43e0_0000_0000_0000,
        0x43f0_0000_0000_0000,
        0x7fef_ffff_ffff_ffff,
        0x7ff0_0000_0000_0000,
        0x7ff0_0000_0000_0001,
        0x7ff8_0000_0000_0000,
        0x4019_21fb_5444_2d18,
        0x3c90_0000_0000_0000,
        0x3c80_0000_0000_0000,
    ];
    let mut x: u64 = 12345;
    for _ in 0..120 {
        x = x.wrapping_mul(6364136223846793005).wrapping_add(1442695040888963407);
        v.push(x & 0x7fff_ffff_ffff_ffff);
        // numbers of similar size
        v.push(0x3fe0_0000_0000_0000 + (x >> 8));
    }
    let negatives: Vec<u64> = v.iter().map(|b| b | 0x8000_0000_0000_0000).collect();
    v.extend(negatives);
    v
}

fn agrees_wide(got: Double, want: f64) -> bool {
    if want.is_nan() {
        f64::from_bits(got.bits).is_nan()
    } else {
        got.bits == want.to_bits()
    }
}

#[test]
fn binary64_operations_are_rounded_as_the_machine_does() {
    for &a in &wide_patterns() {
        for &b in &wide_patterns() {
            let (x, y) = (f64::from_bits(a), f64::from_bits(b));
            assert!(agrees_wide(double(x).add(double(y)), x + y), "{a:#x} + {b:#x}");
            assert!(agrees_wide(double(x).sub(double(y)), x - y), "{a:#x} - {b:#x}");
            assert!(agrees_wide(double(x).mul(double(y)), x * y), "{a:#x} * {b:#x}");
            assert!(agrees_wide(double(x).div(double(y)), x / y), "{a:#x} / {b:#x}");
            assert_eq!(double(x).ge(double(y)), x >= y, "{a:#x} >= {b:#x}");
        }
    }
}

#[test]
fn binary64_conversions_are_those_of_the_machine() {
    for &a in &wide_patterns() {
        let x = f64::from_bits(a);
        assert_eq!(double(x).to_usize(), x as usize, "{a:#x}");
        assert_eq!(double(x).is_nan(), x.is_nan());
        assert_eq!(Double::from_u64(a).bits, (a as f64).to_bits(), "{a}");
    }
    for &a in &patterns() {
        let x = f32::from_bits(a);
        assert!(agrees_wide(Double::from_single(single(x)), x as f64), "{a:#x}");
    }
}

#[test]
fn results_are_off_by_half_a_step_at_most() {
    // numbers of at most one, so that sums are at most two
    let step = 2.0_f64.powi(-25);
    let mut x: u32 = 99;
    for _ in 0..5000 {
        x = x.wrapping_mul(1664525).wrapping_add(1013904223);
        let a = (x >> 8) as f32 / 16777216.0 * 2.0 - 1.0;
        x = x.wrapping_mul(1664525).wrapping_add(1013904223);
        let b = (x >> 8) as f32 / 16777216.0 * 2.0 - 1.0;
        let (p, q) = (a as f64, b as f64);
        let product = value(single(a).mul(single(b))) as f64;
        assert!((product - p * q).abs() <= step);
        let sum = value(single(a).add(single(b))) as f64;
        assert!((sum - (p + q)).abs() <= 2.0 * step);
        let root = value(single(a.abs()).sqrt()) as f64;
        assert!((root * root - p.abs()).abs() <= 16.0 * step);
    }
}

#[test]
fn angles_within_a_turn_stay_as_they_are() {
    let pi = std::f32::consts::PI;
    let below = f32::from_bits(pi.to_bits() - 1);
    for k in 0..2000 {
        let a = -pi + k as f32 * (pi / 1000.0);
        let a = if a < pi { a } else { below };
        let w = value(wrap_pi(single(a)));
        assert!((w - a).abs() <= 1.0 / 1048576.0, "{a} {w}");
    }
    assert!((value(wrap_pi(single(below))) - below).abs() <= 1.0 / 1048576.0);
}

#[test]
fn one_and_zero_are_neutral() {
    for &b in &patterns() {
        let x = single(f32::from_bits(b));
        if value(x).is_finite() {
            assert_eq!(x.mul(single(1.0)), x);
            assert_eq!(x.div(single(1.0)), x);
            assert_eq!(value(x.add(single(-0.0))), value(x));
            assert_eq!(value(x.mul(single(0.0))), 0.0);
        }
    }
}
