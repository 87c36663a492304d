//! ToF mount parameters and beam projection.
//!
//! The sensor looks at an 8 by 8 grid of zones in a field of view of 45
//! degrees. [`project_frame`] turns the slant ranges of a frame into what
//! every consumer wants: the body-frame azimuth and the horizontal range of
//! each beam, NaN for beams to skip.

use vstd::prelude::*;
use crate::conversion::rounded;
use crate::function::{angle_to, apply, heading_of, is_atan2, is_trig};
use crate::pose::Heading;
use crate::single::{Single, NAN_BITS, TWO_BITS, ZERO_BITS};

verus! {

/// Rows of zones.
pub const TOF_ROWS: usize = 8;

/// Columns of zones.
pub const TOF_COLS: usize = 8;

/// Number of zones.
pub const N_ZONES: usize = 64;

/// Pattern of the angle from the centre of the view to its outermost zones,
/// 19.6875 degrees in radians.
pub const OUTER_ANGLE_BITS: u32 = 0x3eaf_eddf;

/// Pattern of the number of steps between the outermost zones, seven.
pub const STEPS_BITS: u32 = 0x40e0_0000;

/// ToF mount parameters.
#[derive(Debug, Clone, Copy)]
pub struct TofMount {
    /// Mount pitch in radians. Positive is nose-down.
    pub pitch_rad: Single,
    /// Mount yaw in radians. Positive is to the left.
    pub yaw_rad: Single,
    /// Sensor height above the floor (metres), for the floor filter.
    pub sensor_height_m: Single,
    /// Multiplier of the height for the floor threshold; below one the filter
    /// drops beams that almost reach the floor.
    pub floor_safety: Single,
    /// Horizontal ranges below this (metres) are dropped.
    pub min_range_m: Single,
}

impl Default for TofMount {
    /// Level, at floor height (no floor filter), no minimum range.
    fn default() -> (r: Self)
        ensures
            r.pitch_rad.bits == ZERO_BITS,
            r.yaw_rad.bits == ZERO_BITS,
            r.sensor_height_m.bits == ZERO_BITS,
            r.floor_safety.bits == 0x3f80_0000,
            r.min_range_m.bits == ZERO_BITS,
    {
        TofMount {
            pitch_rad: Single { bits: ZERO_BITS },
            yaw_rad: Single { bits: ZERO_BITS },
            sensor_height_m: Single { bits: ZERO_BITS },
            floor_safety: Single { bits: 0x3f80_0000 },
            min_range_m: Single { bits: ZERO_BITS },
        }
    }
}

/// Geometry of each zone, constant for a given mount.
#[derive(Debug, Clone, Copy)]
pub struct ZoneLut {
    /// Azimuth in the body frame.
    pub angles_body: [Single; 64],
    /// Horizontal part of the beam's direction.
    pub cos_elev: [Single; 64],
    /// Downward part of the beam's direction: above zero when the beam looks
    /// below the horizon.
    pub sin_below: [Single; 64],
}

/// Forward, left and up parts of a beam's direction in the body frame.
#[derive(Debug, Clone, Copy)]
pub struct Direction {
    pub x: Single,
    pub y: Single,
    pub z: Single,
}

/// Angle of zone row or column `k` from the centre of the view.
pub open spec fn zone_angle(k: int) -> Single {
    let outer = Single { bits: OUTER_ANGLE_BITS };
    let step = (Single { bits: TWO_BITS }).times(outer).over(Single { bits: STEPS_BITS });
    outer.minus(rounded(k).times(step))
}

/// Direction of a beam at elevation `el` and azimuth `az` in the sensor frame,
/// pitched about the body's left axis and then yawed about its up axis.
pub open spec fn zone_direction(
    pitch: Heading,
    yaw: Heading,
    el: Heading,
    az: Heading,
) -> Direction {
    let cx = el.cos.times(az.cos);
    let cy = el.cos.times(az.sin);
    let cz = el.sin;
    let dx = pitch.cos.times(cx).plus(pitch.sin.times(cz));
    let dz = pitch.sin.negated().times(cx).plus(pitch.cos.times(cz));
    Direction {
        x: yaw.cos.times(dx).minus(yaw.sin.times(cy)),
        y: yaw.sin.times(dx).plus(yaw.cos.times(cy)),
        z: dz,
    }
}

/// Length of the horizontal part of a direction.
pub open spec fn horizontal(d: Direction) -> Single {
    d.x.times(d.x).plus(d.y.times(d.y)).root()
}

/// The horizontal range of a beam with slant range `slant`: NaN if the slant
/// range is not finite, if the beam ends more than the floor threshold below
/// the sensor, or if the range is below the minimum.
pub open spec fn projected(slant: Single, cos_elev: Single, sin_below: Single, m: TofMount) -> Single {
    let zero = Single { bits: ZERO_BITS };
    let nan = Single { bits: NAN_BITS };
    let h = slant.times(cos_elev);
    if !slant.finite() {
        nan
    } else if zero.below(m.sensor_height_m) && zero.below(sin_below) && m.sensor_height_m.times(
        m.floor_safety,
    ).below(slant.times(sin_below)) {
        nan
    } else if zero.below(m.min_range_m) && h.below(m.min_range_m) {
        nan
    } else {
        h
    }
}

/// Angle of zone row or column `k` from the centre of the view: elevation of a
/// row, top first, azimuth of a column, left first.
fn angle_of_zone(k: usize) -> (r: Single)
    ensures
        r == zone_angle(k as int),
{
    let outer = Single { bits: OUTER_ANGLE_BITS };
    let step = (Single { bits: TWO_BITS }).mul(outer).div(Single { bits: STEPS_BITS });
    outer.sub(Single::from_u64(k as u64).mul(step))
}

/// Direction of a beam at elevation `el` and azimuth `az` in the sensor frame.
fn direction_of(pitch: Heading, yaw: Heading, el: Heading, az: Heading) -> (r: Direction)
    ensures
        r == zone_direction(pitch, yaw, el, az),
{
    let cx = el.cos.mul(az.cos);
    let cy = el.cos.mul(az.sin);
    let cz = el.sin;
    // pitch about body +y, then yaw about body +z
    let dx_p = pitch.cos.mul(cx).add(pitch.sin.mul(cz));
    let dz_p = pitch.sin.neg().mul(cx).add(pitch.cos.mul(cz));
    let dx_b = yaw.cos.mul(dx_p).sub(yaw.sin.mul(cy));
    let dy_b = yaw.sin.mul(dx_p).add(yaw.cos.mul(cy));
    Direction { x: dx_b, y: dy_b, z: dz_p }
}

/// Direction of zone `k` on a mount, with cosines and sines by `trig`.
pub open spec fn mounted_direction<T: Fn(Single) -> Heading>(
    trig: T,
    mount: TofMount,
    k: int,
) -> Direction {
    zone_direction(
        heading_of(trig, mount.pitch_rad),
        heading_of(trig, mount.yaw_rad),
        heading_of(trig, zone_angle(k / 8)),
        heading_of(trig, zone_angle(k % 8)),
    )
}

/// `lut` holds the geometry of all zones on a mount, row by row.
pub open spec fn is_lookup<T: Fn(Single) -> Heading, A: Fn((Single, Single)) -> Single>(
    lut: ZoneLut,
    trig: T,
    atan2: A,
    mount: TofMount,
) -> bool {
    &&& forall|k: int|
        0 <= k < N_ZONES ==> {
            let d = mounted_direction(trig, mount, k);
            #[trigger] lut.angles_body@[k] == angle_to(atan2, d.y, d.x)
        }
    &&& forall|k: int|
        0 <= k < N_ZONES ==> #[trigger] lut.cos_elev@[k] == horizontal(
            mounted_direction(trig, mount, k),
        )
    &&& forall|k: int|
        0 <= k < N_ZONES ==> #[trigger] lut.sin_below@[k] == mounted_direction(
            trig,
            mount,
            k,
        ).z.negated()
}

/// Build the lookup of all zones, row by row.
pub fn precompute_zone_lookups<T: Fn(Single) -> Heading, A: Fn((Single, Single)) -> Single>(
    mount: &TofMount,
    trig: &T,
    atan2: &A,
) -> (lut: ZoneLut)
    requires
        is_trig(*trig),
        is_atan2(*atan2),
    ensures
        is_lookup(lut, *trig, *atan2, *mount),
{
    let pitch = apply(trig, mount.pitch_rad);
    let yaw = apply(trig, mount.yaw_rad);
    let mut angles_body: [Single; 64] = [Single { bits: ZERO_BITS };64];
    let mut cos_elev: [Single; 64] = [Single { bits: ZERO_BITS };64];
    let mut sin_below: [Single; 64] = [Single { bits: ZERO_BITS };64];
    let mut k: usize = 0;
    while k < N_ZONES
        invariant
            k <= N_ZONES,
            is_trig(*trig),
            is_atan2(*atan2),
            pitch == heading_of(*trig, mount.pitch_rad),
            yaw == heading_of(*trig, mount.yaw_rad),
            forall|t: int|
                0 <= t < k ==> {
                    let d = mounted_direction(*trig, *mount, t);
                    #[trigger] angles_body@[t] == angle_to(*atan2, d.y, d.x)
                },
            forall|t: int|
                0 <= t < k ==> #[trigger] cos_elev@[t] == horizontal(
                    mounted_direction(*trig, *mount, t),
                ),
            forall|t: int|
                0 <= t < k ==> #[trigger] sin_below@[t] == mounted_direction(
                    *trig,
                    *mount,
                    t,
                ).z.negated(),
        decreases N_ZONES - k,
    {
        let el = apply(trig, angle_of_zone(k / TOF_COLS));
        let az = apply(trig, angle_of_zone(k % TOF_COLS));
        let d = direction_of(pitch, yaw, el, az);
        assert(d == mounted_direction(*trig, *mount, k as int));
        angles_body[k] = apply(atan2, (d.y, d.x));
        cos_elev[k] = d.x.mul(d.x).add(d.y.mul(d.y)).sqrt();
        sin_below[k] = d.z.neg();
        k = k + 1;
    }
    ZoneLut { angles_body, cos_elev, sin_below }
}

/// Project one frame of slant ranges into azimuth and horizontal range of each
/// beam. Beams that are invalid, end at the floor or are too near get a NaN
/// range.
pub fn project_frame(
    raw_slant_m: &[[Single; 8]; 8],
    lut: &ZoneLut,
    mount: &TofMount,
) -> (r: ([Single; 64], [Single; 64]))
    ensures
        forall|k: int| 0 <= k < N_ZONES ==> #[trigger] r.0@[k] == lut.angles_body@[k],
        forall|k: int|
            0 <= k < N_ZONES ==> #[trigger] r.1@[k] == projected(
                raw_slant_m@[k / 8]@[k % 8],
                lut.cos_elev@[k],
                lut.sin_below@[k],
                *mount,
            ),
{
    let zero = Single { bits: ZERO_BITS };
    let nan = Single { bits: NAN_BITS };
    let mut angles: [Single; 64] = [Single { bits: ZERO_BITS };64];
    let mut ranges: [Single; 64] = [Single { bits: NAN_BITS };64];
    let height_threshold = mount.sensor_height_m.mul(mount.floor_safety);
    let mut k: usize = 0;
    while k < N_ZONES
        invariant
            k <= N_ZONES,
            zero.bits == ZERO_BITS,
            nan.bits == NAN_BITS,
            height_threshold == mount.sensor_height_m.times(mount.floor_safety),
            forall|t: int| 0 <= t < k ==> #[trigger] angles@[t] == lut.angles_body@[t],
            forall|t: int|
                0 <= t < k ==> #[trigger] ranges@[t] == projected(
                    raw_slant_m@[t / 8]@[t % 8],
                    lut.cos_elev@[t],
                    lut.sin_below@[t],
                    *mount,
                ),
        decreases N_ZONES - k,
    {
        angles[k] = lut.angles_body[k];
        let row: [Single; 8] = raw_slant_m[k / TOF_COLS];
        let slant = row[k % TOF_COLS];
        let sin_below = lut.sin_below[k];
        let h = slant.mul(lut.cos_elev[k]);
        ranges[k] = if !slant.is_finite() {
            nan
        } else if zero.lt(mount.sensor_height_m) && zero.lt(sin_below) && height_threshold.lt(
            slant.mul(sin_below),
        ) {
            nan
        } else if zero.lt(mount.min_range_m) && h.lt(mount.min_range_m) {
            nan
        } else {
            h
        };
        k = k + 1;
    }
    (angles, ranges)
}

/// A frame keeps the azimuths, and every beam that stays has exactly its
/// projected length; what is dropped is NaN, which no consumer uses.
pub proof fn law_dropped_beams_are_skipped(slant: Single, cos_elev: Single, sin_below: Single, m: TofMount)
    ensures
        ({
            let p = projected(slant, cos_elev, sin_below, m);
            p == slant.times(cos_elev) || (p.nan() && !p.usable())
        }),
{
}

/// A reading that the chip flagged invalid is dropped, whatever the mount.
pub proof fn law_invalid_reading_dropped(slant: Single, cos_elev: Single, sin_below: Single, m: TofMount)
    requires
        !slant.finite(),
    ensures
        projected(slant, cos_elev, sin_below, m).nan(),
{
}

} // verus!
