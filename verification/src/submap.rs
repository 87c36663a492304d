//! Submap: local 2D occupancy grid and the world pose at which it was
//! anchored.
//!
//! All scans integrated into a submap are placed in its local frame: local
//! `(0, 0, 0)` is the robot's pose at submap creation. The global map is
//! composed of the submaps through their anchor poses (see
//! [`crate::global_render`]).

use vstd::prelude::*;
use crate::beams::{beam_headings, beams_at, shorter};
use crate::function::{heading_of, is_trig};
use crate::grid::{after_beam, GridConfig, OccupancyGrid};
use crate::pose::{beam_end, local_pose, Heading};
use crate::single::Single;
pub use crate::pose::{world_to_local, Pose2};

verus! {

/// Number of raw scans retained per submap for loop-closure matching.
pub const MAX_RAW_SCANS: usize = 10;

/// One scan retained for loop-closure matching, in the submap's local frame:
/// later changes of the anchor do not touch it.
#[derive(Debug)]
pub struct RawScan {
    pub pose_in_submap: Pose2,
    pub angles_body: Vec<Single>,
    pub ranges_horiz: Vec<Single>,
}

impl Clone for RawScan {
    fn clone(&self) -> (r: Self)
        ensures
            r.pose_in_submap == self.pose_in_submap,
            r.angles_body@ == self.angles_body@,
            r.ranges_horiz@ == self.ranges_horiz@,
    {
        RawScan {
            pose_in_submap: self.pose_in_submap,
            angles_body: vstd::slice::slice_to_vec(self.angles_body.as_slice()),
            ranges_horiz: vstd::slice::slice_to_vec(self.ranges_horiz.as_slice()),
        }
    }
}

/// Local occupancy grid, its anchor and the first scans that went into it.
pub struct Submap {
    grid: OccupancyGrid,
    anchor_pose: Pose2,
    raw_scans: Vec<RawScan>,
}

/// The cells of a grid after the first `n` beams of a scan from `(ox, oy)`.
/// Beams without a usable range are skipped.
pub open spec fn after_scan(
    log: Seq<i16>,
    cfg: GridConfig,
    w: int,
    ox: Single,
    oy: Single,
    ranges: Seq<Single>,
    beams: Seq<Heading>,
    n: int,
) -> Seq<i16>
    decreases n,
{
    if n <= 0 {
        log
    } else {
        let before = after_scan(log, cfg, w, ox, oy, ranges, beams, n - 1);
        if ranges[n - 1].usable() {
            let end = beam_end(ox, oy, beams[n - 1], ranges[n - 1]);
            after_beam(before, cfg, w, ox, oy, end.0, end.1, true)
        } else {
            before
        }
    }
}

/// The pose of a body at `body` in the world, in the frame of a submap.
pub open spec fn seen_from<T: Fn(Single) -> Heading>(s: Submap, trig: T, body: Pose2) -> Pose2 {
    local_pose(s.anchor(), heading_of(trig, s.anchor().2), body)
}

/// The cells of a submap after a scan taken at `body` in the world.
pub open spec fn integrated<T: Fn(Single) -> Heading>(
    s: Submap,
    trig: T,
    body: Pose2,
    angles: Seq<Single>,
    ranges: Seq<Single>,
) -> Seq<i16> {
    let local = seen_from(s, trig, body);
    after_scan(
        s.map().cells(),
        s.map().config(),
        s.map().cols(),
        local.0,
        local.1,
        ranges,
        beams_at(trig, local.2, angles),
        shorter(angles.len(), ranges.len()),
    )
}

impl Submap {
    /// The local grid.
    pub closed spec fn map(&self) -> OccupancyGrid {
        self.grid
    }

    /// World pose of the local origin.
    pub closed spec fn anchor(&self) -> Pose2 {
        self.anchor_pose
    }

    /// The retained scans.
    pub closed spec fn scans(&self) -> Seq<RawScan> {
        self.raw_scans@
    }

    /// The grid is well formed.
    pub open spec fn wf(&self) -> bool {
        self.map().wf()
    }

    /// A submap with its origin at `anchor_pose` in the world and a grid of
    /// unobserved cells.
    pub fn new_at(anchor_pose: Pose2, grid_cfg: GridConfig) -> (s: Self)
        requires
            grid_cfg.columns() * grid_cfg.lines() <= usize::MAX,
        ensures
            s.wf(),
            s.anchor() == anchor_pose,
            s.scans().len() == 0,
            s.map().config() == grid_cfg,
            s.map().cols() == grid_cfg.columns(),
            s.map().rows() == grid_cfg.lines(),
            forall|at: int| 0 <= at < s.map().cells().len() ==> #[trigger] s.map().cells()[at] == 0,
    {
        Submap { grid: OccupancyGrid::new(grid_cfg), anchor_pose, raw_scans: Vec::new() }
    }

    /// A submap from its parts.
    pub fn from_parts(grid: OccupancyGrid, anchor_pose: Pose2, raw_scans: Vec<RawScan>) -> (s: Self)
        ensures
            s.map() == grid,
            s.anchor() == anchor_pose,
            s.scans() == raw_scans@,
    {
        Submap { grid, anchor_pose, raw_scans }
    }

    /// World pose of the local origin.
    pub fn anchor_pose(&self) -> (r: Pose2)
        ensures
            r == self.anchor(),
    {
        self.anchor_pose
    }

    /// The local grid.
    pub fn grid(&self) -> (r: &OccupancyGrid)
        ensures
            *r == self.map(),
    {
        &self.grid
    }

    /// The local grid, to change it.
    pub fn grid_mut(&mut self) -> (r: &mut OccupancyGrid)
        ensures
            *r == old(self).map(),
            final(self).map() == *final(r),
            final(self).anchor() == old(self).anchor(),
            final(self).scans() == old(self).scans(),
    {
        &mut self.grid
    }

    /// The retained scans.
    pub fn raw_scans(&self) -> (r: &[RawScan])
        ensures
            r@ == self.scans(),
    {
        self.raw_scans.as_slice()
    }

    /// Moves the anchor. The local content stays untouched.
    pub fn set_anchor_pose(&mut self, new_anchor: Pose2)
        ensures
            final(self).anchor() == new_anchor,
            final(self).map() == old(self).map(),
            final(self).scans() == old(self).scans(),
    {
        self.anchor_pose = new_anchor;
    }

    /// Integrate one scan taken at `body_pose_world`. `angles_body` and
    /// `ranges_horiz` are the body-frame azimuths and horizontal ranges of the
    /// beams; NaN and zero ranges are skipped, and so is what has no
    /// counterpart.
    pub fn integrate_scan<T: Fn(Single) -> Heading>(
        &mut self,
        body_pose_world: Pose2,
        angles_body: &[Single],
        ranges_horiz: &[Single],
        trig: &T,
    )
        requires
            old(self).wf(),
            is_trig(*trig),
        ensures
            final(self).wf(),
            final(self).anchor() == old(self).anchor(),
            final(self).map().same_shape(&old(self).map()),
            old(self).scans().len() <= MAX_RAW_SCANS ==> final(self).scans().len()
                <= MAX_RAW_SCANS,
            ({
                &&& final(self).map().cells() == integrated(
                    *old(self),
                    *trig,
                    body_pose_world,
                    angles_body@,
                    ranges_horiz@,
                )
                &&& if old(self).scans().len() < MAX_RAW_SCANS {
                    &&& final(self).scans().len() == old(self).scans().len() + 1
                    &&& final(self).scans().drop_last() == old(self).scans()
                    &&& final(self).scans().last().pose_in_submap == seen_from(
                        *old(self),
                        *trig,
                        body_pose_world,
                    )
                    &&& final(self).scans().last().angles_body@ == angles_body@
                    &&& final(self).scans().last().ranges_horiz@ == ranges_horiz@
                } else {
                    final(self).scans() == old(self).scans()
                }
            }),
    {
        let pose_local = world_to_local(self.anchor_pose, body_pose_world, trig);
        let (ox, oy, oyaw) = pose_local;
        let beams = beam_headings(trig, oyaw, angles_body);
        let n = if beams.len() < ranges_horiz.len() {
            beams.len()
        } else {
            ranges_horiz.len()
        };
        let mut k: usize = 0;
        while k < n
            invariant
                n <= ranges_horiz@.len(),
                n <= beams@.len(),
                k <= n,
                self.wf(),
                self.anchor() == old(self).anchor(),
                self.scans() == old(self).scans(),
                self.map().same_shape(&old(self).map()),
                self.map().cells() == after_scan(
                    old(self).map().cells(),
                    old(self).map().config(),
                    old(self).map().cols(),
                    ox,
                    oy,
                    ranges_horiz@,
                    beams@,
                    k as int,
                ),
            decreases n - k,
        {
            let r = ranges_horiz[k];
            if r.is_usable() {
                let (hx, hy) = beams[k].beam_end(ox, oy, r);
                self.grid.integrate_ray(ox, oy, hx, hy, true);
            }
            k = k + 1;
        }
        if self.raw_scans.len() < MAX_RAW_SCANS {
            let scan = RawScan {
                pose_in_submap: pose_local,
                angles_body: vstd::slice::slice_to_vec(angles_body),
                ranges_horiz: vstd::slice::slice_to_vec(ranges_horiz),
            };
            self.raw_scans.push(scan);
            assert(self.scans().drop_last() =~= old(self).scans());
        }
    }
}

/// A scan without usable ranges leaves the cells as they were.
pub proof fn law_empty_scan(
    log: Seq<i16>,
    cfg: GridConfig,
    w: int,
    ox: Single,
    oy: Single,
    ranges: Seq<Single>,
    beams: Seq<Heading>,
    n: int,
)
    requires
        n <= ranges.len(),
        forall|k: int| 0 <= k < ranges.len() ==> !(#[trigger] ranges[k]).usable(),
    ensures
        after_scan(log, cfg, w, ox, oy, ranges, beams, n) == log,
    decreases n,
{
    if n > 0 {
        law_empty_scan(log, cfg, w, ox, oy, ranges, beams, n - 1);
    }
}

} // verus!
