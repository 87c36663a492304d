//! Scoring a scan against a distance field.
//!
//! A beam that is drawn from a hypothetical pose ends in some cell; how far
//! that cell is from the nearest wall says how well the pose explains it.

use vstd::prelude::*;
use crate::distance::{index_of, lemma_index_of};
use crate::function::{apply, heading_of, is_trig};
use crate::grid::{GridConfig, OccupancyGrid};
use crate::pose::{beam_end, Heading};
use crate::single::{Single, ZERO_BITS};

verus! {

/// The smaller of two lengths.
pub open spec fn shorter(a: nat, b: nat) -> int {
    if a < b {
        a as int
    } else {
        b as int
    }
}

/// A copy of the distance field of a map, with the map's sides and geometry and
/// the threshold above which a cell counts as a wall.
pub struct Field {
    pub cfg: GridConfig,
    pub w: usize,
    pub h: usize,
    pub threshold: i16,
    pub metres: Vec<Single>,
}

impl OccupancyGrid {
    /// A copy of the distance field at this threshold.
    pub fn field(&mut self, threshold: i16) -> (f: Field)
        requires
            old(self).wf(),
            old(self).measurable(),
        ensures
            f.wf(),
            f.is_of(old(self)),
            f.threshold == threshold,
            final(self).wf(),
            final(self).same_shape(old(self)),
            final(self).cells() == old(self).cells(),
            final(self).cached(threshold),
    {
        let metres = vstd::slice::slice_to_vec(self.distance_field(threshold));
        Field { cfg: *self.cfg(), w: self.width(), h: self.height(), threshold, metres }
    }
}

impl Field {
    /// One distance for each cell.
    pub open spec fn wf(&self) -> bool {
        self.metres@.len() == self.w * self.h
    }

    /// The field has a cell `(i, j)`.
    pub open spec fn has(&self, i: int, j: int) -> bool {
        0 <= i < self.h && 0 <= j < self.w
    }

    /// Distance of cell `(i, j)` from the nearest wall.
    pub open spec fn at(&self, i: int, j: int) -> Single {
        self.metres@[index_of(self.w as int, i, j)]
    }

    /// The field is that of a grid, at its own threshold.
    pub open spec fn is_of(&self, grid: &OccupancyGrid) -> bool {
        &&& self.cfg == grid.config()
        &&& self.w == grid.cols()
        &&& self.h == grid.rows()
        &&& self.metres@ == grid.distances(self.threshold)
    }

    /// Distance of the cell that `(x, y)` falls into, `None` outside the map.
    pub open spec fn near(&self, p: (Single, Single)) -> Option<Single> {
        let (i, j) = (self.cfg.row(p.1) as int, self.cfg.column(p.0) as int);
        if self.has(i, j) {
            Some(self.at(i, j))
        } else {
            None
        }
    }

    /// Distances from the walls at the ends of the first `n` beams of a scan
    /// from `(x, y)`. Beams without a usable range and those that end outside
    /// the map are left out.
    pub open spec fn hits(
        &self,
        x: Single,
        y: Single,
        beams: Seq<Heading>,
        ranges: Seq<Single>,
        n: int,
    ) -> Seq<Single>
        decreases n,
    {
        if n <= 0 {
            Seq::empty()
        } else {
            let before = self.hits(x, y, beams, ranges, n - 1);
            match self.near(beam_end(x, y, beams[n - 1], ranges[n - 1])) {
                Some(d) if ranges[n - 1].usable() => before.push(d),
                _ => before,
            }
        }
    }

    /// Distance of cell `(i, j)` from the nearest wall.
    pub fn distance(&self, i: usize, j: usize) -> (r: Single)
        requires
            self.wf(),
            self.has(i as int, j as int),
        ensures
            r == self.at(i as int, j as int),
    {
        proof {
            lemma_index_of(self.w as int, self.h as int, i as int, j as int);
            lemma_index_of(self.w as int, self.h as int, i as int, 0);
            assert(self.metres.len() == self.metres@.len());
        }
        self.metres[i * self.w + j]
    }

    /// Distance of the cell that `(x, y)` falls into, `None` outside the map.
    pub fn nearest(&self, x: Single, y: Single) -> (r: Option<Single>)
        requires
            self.wf(),
        ensures
            r == self.near((x, y)),
    {
        let j = self.cfg.column_of(x);
        let i = self.cfg.row_of(y);
        if i < 0 || j < 0 || (i as usize) >= self.h || (j as usize) >= self.w {
            None
        } else {
            Some(self.distance(i as usize, j as usize))
        }
    }

    /// Distances from the walls at the ends of the beams of a scan from
    /// `(x, y)`.
    pub fn beam_hits(
        &self,
        x: Single,
        y: Single,
        beams: &[Heading],
        ranges: &[Single],
    ) -> (r: Vec<Single>)
        requires
            self.wf(),
            beams@.len() == ranges@.len(),
        ensures
            r@ == self.hits(x, y, beams@, ranges@, ranges@.len() as int),
            r@.len() <= ranges@.len(),
    {
        let n = ranges.len();
        let mut out: Vec<Single> = Vec::new();
        let mut k: usize = 0;
        while k < n
            invariant
                self.wf(),
                n == ranges@.len(),
                n == beams@.len(),
                k <= n,
                out@ == self.hits(x, y, beams@, ranges@, k as int),
                out@.len() <= k,
            decreases n - k,
        {
            let r = ranges[k];
            if r.is_usable() {
                let (hx, hy) = beams[k].beam_end(x, y, r);
                if let Some(d) = self.nearest(hx, hy) {
                    out.push(d);
                }
            }
            k = k + 1;
        }
        out
    }
}

/// Sum of the first `n` distances, each held to at most `clamp`.
pub open spec fn held_sum(d: Seq<Single>, clamp: Single, n: int) -> Single
    decreases n,
{
    if n <= 0 {
        Single { bits: ZERO_BITS }
    } else {
        held_sum(d, clamp, n - 1).plus(d[n - 1].smaller(clamp))
    }
}

/// Sum of distances, each held to at most `clamp`.
pub fn sum_held(d: &[Single], clamp: Single) -> (r: Single)
    ensures
        r == held_sum(d@, clamp, d@.len() as int),
{
    let n = d.len();
    let mut sum = Single { bits: ZERO_BITS };
    let mut k: usize = 0;
    while k < n
        invariant
            n == d@.len(),
            k <= n,
            sum == held_sum(d@, clamp, k as int),
        decreases n - k,
    {
        sum = sum.add(d[k].min(clamp));
        k = k + 1;
    }
    sum
}

/// Number of usable ranges among the first `n`.
pub open spec fn usable_count(ranges: Seq<Single>, n: int) -> int
    decreases n,
{
    if n <= 0 {
        0
    } else if ranges[n - 1].usable() {
        usable_count(ranges, n - 1) + 1
    } else {
        usable_count(ranges, n - 1)
    }
}

/// Number of usable ranges.
pub fn count_usable(ranges: &[Single]) -> (r: usize)
    ensures
        r == usable_count(ranges@, ranges@.len() as int),
        r <= ranges@.len(),
{
    let n = ranges.len();
    let mut c: usize = 0;
    let mut k: usize = 0;
    while k < n
        invariant
            n == ranges@.len(),
            k <= n,
            c == usable_count(ranges@, k as int),
            c <= k,
        decreases n - k,
    {
        if ranges[k].is_usable() {
            c = c + 1;
        }
        k = k + 1;
    }
    c
}

/// Directions of beams with body-frame angles `angles_body` at `yaw`.
pub open spec fn beams_at<T: Fn(Single) -> Heading>(
    trig: T,
    yaw: Single,
    angles_body: Seq<Single>,
) -> Seq<Heading> {
    Seq::new(angles_body.len(), |k: int| heading_of(trig, yaw.plus(angles_body[k])))
}

/// Directions of beams with body-frame angles `angles_body` at `yaw`.
pub fn beam_headings<T: Fn(Single) -> Heading>(
    trig: &T,
    yaw: Single,
    angles_body: &[Single],
) -> (r: Vec<Heading>)
    requires
        is_trig(*trig),
    ensures
        r@ == beams_at(*trig, yaw, angles_body@),
{
    let n = angles_body.len();
    let mut out: Vec<Heading> = Vec::new();
    let mut k: usize = 0;
    while k < n
        invariant
            n == angles_body@.len(),
            k <= n,
            is_trig(*trig),
            out@.len() == k,
            forall|t: int|
                0 <= t < k ==> #[trigger] out@[t] == heading_of(*trig, yaw.plus(angles_body@[t])),
        decreases n - k,
    {
        out.push(apply(trig, yaw.add(angles_body[k])));
        k = k + 1;
    }
    assert(out@ =~= beams_at(*trig, yaw, angles_body@));
    out
}

/// The beams of each yaw as sequences.
pub open spec fn beam_table(beams: Seq<Vec<Heading>>) -> Seq<Seq<Heading>> {
    Seq::new(beams.len(), |k: int| beams[k]@)
}

/// The directions of the beams at each of several yaws.
pub open spec fn turned<T: Fn(Single) -> Heading>(
    trig: T,
    yaws: Seq<Single>,
    angles: Seq<Single>,
) -> Seq<Seq<Heading>> {
    Seq::new(yaws.len(), |k: int| beams_at(trig, yaws[k], angles))
}

/// The directions of the beams at each of several yaws.
pub fn turned_beams<T: Fn(Single) -> Heading>(trig: &T, yaws: &[Single], angles: &[Single]) -> (r: Vec<
    Vec<Heading>,
>)
    requires
        is_trig(*trig),
    ensures
        beam_table(r@) == turned(*trig, yaws@, angles@),
        r@.len() == yaws@.len(),
        forall|k: int| 0 <= k < r@.len() ==> (#[trigger] r@[k])@.len() == angles@.len(),
{
    let n = yaws.len();
    let mut out: Vec<Vec<Heading>> = Vec::new();
    let mut k: usize = 0;
    while k < n
        invariant
            n == yaws@.len(),
            k <= n,
            is_trig(*trig),
            out@.len() == k,
            forall|t: int|
                0 <= t < k ==> (#[trigger] out@[t])@ == beams_at(*trig, yaws@[t], angles@),
        decreases n - k,
    {
        out.push(beam_headings(trig, yaws[k], angles));
        k = k + 1;
    }
    assert(beam_table(out@) =~= turned(*trig, yaws@, angles@));
    assert forall|t: int| 0 <= t < out@.len() implies (#[trigger] out@[t])@.len()
        == angles@.len() by {}
    out
}

/// No beam counts for more than the clamp, however far from the walls it ends.
pub proof fn law_beam_is_held(d: Single, clamp: Single)
    requires
        !clamp.nan(),
    ensures
        d.smaller(clamp).at_most(clamp),
{
}

} // verus!
