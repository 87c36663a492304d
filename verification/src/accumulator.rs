//! Scan accumulator: buffers ToF beams across motion so that one wide update
//! can be run from several viewpoints.

use vstd::arithmetic::power2::{lemma2_to64, lemma_pow2_pos};
use vstd::prelude::*;
use crate::accuracy::{exact, law_quotient_error, law_sum_error, law_whole_is_exact, slack, within};
use crate::arith::{absolute, lemma_absolute, zero};
use crate::candidates::{lemma_part, lemma_steps};
use crate::conversion::{lemma_turn, rounded, TWO_PI_BITS};
use crate::double::Double;
use crate::double_arith;
use crate::double_arith::widened;
use crate::motion::{lemma_unsigned, lemma_zero_exact};
use crate::pose::Pose2;
use crate::ranging::lemma_below;
use crate::single::Single;
use crate::turning::{lemma_left_over, lemma_plain, lemma_turn_numbers, lemma_turns, product, same_angle, turned_back};

verus! {

/// One buffered beam, tagged with the estimated pose at capture time.
#[derive(Debug, Clone, Copy)]
pub struct BufferedBeam {
    pub angle_body: Single,
    pub range_m: Single,
    pub est_origin: (Single, Single),
    pub est_yaw: Single,
}

/// When a buffer is full enough.
#[derive(Debug, Clone, Copy)]
pub struct AccumulatorConfig {
    pub max_age_s: Single,
    pub min_azimuth_coverage_frac: Single,
    pub max_beams: usize,
    pub n_azimuth_bins: usize,
}

impl Default for AccumulatorConfig {
    /// 2.5 seconds, 0.80 of 36 bins, 800 beams.
    fn default() -> (r: Self)
        ensures
            r.max_age_s.bits == 0x4020_0000,
            r.min_azimuth_coverage_frac.bits == 0x3f4c_cccd,
            r.max_beams == 800,
            r.n_azimuth_bins == 36,
    {
        AccumulatorConfig {
            max_age_s: Single { bits: 0x4020_0000 },
            min_azimuth_coverage_frac: Single { bits: 0x3f4c_cccd },
            max_beams: 800,
            n_azimuth_bins: 36,
        }
    }
}

/// Beams of several scans.
pub struct ScanAccumulator {
    cfg: AccumulatorConfig,
    buffer: Vec<BufferedBeam>,
    az_bins: Vec<bool>,
    start_t: Option<Double>,
}

/// World azimuth of a beam, within one turn from zero up.
pub open spec fn world_azimuth(est_yaw: Single, angle_body: Single) -> Single {
    est_yaw.plus(angle_body).wrapped(Single { bits: TWO_PI_BITS })
}

/// Pattern of the binary64 number nearest to two pi.
pub const TURN_BITS: u64 = 0x4019_21fb_5444_2d18;

/// Which of `n` equal parts of a turn a beam points into; possibly one past the
/// last.
pub open spec fn bin_of(est_yaw: Single, angle_body: Single, n: int) -> usize {
    widened(world_azimuth(est_yaw, angle_body)).over(Double { bits: TURN_BITS }).times(
        double_arith::rounded(n),
    ).as_usize()
}

/// The smaller of two lengths.
pub open spec fn shorter(a: nat, b: nat) -> int {
    if a <= b {
        a as int
    } else {
        b as int
    }
}

/// `buffer` with the first `n` beams of a scan appended, those with a finite
/// range.
pub open spec fn with_beams(
    buffer: Seq<BufferedBeam>,
    pose: Pose2,
    angles: Seq<Single>,
    ranges: Seq<Single>,
    n: int,
) -> Seq<BufferedBeam>
    decreases n,
{
    if n <= 0 {
        buffer
    } else {
        let before = with_beams(buffer, pose, angles, ranges, n - 1);
        if ranges[n - 1].finite() {
            before.push(
                BufferedBeam {
                    angle_body: angles[n - 1],
                    range_m: ranges[n - 1],
                    est_origin: (pose.0, pose.1),
                    est_yaw: pose.2,
                },
            )
        } else {
            before
        }
    }
}

/// `seen` with the azimuth bins of the first `n` beams of a scan marked, those
/// with a finite range.
pub open spec fn with_bins(
    seen: Seq<bool>,
    est_yaw: Single,
    angles: Seq<Single>,
    ranges: Seq<Single>,
    n: int,
) -> Seq<bool>
    decreases n,
{
    if n <= 0 {
        seen
    } else {
        let before = with_bins(seen, est_yaw, angles, ranges, n - 1);
        let bin = bin_of(est_yaw, angles[n - 1], seen.len() as int);
        if ranges[n - 1].finite() && bin < seen.len() {
            before.update(bin as int, true)
        } else {
            before
        }
    }
}

/// Number of marked bins among the first `n`.
pub open spec fn marked(seen: Seq<bool>, n: int) -> int
    decreases n,
{
    if n <= 0 {
        0
    } else if seen[n - 1] {
        marked(seen, n - 1) + 1
    } else {
        marked(seen, n - 1)
    }
}

/// Marking keeps the number of bins.
proof fn lemma_bins_len(
    seen: Seq<bool>,
    est_yaw: Single,
    angles: Seq<Single>,
    ranges: Seq<Single>,
    n: int,
)
    ensures
        with_bins(seen, est_yaw, angles, ranges, n).len() == seen.len(),
    decreases n,
{
    if n > 0 {
        lemma_bins_len(seen, est_yaw, angles, ranges, n - 1);
    }
}

/// Which of `n` equal parts of a turn a beam points into; possibly one past the
/// last.
pub fn azimuth_bin(est_yaw: Single, angle_body: Single, n: usize) -> (r: usize)
    ensures
        r == bin_of(est_yaw, angle_body, n as int),
{
    let azimuth = est_yaw.add(angle_body).rem_euclid(Single { bits: TWO_PI_BITS });
    let turns = Double::from_single(azimuth).div(Double { bits: TURN_BITS });
    turns.mul(Double::from_u64(n as u64)).to_usize()
}

impl ScanAccumulator {
    /// The limits of the buffer.
    pub closed spec fn config(&self) -> AccumulatorConfig {
        self.cfg
    }

    /// The buffered beams.
    pub closed spec fn beams(&self) -> Seq<BufferedBeam> {
        self.buffer@
    }

    /// Which azimuth bins some beam fell into.
    pub closed spec fn seen(&self) -> Seq<bool> {
        self.az_bins@
    }

    /// Time of the first scan.
    pub closed spec fn started(&self) -> Option<Double> {
        self.start_t
    }

    /// One mark for each azimuth bin.
    pub open spec fn wf(&self) -> bool {
        self.seen().len() == self.config().n_azimuth_bins
    }

    /// Fraction of the azimuth bins that some beam fell into.
    pub open spec fn coverage(&self) -> Single {
        rounded(marked(self.seen(), self.seen().len() as int)).over(
            rounded(self.config().n_azimuth_bins as int),
        )
    }

    /// An empty buffer.
    pub fn new(cfg: AccumulatorConfig) -> (s: Self)
        ensures
            s.wf(),
            s.config() == cfg,
            s.beams().len() == 0,
            s.started() is None,
            forall|k: int| 0 <= k < s.seen().len() ==> !(#[trigger] s.seen()[k]),
    {
        let n = cfg.n_azimuth_bins;
        let mut az_bins: Vec<bool> = Vec::new();
        let mut k: usize = 0;
        while k < n
            invariant
                k <= n,
                az_bins@.len() == k,
                forall|t: int| 0 <= t < k ==> !(#[trigger] az_bins@[t]),
            decreases n - k,
        {
            az_bins.push(false);
            k = k + 1;
        }
        ScanAccumulator { cfg, buffer: Vec::new(), az_bins, start_t: None }
    }

    /// Adds a scan taken at time `t` and pose `est_pose`: its beams with a finite
    /// range.
    pub fn add_scan(
        &mut self,
        t: Double,
        est_pose: Pose2,
        angles_body: &[Single],
        ranges: &[Single],
    )
        requires
            old(self).wf(),
        ensures
            final(self).wf(),
            final(self).config() == old(self).config(),
            final(self).started() == (if old(self).started() is None {
                Some(t)
            } else {
                old(self).started()
            }),
            final(self).beams() == with_beams(
                old(self).beams(),
                est_pose,
                angles_body@,
                ranges@,
                shorter(angles_body@.len(), ranges@.len()),
            ),
            final(self).seen() == with_bins(
                old(self).seen(),
                est_pose.2,
                angles_body@,
                ranges@,
                shorter(angles_body@.len(), ranges@.len()),
            ),
    {
        let (ex, ey, eyaw) = est_pose;
        if self.start_t.is_none() {
            self.start_t = Some(t);
        }
        let n = if angles_body.len() <= ranges.len() {
            angles_body.len()
        } else {
            ranges.len()
        };
        let mut k: usize = 0;
        while k < n
            invariant
                n == shorter(angles_body@.len(), ranges@.len()),
                n <= angles_body@.len(),
                n <= ranges@.len(),
                k <= n,
                (ex, ey, eyaw) == est_pose,
                self.wf(),
                self.config() == old(self).config(),
                self.started() == (if old(self).started() is None {
                    Some(t)
                } else {
                    old(self).started()
                }),
                self.seen().len() == old(self).seen().len(),
                self.beams() == with_beams(
                    old(self).beams(),
                    est_pose,
                    angles_body@,
                    ranges@,
                    k as int,
                ),
                self.seen() == with_bins(
                    old(self).seen(),
                    eyaw,
                    angles_body@,
                    ranges@,
                    k as int,
                ),
            decreases n - k,
        {
            let r = ranges[k];
            if r.is_finite() {
                self.buffer.push(
                    BufferedBeam {
                        angle_body: angles_body[k],
                        range_m: r,
                        est_origin: (ex, ey),
                        est_yaw: eyaw,
                    },
                );
                let bin = azimuth_bin(eyaw, angles_body[k], self.cfg.n_azimuth_bins);
                if bin < self.az_bins.len() {
                    self.az_bins.set(bin, true);
                }
            }
            k = k + 1;
        }
    }

    /// Fraction of the azimuth bins that some beam fell into.
    pub fn coverage_frac(&self) -> (r: Single)
        requires
            self.wf(),
        ensures
            r == self.coverage(),
    {
        let n = self.az_bins.len();
        let mut on: u64 = 0;
        let mut k: usize = 0;
        while k < n
            invariant
                n == self.az_bins@.len(),
                k <= n,
                on == marked(self.az_bins@, k as int),
                on <= k,
            decreases n - k,
        {
            if self.az_bins[k] {
                on = on + 1;
            }
            k = k + 1;
        }
        Single::from_u64(on).div(Single::from_u64(self.cfg.n_azimuth_bins as u64))
    }

    /// Number of buffered beams.
    pub fn n_beams(&self) -> (r: usize)
        ensures
            r == self.beams().len(),
    {
        self.buffer.len()
    }

    /// The beams of the first scan are `max_age_s` old at time `t`.
    pub open spec fn aged(&self, t: Double) -> bool {
        self.started() matches Some(start) && t.minus(start).at_least(
            widened(self.config().max_age_s),
        )
    }

    /// True if the buffer holds beams and is old enough at time `t`, full enough
    /// or wide enough.
    pub fn ready(&self, t: Double) -> (r: bool)
        requires
            self.wf(),
        ensures
            r == (self.started() is Some && self.beams().len() > 0 && (self.aged(t)
                || self.beams().len() >= self.config().max_beams
                || self.config().min_azimuth_coverage_frac.at_most(self.coverage()))),
    {
        let start = match self.start_t {
            Some(start) => start,
            None => {
                return false;
            },
        };
        if self.buffer.len() == 0 {
            return false;
        }
        if t.sub(start).ge(Double::from_single(self.cfg.max_age_s)) {
            return true;
        }
        if self.buffer.len() >= self.cfg.max_beams {
            return true;
        }
        self.cfg.min_azimuth_coverage_frac.le(self.coverage_frac())
    }

    /// Takes the buffered beams out and starts over.
    pub fn drain(&mut self) -> (out: Vec<BufferedBeam>)
        requires
            old(self).wf(),
        ensures
            out@ == old(self).beams(),
            final(self).wf(),
            final(self).config() == old(self).config(),
            final(self).beams().len() == 0,
            final(self).started() is None,
            final(self).seen().len() == old(self).seen().len(),
            forall|k: int| 0 <= k < final(self).seen().len() ==> !(#[trigger] final(self).seen()[k]),
    {
        let mut out: Vec<BufferedBeam> = Vec::new();
        std::mem::swap(&mut out, &mut self.buffer);
        let n = self.az_bins.len();
        let mut k: usize = 0;
        while k < n
            invariant
                n == self.az_bins@.len(),
                k <= n,
                self.cfg == old(self).cfg,
                self.buffer@.len() == 0,
                self.az_bins@.len() == old(self).az_bins@.len(),
                forall|t: int| 0 <= t < k ==> !(#[trigger] self.az_bins@[t]),
            decreases n - k,
        {
            self.az_bins.set(k, false);
            k = k + 1;
        }
        self.start_t = None;
        out
    }
}

impl Default for ScanAccumulator {
    /// An empty buffer with the default limits.
    fn default() -> (s: Self)
        ensures
            s.wf(),
            s.config().max_beams == 800,
            s.config().n_azimuth_bins == 36,
            s.config().max_age_s.bits == 0x4020_0000,
            s.config().min_azimuth_coverage_frac.bits == 0x3f4c_cccd,
            s.beams().len() == 0,
            s.started() is None,
            forall|k: int| 0 <= k < s.seen().len() ==> !(#[trigger] s.seen()[k]),
    {
        ScanAccumulator::new(AccumulatorConfig::default())
    }
}

/// Adding a scan never takes beams out, nor adds more than the scan has.
pub proof fn law_beams_grow(
    buffer: Seq<BufferedBeam>,
    pose: Pose2,
    angles: Seq<Single>,
    ranges: Seq<Single>,
    n: int,
)
    requires
        0 <= n,
    ensures
        ({
            let after = with_beams(buffer, pose, angles, ranges, n);
            buffer.len() <= after.len() <= buffer.len() + n && after.take(buffer.len() as int)
                == buffer
        }),
    decreases n,
{
    let after = with_beams(buffer, pose, angles, ranges, n);
    if n > 0 {
        law_beams_grow(buffer, pose, angles, ranges, n - 1);
        let before = with_beams(buffer, pose, angles, ranges, n - 1);
        assert(after.take(buffer.len() as int) =~= before.take(buffer.len() as int));
    } else {
        assert(after.take(buffer.len() as int) =~= buffer);
    }
}

/// Adding a scan never clears a bin.
pub proof fn law_coverage_grows(
    seen: Seq<bool>,
    est_yaw: Single,
    angles: Seq<Single>,
    ranges: Seq<Single>,
    n: int,
    k: int,
)
    requires
        0 <= k < seen.len(),
        seen[k],
    ensures
        with_bins(seen, est_yaw, angles, ranges, n)[k],
    decreases n,
{
    if n > 0 {
        law_coverage_grows(seen, est_yaw, angles, ranges, n - 1, k);
        lemma_bins_len(seen, est_yaw, angles, ranges, n - 1);
    }
}

/// The beam that number `k` of a scan taken at `pose` is buffered as.
pub open spec fn is_beam_of(
    b: BufferedBeam,
    pose: Pose2,
    angles: Seq<Single>,
    ranges: Seq<Single>,
    k: int,
) -> bool {
    &&& b.angle_body == angles[k]
    &&& b.range_m == ranges[k]
    &&& b.est_origin.0 == pose.0
    &&& b.est_origin.1 == pose.1
    &&& b.est_yaw == pose.2
}

/// Every beam of a scan with a finite range is buffered, with its own angle and
/// range and the pose that the scan was taken at, and in the order of the scan.
pub proof fn law_beams_keep_their_pose(
    buffer: Seq<BufferedBeam>,
    pose: Pose2,
    angles: Seq<Single>,
    ranges: Seq<Single>,
    n: int,
    k: int,
) -> (at: int)
    requires
        0 <= k < n,
        ranges[k].finite(),
    ensures
        ({
            let after = with_beams(buffer, pose, angles, ranges, n);
            &&& buffer.len() <= at < after.len()
            &&& is_beam_of(after[at], pose, angles, ranges, k)
            &&& k == n - 1 ==> at == after.len() - 1
        }),
    decreases n,
{
    let before = with_beams(buffer, pose, angles, ranges, n - 1);
    law_beams_grow(buffer, pose, angles, ranges, n - 1);
    if k == n - 1 {
        before.len() as int
    } else {
        law_beams_keep_their_pose(buffer, pose, angles, ranges, n - 1, k)
    }
}

/// Every beam with a finite range marks the part of the turn it points into, and
/// no other part is marked that was not before.
pub proof fn law_beams_mark_their_bins(
    seen: Seq<bool>,
    est_yaw: Single,
    angles: Seq<Single>,
    ranges: Seq<Single>,
    n: int,
    bin: int,
)
    requires
        0 <= n,
        0 <= bin < seen.len(),
    ensures
        with_bins(seen, est_yaw, angles, ranges, n)[bin] <==> seen[bin] || exists|k: int|
            0 <= k < n && (#[trigger] ranges[k]).finite() && bin_of(
                est_yaw,
                angles[k],
                seen.len() as int,
            ) == bin,
    decreases n,
{
    if n > 0 {
        law_beams_mark_their_bins(seen, est_yaw, angles, ranges, n - 1, bin);
        lemma_bins_len(seen, est_yaw, angles, ranges, n - 1);
        let k = n - 1;
        if ranges[k].finite() && bin_of(est_yaw, angles[k], seen.len() as int) == bin {
            assert(0 <= k < n);
        }
    }
}

/// The coverage is the number of marked parts over the number of parts.
pub proof fn law_coverage_is_marked_part(a: ScanAccumulator)
    requires
        0 < a.config().n_azimuth_bins < 0x100_0000,
        a.wf(),
    ensures
        ({
            let n = a.config().n_azimuth_bins as real;
            within(
                product(n, exact(a.coverage())),
                marked(a.seen(), a.seen().len() as int) as real,
                product(n, slack(0)),
            )
        }),
{
    let len = a.config().n_azimuth_bins as int;
    let m = marked(a.seen(), len);
    lemma_marked(a.seen(), len);
    lemma2_to64();
    law_whole_is_exact(len);
    law_whole_is_exact(m);
    let (n, x) = (len as real, m as real);
    lemma_part(x, n, 1 as real);
    let r = x / n;
    assert(0 as real <= r <= 1 as real) by (nonlinear_arith)
        requires
            r == x / n,
            0 as real <= x <= n,
            n > 0 as real,
    ;
    law_quotient_error(rounded(m), rounded(len), 0);
    lemma_steps(n, 1 as real, x, exact(a.coverage()), slack(0));
    lemma_plain(exact(a.coverage()));
    lemma_plain(slack(0));
    lemma_plain(x);
}

/// No more parts are marked than there are.
proof fn lemma_marked(seen: Seq<bool>, n: int)
    requires
        0 <= n,
    ensures
        0 <= marked(seen, n) <= n,
    decreases n,
{
    if n > 0 {
        lemma_marked(seen, n - 1);
    }
}

/// The world azimuth of a beam is its own angle on from the yaw of the body, up
/// to whole turns and rounding, and it is within one turn from zero up.
pub proof fn law_world_azimuth(est_yaw: Single, angle_body: Single)
    requires
        est_yaw.finite() && angle_body.finite(),
        -(10 as real) <= exact(est_yaw) + exact(angle_body) <= 10 as real,
    ensures
        ({
            let az = world_azimuth(est_yaw, angle_body);
            let turn = exact(Single { bits: TWO_PI_BITS });
            &&& az.finite()
            &&& same_angle(
                exact(az),
                exact(est_yaw) + exact(angle_body),
                1 as real / 524_288 as real,
            )
            &&& 0 as real <= exact(az) <= turn + 1 as real / 524_288 as real
        }),
{
    let turn = Single { bits: TWO_PI_BITS };
    let x = est_yaw.plus(angle_body);
    lemma2_to64();
    lemma_turn_numbers();
    law_sum_error(est_yaw, angle_body, 4);
    let n = lemma_left_over(x);
    lemma_less_than_turn(x);
    let r = x.left_over(turn);
    lemma_zero_exact();
    lemma_below(r, zero());
    lemma_unsigned(turn);
    assert(turn.unsigned() == turn);
    let (t, goal) = (exact(turn), exact(est_yaw) + exact(angle_body));
    let e = 1 as real / 524_288 as real;
    if r.below(zero()) {
        law_sum_error(r, turn, 3);
        lemma_turns(n, t);
        lemma_turns(n + 1, t);
        lemma_turn_back(r, turn);
        assert(turned_back(exact(r.plus(turn)), n + 1, goal, e));
    } else {
        assert(turned_back(exact(r), n, goal, e));
    }
}

/// What is left of whole turns is less than a turn.
proof fn lemma_less_than_turn(x: Single)
    requires
        x.finite(),
    ensures
        ({
            let turn = Single { bits: TWO_PI_BITS };
            x.left_over(turn).finite() ==> -exact(turn) <= exact(x.left_over(turn)) <= exact(turn)
        }),
{
    let turn = Single { bits: TWO_PI_BITS };
    let r = x.left_over(turn);
    reveal(Single::left_over);
    lemma_turn();
    lemma_absolute(x);
    lemma_absolute(turn);
    lemma_pow2_pos(149);
    let (v, m) = (absolute(x.value()), absolute(turn.value()));
    assert(crate::single::magnitude_value(0) == 0);
    crate::rounding::lemma_magnitudes_ordered(0, TWO_PI_BITS as int);
    vstd::arithmetic::div_mod::lemma_mod_bound(v, m);
    crate::rounding::law_representable_stays(TWO_PI_BITS as int);
    crate::rounding::law_rounding_monotone(v % m, m, 1);
    crate::rounding::law_nearest_exists(v % m, 1);
    lemma_absolute(r);
    crate::rounding::lemma_magnitudes_ordered(r.magnitude(), TWO_PI_BITS as int);
    let (a, b, o) = (r.value() as real, turn.value() as real, crate::arith::one() as real);
    assert(-(b / o) <= a / o <= b / o) by (nonlinear_arith)
        requires
            -b <= a <= b,
            o > 0 as real,
    ;
}

/// A turn on from less than a turn back is not below zero, nor above a turn.
proof fn lemma_turn_back(r: Single, turn: Single)
    requires
        turn == (Single { bits: TWO_PI_BITS }),
        r.finite(),
        -(7 as real) <= exact(r) <= 0 as real,
        r.plus(turn).finite(),
        within(exact(r.plus(turn)), exact(r) + exact(turn), slack(3)),
        exact(r) + exact(turn) >= 0 as real,
    ensures
        exact(r.plus(turn)) >= 0 as real,
{
    reveal(Single::plus);
    lemma_pow2_pos(149);
    let o = crate::arith::one() as real;
    let (x, y) = (r.value() as real, turn.value() as real);
    assert(x + y >= 0 as real) by (nonlinear_arith)
        requires
            x / o + y / o >= 0 as real,
            o > 0 as real,
    ;
    let s = r.plus(turn);
    lemma_absolute(s);
    crate::rounding::law_nearest_exists(absolute(r.value() + turn.value()), 1);
    assert(crate::single::magnitude_value(0) == 0);
    crate::rounding::lemma_magnitudes_ordered(0, s.magnitude());
    let v = s.value() as real;
    assert(v / o >= 0 as real) by (nonlinear_arith)
        requires
            v >= 0 as real,
            o > 0 as real,
    ;
}

} // verus!
