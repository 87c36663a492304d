//! Weighted clouds of poses: sums, spreads, the best pose and low-variance
//! resampling.
//!
//! Sums run over the particles in order, each addition rounded.

use vstd::prelude::*;
use crate::arith::{unit, zero};
use crate::conversion::rounded;
use crate::pose::{Heading, Pose2};
use crate::single::{Single, ONE_BITS, ZERO_BITS};

verus! {

/// Pattern of the least sum of squared weights (1e-12) to divide by.
pub const TINY_BITS: u32 = 0x2b8c_bccc;

/// Pattern of minus two.
pub const MINUS_TWO_BITS: u32 = 0xc000_0000;

// ---- Sums -------------------------------------------------------------------

/// Sum of the first `n` numbers.
pub open spec fn total(w: Seq<Single>, n: int) -> Single
    decreases n,
{
    if n <= 0 {
        zero()
    } else {
        total(w, n - 1).plus(w[n - 1])
    }
}

/// Sum of the squares of the first `n` numbers.
pub open spec fn squares(w: Seq<Single>, n: int) -> Single
    decreases n,
{
    if n <= 0 {
        zero()
    } else {
        squares(w, n - 1).plus(w[n - 1].times(w[n - 1]))
    }
}

/// Effective sample size: one over the sum of the squared weights.
pub open spec fn effective_size(w: Seq<Single>) -> Single {
    unit().over(squares(w, w.len() as int).larger(Single { bits: TINY_BITS }))
}

/// Effective sample size.
pub fn effective_sample_size(w: &[Single]) -> (r: Single)
    ensures
        r == effective_size(w@),
{
    let n = w.len();
    let mut sum = Single { bits: ZERO_BITS };
    let mut k: usize = 0;
    while k < n
        invariant
            n == w@.len(),
            k <= n,
            sum == squares(w@, k as int),
        decreases n - k,
    {
        sum = sum.add(w[k].mul(w[k]));
        k = k + 1;
    }
    (Single { bits: ONE_BITS }).div(sum.max(Single { bits: TINY_BITS }))
}

/// Sums of the first `n` x and y coordinates.
pub open spec fn coordinate_sums(p: Seq<Pose2>, n: int) -> (Single, Single)
    decreases n,
{
    if n <= 0 {
        (zero(), zero())
    } else {
        let before = coordinate_sums(p, n - 1);
        (before.0.plus(p[n - 1].0), before.1.plus(p[n - 1].1))
    }
}

/// Sum of the squared distances of the first `n` positions from `(mx, my)`.
pub open spec fn square_sum(p: Seq<Pose2>, mx: Single, my: Single, n: int) -> Single
    decreases n,
{
    if n <= 0 {
        zero()
    } else {
        let dx = p[n - 1].0.minus(mx);
        let dy = p[n - 1].1.minus(my);
        square_sum(p, mx, my, n - 1).plus(dx.times(dx).plus(dy.times(dy)))
    }
}

/// Standard deviation of the positions, equally weighted; zero for fewer than
/// two.
pub open spec fn position_spread(p: Seq<Pose2>) -> Single {
    if p.len() < 2 {
        zero()
    } else {
        let n = rounded(p.len() as int);
        let sums = coordinate_sums(p, p.len() as int);
        square_sum(p, sums.0.over(n), sums.1.over(n), p.len() as int).over(n).root()
    }
}

/// Standard deviation of the positions.
pub fn spread_of_positions(p: &[Pose2]) -> (r: Single)
    ensures
        r == position_spread(p@),
{
    let count = p.len();
    if count < 2 {
        return Single { bits: ZERO_BITS };
    }
    let n = Single::from_u64(count as u64);
    let mut mx = Single { bits: ZERO_BITS };
    let mut my = Single { bits: ZERO_BITS };
    let mut k: usize = 0;
    while k < count
        invariant
            count == p@.len(),
            k <= count,
            (mx, my) == coordinate_sums(p@, k as int),
        decreases count - k,
    {
        mx = mx.add(p[k].0);
        my = my.add(p[k].1);
        k = k + 1;
    }
    mx = mx.div(n);
    my = my.div(n);
    let mut var = Single { bits: ZERO_BITS };
    k = 0;
    while k < count
        invariant
            count == p@.len(),
            k <= count,
            var == square_sum(p@, mx, my, k as int),
        decreases count - k,
    {
        let dx = p[k].0.sub(mx);
        let dy = p[k].1.sub(my);
        var = var.add(dx.mul(dx).add(dy.mul(dy)));
        k = k + 1;
    }
    var.div(n).sqrt()
}

/// Sums of the sines and cosines of the first `n` headings.
pub open spec fn heading_sums(h: Seq<Heading>, n: int) -> (Single, Single)
    decreases n,
{
    if n <= 0 {
        (zero(), zero())
    } else {
        let before = heading_sums(h, n - 1);
        (before.0.plus(h[n - 1].sin), before.1.plus(h[n - 1].cos))
    }
}

/// Length of the mean heading: one if all point the same way.
pub open spec fn concentration(h: Seq<Heading>) -> Single {
    let s = heading_sums(h, h.len() as int);
    s.0.times(s.0).plus(s.1.times(s.1)).root().over(rounded(h.len() as int))
}

/// Length of the mean heading.
pub fn heading_concentration(h: &[Heading]) -> (r: Single)
    ensures
        r == concentration(h@),
{
    let n = h.len();
    let mut sx = Single { bits: ZERO_BITS };
    let mut cy = Single { bits: ZERO_BITS };
    let mut k: usize = 0;
    while k < n
        invariant
            n == h@.len(),
            k <= n,
            (sx, cy) == heading_sums(h@, k as int),
        decreases n - k,
    {
        sx = sx.add(h[k].sin);
        cy = cy.add(h[k].cos);
        k = k + 1;
    }
    sx.mul(sx).add(cy.mul(cy)).sqrt().div(Single::from_u64(n as u64))
}

/// Circular standard deviation of `n` headings with mean length `r`, where
/// `ln_r` is its natural logarithm; zero for fewer than two.
pub open spec fn yaw_spread(n: int, r: Single, ln_r: Single) -> Single {
    if n < 2 || unit().at_most(r) {
        zero()
    } else {
        (Single { bits: MINUS_TWO_BITS }).times(ln_r).root()
    }
}

/// Circular standard deviation of `n` headings.
pub fn spread_of_yaws(n: usize, r: Single, ln_r: Single) -> (s: Single)
    ensures
        s == yaw_spread(n as int, r, ln_r),
{
    if n < 2 || (Single { bits: ONE_BITS }).le(r) {
        Single { bits: ZERO_BITS }
    } else {
        (Single { bits: MINUS_TWO_BITS }).mul(ln_r).sqrt()
    }
}

/// Weighted sums of a cloud: x, y, sine and cosine of yaw, and the weights.
#[derive(Debug, Clone, Copy)]
pub struct WeightedSums {
    pub x: Single,
    pub y: Single,
    pub sin: Single,
    pub cos: Single,
    pub weight: Single,
}

/// Weighted sums of the first `n` particles.
pub open spec fn weighted(
    p: Seq<Pose2>,
    h: Seq<Heading>,
    w: Seq<Single>,
    n: int,
) -> WeightedSums
    decreases n,
{
    if n <= 0 {
        WeightedSums { x: zero(), y: zero(), sin: zero(), cos: zero(), weight: zero() }
    } else {
        let b = weighted(p, h, w, n - 1);
        let k = n - 1;
        WeightedSums {
            x: b.x.plus(w[k].times(p[k].0)),
            y: b.y.plus(w[k].times(p[k].1)),
            sin: b.sin.plus(w[k].times(h[k].sin)),
            cos: b.cos.plus(w[k].times(h[k].cos)),
            weight: b.weight.plus(w[k]),
        }
    }
}

/// Weighted sums of a cloud.
pub fn weighted_sums(p: &[Pose2], h: &[Heading], w: &[Single]) -> (r: WeightedSums)
    requires
        p@.len() == h@.len(),
        p@.len() == w@.len(),
    ensures
        r == weighted(p@, h@, w@, p@.len() as int),
{
    let z = Single { bits: ZERO_BITS };
    let mut s = WeightedSums { x: z, y: z, sin: z, cos: z, weight: z };
    let n = p.len();
    let mut k: usize = 0;
    while k < n
        invariant
            n == p@.len(),
            n == h@.len(),
            n == w@.len(),
            k <= n,
            s == weighted(p@, h@, w@, k as int),
        decreases n - k,
    {
        let wk = w[k];
        s = WeightedSums {
            x: s.x.add(wk.mul(p[k].0)),
            y: s.y.add(wk.mul(p[k].1)),
            sin: s.sin.add(wk.mul(h[k].sin)),
            cos: s.cos.add(wk.mul(h[k].cos)),
            weight: s.weight.add(wk),
        };
        k = k + 1;
    }
    s
}

// ---- The best particle ------------------------------------------------------

/// Position of the largest of the first `n` weights, the last one of equals.
/// A NaN takes over from what came before it, and is taken over from.
pub open spec fn heaviest(w: Seq<Single>, n: int) -> int
    decreases n,
{
    if n <= 1 {
        0
    } else {
        let b = heaviest(w, n - 1);
        if w[n - 1].below(w[b]) {
            b
        } else {
            n - 1
        }
    }
}

/// Position of the largest weight.
pub fn best_index(w: &[Single]) -> (b: usize)
    requires
        w@.len() > 0,
    ensures
        b == heaviest(w@, w@.len() as int),
        b < w@.len(),
{
    let n = w.len();
    let mut b: usize = 0;
    let mut k: usize = 1;
    while k < n
        invariant
            n == w@.len(),
            1 <= k <= n,
            b == heaviest(w@, k as int),
            b < k,
        decreases n - k,
    {
        if !w[k].lt(w[b]) {
            b = k;
        }
        k = k + 1;
    }
    b
}

/// The best weight is not below any other, as long as no weight is a NaN.
pub proof fn law_heaviest(w: Seq<Single>, n: int, k: int)
    requires
        0 <= k < n <= w.len(),
        forall|t: int| 0 <= t < w.len() ==> !(#[trigger] w[t]).nan(),
    ensures
        0 <= heaviest(w, n) < n,
        w[k].at_most(w[heaviest(w, n)]),
        k > heaviest(w, n) ==> w[k].below(w[heaviest(w, n)]),
    decreases n,
{
    if n > 1 {
        if k < n - 1 {
            law_heaviest(w, n - 1, k);
        } else {
            law_heaviest(w, n - 1, 0);
        }
    }
}

// ---- Resampling -------------------------------------------------------------

/// Running sums of the weights.
pub open spec fn running(w: Seq<Single>) -> Seq<Single> {
    Seq::new(w.len(), |k: int| total(w, k + 1))
}

/// Running sums of the weights.
pub fn running_sums(w: &[Single]) -> (r: Vec<Single>)
    ensures
        r@ == running(w@),
{
    let n = w.len();
    let mut acc = Single { bits: ZERO_BITS };
    let mut out: Vec<Single> = Vec::new();
    let mut k: usize = 0;
    while k < n
        invariant
            n == w@.len(),
            k <= n,
            acc == total(w@, k as int),
            out@.len() == k,
            forall|t: int| 0 <= t < k ==> #[trigger] out@[t] == total(w@, t + 1),
        decreases n - k,
    {
        acc = acc.add(w[k]);
        out.push(acc);
        k = k + 1;
    }
    assert(out@ =~= running(w@));
    out
}

/// The first position from `k` on whose running sum reaches `u`, the last
/// position if none does.
pub open spec fn advanced(cum: Seq<Single>, k: int, u: Single) -> int
    decreases cum.len() - k,
{
    if k < cum.len() - 1 && cum[k].below(u) {
        advanced(cum, k + 1, u)
    } else {
        k
    }
}

/// Target number `i` of a systematic sampler.
pub open spec fn comb(u0: Single, step: Single, i: int) -> Single {
    u0.plus(rounded(i).times(step))
}

/// The particle that target number `i` picks.
pub open spec fn pick(cum: Seq<Single>, u0: Single, step: Single, i: int) -> int
    decreases i,
{
    advanced(
        cum,
        if i <= 0 {
            0
        } else {
            pick(cum, u0, step, i - 1)
        },
        comb(u0, step, i),
    )
}

/// The particles that a systematic sampler picks, as many as there are.
pub fn picks(cum: &[Single], u0: Single, step: Single) -> (r: Vec<usize>)
    requires
        cum@.len() > 0,
    ensures
        r@.len() == cum@.len(),
        forall|i: int| 0 <= i < r@.len() ==> #[trigger] r@[i] == pick(cum@, u0, step, i),
        forall|i: int| 0 <= i < r@.len() ==> #[trigger] r@[i] < cum@.len(),
{
    let n = cum.len();
    let mut out: Vec<usize> = Vec::new();
    let mut k: usize = 0;
    let mut i: usize = 0;
    while i < n
        invariant
            n == cum@.len(),
            n > 0,
            i <= n,
            k < n,
            i == 0 ==> k == 0,
            i > 0 ==> k == pick(cum@, u0, step, i - 1),
            out@.len() == i,
            forall|t: int| 0 <= t < i ==> #[trigger] out@[t] == pick(cum@, u0, step, t),
            forall|t: int| 0 <= t < i ==> #[trigger] out@[t] < n,
        decreases n - i,
    {
        let u = u0.add(Single::from_u64(i as u64).mul(step));
        let ghost start = k as int;
        while k < n - 1 && cum[k].lt(u)
            invariant
                n == cum@.len(),
                start <= k < n,
                advanced(cum@, k as int, u) == advanced(cum@, start, u),
            decreases n - k,
        {
            k = k + 1;
        }
        assert(k == pick(cum@, u0, step, i as int));
        out.push(k);
        i = i + 1;
    }
    out
}

/// The sampler walks the cloud once, from front to back.
pub proof fn law_picks_in_order(cum: Seq<Single>, u0: Single, step: Single, i: int)
    requires
        cum.len() > 0,
        i >= 0,
    ensures
        0 <= pick(cum, u0, step, i) < cum.len(),
        pick(cum, u0, step, i) <= pick(cum, u0, step, i + 1),
    decreases i,
{
    if i > 0 {
        law_picks_in_order(cum, u0, step, i - 1);
    }
    let from = if i <= 0 {
        0
    } else {
        pick(cum, u0, step, i - 1)
    };
    lemma_advanced(cum, from, comb(u0, step, i));
    lemma_advanced(cum, pick(cum, u0, step, i), comb(u0, step, i + 1));
}

/// A walk stays in the cloud and never goes back; it stops where the running
/// sum reaches the target.
proof fn lemma_advanced(cum: Seq<Single>, k: int, u: Single)
    requires
        0 <= k < cum.len(),
    ensures
        k <= advanced(cum, k, u) < cum.len(),
        advanced(cum, k, u) == cum.len() - 1 || !cum[advanced(cum, k, u)].below(u),
    decreases cum.len() - k,
{
    if k < cum.len() - 1 && cum[k].below(u) {
        lemma_advanced(cum, k + 1, u);
    }
}

} // verus!
