//! Which poses a search looks at.
//!
//! The coarse pass takes every cell of a stride and yaws all the way round; the
//! refinement takes the cells of a window and yaws on both sides of the best.

use vstd::arithmetic::power2::{lemma2_to64, pow2};
use vstd::prelude::*;
use crate::accuracy::{exact, law_negation_exact, law_product_error, law_quotient_error, law_sum_error, law_whole_is_exact, limit, slack, within};
use crate::beams::{beams_at, Field};
use crate::cells::law_centres;
use crate::conversion::{rounded, PI_BITS, TWO_PI_BITS};
use crate::pose::Heading;
use crate::relocalize::{at_least_one, coarse, coarse_yaw, fine, refine_step, refine_yaw, strided, window, RelocalizeConfig, RelocalizeResult};
use crate::sampling::{cell_is, lemma_ordered};
use crate::single::{magnitude_value, Single, TWO_BITS};
use crate::turning::{lemma_associates, lemma_commutes, lemma_distributes, lemma_negated, lemma_plain, lemma_turn_numbers, product};

verus! {

/// A stride visits exactly its multiples: with a stride of one every index, and
/// from any index the one visited last is less than a stride back.
pub proof fn law_stride_visits_multiples(n: int, stride: int, x: usize)
    requires
        0 <= n <= usize::MAX,
        stride >= 1,
    ensures
        strided(n, stride).contains(x) <==> x < n && x as int % stride == 0,
{
    let s = strided(n, stride);
    let m = (n + stride - 1) / stride;
    vstd::arithmetic::div_mod::lemma_fundamental_div_mod(n + stride - 1, stride);
    vstd::arithmetic::div_mod::lemma_mod_bound(n + stride - 1, stride);
    assert(m >= 0) by (nonlinear_arith)
        requires
            n + stride - 1 == stride * m + (n + stride - 1) % stride,
            0 <= (n + stride - 1) % stride < stride,
            n >= 0,
            stride >= 1,
    ;
    if s.contains(x) {
        let k = choose|k: int| 0 <= k < s.len() && s[k] == x;
        assert(0 <= k * stride < n) by (nonlinear_arith)
            requires
                0 <= k < m,
                n + stride - 1 == stride * m + (n + stride - 1) % stride,
                0 <= (n + stride - 1) % stride < stride,
                stride >= 1,
        ;
        assert(x as int == k * stride);
        vstd::arithmetic::div_mod::lemma_mod_multiples_basic(k, stride);
    }
    if x < n && x as int % stride == 0 {
        let k = x as int / stride;
        vstd::arithmetic::div_mod::lemma_fundamental_div_mod(x as int, stride);
        assert(0 <= k < m && k * stride == x as int) by (nonlinear_arith)
            requires
                x as int == stride * k,
                0 <= x < n,
                n + stride - 1 == stride * m + (n + stride - 1) % stride,
                0 <= (n + stride - 1) % stride < stride,
                stride >= 1,
        ;
        assert(s[k] == x);
    }
}

/// A window holds exactly the indices that are at most its radius away.
pub proof fn law_window_holds_neighbours(c: int, radius: int, n: int, x: usize)
    requires
        0 <= c,
        0 <= radius,
        0 <= n <= usize::MAX,
    ensures
        window(c, radius, n).contains(x) <==> x < n && c - radius <= x <= c + radius,
{
    let s = window(c, radius, n);
    let lo = if c - radius < 0 {
        0
    } else {
        c - radius
    };
    if s.contains(x) {
        let k = choose|k: int| 0 <= k < s.len() && s[k] == x;
        assert(s[k] == (lo + k) as usize);
    }
    if x < n && c - radius <= x <= c + radius {
        assert(s[x - lo] == x);
    }
}

/// A product with a quotient that is a little off.
pub proof fn lemma_steps(n: real, k: real, total: real, step: real, e: real)
    requires
        n > 0 as real,
        0 as real <= k,
        within(step, total / n, e),
    ensures
        within(product(n, product(k, step)), product(k, total), product(n, product(k, e))),
        within(product(k, step), product(k, total / n), product(k, e)),
        product(n, product(k, total / n)) == product(k, total),
{
    let r = total / n;
    assert(n * r == total) by (nonlinear_arith)
        requires
            r == total / n,
            n > 0 as real,
    ;
    assert(product(n, r) == total) by {
        reveal(product);
    }
    lemma_associates(n, k, r);
    lemma_associates(k, n, r);
    lemma_commutes(n, k);
    lemma_ordered(r - e, step, k);
    lemma_ordered(step, r + e, k);
    lemma_distributes(k, r, e);
    lemma_distributes(k, r, -e);
    lemma_negated(k, e);
    let (a, b, d) = (product(k, step), product(k, r), product(k, e));
    lemma_ordered(b - d, a, n);
    lemma_ordered(a, b + d, n);
    lemma_distributes(n, b, d);
    lemma_distributes(n, b, -d);
    lemma_negated(n, d);
}

/// Factors of at most one part of a whole.
pub proof fn lemma_part(k: real, n: real, total: real)
    requires
        0 as real <= k <= n,
        n > 0 as real,
        0 as real <= total,
    ensures
        0 as real <= product(k, total / n) <= total,
        0 as real <= total / n,
{
    reveal(product);
    let r = total / n;
    assert(0 as real <= r && 0 as real <= k * r <= total) by (nonlinear_arith)
        requires
            r == total / n,
            n > 0 as real,
            0 as real <= k <= n,
            0 as real <= total,
    ;
}

/// The coarse yaws go once round from minus pi: bin `k` of `n` is `k / n` of a
/// turn on, up to rounding.
pub proof fn law_coarse_yaws_go_round(cfg: RelocalizeConfig, k: int)
    requires
        0 <= k < at_least_one(cfg.coarse_yaw_bins) <= 0x10_0000,
    ensures
        ({
            let n = at_least_one(cfg.coarse_yaw_bins) as real;
            let (pi, turn) = (
                exact(Single { bits: PI_BITS }),
                exact(Single { bits: TWO_PI_BITS }),
            );
            within(
                product(n, exact(coarse_yaw(cfg, k)) + pi),
                product(k as real, turn),
                product(n, product((k + 3) as real, slack(3))),
            )
        }),
{
    let bins = at_least_one(cfg.coarse_yaw_bins);
    let (n, kr) = (bins as real, k as real);
    let (p, t) = (Single { bits: PI_BITS }, Single { bits: TWO_PI_BITS });
    let (pi, turn, e) = (exact(p), exact(t), slack(3));
    lemma_turn_numbers();
    lemma2_to64();
    law_whole_is_exact(bins);
    law_whole_is_exact(k);
    let r = turn / n;
    lemma_part(1 as real, n, turn);
    lemma_plain(r);
    law_quotient_error(t, rounded(bins), 3);
    let step = t.over(rounded(bins));
    lemma_steps(n, kr, turn, exact(step), e);
    lemma_part(kr, n, turn);
    // a million steps of rounding are less than a half
    assert(product(kr, e) <= 1 as real / 2 as real) by {
        reveal(product);
        assert(kr * e <= 1 as real / 2 as real) by (nonlinear_arith)
            requires
                0 as real <= kr <= 1_048_576 as real,
                e == 8 as real / 33_554_432 as real,
        ;
    }
    assert(product(kr, exact(step)) == kr * exact(step)) by {
        reveal(product);
    }
    law_product_error(rounded(k), step, 3);
    law_negation_exact(p);
    law_sum_error(p.negated(), rounded(k).times(step), 3);
    let y = exact(coarse_yaw(cfg, k)) + pi;
    let (x, f) = (product(kr, exact(step)), 2 as real * e);
    assert(within(y, x, f));
    lemma_ordered(x - f, y, n);
    lemma_ordered(y, x + f, n);
    lemma_distributes(n, x, f);
    lemma_distributes(n, x, -f);
    lemma_negated(n, f);
    lemma_distributes(e, kr, 3 as real);
    assert(product(3 as real, e) == 3 as real * e) by {
        reveal(product);
    }
    assert((k + 3) as real == kr + 3 as real);
    lemma_distributes(n, product(kr, e), 3 as real * e);
    lemma_ordered(f, 3 as real * e, n);
}

/// The refinement yaws lie on both sides of the best one: bin `k` of `n` is
/// `k / (n - 1)` of the way from `half` below it to `half` above it.
pub proof fn law_refine_yaws_on_both_sides(cfg: RelocalizeConfig, yaw: Single, k: int)
    requires
        2 <= cfg.refine_yaw_bins <= 0x10_0000,
        0 <= k < cfg.refine_yaw_bins,
        yaw.finite() && cfg.refine_yaw_half_rad.finite(),
        -(4 as real) <= exact(yaw) <= 4 as real,
        0 as real <= exact(cfg.refine_yaw_half_rad) <= 3 as real,
    ensures
        ({
            let n = (cfg.refine_yaw_bins - 1) as real;
            let half = exact(cfg.refine_yaw_half_rad);
            within(
                product(n, exact(refine_yaw(cfg, yaw, k)) - (exact(yaw) - half)),
                product(k as real, 2 as real * half),
                product(n, product((2 * k + 8) as real, slack(3))),
            )
        }),
{
    let m = cfg.refine_yaw_bins - 1;
    let (n, kr) = (m as real, k as real);
    let h = cfg.refine_yaw_half_rad;
    let (half, e) = (exact(h), slack(3));
    lemma2_to64();
    lemma_two();
    law_whole_is_exact(m);
    law_whole_is_exact(k);
    let two = Single { bits: TWO_BITS };
    law_product_error(two, h, 3);
    let w = two.times(h);
    lemma_part(1 as real, n, 2 as real * half);
    lemma_plain((2 as real * half) / n);
    let (a, b) = (exact(w) / n, (2 as real * half) / n);
    assert(-e <= a - b <= e) by (nonlinear_arith)
        requires
            a == exact(w) / n,
            b == (2 as real * half) / n,
            -e <= exact(w) - 2 as real * half <= e,
            n >= 1 as real,
    ;
    law_quotient_error(w, rounded(m), 3);
    let step = w.over(rounded(m));
    assert(step == refine_step(cfg));
    let d = 2 as real * e;
    lemma_steps(n, kr, 2 as real * half, exact(step), d);
    lemma_part(kr, n, 2 as real * half);
    assert(product(kr, d) <= 1 as real) by {
        reveal(product);
        assert(kr * d <= 1 as real) by (nonlinear_arith)
            requires
                0 as real <= kr <= 1_048_576 as real,
                d == 16 as real / 33_554_432 as real,
        ;
    }
    assert(product(kr, exact(step)) == kr * exact(step)) by {
        reveal(product);
    }
    law_product_error(rounded(k), step, 3);
    law_negation_exact(h);
    law_sum_error(yaw, h.negated(), 3);
    law_sum_error(yaw.minus(h), rounded(k).times(step), 4);
    let y = exact(refine_yaw(cfg, yaw, k)) - (exact(yaw) - half);
    let (x, f) = (product(kr, exact(step)), 4 as real * e);
    assert(within(y, x, f));
    lemma_ordered(x - f, y, n);
    lemma_ordered(y, x + f, n);
    lemma_distributes(n, x, f);
    lemma_distributes(n, x, -f);
    lemma_negated(n, f);
    lemma_distributes(e, 2 as real * kr, 8 as real);
    assert(product(8 as real, e) == 8 as real * e && product(2 as real * kr, e) == product(kr, d))
        by {
        reveal(product);
        assert((2 as real * kr) * e == kr * (2 as real * e)) by (nonlinear_arith);
    }
    assert((2 * k + 8) as real == 2 as real * kr + 8 as real);
    lemma_distributes(n, product(kr, d), 8 as real * e);
    lemma_ordered(f, 8 as real * e, n);
}

pub proof fn lemma_two()
    ensures
        exact(Single { bits: TWO_BITS }) == 2 as real,
        (Single { bits: TWO_BITS }).finite(),
{
    let m = TWO_BITS as int;
    assert(m / 0x80_0000 == 128 && m % 0x80_0000 == 0);
    assert(magnitude_value(m) == 0x80_0000 * vstd::arithmetic::power2::pow2(127));
    vstd::arithmetic::power2::lemma_pow2_adds(23, 127);
    vstd::arithmetic::power2::lemma_pow2_adds(1, 149);
    vstd::arithmetic::power2::lemma_pow2_pos(149);
    lemma2_to64();
    let (v, o) = ((Single { bits: TWO_BITS }).value() as real, crate::arith::one() as real);
    assert(v / o == 2 as real) by (nonlinear_arith)
        requires
            v == 2 as real * o,
            o > 0 as real,
    ;
}

/// The coarse pass covers the whole grid: every row and every column that the
/// stride visits, and every coarse yaw.
pub proof fn law_coarse_pass_covers_the_grid<T: Fn(Single) -> Heading>(
    f: Field,
    trig: T,
    angles: Seq<Single>,
    ranges: Seq<Single>,
    cfg: RelocalizeConfig,
    x: usize,
    y: int,
)
    requires
        0 <= y < at_least_one(cfg.coarse_yaw_bins),
    ensures
        ({
            let s = coarse(f, trig, angles, ranges, cfg);
            let stride = at_least_one(cfg.coarse_xy_stride);
            &&& s.rows.contains(x) <==> x < f.h && x as int % stride == 0
            &&& s.cols.contains(x) <==> x < f.w && x as int % stride == 0
            &&& s.yaws.len() == at_least_one(cfg.coarse_yaw_bins)
            &&& s.yaws[y] == coarse_yaw(cfg, y)
            &&& s.beams[y] == beams_at(trig, s.yaws[y], angles)
            &&& s.ranges == ranges
            &&& s.cfg == cfg
        }),
{
    law_stride_visits_multiples(f.h as int, at_least_one(cfg.coarse_xy_stride), x);
    law_stride_visits_multiples(f.w as int, at_least_one(cfg.coarse_xy_stride), x);
}

/// The refinement looks around the best cell so far: at all rows and columns
/// that are at most the radius away from its own.
pub proof fn law_refinement_looks_around<T: Fn(Single) -> Heading>(
    f: Field,
    trig: T,
    angles: Seq<Single>,
    ranges: Seq<Single>,
    cfg: RelocalizeConfig,
    best: RelocalizeResult,
    i: int,
    j: int,
    x: usize,
    y: int,
    k: nat,
    q: nat,
)
    requires
        best.pose.0 == f.cfg.centre_x(j),
        best.pose.1 == f.cfg.centre_y(i),
        0 <= y < at_least_one(cfg.refine_yaw_bins),
        cell_is(f.cfg.cell, q),
        k + q <= 14,
        f.cfg.x_range.0.finite() && f.cfg.y_range.0.finite(),
        -limit(k) <= exact(f.cfg.x_range.0) <= limit(k),
        -limit(k) <= exact(f.cfg.y_range.0) <= limit(k),
        0 <= i < pow2((k + q) as nat),
        0 <= j < pow2((k + q) as nat),
    ensures
        ({
            let s = fine(f, trig, angles, ranges, cfg, best);
            let r = cfg.refine_xy_radius as int;
            &&& s.rows.contains(x) <==> x < f.h && i - r <= x <= i + r
            &&& s.cols.contains(x) <==> x < f.w && j - r <= x <= j + r
            &&& s.yaws.len() == at_least_one(cfg.refine_yaw_bins)
            &&& s.yaws[y] == refine_yaw(cfg, best.pose.2, y)
            &&& s.beams[y] == beams_at(trig, s.yaws[y], angles)
            &&& s.ranges == ranges
            &&& s.cfg == cfg
        }),
{
    law_centres(f.cfg, i, j, k, q);
    law_window_holds_neighbours(i, cfg.refine_xy_radius as int, f.h as int, x);
    law_window_holds_neighbours(j, cfg.refine_xy_radius as int, f.w as int, x);
}

} // verus!
