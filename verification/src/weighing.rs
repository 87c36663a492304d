//! What a scan does to the weights of a cloud, in exact numbers.
//!
//! Log-likelihoods are squared distances over twice the squared width, weights
//! are multiplied and scaled to a sum of one, and resampling takes particles at
//! even distances along the running sum.

use vstd::arithmetic::power2::{lemma2_to64, lemma_pow2_pos};
use vstd::prelude::*;
use crate::accuracy::{exact, law_negation_exact, law_product_error, law_quotient_error, law_root_error, law_sum_error, law_whole_is_exact, limit, slack, within};
use crate::arith::{absolute, lemma_absolute, one, unit, zero};
use crate::beams::Field;
use crate::candidates::{lemma_part, lemma_steps, lemma_two};
use crate::cells::lemma_fraction_exact;
use crate::cloud::{comb, effective_size, pick, running, squares, total, yaw_spread, MINUS_TWO_BITS, TINY_BITS};
use crate::conversion::rounded;
use crate::fit::{are_distances, least, lemma_product_not_negative, lemma_smaller};
use crate::mcl::{double_square, even, largest, log_likelihood, log_sum, share, LocalizerView, MclConfig};
use crate::motion::{lemma_larger, lemma_zero_exact, most};
use crate::pose::{lemma_binades, lemma_turned_product, Heading};
use crate::random::fraction;
use crate::ranging::lemma_below;
use crate::rounding::{law_nearest_exists, nearest};
use crate::sampling::{cell_is, lemma_inverse, lemma_one_exact, lemma_ordered};
use crate::single::{Single, TWO_BITS};
use crate::statistics::law_pick_is_first;
use crate::turning::{lemma_commutes, lemma_distributes, lemma_negated, lemma_plain, lemma_shortened, lemma_sign, product, squared};

verus! {

// ---- Likelihoods ------------------------------------------------------------

/// Sum of the squares of the first `n` distances, each held to at most `clamp`.
pub open spec fn held_squares(d: Seq<Single>, clamp: Single, n: int) -> real
    decreases n,
{
    if n <= 0 {
        0 as real
    } else {
        held_squares(d, clamp, n - 1) + squared(least(exact(d[n - 1]), exact(clamp)))
    }
}

/// One term of a log-likelihood.
proof fn lemma_log_term(h: Single, width: Single, q: nat)
    requires
        h.finite(),
        0 as real <= exact(h) <= 4 as real,
        cell_is(width, q),
        q <= 16,
    ensures
        ({
            let t = h.times(h).negated().over(width);
            &&& t.finite()
            &&& -limit(q + 5) <= exact(t) <= limit(q + 5)
            &&& within(product(exact(t), exact(width)), -squared(exact(h)), 5 as real * slack(4))
        }),
{
    let (x, w, n) = (exact(h), exact(width), (q + 5) as nat);
    lemma2_to64();
    lemma_binades(q);
    assert(0 as real <= x * x <= 16 as real) by (nonlinear_arith)
        requires
            0 as real <= x <= 4 as real,
    ;
    assert(squared(x) == x * x) by {
        reveal(product);
    }
    law_product_error(h, h, 4);
    let s = h.times(h);
    law_negation_exact(s);
    let a = s.negated();
    lemma_absolute(width);
    lemma_pow2_pos(149);
    if width.zero() {
        let o = one() as real;
        assert(0 as real / o == 0 as real) by (nonlinear_arith)
            requires
                o > 0 as real,
        ;
    }
    let r = exact(a) / w;
    assert(r * w == exact(a)) by (nonlinear_arith)
        requires
            r == exact(a) / w,
            w > 0 as real,
    ;
    assert(limit(q) * w >= 1 as real && limit(q) * w <= 2 as real) by {
        reveal(product);
    }
    let l = limit(q);
    assert(-(17 as real * l) <= r <= 17 as real * l) by (nonlinear_arith)
        requires
            -(17 as real) <= r * w <= 17 as real,
            l * w >= 1 as real,
            w > 0 as real,
    {
        assert((17 as real * l) * w >= 17 as real);
        assert(r * w <= (17 as real * l) * w);
        assert(-(17 as real * l) * w <= r * w);
    }
    law_quotient_error(a, width, n);
    let t = exact(a.over(width));
    let e = slack(n);
    lemma_ordered(r - e, t, w);
    lemma_ordered(t, r + e, w);
    lemma_distributes(w, r, e);
    lemma_distributes(w, r, -e);
    lemma_negated(e, w);
    assert(product(r, w) == exact(a)) by {
        reveal(product);
    }
    assert(product(e, w) <= 4 as real * slack(4)) by {
        reveal(product);
        assert(e * w <= 64 as real / 33_554_432 as real) by (nonlinear_arith)
            requires
                e == 32 as real * l / 33_554_432 as real,
                l * w <= 2 as real,
                w > 0 as real,
        ;
    }
    lemma_log_bound(a, width, r, q);
}

/// The quotient is at most what it rounds from, and a little.
proof fn lemma_log_bound(a: Single, width: Single, r: real, q: nat)
    requires
        within(exact(a.over(width)), r, slack((q + 5) as nat)),
        -(17 as real * limit(q)) <= r <= 17 as real * limit(q),
    ensures
        -limit(q + 5) <= exact(a.over(width)) <= limit(q + 5),
{
    lemma_binades(q);
}

/// The sum of the terms.
proof fn lemma_log_sum(d: Seq<Single>, clamp: Single, width: Single, n: int, k: nat, q: nat)
    requires
        are_distances(d),
        clamp.finite(),
        0 as real <= exact(clamp) <= 4 as real,
        cell_is(width, q),
        q <= 16,
        0 <= n <= d.len(),
        k <= 80,
        product(n as real, limit(q + 5) + slack(k)) <= limit(k),
    ensures
        log_sum(d, clamp, width, n).finite(),
        within(
            exact(log_sum(d, clamp, width, n)),
            0 as real,
            product(n as real, limit(q + 5) + slack(k)),
        ),
        within(
            product(exact(log_sum(d, clamp, width, n)), exact(width)),
            -held_squares(d, clamp, n),
            product(n as real, 6 as real * slack(4) + product(slack(k), exact(width))),
        ),
    decreases n,
{
    let (w, t) = (exact(width), slack(k));
    let bound = limit(q + 5) + t;
    let e = 6 as real * slack(4) + product(t, w);
    lemma_zero_exact();
    lemma_binades(k);
    lemma_binades(4);
    lemma_plain(bound);
    lemma_plain(e);
    lemma_plain(w);
    lemma_sign(t, w);
    lemma_pow2_pos(q + 5);
    if n > 0 {
        let m = n - 1;
        assert(n as real == m as real + 1 as real);
        lemma_distributes(bound, m as real, 1 as real);
        lemma_distributes(e, m as real, 1 as real);
        lemma_log_sum(d, clamp, width, m, k, q);
        assert(d[m].finite() && exact(d[m]) >= 0 as real);
        lemma_smaller(d[m], clamp);
        let h = d[m].smaller(clamp);
        lemma_log_term(h, width, q);
        let (a, b) = (log_sum(d, clamp, width, m), h.times(h).negated().over(width));
        law_sum_error(a, b, k);
        let (x, y, z) = (exact(a), exact(b), exact(a.plus(b)));
        lemma_ordered(x + y - t, z, w);
        lemma_ordered(z, x + y + t, w);
        lemma_distributes(w, x + y, t);
        lemma_distributes(w, x + y, -t);
        lemma_distributes(w, x, y);
        lemma_negated(t, w);
    }
}

/// The log-likelihood of a particle is minus the sum of its squared beam
/// distances, each held to the clamp, over twice the square of the beam width,
/// up to rounding.
pub proof fn law_likelihood(d: Seq<Single>, cfg: MclConfig, k: nat, q: nat)
    requires
        are_distances(d),
        d.len() > 0,
        cfg.beam_clamp_m.finite(),
        0 as real <= exact(cfg.beam_clamp_m) <= 4 as real,
        cfg.beam_sigma_m.finite(),
        0 as real <= exact(cfg.beam_sigma_m) <= 1 as real,
        cell_is(double_square(cfg.beam_sigma_m), q),
        q <= 16,
        k <= 80,
        product(d.len() as real, limit(q + 5) + slack(k)) <= limit(k),
    ensures
        ({
            let l = log_likelihood(d, cfg);
            let w = exact(double_square(cfg.beam_sigma_m));
            &&& l.finite()
            &&& within(
                product(exact(l), w),
                -held_squares(d, cfg.beam_clamp_m, d.len() as int),
                product(d.len() as real, 6 as real * slack(4) + product(slack(k), w)),
            )
            &&& within(w, 2 as real * squared(exact(cfg.beam_sigma_m)), 4 as real * slack(1))
        }),
{
    let s = cfg.beam_sigma_m;
    lemma_log_sum(d, cfg.beam_clamp_m, double_square(s), d.len() as int, k, q);
    lemma_two();
    lemma2_to64();
    let (x, two) = (exact(s), Single { bits: TWO_BITS });
    law_product_error(two, s, 1);
    let y = exact(two.times(s));
    let e = 2 as real / 33_554_432 as real;
    assert(squared(x) == x * x) by {
        reveal(product);
    }
    assert(-(4 as real) <= y * x <= 4 as real && -e <= y * x - 2 as real * (x * x) <= e)
        by (nonlinear_arith)
        requires
            0 as real <= x <= 1 as real,
            -e <= y - 2 as real * x <= e,
            e == 2 as real / 33_554_432 as real,
    ;
    law_product_error(two.times(s), s, 2);
}

/// The largest of finite numbers.
proof fn lemma_largest(v: Seq<Single>, b: int, n: int)
    requires
        0 <= b < v.len(),
        0 <= n <= v.len(),
        forall|t: int| 0 <= t < v.len() ==> (#[trigger] v[t]).finite(),
        forall|t: int| 0 <= t < v.len() ==> exact(#[trigger] v[t]) <= exact(v[b]),
    ensures
        n > 0 ==> largest(v, n).finite() && exact(largest(v, n)) <= exact(v[b]),
        b < n ==> exact(largest(v, n)) == exact(v[b]),
    decreases n,
{
    if n > 0 {
        lemma_largest(v, b, n - 1);
        let x = v[n - 1];
        assert(x.finite() && exact(x) <= exact(v[b]));
        if n == 1 {
            let none = Single { bits: crate::single::NEG_INFINITY_BITS };
            crate::single::law_order(none, x);
            assert(crate::mcl::largest(v, 0) == none);
            lemma_above_nothing(x);
        } else {
            lemma_larger(largest(v, n - 1), x);
        }
    }
}

/// Every number is above minus infinity.
proof fn lemma_above_nothing(x: Single)
    requires
        x.finite(),
    ensures
        (Single { bits: crate::single::NEG_INFINITY_BITS }).larger(x) == x,
{
    let none = Single { bits: crate::single::NEG_INFINITY_BITS };
    lemma_absolute(x);
    lemma_absolute(none);
    crate::rounding::lemma_magnitudes_ordered(x.magnitude(), none.magnitude());
}

/// The exponent of a particle's factor is how far its log-likelihood is below
/// the best one, times the temper; so the best particle keeps its weight and
/// all others lose, the more the worse they fit.
pub proof fn law_exponent(
    v: LocalizerView,
    f: Field,
    beams: Seq<Seq<Heading>>,
    ranges: Seq<Single>,
    b: int,
    i: int,
    k: nat,
)
    requires
        v.cfg.likelihood_temper.finite(),
        exact(v.cfg.likelihood_temper) > 0 as real,
        exact(v.cfg.likelihood_temper) <= 1 as real,
        0 <= b < v.particles.len(),
        0 <= i < v.particles.len(),
        k <= 80,
        forall|t: int|
            0 <= t < v.particles.len() ==> (#[trigger] v.log_likelihoods(f, beams, ranges)[t]).finite()
                && -limit(k) <= exact(v.log_likelihoods(f, beams, ranges)[t]) <= limit(k)
                && exact(v.log_likelihoods(f, beams, ranges)[t]) <= exact(
                v.log_likelihoods(f, beams, ranges)[b],
            ),
    ensures
        ({
            let l = v.log_likelihoods(f, beams, ranges);
            let e = exact(v.exponent(f, beams, ranges, i));
            within(
                e,
                product(exact(v.cfg.likelihood_temper), exact(l[i]) - exact(l[b])),
                6 as real * slack(k),
            )
        }),
{
    let l = v.log_likelihoods(f, beams, ranges);
    let t = v.cfg.likelihood_temper;
    lemma_zero_exact();
    lemma_binades(k);
    lemma_below(zero(), t);
    lemma_absolute(t);
    lemma_largest(l, b, l.len() as int);
    let top = largest(l, l.len() as int);
    assert(l[i].finite() && exact(l[i]) <= exact(l[b]) && -limit(k) <= exact(l[i]));
    assert(exact(l[b]) <= limit(k));
    law_negation_exact(top);
    law_sum_error(l[i], top.negated(), k + 1);
    let d = l[i].minus(top);
    crate::arith::law_commutes(d, t);
    lemma_turned_product(t, d, k + 2);
    lemma_shortened(exact(t), exact(d) - (exact(l[i]) - exact(l[b])), 2 as real * slack(k));
    lemma_distributes(exact(t), exact(l[i]) - exact(l[b]), exact(d) - (exact(l[i]) - exact(l[b])));
}

// ---- Weights ----------------------------------------------------------------

/// Sum of the first `n` numbers.
pub open spec fn sum_of(w: Seq<Single>, n: int) -> real
    decreases n,
{
    if n <= 0 {
        0 as real
    } else {
        sum_of(w, n - 1) + exact(w[n - 1])
    }
}

/// Sum of the squares of the first `n` numbers.
pub open spec fn squares_of(w: Seq<Single>, n: int) -> real
    decreases n,
{
    if n <= 0 {
        0 as real
    } else {
        squares_of(w, n - 1) + squared(exact(w[n - 1]))
    }
}

/// Weights: numbers from zero to one.
pub open spec fn are_weights(w: Seq<Single>) -> bool {
    forall|k: int|
        0 <= k < w.len() ==> (#[trigger] w[k]).finite() && 0 as real <= exact(w[k]) <= 1 as real
}

/// A computed sum of weights is their sum, and one of squares the sum of the
/// squares, up to rounding.
pub proof fn law_sums_of_weights(w: Seq<Single>, n: int, k: nat)
    requires
        are_weights(w),
        0 <= n <= w.len(),
        k <= 80,
        product(n as real, 1 as real + 2 as real * slack(k)) <= limit(k),
    ensures
        total(w, n).finite() && squares(w, n).finite(),
        within(exact(total(w, n)), sum_of(w, n), product(n as real, 2 as real * slack(k))),
        within(exact(squares(w, n)), squares_of(w, n), product(n as real, 2 as real * slack(k))),
        0 as real <= sum_of(w, n) <= n as real,
        0 as real <= squares_of(w, n) <= n as real,
    decreases n,
{
    let t = 2 as real * slack(k);
    lemma_zero_exact();
    lemma_binades(k);
    lemma_plain(t);
    lemma_plain(1 as real);
    lemma2_to64();
    if n > 0 {
        let m = n - 1;
        assert(n as real == m as real + 1 as real);
        lemma_distributes(t, m as real, 1 as real);
        lemma_distributes(n as real, 1 as real, t);
        lemma_distributes(m as real, 1 as real, t);
        lemma_commutes(n as real, 1 as real);
        lemma_commutes(m as real, 1 as real);
        lemma_plain(n as real);
        lemma_plain(m as real);
        lemma_product_not_negative(m as real, t);
        law_sums_of_weights(w, m, k);
        let x = w[m];
        assert(x.finite() && 0 as real <= exact(x) <= 1 as real);
        law_sum_error(total(w, m), x, k);
        let y = exact(x);
        assert(0 as real <= y * y <= 1 as real) by (nonlinear_arith)
            requires
                0 as real <= y <= 1 as real,
        ;
        assert(squared(y) == y * y) by {
            reveal(product);
        }
        law_product_error(x, x, 0);
        lemma_pow2_pos(k);
        lemma_binades(0);
        assert(slack(0) <= slack(k));
        law_sum_error(squares(w, m), x.times(x), k);
    }
}

/// The effective sample size is one over the sum of the squared weights: of
/// `n` even weights it is `n`, of one particle with all the weight one.
pub proof fn law_effective_size(w: Seq<Single>, q: nat)
    requires
        cell_is(squares(w, w.len() as int), q),
        q <= 16,
        exact(squares(w, w.len() as int)) >= exact(Single { bits: TINY_BITS }),
    ensures
        within(
            product(exact(effective_size(w)), exact(squares(w, w.len() as int))),
            1 as real,
            2 as real * slack(0),
        ),
{
    let (s, tiny) = (squares(w, w.len() as int), Single { bits: TINY_BITS });
    lemma_below(s, tiny);
    lemma_inverse(s, q);
}

/// Weights are multiplied by their factors and then scaled to a sum of one: a
/// new weight is its part of the sum of all products.
pub proof fn law_reweighted(v: LocalizerView, factors: Seq<Single>, i: int)
    requires
        0 <= i < v.weights.len(),
        v.weights[i].finite() && factors[i].finite(),
        0 as real <= exact(v.weights[i]) <= 1 as real,
        0 as real <= exact(factors[i]) <= 1 as real,
        ({
            let p = v.products(factors);
            let s = total(p, p.len() as int);
            s.finite() && exact(s) > 0 as real && 0 as real <= exact(p[i]) <= exact(s)
        }),
    ensures
        ({
            let p = v.products(factors);
            let s = exact(total(p, p.len() as int));
            &&& within(
                product(exact(v.reweighted(factors).weights[i]), s),
                exact(p[i]),
                product(slack(0), s),
            )
            &&& within(
                exact(p[i]),
                product(exact(v.weights[i]), exact(factors[i])),
                slack(0),
            )
        }),
{
    let p = v.products(factors);
    let total = total(p, p.len() as int);
    let s = exact(total);
    lemma_zero_exact();
    lemma_below(zero(), total);
    lemma_absolute(total);
    lemma2_to64();
    lemma_turned_product(v.weights[i], factors[i], 0);
    let x = exact(p[i]);
    let r = x / s;
    assert(0 as real <= r <= 1 as real && r * s == x) by (nonlinear_arith)
        requires
            r == x / s,
            0 as real <= x <= s,
            s > 0 as real,
    ;
    law_quotient_error(p[i], total, 0);
    let (y, e) = (exact(p[i].over(total)), slack(0));
    lemma_ordered(r - e, y, s);
    lemma_ordered(y, r + e, s);
    lemma_distributes(s, r, e);
    lemma_distributes(s, r, -e);
    lemma_negated(e, s);
    assert(product(r, s) == x) by {
        reveal(product);
    }
}

// ---- Resampling -------------------------------------------------------------

/// Resampling is systematic: particle `i` of the new cloud is the first one
/// whose running sum is not below a target, and the targets stand at even
/// distances, target `i` at `i` and the drawn fraction of the `n` parts of the
/// whole weight.
pub proof fn law_resampling_is_systematic(v: LocalizerView, word: u32, i: int) -> (at: (
    int,
    Single,
))
    requires
        v.particles.len() == v.weights.len(),
        0 <= i < v.weights.len() <= 0x10_0000,
        ({
            let acc = total(v.weights, v.weights.len() as int);
            acc.finite() && exact(acc) > 0 as real && exact(acc) <= 2 as real
        }),
    ensures
        ({
            let n = v.weights.len() as real;
            let acc = exact(total(v.weights, v.weights.len() as int));
            let cum = running(v.weights);
            &&& 0 <= at.0 < v.particles.len()
            &&& v.resampled(word).particles[i] == v.particles[at.0]
            &&& at.0 > 0 && (i == 0) ==> cum[at.0 - 1].below(at.1)
            &&& at.0 < cum.len() - 1 ==> !cum[at.0].below(at.1)
            &&& within(
                product(n, exact(at.1)),
                product(i as real + exact(fraction(word)), acc),
                product(n, product((i + 9) as real, slack(1))),
            )
        }),
{
    let len = v.weights.len() as int;
    let total = total(v.weights, len);
    let (n, ir, acc, e) = (len as real, i as real, exact(total), slack(1));
    let cum = running(v.weights);
    lemma_zero_exact();
    lemma_below(zero(), total);
    lemma2_to64();
    law_whole_is_exact(len);
    law_whole_is_exact(i);
    lemma_part(1 as real, n, acc);
    lemma_plain(acc / n);
    law_quotient_error(total, rounded(len), 1);
    let step = total.over(rounded(len));
    let f = fraction(word);
    let fr = exact(f);
    lemma_fraction_exact(word);
    // the offset
    let st = exact(step);
    lemma_part(fr, n, acc);
    lemma_shortened(fr, st, 3 as real);
    assert(product(fr, st) == fr * st && product(ir, st) == ir * st) by {
        reveal(product);
    }
    law_product_error(f, step, 2);
    let u0 = f.times(step);
    lemma_steps(n, fr, acc, st, e);
    lemma_steps(n, ir, acc, st, e);
    lemma_part(ir, n, acc);
    assert(product(ir, e) <= 1 as real / 16 as real && product(fr, e) <= e) by {
        reveal(product);
        assert(ir * e <= 1 as real / 16 as real && fr * e <= e) by (nonlinear_arith)
            requires
                0 as real <= ir <= 1_048_576 as real,
                0 as real <= fr <= 1 as real,
                e == 2 as real / 33_554_432 as real,
        ;
    }
    law_product_error(rounded(i), step, 2);
    law_sum_error(u0, rounded(i).times(step), 3);
    let target = comb(u0, step, i);
    law_pick_is_first(cum, u0, step, i);
    let r = pick(cum, u0, step, i);
    // the target
    let (a, b) = (product(fr, acc / n), product(ir, acc / n));
    let y = exact(target);
    let tol = product(ir, e) + 9 as real * e;
    assert(within(y, a + b, tol));
    lemma_ordered(a + b - tol, y, n);
    lemma_ordered(y, a + b + tol, n);
    lemma_distributes(n, a + b, tol);
    lemma_distributes(n, a + b, -tol);
    lemma_distributes(n, a, b);
    lemma_negated(n, tol);
    lemma_distributes(acc, ir, fr);
    lemma_distributes(e, ir, 9 as real);
    assert(product(9 as real, e) == 9 as real * e) by {
        reveal(product);
    }
    assert((i + 9) as real == ir + 9 as real);
    (r, target)
}

/// Even weights: each of `n` is one `n`-th.
pub proof fn law_even_weights(n: nat, k: int)
    requires
        0 <= k < n,
        n < 0x100_0000,
    ensures
        even(n).len() == n,
        within(product(n as real, exact(even(n)[k])), 1 as real, product(n as real, slack(0))),
{
    lemma2_to64();
    lemma_one_exact();
    law_whole_is_exact(n as int);
    let r = 1 as real / n as real;
    lemma_part(1 as real, n as real, 1 as real);
    lemma_plain(r);
    law_quotient_error(unit(), rounded(n as int), 0);
    lemma_steps(n as real, 1 as real, 1 as real, exact(even(n)[k]), slack(0));
    lemma_plain(exact(even(n)[k]));
    lemma_plain(slack(0));
    lemma_plain(1 as real);
}

/// The spread of yaws: its square is minus twice the logarithm of how far the
/// headings agree, up to rounding.
pub proof fn law_yaw_spread(n: int, r: Single, ln_r: Single)
    requires
        n >= 2,
        r.finite() && ln_r.finite(),
        exact(r) < 1 as real,
        -(1 as real) <= exact(ln_r) <= 0 as real,
    ensures
        within(
            squared(exact(yaw_spread(n, r, ln_r))),
            -(2 as real * exact(ln_r)),
            slack(4) + slack(1),
        ),
{
    let two = Single { bits: TWO_BITS };
    let minus = Single { bits: MINUS_TWO_BITS };
    lemma_one_exact();
    lemma_two();
    lemma2_to64();
    lemma_below(r, unit());
    law_negation_exact(two);
    assert(two.negated() == minus);
    let x = exact(ln_r);
    law_product_error(minus, ln_r, 1);
    let p = minus.times(ln_r);
    lemma_not_below(p, minus, ln_r);
    law_root_error(p);
    let s = exact(p.root());
    assert(squared(s) == s * s) by {
        reveal(product);
    }
}

/// A product of two numbers below zero.
proof fn lemma_not_below(p: Single, a: Single, b: Single)
    requires
        p == a.times(b),
        a.finite() && b.finite() && p.finite(),
        exact(a) < 0 as real,
        exact(b) <= 0 as real,
    ensures
        exact(p) >= 0 as real,
{
    reveal(Single::times);
    lemma_pow2_pos(149);
    let o = one();
    let (x, y) = (a.value(), b.value());
    assert(x < 0 && y <= 0) by (nonlinear_arith)
        requires
            (x as real / o as real) < 0 as real,
            (y as real / o as real) <= 0 as real,
            o > 0,
    ;
    let n = absolute(x) * absolute(y);
    law_nearest_exists(n, o);
    lemma_absolute(p);
    lemma_absolute(b);
    assert(crate::single::magnitude_value(0) == 0);
    crate::rounding::lemma_magnitudes_ordered(0, p.magnitude());
    if y == 0 {
        assert(n == 0) by (nonlinear_arith)
            requires
                n == absolute(x) * 0,
        ;
        lemma_nothing_rounds(o);
        assert(p.value() == 0);
    }
    let v = p.value() as real;
    assert(v / o as real >= 0 as real) by (nonlinear_arith)
        requires
            v >= 0 as real,
            o > 0,
    ;
}

/// Nothing rounds to nothing.
pub proof fn lemma_nothing_rounds(den: int)
    requires
        den > 0,
    ensures
        nearest(0, den) == 0,
{
    law_nearest_exists(0, den);
    assert(crate::single::magnitude_value(0) == 0);
    crate::rounding::lemma_magnitudes_ordered(0, 1);
    assert(0 * den == 0);
    let m = nearest(0, den);
    if m > 0 {
        crate::rounding::lemma_magnitudes_ordered(0, m);
        crate::rounding::lemma_magnitudes_ordered(0, m - 1);
        let mid = crate::single::magnitude_value(m - 1) + crate::single::magnitude_value(m);
        assert(mid * den > 0) by (nonlinear_arith)
            requires
                mid > 0,
                den > 0,
        ;
    }
}

/// A part of a number of particles is rounded down, and never more than all of
/// them nor less than none.
pub proof fn law_share(n: int, part: Single)
    requires
        0 <= n <= 0x1_0000,
        part.finite(),
    ensures
        ({
            let p = if exact(part) < 0 as real {
                0 as real
            } else if exact(part) > 1 as real {
                1 as real
            } else {
                exact(part)
            };
            let s = share(n, part) as real;
            &&& s <= product(n as real, p) + slack(16)
            &&& s > product(n as real, p) - 1 as real - slack(16)
        }),
{
    let held = part.held(zero(), unit());
    lemma_zero_exact();
    lemma_one_exact();
    lemma_below(part, zero());
    lemma_below(unit(), part);
    lemma2_to64();
    law_whole_is_exact(n);
    let (x, y) = (n as real, exact(held));
    assert(0 as real <= x * y <= 65_536 as real) by (nonlinear_arith)
        requires
            0 as real <= x <= 65_536 as real,
            0 as real <= y <= 1 as real,
    ;
    assert(product(x, y) == x * y) by {
        reveal(product);
    }
    law_product_error(rounded(n), held, 16);
    lemma_whole_part(rounded(n).times(held));
}

/// A number rounded toward zero.
proof fn lemma_whole_part(a: Single)
    requires
        a.finite(),
        -(1 as real) < exact(a),
        exact(a) <= 4_194_304 as real,
    ensures
        a.as_usize() as real <= exact(a) || a.as_usize() == 0,
        exact(a) < a.as_usize() as real + 1 as real,
{
    reveal(Single::as_usize);
    lemma_absolute(a);
    lemma_pow2_pos(149);
    let (v, o) = (a.value(), one());
    assert(-o < v <= 4_194_304 * o) by (nonlinear_arith)
        requires
            -(1 as real) < v as real / o as real,
            v as real / o as real <= 4_194_304 as real,
            o > 0,
    ;
    let w = absolute(v) / o;
    vstd::arithmetic::div_mod::lemma_fundamental_div_mod(absolute(v), o);
    vstd::arithmetic::div_mod::lemma_mod_bound(absolute(v), o);
    assert(0 <= w <= 4_194_304) by (nonlinear_arith)
        requires
            0 <= absolute(v) <= 4_194_304 * o,
            absolute(v) == o * w + absolute(v) % o,
            0 <= absolute(v) % o < o,
            o > 0,
    ;
    if a.negative() {
        assert(v as real / o as real <= 0 as real) by (nonlinear_arith)
            requires
                v <= 0,
                o > 0,
        ;
    } else {
        assert(a.as_usize() == w);
        assert(w as real <= v as real / o as real && v as real / o as real - 1 as real <= w as real
            && v as real / o as real != w as real + 1 as real) by (nonlinear_arith)
            requires
                v == o * w + v % o,
                0 <= v % o < o,
                o > 0,
        ;
    }
}

/// Resampling is due once the grace period is over and the effective sample size
/// is below the set part of the number of particles.
pub proof fn law_resampling_due(v: LocalizerView, k: nat)
    requires
        0 <= v.particles.len() < 0x100_0000,
        v.cfg.resample_ess_frac.finite(),
        -(1 as real) <= exact(v.cfg.resample_ess_frac) <= 1 as real,
        effective_size(v.weights).finite(),
        v.particles.len() as real <= limit(k),
        k <= 24,
    ensures
        ({
            let part = product(exact(v.cfg.resample_ess_frac), v.particles.len() as real);
            let size = exact(effective_size(v.weights));
            &&& v.resampling_due() ==> v.updates > v.cfg.min_updates_before_resample && size < part
                + slack(k)
            &&& v.updates > v.cfg.min_updates_before_resample && size < part - slack(k)
                ==> v.resampling_due()
        }),
{
    let n = rounded(v.particles.len() as int);
    law_whole_is_exact(v.particles.len() as int);
    lemma_turned_product(v.cfg.resample_ess_frac, n, k);
    lemma_below(effective_size(v.weights), v.cfg.resample_ess_frac.times(n));
}

} // verus!
