//! What the mean and the spread of a cloud are, in exact numbers.
//!
//! The spread is the root of the mean squared distance of the positions from
//! their mean; the weighted mean is where the weights balance.

use vstd::arithmetic::power2::lemma_pow2_pos;
use vstd::prelude::*;
use crate::accuracy::{exact, law_negation_exact, law_product_error, law_quotient_error, law_root_error_to, law_sum_error, law_whole_is_exact, limit, slack, within};
use crate::candidates::lemma_steps;
use crate::arith::{lemma_absolute, zero};
use crate::cloud::{coordinate_sums, position_spread, square_sum, total, weighted};
use crate::conversion::rounded;
use crate::matching::lemma_mean_sign;
use crate::mcl::mean_pose;
use crate::motion::{lemma_square_sign, lemma_sum_sign, lemma_zero_exact};
use crate::pose::{lemma_binades, lemma_turned_product, Heading, Pose2};
use crate::ranging::lemma_below;
use crate::sampling::{lemma_limits_multiply, lemma_ordered};
use crate::single::Single;
use crate::turning::{lemma_commutes, lemma_distributes, lemma_negated, lemma_plain, lemma_sign, product, squared};
use crate::weighing::{are_weights, law_sums_of_weights, sum_of};

verus! {

/// Positions of at most `2^m`.
pub open spec fn are_positions(p: Seq<Pose2>, m: nat) -> bool {
    forall|k: int|
        0 <= k < p.len() ==> (#[trigger] p[k]).0.finite() && p[k].1.finite() && -limit(m) <= exact(
            p[k].0,
        ) <= limit(m) && -limit(m) <= exact(p[k].1) <= limit(m)
}

/// Sum of the first `n` x coordinates.
pub open spec fn sum_x(p: Seq<Pose2>, n: int) -> real
    decreases n,
{
    if n <= 0 {
        0 as real
    } else {
        sum_x(p, n - 1) + exact(p[n - 1].0)
    }
}

/// Sum of the first `n` y coordinates.
pub open spec fn sum_y(p: Seq<Pose2>, n: int) -> real
    decreases n,
{
    if n <= 0 {
        0 as real
    } else {
        sum_y(p, n - 1) + exact(p[n - 1].1)
    }
}

/// Sum of the squared distances of the first `n` positions from `(x, y)`.
pub open spec fn squares_around(p: Seq<Pose2>, x: real, y: real, n: int) -> real
    decreases n,
{
    if n <= 0 {
        0 as real
    } else {
        squares_around(p, x, y, n - 1) + (squared(exact(p[n - 1].0) - x) + squared(
            exact(p[n - 1].1) - y,
        ))
    }
}

/// One more summand.
proof fn lemma_next(n: int, a: real)
    requires
        n > 0,
    ensures
        product(n as real, a) == product((n - 1) as real, a) + a,
{
    lemma_distributes(a, (n - 1) as real, 1 as real);
    lemma_plain(a);
    assert(n as real == (n - 1) as real + 1 as real);
}

/// The computed sums of coordinates.
proof fn lemma_sums(p: Seq<Pose2>, n: int, m: nat, k: nat)
    requires
        are_positions(p, m),
        0 <= n <= p.len(),
        k <= 80,
        product(n as real, limit(m) + slack(k)) <= limit(k),
    ensures
        ({
            let s = coordinate_sums(p, n);
            let e = product(n as real, slack(k));
            let b = product(n as real, limit(m));
            &&& s.0.finite() && s.1.finite()
            &&& within(exact(s.0), sum_x(p, n), e)
            &&& within(exact(s.1), sum_y(p, n), e)
            &&& -b <= sum_x(p, n) <= b
            &&& -b <= sum_y(p, n) <= b
        }),
    decreases n,
{
    let (l, t) = (limit(m), slack(k));
    lemma_zero_exact();
    lemma_binades(k);
    lemma_pow2_pos(m);
    lemma_plain(l);
    lemma_plain(t);
    lemma_distributes(n as real, l, t);
    if n > 0 {
        let j = n - 1;
        lemma_next(n, l);
        lemma_next(n, t);
        lemma_next(n, l + t);
        lemma_sums(p, j, m, k);
        let s = coordinate_sums(p, j);
        assert(p[j].0.finite());
        law_sum_error(s.0, p[j].0, k);
        law_sum_error(s.1, p[j].1, k);
    }
}

/// A computed mean.
proof fn lemma_mean(s: Single, total: real, n: int, m: nat, k: nat)
    requires
        0 < n < 0x1_0000,
        s.finite(),
        m <= 30,
        slack(k) <= limit(m),
        within(exact(s), total, product(n as real, slack(k))),
        -product(n as real, limit(m)) <= total <= product(n as real, limit(m)),
    ensures
        ({
            let mean = s.over(rounded(n));
            &&& mean.finite()
            &&& -(3 as real * limit(m)) <= exact(mean) <= 3 as real * limit(m)
            &&& within(
                product(n as real, exact(mean)),
                total,
                product(n as real, slack(k) + 2 as real * slack(m)),
            )
        }),
{
    let (x, r, t) = (n as real, exact(s), slack(k));
    lemma_binades(m);
    law_whole_is_exact(n);
    let b = 2 as real * limit(m);
    lemma_distributes(x, limit(m), limit(m));
    lemma_ordered(t, limit(m), x);
    let q = r / x;
    assert(-b <= q <= b) by {
        reveal(product);
        assert(-b <= q <= b) by (nonlinear_arith)
            requires
                q == r / x,
                -(x * b) <= r <= x * b,
                x > 0 as real,
        ;
    }
    law_quotient_error(s, rounded(n), m + 1);
    let e = 2 as real * slack(m);
    lemma_steps(x, 1 as real, r, exact(s.over(rounded(n))), e);
    lemma_plain(exact(s.over(rounded(n))));
    lemma_plain(e);
    lemma_plain(r);
    lemma_distributes(x, t, e);
}

/// One squared coordinate.
proof fn lemma_square_term(x: Single, mean: Single, m: nat)
    requires
        x.finite() && mean.finite(),
        m <= 30,
        -limit(m) <= exact(x) <= limit(m),
        -(3 as real * limit(m)) <= exact(mean) <= 3 as real * limit(m),
    ensures
        ({
            let d = x.minus(mean);
            let r = exact(x) - exact(mean);
            &&& d.times(d).finite()
            &&& exact(d.times(d)) >= 0 as real
            &&& within(exact(d.times(d)), squared(r), 68 as real * slack(2 * m))
            &&& 0 as real <= squared(r) <= 16 as real * limit(2 * m)
        }),
{
    let n = (2 * m) as nat;
    let (l, t) = (limit(m), slack(m));
    lemma_binades(m);
    lemma_binades(n);
    lemma_limits_multiply(m, m);
    assert(m + m == n);
    law_negation_exact(mean);
    law_sum_error(x, mean.negated(), m + 2);
    let d = x.minus(mean);
    let (a, r) = (exact(d), exact(x) - exact(mean));
    assert(squared(a) == a * a && squared(r) == r * r) by {
        reveal(product);
    }
    let e = a - r;
    assert(0 as real <= r * r <= 16 as real * (l * l)) by (nonlinear_arith)
        requires
            -(4 as real * l) <= r <= 4 as real * l,
    ;
    assert(-(36 as real * (t * l)) <= a * a - r * r <= 36 as real * (t * l)) by (nonlinear_arith)
        requires
            e == a - r,
            -(4 as real * t) <= e <= 4 as real * t,
            -(9 as real * l) <= a + r <= 9 as real * l,
            t > 0 as real,
            l > 0 as real,
    {
        assert(a * a - r * r == e * (a + r)) by (nonlinear_arith)
            requires
                e == a - r,
        ;
        let w = a + r;
        assert(-(36 as real * (t * l)) <= e * w <= 36 as real * (t * l)) by (nonlinear_arith)
            requires
                -(4 as real * t) <= e <= 4 as real * t,
                -(9 as real * l) <= w <= 9 as real * l,
                t > 0 as real,
                l > 0 as real,
        ;
    }
    assert(t * l == slack(n)) by (nonlinear_arith)
        requires
            t == l / 33_554_432 as real,
            slack(n) == (l * l) / 33_554_432 as real,
    ;
    law_product_error(d, d, n + 5);
    lemma_square_sign(d);
}

/// The computed sum of squares.
proof fn lemma_square_sum(p: Seq<Pose2>, mx: Single, my: Single, n: int, m: nat, k: nat)
    requires
        are_positions(p, m),
        mx.finite() && my.finite(),
        m <= 30,
        k <= 90,
        -(3 as real * limit(m)) <= exact(mx) <= 3 as real * limit(m),
        -(3 as real * limit(m)) <= exact(my) <= 3 as real * limit(m),
        0 <= n <= p.len(),
        product(n as real, 64 as real * limit(2 * m) + slack(k)) <= limit(k),
    ensures
        ({
            let s = square_sum(p, mx, my, n);
            let q = squares_around(p, exact(mx), exact(my), n);
            &&& s.finite()
            &&& exact(s) >= 0 as real
            &&& within(
                exact(s),
                q,
                product(n as real, 200 as real * slack(2 * m) + slack(k)),
            )
            &&& 0 as real <= q <= product(n as real, 32 as real * limit(2 * m))
        }),
    decreases n,
{
    let w = (2 * m) as nat;
    let (l, t, u) = (limit(w), slack(k), slack(w));
    let (top, off, half) = (64 as real * l + t, 200 as real * u + t, 32 as real * l);
    lemma_zero_exact();
    lemma_binades(k);
    lemma_binades(w);
    lemma_plain(top);
    lemma_plain(off);
    lemma_plain(half);
    if n > 0 {
        let j = n - 1;
        lemma_next(n, top);
        lemma_next(n, off);
        lemma_next(n, half);
        lemma_square_sum(p, mx, my, j, m, k);
        assert(p[j].0.finite());
        lemma_square_term(p[j].0, mx, m);
        lemma_square_term(p[j].1, my, m);
        let (dx, dy) = (p[j].0.minus(mx), p[j].1.minus(my));
        let (a, b) = (dx.times(dx), dy.times(dy));
        law_sum_error(a, b, w + 6);
        lemma_sum_sign(a, b);
        let s = square_sum(p, mx, my, j);
        lemma_ordered(half + off, top, j as real);
        lemma_distributes(j as real, half, off);
        law_sum_error(s, a.plus(b), k);
        lemma_sum_sign(s, a.plus(b));
    }
}

/// The spread of positions is their standard deviation: its square is the mean
/// of the squared distances from a point, and the point is the mean of the
/// positions, in x and in y on their own, up to rounding. Fewer than two
/// positions have no spread.
pub proof fn law_spread_is_standard_deviation(p: Seq<Pose2>, m: nat, k: nat, q: nat) -> (mean: (
    Single,
    Single,
))
    requires
        are_positions(p, m),
        2 <= p.len() < 0x1_0000,
        m <= 20,
        k <= 80,
        q <= 80,
        slack(k) <= limit(m),
        slack(q) <= limit(2 * m),
        product(p.len() as real, limit(m) + slack(k)) <= limit(k),
        product(p.len() as real, 64 as real * limit(2 * m) + slack(q)) <= limit(q),
    ensures
        ({
            let (n, len) = (p.len() as real, p.len() as int);
            let e = product(n, slack(k) + 2 as real * slack(m));
            &&& within(product(n, exact(mean.0)), sum_x(p, len), e)
            &&& within(product(n, exact(mean.1)), sum_y(p, len), e)
            &&& within(
                product(n, squared(exact(position_spread(p)))),
                squares_around(p, exact(mean.0), exact(mean.1), len),
                product(n, 520 as real * slack(2 * m) + slack(q)),
            )
        }),
{
    let (len, n, w) = (p.len() as int, p.len() as real, (2 * m) as nat);
    let s = coordinate_sums(p, len);
    lemma_sums(p, len, m, k);
    lemma_mean(s.0, sum_x(p, len), len, m, k);
    lemma_mean(s.1, sum_y(p, len), len, m, k);
    let (mx, my) = (s.0.over(rounded(len)), s.1.over(rounded(len)));
    lemma_square_sum(p, mx, my, len, m, q);
    let ss = square_sum(p, mx, my, len);
    let (t, around) = (exact(ss), squares_around(p, exact(mx), exact(my), len));
    lemma_binades(w);
    law_whole_is_exact(len);
    let (off, half) = (200 as real * slack(w) + slack(q), 32 as real * limit(w));
    lemma_distributes(n, half, off);
    let b = half + off;
    let v = t / n;
    assert(0 as real <= v <= b) by {
        reveal(product);
        assert(0 as real <= v <= b) by (nonlinear_arith)
            requires
                v == t / n,
                0 as real <= t <= n * b,
                n > 0 as real,
        ;
    }
    law_quotient_error(ss, rounded(len), w + 6);
    let var = ss.over(rounded(len));
    lemma_mean_sign(ss, rounded(len));
    assert(2 * (m + 3) == w + 6);
    lemma_var_bound(exact(var), v, w, m);
    law_root_error_to(var, m + 3);
    let r = exact(var.root());
    assert(squared(r) == r * r) by {
        reveal(product);
    }
    let e = 320 as real * slack(w);
    assert(within(squared(r), v, e));
    lemma_steps(n, 1 as real, t, squared(r), e);
    lemma_plain(squared(r));
    lemma_plain(e);
    lemma_plain(t);
    lemma_distributes(n, off, e);
    (mx, my)
}

/// The variance is small enough for its root.
proof fn lemma_var_bound(x: real, v: real, w: nat, m: nat)
    requires
        w == 2 * m,
        within(x, v, slack(w + 6)),
        v <= 32 as real * limit(w) + 200 as real * slack(w) + limit(w),
    ensures
        x <= limit((2 * (m + 3)) as nat),
{
    lemma_binades(w);
    assert(2 * (m + 3) == w + 6);
}

// ---- Weighted means ---------------------------------------------------------

/// Sum of the first `n` numbers, each times its weight.
pub open spec fn weighed_sum(x: Seq<real>, w: Seq<Single>, n: int) -> real
    decreases n,
{
    if n <= 0 {
        0 as real
    } else {
        weighed_sum(x, w, n - 1) + product(exact(w[n - 1]), x[n - 1])
    }
}

/// The x coordinates.
pub open spec fn all_x(p: Seq<Pose2>) -> Seq<real> {
    Seq::new(p.len(), |k: int| exact(p[k].0))
}

/// The y coordinates.
pub open spec fn all_y(p: Seq<Pose2>) -> Seq<real> {
    Seq::new(p.len(), |k: int| exact(p[k].1))
}

/// The computed weighted sums.
proof fn lemma_weighted(
    p: Seq<Pose2>,
    h: Seq<Heading>,
    w: Seq<Single>,
    n: int,
    m: nat,
    k: nat,
)
    requires
        are_positions(p, m),
        are_weights(w),
        w.len() == p.len(),
        0 <= n <= p.len(),
        m <= 40,
        k <= 80,
        product(n as real, 2 as real * limit(m) + slack(k)) <= limit(k),
    ensures
        ({
            let s = weighted(p, h, w, n);
            let e = product(n as real, slack(m) + slack(k));
            let (x, y) = (weighed_sum(all_x(p), w, n), weighed_sum(all_y(p), w, n));
            let b = product(limit(m), sum_of(w, n));
            &&& s.x.finite() && s.y.finite()
            &&& s.weight == total(w, n)
            &&& within(exact(s.x), x, e)
            &&& within(exact(s.y), y, e)
            &&& -b <= x <= b
            &&& -b <= y <= b
            &&& 0 as real <= sum_of(w, n) <= n as real
        }),
    decreases n,
{
    let (l, t, u) = (limit(m), slack(k), slack(m));
    let (top, off) = (2 as real * l + t, u + t);
    lemma_zero_exact();
    lemma_binades(k);
    lemma_binades(m);
    lemma_plain(top);
    lemma_plain(off);
    lemma_plain(l);
    lemma_commutes(l, 0 as real);
    if n > 0 {
        let j = n - 1;
        lemma_next(n, top);
        lemma_next(n, off);
        lemma_weighted(p, h, w, j, m, k);
        let (s, a) = (weighted(p, h, w, j), w[j]);
        assert(p[j].0.finite() && a.finite() && 0 as real <= exact(a) <= 1 as real);
        lemma_turned_product(a, p[j].0, m);
        lemma_turned_product(a, p[j].1, m);
        lemma_share_of(exact(a), exact(p[j].0), l);
        lemma_share_of(exact(a), exact(p[j].1), l);
        lemma_distributes(l, sum_of(w, j), exact(a));
        // the sums so far
        lemma_ordered(sum_of(w, j), j as real, l);
        lemma_commutes(l, j as real);
        lemma_ordered(l + off, top, j as real);
        lemma_distributes(j as real, l, off);
        law_sum_error(s.x, a.times(p[j].0), k);
        law_sum_error(s.y, a.times(p[j].1), k);
    }
}

/// A part of a number that is held.
proof fn lemma_share_of(a: real, x: real, l: real)
    requires
        0 as real <= a,
        -l <= x <= l,
    ensures
        -product(l, a) <= product(a, x) <= product(l, a),
{
    lemma_ordered(x, l, a);
    lemma_ordered(-l, x, a);
    lemma_negated(a, l);
    lemma_commutes(a, l);
}

/// One coordinate of a weighted mean.
proof fn lemma_weighted_mean(s: Single, weight: Single, sum: real, e: real, m: nat)
    requires
        s.finite() && weight.finite(),
        exact(weight) >= 1 as real / 2 as real,
        exact(weight) <= 2 as real,
        m <= 40,
        0 as real <= e <= limit(m),
        within(exact(s), sum, e),
        -(3 as real * limit(m)) <= sum <= 3 as real * limit(m),
    ensures
        ({
            let mean = s.over(weight);
            &&& mean.finite()
            &&& within(product(exact(weight), exact(mean)), sum, e + 16 as real * slack(m))
        }),
{
    let (x, w, l) = (exact(s), exact(weight), limit(m));
    lemma_binades(m);
    lemma_absolute(weight);
    lemma_pow2_pos(149);
    if weight.zero() {
        let o = crate::arith::one() as real;
        assert(0 as real / o == 0 as real) by (nonlinear_arith)
            requires
                o > 0 as real,
        ;
    }
    let q = x / w;
    assert(q * w == x && -(8 as real * l) <= q <= 8 as real * l) by (nonlinear_arith)
        requires
            q == x / w,
            w >= 1 as real / 2 as real,
            -(4 as real * l) <= x <= 4 as real * l,
            l > 0 as real,
    ;
    law_quotient_error(s, weight, m + 3);
    let mean = exact(s.over(weight));
    let d = mean - q;
    lemma_distributes(w, q, d);
    reveal(product);
    assert(w * q == q * w) by (nonlinear_arith);
    let t = 8 as real * slack(m);
    assert(-(2 as real * t) <= w * d <= 2 as real * t) by (nonlinear_arith)
        requires
            0 as real <= w <= 2 as real,
            -t <= d <= t,
    ;
}

/// The weighted mean is what it says: times the whole weight, its x is the sum
/// of the weighted x coordinates and its y that of the weighted y coordinates,
/// and the whole weight is the sum of the weights, up to rounding.
pub proof fn law_weighted_mean<A: Fn((Single, Single)) -> Single>(
    atan2: A,
    p: Seq<Pose2>,
    h: Seq<Heading>,
    w: Seq<Single>,
    m: nat,
    k: nat,
)
    requires
        are_positions(p, m),
        are_weights(w),
        w.len() == p.len(),
        m <= 40,
        k <= 80,
        product(p.len() as real, 2 as real * limit(m) + slack(k)) <= limit(k),
        product(p.len() as real, 1 as real + 2 as real * slack(k)) <= limit(k),
        product(p.len() as real, slack(m) + slack(k)) <= limit(m),
        sum_of(w, p.len() as int) <= 3 as real / 2 as real,
        exact(total(w, p.len() as int)) >= 1 as real / 2 as real,
        exact(total(w, p.len() as int)) <= 2 as real,
    ensures
        ({
            let n = p.len() as int;
            let mean = mean_pose(atan2, weighted(p, h, w, n));
            let all = exact(total(w, n));
            let e = product(n as real, slack(m) + slack(k)) + 16 as real * slack(m);
            &&& within(product(all, exact(mean.0)), weighed_sum(all_x(p), w, n), e)
            &&& within(product(all, exact(mean.1)), weighed_sum(all_y(p), w, n), e)
            &&& within(all, sum_of(w, n), product(n as real, 2 as real * slack(k)))
        }),
{
    let n = p.len() as int;
    let s = weighted(p, h, w, n);
    lemma_weighted(p, h, w, n, m, k);
    law_sums_of_weights(w, n, k);
    lemma_zero_exact();
    lemma_binades(m);
    lemma_binades(k);
    lemma_below(zero(), s.weight);
    lemma_not_at_most(s.weight);
    let (l, e) = (limit(m), product(n as real, slack(m) + slack(k)));
    lemma_ordered(sum_of(w, n), 3 as real / 2 as real, l);
    assert(product(l, 3 as real / 2 as real) == (3 as real / 2 as real) * l) by {
        reveal(product);
        assert(l * (3 as real / 2 as real) == (3 as real / 2 as real) * l) by (nonlinear_arith);
    }
    lemma_commutes(l, 3 as real / 2 as real);
    lemma_sign(n as real, slack(m) + slack(k));
    lemma_weighted_mean(s.x, s.weight, weighed_sum(all_x(p), w, n), e, m);
    lemma_weighted_mean(s.y, s.weight, weighed_sum(all_y(p), w, n), e, m);
}

/// What is above zero is not at most zero.
proof fn lemma_not_at_most(a: Single)
    requires
        zero().below(a),
    ensures
        !a.at_most(zero()),
{
}

} // verus!
