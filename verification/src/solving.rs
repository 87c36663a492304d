//! That systems of three are solved, in exact numbers.

use vstd::arithmetic::power2::{lemma2_to64, lemma_pow2_pos};
use vstd::prelude::*;
use crate::accuracy::{exact, law_negation_exact, law_product_error, law_quotient_error, law_sum_error, limit, slack, within};
use crate::arith::{lemma_absolute, one, unit};
use crate::pose::lemma_binades;
use crate::sampling::{lemma_limits_multiply, lemma_one_exact};
use crate::scan_matcher::{determinant, dot, inverse, minor, solution, Matrix, Triple};
use crate::single::Single;
use crate::turning::{lemma_associates, lemma_commutes, lemma_distributes, lemma_negated, lemma_plain, product};

verus! {

/// A number of at most `2^m`, of either sign.
pub open spec fn bounded(a: Single, m: nat) -> bool {
    a.finite() && -limit(m) <= exact(a) <= limit(m)
}

/// `a d - b c`.
pub open spec fn cross(a: real, d: real, b: real, c: real) -> real {
    product(a, d) - product(b, c)
}

/// A row times a vector.
pub open spec fn row_times(a: real, b: real, c: real, x: real, y: real, z: real) -> real {
    product(a, x) + product(b, y) + product(c, z)
}

/// `x` is at most `m`, of either sign.
pub open spec fn held(x: real, m: real) -> bool {
    -m <= x <= m
}

/// Products of numbers that are held.
proof fn lemma_product_held(x: real, y: real, a: real, b: real)
    requires
        held(x, a),
        held(y, b),
    ensures
        held(product(x, y), a * b),
{
    reveal(product);
    assert(-(a * b) <= x * y <= a * b) by (nonlinear_arith)
        requires
            -a <= x <= a,
            -b <= y <= b,
    ;
}

/// A product of two numbers.
proof fn lemma_times(a: Single, b: Single, m: nat, n: nat)
    requires
        bounded(a, m),
        bounded(b, n),
        m + n <= 90,
    ensures
        bounded(a.times(b), m + n + 1),
        within(exact(a.times(b)), product(exact(a), exact(b)), slack(m + n)),
        held(product(exact(a), exact(b)), limit(m + n)),
{
    lemma_limits_multiply(m, n);
    lemma_product_held(exact(a), exact(b), limit(m), limit(n));
    lemma_binades(m + n);
    reveal(product);
    law_product_error(a, b, m + n);
}

/// A minor.
proof fn lemma_minor(a: Single, d: Single, b: Single, c: Single, m: nat)
    requires
        bounded(a, m) && bounded(b, m) && bounded(c, m) && bounded(d, m),
        m <= 12,
    ensures
        bounded(minor(a, d, b, c), 2 * m + 2),
        within(
            exact(minor(a, d, b, c)),
            cross(exact(a), exact(d), exact(b), exact(c)),
            6 as real * slack(2 * m),
        ),
        held(cross(exact(a), exact(d), exact(b), exact(c)), 2 as real * limit(2 * m)),
{
    let n = (2 * m) as nat;
    assert(m + m == n);
    lemma_times(a, d, m, m);
    lemma_times(b, c, m, m);
    lemma_binades(n);
    law_negation_exact(b.times(c));
    law_sum_error(a.times(d), b.times(c).negated(), n + 2);
}

/// The inverse of a determinant of either sign.
proof fn lemma_inverse_of(det: Single, q: nat)
    requires
        det.finite(),
        exact(det) != 0 as real,
        q <= 16,
        1 as real <= limit(q) * exact(det) <= 2 as real || -(2 as real) <= limit(q) * exact(det)
            <= -(1 as real),
    ensures
        bounded(unit().over(det), q + 1),
        within(product(exact(unit().over(det)), exact(det)), 1 as real, 2 as real * slack(0)),
{
    let (d, l) = (exact(det), limit(q));
    lemma_one_exact();
    lemma_absolute(det);
    lemma_pow2_pos(149);
    lemma_pow2_pos(q);
    lemma2_to64();
    if det.zero() {
        let o = one() as real;
        assert(0 as real / o == 0 as real) by (nonlinear_arith)
            requires
                o > 0 as real,
        ;
    }
    let r = 1 as real / d;
    assert(r * d == 1 as real) by (nonlinear_arith)
        requires
            r == 1 as real / d,
            d != 0 as real,
    ;
    assert(-l <= r <= l) by (nonlinear_arith)
        requires
            r * d == 1 as real,
            1 as real <= l * d <= 2 as real || -(2 as real) <= l * d <= -(1 as real),
            l > 0 as real,
    ;
    lemma_binades(q);
    law_quotient_error(unit(), det, q);
    let w = exact(unit().over(det));
    let (e, s) = (w - r, slack(q));
    assert(-(2 as real / 33_554_432 as real) <= e * d <= 2 as real / 33_554_432 as real)
        by (nonlinear_arith)
        requires
            -s <= e <= s,
            s == l / 33_554_432 as real,
            1 as real <= l * d <= 2 as real || -(2 as real) <= l * d <= -(1 as real),
            l > 0 as real,
    ;
    reveal(product);
    assert(w * d == r * d + e * d) by (nonlinear_arith)
        requires
            e == w - r,
    ;
}

/// Something off by a rounding error, times the determinant.
proof fn lemma_scaled(e: real, d: real, n: nat, q: nat, c: real)
    requires
        held(e, c * slack(n + q)),
        c >= 0 as real,
        -(2 as real) <= limit(q) * d <= 2 as real,
    ensures
        held(product(e, d), 2 as real * c * slack(n)),
{
    lemma_limits_multiply(n, q);
    lemma_pow2_pos(n);
    lemma_pow2_pos(q);
    let (t, l) = (slack(n), limit(q));
    assert(slack(n + q) == t * l) by (nonlinear_arith)
        requires
            slack(n + q) == (limit(n) * l) / 33_554_432 as real,
            t == limit(n) / 33_554_432 as real,
    ;
    reveal(product);
    let b = c * t;
    assert(b >= 0 as real && c * (t * l) == b * l && 2 as real * c * t == 2 as real * b)
        by (nonlinear_arith)
        requires
            b == c * t,
            c >= 0 as real,
            t >= 0 as real,
    ;
    assert(-(2 as real * b) <= e * d <= 2 as real * b) by (nonlinear_arith)
        requires
            -(b * l) <= e <= b * l,
            -(2 as real) <= l * d <= 2 as real,
            b >= 0 as real,
            l > 0 as real,
    {
        assert(-(b * 2 as real) <= b * (l * d) <= b * 2 as real) by (nonlinear_arith)
            requires
                -(2 as real) <= l * d <= 2 as real,
                b >= 0 as real,
        ;
        assert((b * l) * d == b * (l * d)) by (nonlinear_arith);
        if d >= 0 as real {
            assert(e * d <= (b * l) * d && -((b * l) * d) <= e * d) by (nonlinear_arith)
                requires
                    -(b * l) <= e <= b * l,
                    d >= 0 as real,
            ;
        } else {
            assert(e * d <= -((b * l) * d) && (b * l) * d <= e * d) by (nonlinear_arith)
                requires
                    -(b * l) <= e <= b * l,
                    d < 0 as real,
            ;
        }
    }
}

/// One entry of the inverse, times the determinant.
proof fn lemma_inverse_entry(
    a: Single,
    d: Single,
    b: Single,
    c: Single,
    det: Single,
    m: nat,
    q: nat,
)
    requires
        bounded(a, m) && bounded(b, m) && bounded(c, m) && bounded(d, m),
        m <= 12,
        det.finite(),
        exact(det) != 0 as real,
        q <= 16,
        1 as real <= limit(q) * exact(det) <= 2 as real || -(2 as real) <= limit(q) * exact(det)
            <= -(1 as real),
    ensures
        ({
            let t = minor(a, d, b, c).times(unit().over(det));
            &&& bounded(t, 2 * m + q + 4)
            &&& within(
                product(exact(t), exact(det)),
                cross(exact(a), exact(d), exact(b), exact(c)),
                32 as real * slack(2 * m),
            )
        }),
{
    let n = (2 * m) as nat;
    let (mi, inv) = (minor(a, d, b, c), unit().over(det));
    let t = mi.times(inv);
    lemma_minor(a, d, b, c, m);
    lemma_inverse_of(det, q);
    lemma_times(mi, inv, n + 2, q + 1);
    lemma_binades(n);
    lemma_binades(0);
    lemma2_to64();
    let (x, w, z) = (exact(mi), exact(inv), exact(det));
    let e = exact(t) - product(x, w);
    lemma_binades(n + q);
    assert(n + 2 + (q + 1) == n + q + 3);
    lemma_scaled(e, z, n, q, 8 as real);
    lemma_distributes(z, product(x, w), e);
    lemma_associates(x, w, z);
    let f = product(w, z) - 1 as real;
    lemma_distributes(x, 1 as real, f);
    lemma_commutes(x, 1 as real);
    lemma_plain(x);
    lemma_product_held(x, f, limit(n + 2), 2 as real * slack(0));
    assert(limit(n + 2) * (2 as real * slack(0)) == 8 as real * slack(n)) by (nonlinear_arith)
        requires
            limit(n + 2) == 4 as real * limit(n),
            slack(0) == 1 as real / 33_554_432 as real,
            slack(n) == limit(n) / 33_554_432 as real,
    ;
}

/// One unknown, times the determinant.
proof fn lemma_unknown(
    t0: Single,
    t1: Single,
    t2: Single,
    v: Triple,
    z: real,
    n0: real,
    n1: real,
    n2: real,
    m: nat,
    q: nat,
)
    requires
        m <= 12,
        q <= 16,
        bounded(t0, 2 * m + q + 4) && bounded(t1, 2 * m + q + 4) && bounded(t2, 2 * m + q + 4),
        bounded(v.v0, m) && bounded(v.v1, m) && bounded(v.v2, m),
        -(2 as real) <= limit(q) * z <= 2 as real,
        within(product(exact(t0), z), n0, 32 as real * slack(2 * m)),
        within(product(exact(t1), z), n1, 32 as real * slack(2 * m)),
        within(product(exact(t2), z), n2, 32 as real * slack(2 * m)),
    ensures
        dot(t0, t1, t2, v).finite(),
        within(
            product(exact(dot(t0, t1, t2, v)), z),
            row_times(n0, n1, n2, exact(v.v0), exact(v.v1), exact(v.v2)),
            512 as real * slack(3 * m),
        ),
{
    let k = (3 * m + q + 4) as nat;
    let (n, p) = ((3 * m) as nat, (2 * m) as nat);
    assert(2 * m + q + 4 + m == k);
    lemma_times(t0, v.v0, 2 * m + q + 4, m);
    lemma_times(t1, v.v1, 2 * m + q + 4, m);
    lemma_times(t2, v.v2, 2 * m + q + 4, m);
    lemma_binades(k);
    let (a, b, c) = (t0.times(v.v0), t1.times(v.v1), t2.times(v.v2));
    law_sum_error(a, b, k + 2);
    law_sum_error(a.plus(b), c, k + 2);
    let (x, y, w) = (exact(v.v0), exact(v.v1), exact(v.v2));
    let (r, s, t) = (exact(t0), exact(t1), exact(t2));
    let sum = product(r, x) + product(s, y) + product(t, w);
    let got = exact(dot(t0, t1, t2, v));
    let e = got - sum;
    lemma_binades((3 * m + q) as nat);
    assert(held(e, 11 as real * slack(k)));
    assert(slack(k) == 16 as real * slack((3 * m + q) as nat));
    assert(n + q == 3 * m + q);
    lemma_scaled(e, z, n, q, 176 as real);
    lemma_distributes(z, sum, e);
    lemma_distributes(z, product(r, x) + product(s, y), product(t, w));
    lemma_distributes(z, product(r, x), product(s, y));
    lemma_entry_times(r, x, z, n0, m);
    lemma_entry_times(s, y, z, n1, m);
    lemma_entry_times(t, w, z, n2, m);
    lemma_binades(n);
}

/// One term of an unknown.
proof fn lemma_entry_times(r: real, x: real, z: real, n: real, m: nat)
    requires
        within(product(r, z), n, 32 as real * slack(2 * m)),
        held(x, limit(m)),
    ensures
        within(product(product(r, x), z), product(n, x), 32 as real * slack(3 * m)),
{
    let e = product(r, z) - n;
    lemma_associates(r, x, z);
    lemma_associates(r, z, x);
    lemma_commutes(x, z);
    lemma_distributes(x, n, e);
    lemma_product_held(e, x, 32 as real * slack(2 * m), limit(m));
    lemma_limits_multiply((2 * m) as nat, m);
    assert(2 * m + m == 3 * m);
    let l = limit((2 * m) as nat);
    assert(32 as real * slack((2 * m) as nat) * limit(m) == 32 as real * slack((3 * m) as nat))
        by (nonlinear_arith)
        requires
            slack((2 * m) as nat) == l / 33_554_432 as real,
            slack((3 * m) as nat) == (l * limit(m)) / 33_554_432 as real,
    ;
}

/// Two factors change places.
proof fn lemma_swapped(x: real, y: real, z: real)
    ensures
        product(x, product(y, z)) == product(y, product(x, z)),
{
    lemma_associates(x, y, z);
    lemma_associates(y, x, z);
    lemma_commutes(x, y);
}

/// A factor of a minor.
proof fn lemma_times_cross(x: real, a: real, d: real, b: real, c: real)
    ensures
        product(x, cross(a, d, b, c)) == product(x, product(a, d)) - product(x, product(b, c)),
{
    lemma_distributes(x, product(a, d), -product(b, c));
    lemma_negated(x, product(b, c));
}

/// A vector of three.
pub type Vector = (real, real, real);

/// The triple product of three vectors: how much of the first is along what
/// stands across the other two.
pub open spec fn triple(r: Vector, s: Vector, t: Vector) -> real {
    row_times(
        r.0,
        r.1,
        r.2,
        cross(s.1, t.2, s.2, t.1),
        cross(s.2, t.0, s.0, t.2),
        cross(s.0, t.1, s.1, t.0),
    )
}

/// `x y z`.
spec fn thrice(x: real, y: real, z: real) -> real {
    product(x, product(y, z))
}

/// Three factors in any order.
proof fn lemma_any_order(x: real, y: real, z: real)
    ensures
        thrice(x, y, z) == thrice(y, x, z),
        thrice(x, y, z) == thrice(y, z, x),
        thrice(x, y, z) == thrice(x, z, y),
{
    lemma_swapped(x, y, z);
    lemma_commutes(x, z);
    lemma_commutes(y, z);
}

/// A triple product, term by term.
proof fn lemma_triple(r: Vector, s: Vector, t: Vector)
    ensures
        triple(r, s, t) == thrice(r.0, s.1, t.2) - thrice(r.0, s.2, t.1) + thrice(r.1, s.2, t.0)
            - thrice(r.1, s.0, t.2) + thrice(r.2, s.0, t.1) - thrice(r.2, s.1, t.0),
{
    lemma_times_cross(r.0, s.1, t.2, s.2, t.1);
    lemma_times_cross(r.1, s.2, t.0, s.0, t.2);
    lemma_times_cross(r.2, s.0, t.1, s.1, t.0);
}

/// Nothing of a vector is across itself.
proof fn lemma_flat(s: Vector, t: Vector)
    ensures
        triple(s, s, t) == 0 as real,
        triple(t, s, t) == 0 as real,
{
    lemma_triple(s, s, t);
    lemma_triple(t, s, t);
    lemma_any_order(s.0, s.1, t.2);
    lemma_any_order(s.0, s.2, t.1);
    lemma_any_order(s.1, s.2, t.0);
    lemma_any_order(t.0, s.1, t.2);
    lemma_any_order(t.0, s.2, t.1);
    lemma_any_order(t.1, s.2, t.0);
    lemma_any_order(t.1, s.0, t.2);
    lemma_any_order(t.2, s.0, t.1);
    lemma_any_order(t.2, s.1, t.0);
}

/// Three vectors in turn.
proof fn lemma_in_turn(r: Vector, s: Vector, t: Vector)
    ensures
        triple(r, s, t) == triple(s, t, r),
{
    lemma_triple(r, s, t);
    lemma_triple(s, t, r);
    lemma_any_order(r.0, s.1, t.2);
    lemma_any_order(r.0, s.2, t.1);
    lemma_any_order(r.1, s.2, t.0);
    lemma_any_order(r.1, s.0, t.2);
    lemma_any_order(r.2, s.0, t.1);
    lemma_any_order(r.2, s.1, t.0);
}

/// A row against a row of sums.
proof fn lemma_row_of_sums(
    a: real,
    b: real,
    c: real,
    p: (real, real, real),
    q: (real, real, real),
    r: (real, real, real),
    x: real,
    y: real,
    z: real,
)
    ensures
        row_times(
            a,
            b,
            c,
            row_times(p.0, p.1, p.2, x, y, z),
            row_times(q.0, q.1, q.2, x, y, z),
            row_times(r.0, r.1, r.2, x, y, z),
        ) == product(row_times(a, b, c, p.0, q.0, r.0), x) + product(
            row_times(a, b, c, p.1, q.1, r.1),
            y,
        ) + product(row_times(a, b, c, p.2, q.2, r.2), z),
{
    lemma_factor_of_row(a, p, x, y, z);
    lemma_factor_of_row(b, q, x, y, z);
    lemma_factor_of_row(c, r, x, y, z);
    lemma_sum_of_three(x, product(a, p.0), product(b, q.0), product(c, r.0));
    lemma_sum_of_three(y, product(a, p.1), product(b, q.1), product(c, r.1));
    lemma_sum_of_three(z, product(a, p.2), product(b, q.2), product(c, r.2));
}

proof fn lemma_factor_of_row(a: real, p: (real, real, real), x: real, y: real, z: real)
    ensures
        product(a, row_times(p.0, p.1, p.2, x, y, z)) == product(product(a, p.0), x) + product(
            product(a, p.1),
            y,
        ) + product(product(a, p.2), z),
{
    lemma_distributes(a, product(p.0, x) + product(p.1, y), product(p.2, z));
    lemma_distributes(a, product(p.0, x), product(p.1, y));
    lemma_associates(a, p.0, x);
    lemma_associates(a, p.1, y);
    lemma_associates(a, p.2, z);
}

proof fn lemma_sum_of_three(x: real, p: real, q: real, r: real)
    ensures
        product(p + q + r, x) == product(p, x) + product(q, x) + product(r, x),
{
    lemma_distributes(x, p + q, r);
    lemma_distributes(x, p, q);
}

/// The exact determinant, by its first row.
pub open spec fn exact_determinant(m: Matrix) -> real {
    let (a, b, c) = (exact(m.a00), exact(m.a01), exact(m.a02));
    let (d, e, f) = (exact(m.a10), exact(m.a11), exact(m.a12));
    let (g, h, i) = (exact(m.a20), exact(m.a21), exact(m.a22));
    product(a, cross(e, i, f, h)) - product(b, cross(d, i, f, g)) + product(c, cross(d, h, e, g))
}

/// A row of a matrix times its adjugate is the determinant times a unit row.
proof fn lemma_adjugate(
    a: real,
    b: real,
    c: real,
    d: real,
    e: real,
    f: real,
    g: real,
    h: real,
    i: real,
    x: real,
    y: real,
    z: real,
)
    ensures
        ({
            let u = row_times(cross(e, i, f, h), cross(c, h, b, i), cross(b, f, c, e), x, y, z);
            let v = row_times(cross(f, g, d, i), cross(a, i, c, g), cross(c, d, a, f), x, y, z);
            let w = row_times(cross(d, h, e, g), cross(b, g, a, h), cross(a, e, b, d), x, y, z);
            let det = product(a, cross(e, i, f, h)) - product(b, cross(d, i, f, g)) + product(
                c,
                cross(d, h, e, g),
            );
            &&& row_times(a, b, c, u, v, w) == product(det, x)
            &&& row_times(d, e, f, u, v, w) == product(det, y)
            &&& row_times(g, h, i, u, v, w) == product(det, z)
        }),
{
    let p = (cross(e, i, f, h), cross(c, h, b, i), cross(b, f, c, e));
    let q = (cross(f, g, d, i), cross(a, i, c, g), cross(c, d, a, f));
    let r = (cross(d, h, e, g), cross(b, g, a, h), cross(a, e, b, d));
    lemma_row_of_sums(a, b, c, p, q, r, x, y, z);
    lemma_row_of_sums(d, e, f, p, q, r, x, y, z);
    lemma_row_of_sums(g, h, i, p, q, r, x, y, z);
    lemma_plain(x);
    lemma_plain(y);
    lemma_plain(z);
    let (k, l, m) = ((a, b, c), (d, e, f), (g, h, i));
    // the columns of the adjugate stand across two rows
    lemma_commutes(c, h);
    lemma_commutes(b, i);
    lemma_commutes(a, i);
    lemma_commutes(c, g);
    lemma_commutes(b, g);
    lemma_commutes(a, h);
    lemma_negated(b, cross(d, i, f, g));
    assert(cross(f, g, d, i) == -cross(d, i, f, g));
    lemma_in_turn(k, l, m);
    lemma_in_turn(l, m, k);
    lemma_flat(l, m);
    lemma_flat(m, k);
    lemma_flat(k, l);
}

/// The computed determinant is the determinant, up to rounding.
proof fn lemma_determinant(m: Matrix, k: nat)
    requires
        entries_bounded(m, k),
        k <= 12,
    ensures
        determinant(m).finite(),
        within(exact(determinant(m)), exact_determinant(m), 64 as real * slack(3 * k)),
{
    let n = (3 * k) as nat;
    lemma_leading(m.a00, m.a11, m.a22, m.a12, m.a21, k);
    lemma_leading(m.a01, m.a10, m.a22, m.a12, m.a20, k);
    lemma_leading(m.a02, m.a10, m.a21, m.a11, m.a20, k);
    lemma_binades(n);
    let x = m.a00.times(minor(m.a11, m.a22, m.a12, m.a21));
    let y = m.a01.times(minor(m.a10, m.a22, m.a12, m.a20));
    let z = m.a02.times(minor(m.a10, m.a21, m.a11, m.a20));
    law_negation_exact(y);
    law_sum_error(x, y.negated(), n + 3);
    law_sum_error(x.minus(y), z, n + 3);
}

/// One of the three terms of a determinant.
proof fn lemma_leading(x: Single, a: Single, d: Single, b: Single, c: Single, k: nat)
    requires
        bounded(x, k) && bounded(a, k) && bounded(b, k) && bounded(c, k) && bounded(d, k),
        k <= 12,
    ensures
        ({
            let t = x.times(minor(a, d, b, c));
            let r = product(exact(x), cross(exact(a), exact(d), exact(b), exact(c)));
            &&& t.finite()
            &&& within(exact(t), r, 10 as real * slack(3 * k))
            &&& held(r, 2 as real * limit(3 * k))
        }),
{
    let (n, p) = ((3 * k) as nat, (2 * k) as nat);
    let mi = minor(a, d, b, c);
    lemma_minor(a, d, b, c, k);
    lemma_times(x, mi, k, p + 2);
    lemma_binades(n);
    assert(k + (p + 2) == n + 2);
    let (v, w, r) = (
        exact(x),
        exact(mi),
        cross(exact(a), exact(d), exact(b), exact(c)),
    );
    lemma_distributes(v, r, w - r);
    lemma_product_held(v, w - r, limit(k), 6 as real * slack(p));
    lemma_product_held(v, r, limit(k), 2 as real * limit(p));
    lemma_limits_multiply(k, p);
    assert(k + p == n);
    let l = limit(p);
    assert(limit(k) * (6 as real * slack(p)) == 6 as real * slack(n) && limit(k) * (2 as real * l)
        == 2 as real * limit(n)) by (nonlinear_arith)
        requires
            slack(p) == l / 33_554_432 as real,
            slack(n) == (limit(k) * l) / 33_554_432 as real,
            limit(n) == limit(k) * l,
    ;
}

/// All entries are at most `2^k`.
pub open spec fn entries_bounded(m: Matrix, k: nat) -> bool {
    &&& bounded(m.a00, k) && bounded(m.a01, k) && bounded(m.a02, k)
    &&& bounded(m.a10, k) && bounded(m.a11, k) && bounded(m.a12, k)
    &&& bounded(m.a20, k) && bounded(m.a21, k) && bounded(m.a22, k)
}

/// `x` solves a row of the system: the row times `x` is `v`, up to rounding,
/// all of it times the determinant `d`.
pub open spec fn solves_row(
    a: Single,
    b: Single,
    c: Single,
    x: Triple,
    v: Single,
    d: real,
    e: real,
) -> bool {
    within(
        product(
            row_times(exact(a), exact(b), exact(c), exact(x.v0), exact(x.v1), exact(x.v2)),
            d,
        ),
        product(exact(v), d),
        e,
    )
}

/// One row of the solved system.
proof fn lemma_solved_row(
    a: real,
    b: real,
    c: real,
    x: Vector,
    u: Vector,
    v: real,
    d: real,
    det: real,
    k: nat,
)
    requires
        k <= 12,
        held(a, limit(k)) && held(b, limit(k)) && held(c, limit(k)) && held(v, limit(k)),
        within(product(x.0, d), u.0, 512 as real * slack(3 * k)),
        within(product(x.1, d), u.1, 512 as real * slack(3 * k)),
        within(product(x.2, d), u.2, 512 as real * slack(3 * k)),
        within(d, det, 64 as real * slack(3 * k)),
        row_times(a, b, c, u.0, u.1, u.2) == product(det, v),
    ensures
        within(
            product(row_times(a, b, c, x.0, x.1, x.2), d),
            product(v, d),
            2_048 as real * slack(4 * k),
        ),
{
    lemma_coefficient(a, x.0, d, u.0, 512 as real, k);
    lemma_coefficient(b, x.1, d, u.1, 512 as real, k);
    lemma_coefficient(c, x.2, d, u.2, 512 as real, k);
    lemma_sum_of_three(d, product(a, x.0), product(b, x.1), product(c, x.2));
    lemma_plain(d);
    lemma_coefficient(v, 1 as real, d, det, 64 as real, k);
    lemma_commutes(v, 1 as real);
    lemma_plain(v);
    lemma_commutes(v, det);
    lemma_binades((4 * k) as nat);
}

/// A coefficient times a number that is a little off.
proof fn lemma_coefficient(a: real, x: real, d: real, u: real, c: real, k: nat)
    requires
        held(a, limit(k)),
        c >= 0 as real,
        within(product(x, d), u, c * slack(3 * k)),
    ensures
        within(product(product(a, x), d), product(a, u), c * slack(4 * k)),
{
    let n = (3 * k) as nat;
    let e = product(x, d) - u;
    lemma_associates(a, x, d);
    lemma_distributes(a, u, e);
    lemma_product_held(a, e, limit(k), c * slack(n));
    lemma_limits_multiply(k, n);
    assert(k + n == 4 * k);
    let l = limit(n);
    assert(limit(k) * (c * slack(n)) == c * slack((4 * k) as nat)) by (nonlinear_arith)
        requires
            slack(n) == l / 33_554_432 as real,
            slack((4 * k) as nat) == (limit(k) * l) / 33_554_432 as real,
    ;
}

/// A system of three equations is solved: put back into each of its rows, the
/// solution gives the right-hand side, up to rounding. Entries are at most
/// `2^k` and the determinant is `2^-q` to `2^(1-q)` in size.
pub proof fn law_system_is_solved(m: Matrix, v: Triple, k: nat, q: nat)
    requires
        entries_bounded(m, k),
        bounded(v.v0, k) && bounded(v.v1, k) && bounded(v.v2, k),
        k <= 12,
        q <= 16,
        ({
            let d = limit(q) * exact(determinant(m));
            1 as real <= d <= 2 as real || -(2 as real) <= d <= -(1 as real)
        }),
        solution(m, v) is Some,
    ensures
        ({
            let x = solution(m, v)->0;
            let (d, e) = (exact(determinant(m)), 2_048 as real * slack(4 * k));
            &&& solves_row(m.a00, m.a01, m.a02, x, v.v0, d, e)
            &&& solves_row(m.a10, m.a11, m.a12, x, v.v1, d, e)
            &&& solves_row(m.a20, m.a21, m.a22, x, v.v2, d, e)
            &&& within(d, exact_determinant(m), 64 as real * slack(3 * k))
        }),
{
    let x = solution(m, v)->0;
    let det = determinant(m);
    let z = exact(det);
    let (a, b, c) = (exact(m.a00), exact(m.a01), exact(m.a02));
    let (d, e, f) = (exact(m.a10), exact(m.a11), exact(m.a12));
    let (g, h, i) = (exact(m.a20), exact(m.a21), exact(m.a22));
    lemma_determinant(m, k);
    let t = inverse(m, unit().over(det));
    lemma_inverse_entry(m.a11, m.a22, m.a12, m.a21, det, k, q);
    lemma_inverse_entry(m.a02, m.a21, m.a01, m.a22, det, k, q);
    lemma_inverse_entry(m.a01, m.a12, m.a02, m.a11, det, k, q);
    lemma_inverse_entry(m.a12, m.a20, m.a10, m.a22, det, k, q);
    lemma_inverse_entry(m.a00, m.a22, m.a02, m.a20, det, k, q);
    lemma_inverse_entry(m.a02, m.a10, m.a00, m.a12, det, k, q);
    lemma_inverse_entry(m.a10, m.a21, m.a11, m.a20, det, k, q);
    lemma_inverse_entry(m.a01, m.a20, m.a00, m.a21, det, k, q);
    lemma_inverse_entry(m.a00, m.a11, m.a01, m.a10, det, k, q);
    let n0 = (cross(e, i, f, h), cross(c, h, b, i), cross(b, f, c, e));
    let n1 = (cross(f, g, d, i), cross(a, i, c, g), cross(c, d, a, f));
    let n2 = (cross(d, h, e, g), cross(b, g, a, h), cross(a, e, b, d));
    lemma_unknown(t.a00, t.a01, t.a02, v, z, n0.0, n0.1, n0.2, k, q);
    lemma_unknown(t.a10, t.a11, t.a12, v, z, n1.0, n1.1, n1.2, k, q);
    lemma_unknown(t.a20, t.a21, t.a22, v, z, n2.0, n2.1, n2.2, k, q);
    let (p, r, s) = (exact(v.v0), exact(v.v1), exact(v.v2));
    let u = (
        row_times(n0.0, n0.1, n0.2, p, r, s),
        row_times(n1.0, n1.1, n1.2, p, r, s),
        row_times(n2.0, n2.1, n2.2, p, r, s),
    );
    let y = (exact(x.v0), exact(x.v1), exact(x.v2));
    let w = exact_determinant(m);
    lemma_adjugate(a, b, c, d, e, f, g, h, i, p, r, s);
    lemma_solved_row(a, b, c, y, u, p, z, w, k);
    lemma_solved_row(d, e, f, y, u, r, z, w, k);
    lemma_solved_row(g, h, i, y, u, s, z, w, k);
}

} // verus!
