//! What a sample of the distance field is, in exact numbers.
//!
//! Cell centres stand half a cell from the borders of their cells. A sample
//! mixes the four cells whose centres surround a point: these laws say which
//! they are, that the sample lies between them, and that it follows a slope.

use vstd::arithmetic::power2::{lemma2_to64, lemma_pow2_adds, lemma_pow2_pos};
use vstd::prelude::*;
use crate::accuracy::{exact, law_negation_exact, law_product_error, law_quotient_error, law_sum_error, law_whole_is_exact, limit, slack, within};
use crate::arith::{absolute, lemma_absolute, lemma_unit, one, unit};
use crate::beams::Field;
use crate::conversion::{lemma_sum_within, rounded};
use crate::grid::GridConfig;
use crate::pose::lemma_binades;
use crate::scan_matcher::{between_centres, mixed, sampled};
use crate::single::{law_negation, magnitude_value, Single, HALF_BITS, ONE_BITS};
use crate::turning::{lemma_associates, lemma_commutes, lemma_distributes, lemma_negated, lemma_plain, lemma_shortened, lemma_sign, product};

verus! {

/// One half.
pub open spec fn half() -> real {
    1 as real / 2 as real
}

/// Where the centres of the columns are.
pub open spec fn column_centre(cfg: GridConfig, j: int) -> real {
    exact(cfg.x_range.0) + product(j as real + half(), exact(cfg.cell))
}

/// Where the centres of the rows are.
pub open spec fn row_centre(cfg: GridConfig, i: int) -> real {
    exact(cfg.y_range.0) + product(i as real + half(), exact(cfg.cell))
}

/// Cells of this size: `2^q` of them measure one to two metres.
pub open spec fn cell_is(cell: Single, q: nat) -> bool {
    &&& cell.finite()
    &&& exact(cell) > 0 as real
    &&& 1 as real <= product(limit(q), exact(cell)) <= 2 as real
}

// ---- Between the centres ----------------------------------------------------

pub proof fn lemma_one_exact()
    ensures
        exact(unit()) == 1 as real,
        unit().finite(),
        exact(Single { bits: HALF_BITS }) == half(),
        (Single { bits: HALF_BITS }).finite(),
{
    lemma_unit();
    let o = one() as real;
    assert(o / o == 1 as real) by (nonlinear_arith)
        requires
            o > 0 as real,
    ;
    let m = HALF_BITS as int;
    assert(m / 0x80_0000 == 126 && m % 0x80_0000 == 0);
    assert(magnitude_value(m) == 0x80_0000 * vstd::arithmetic::power2::pow2(125));
    lemma2_to64();
    lemma_pow2_adds(23, 125);
    lemma_pow2_adds(1, 148);
    let h = (Single { bits: HALF_BITS }).value() as real;
    assert(o == 2 as real * h);
    assert(h / o == 1 as real / 2 as real) by (nonlinear_arith)
        requires
            o == 2 as real * h,
            o > 0 as real,
    ;
}

/// Products keep the order of nonnegative factors.
pub proof fn lemma_ordered(x: real, y: real, z: real)
    requires
        x <= y,
        0 as real <= z,
    ensures
        product(x, z) <= product(y, z),
        product(z, x) <= product(z, y),
{
    lemma_sign(y - x, z);
    lemma_distributes(z, x, y - x);
    lemma_commutes(z, x);
    lemma_commutes(z, y);
}

/// The inverse of a cell size.
pub proof fn lemma_inverse(cell: Single, q: nat)
    requires
        cell_is(cell, q),
        q <= 18,
    ensures
        ({
            let inv = unit().over(cell);
            &&& inv.finite()
            &&& 0 as real <= exact(inv) <= limit(q + 1)
            &&& within(product(exact(inv), exact(cell)), 1 as real, 2 as real * slack(0))
        }),
{
    let (c, l, s) = (exact(cell), limit(q), slack(q));
    lemma_one_exact();
    lemma_absolute(cell);
    lemma_pow2_pos(149);
    if cell.zero() {
        let o = one() as real;
        assert(0 as real / o == 0 as real) by (nonlinear_arith)
            requires
                o > 0 as real,
        ;
    }
    let r = 1 as real / c;
    assert(r * c == 1 as real && r > 0 as real) by (nonlinear_arith)
        requires
            c > 0 as real,
            r == 1 as real / c,
    ;
    assert(product(r, c) == 1 as real) by {
        reveal(product);
    }
    if r > l {
        lemma_sign(r - l, c);
        lemma_distributes(c, l, r - l);
        reveal(product);
        assert((r - l) * c > 0 as real) by (nonlinear_arith)
            requires
                r > l,
                c > 0 as real,
        ;
    }
    lemma_binades(q);
    lemma_binades(0);
    law_quotient_error(unit(), cell, q);
    let w = exact(unit().over(cell));
    lemma_ordered(r - s, w, c);
    lemma_ordered(w, r + s, c);
    lemma_distributes(c, r, s);
    lemma_distributes(c, r, -s);
    lemma_negated(s, c);
    // the error of the inverse, in cells
    assert(product(s, c) <= 2 as real * slack(0)) by {
        lemma2_to64();
        reveal(product);
        let (p, t) = (l, 33_554_432 as real);
        assert((p / t) * c == (p * c) / t) by (nonlinear_arith)
            requires
                t == 33_554_432 as real,
        ;
    }
    if w < 0 as real {
        lemma_sign(-w, c);
        lemma_negated(w, c);
        lemma2_to64();
    }
}

/// The coordinate of a point in cells, measured between centres.
proof fn lemma_coordinate(v: Single, start: Single, cell: Single, k: nat, q: nat)
    requires
        cell_is(cell, q),
        v.finite() && start.finite(),
        -limit(k) <= exact(v) - exact(start) <= limit(k),
        k + q <= 16,
    ensures
        ({
            let cx = between_centres(v, start, cell);
            &&& cx.finite()
            &&& within(
                product(exact(cx) + half(), exact(cell)),
                exact(v) - exact(start),
                32 as real * slack(k),
            )
            &&& -limit(22) <= exact(cx) <= limit(22)
        }),
{
    let (c, t, n) = (exact(cell), slack(k), (k + q) as nat);
    let inv = unit().over(cell);
    let off = v.minus(start);
    lemma_one_exact();
    lemma_inverse(cell, q);
    lemma_binades(k);
    lemma_binades(q);
    lemma_binades(n);
    lemma_limits_multiply(k, q);
    law_negation_exact(start);
    law_sum_error(v, start.negated(), k);
    let (u, w) = (exact(off), exact(inv));
    // the product in cells
    assert(-limit(n + 2) <= u * w <= limit(n + 2)) by (nonlinear_arith)
        requires
            -(2 as real * limit(k)) <= u <= 2 as real * limit(k),
            0 as real <= w <= 2 as real * limit(q),
            limit(n + 2) == 4 as real * limit(n),
            limit(n) == limit(k) * limit(q),
    ;
    law_product_error(off, inv, n + 2);
    let x = off.times(inv);
    let hf = Single { bits: HALF_BITS };
    law_negation_exact(hf);
    assert(limit(n) >= 1 as real) by {
        lemma_pow2_pos(n);
    }
    law_sum_error(x, hf.negated(), n + 3);
    let cx = exact(x.minus(hf));
    assert(within(cx + half(), product(u, w), 12 as real * slack(n))) by {
        reveal(product);
    }
    // back in metres
    let e = 12 as real * slack(n);
    let uw = product(u, w);
    lemma_ordered(uw - e, cx + half(), c);
    lemma_ordered(cx + half(), uw + e, c);
    lemma_distributes(c, uw, e);
    lemma_distributes(c, uw, -e);
    lemma_negated(e, c);
    assert(product(e, c) <= 24 as real * t) by {
        reveal(product);
        let l = limit(q);
        assert(e == 12 as real * t * l) by (nonlinear_arith)
            requires
                e == 12 as real * (limit(k) * l / 33_554_432 as real),
                t == limit(k) / 33_554_432 as real,
        ;
        assert(e * c <= 24 as real * t) by (nonlinear_arith)
            requires
                e == 12 as real * t * l,
                l * c <= 2 as real,
                t > 0 as real,
        ;
    }
    lemma_associates(u, w, c);
    let z = product(w, c) - 1 as real;
    lemma_distributes(u, z, 1 as real);
    lemma_commutes(u, 1 as real);
    lemma_plain(u);
    lemma_binades(0);
    lemma2_to64();
    assert(within(product(u, z), 0 as real, 4 as real * t)) by {
        reveal(product);
        assert(-(4 as real * t) <= u * z <= 4 as real * t) by (nonlinear_arith)
            requires
                -(2 as real * limit(k)) <= u <= 2 as real * limit(k),
                -(2 as real / 33_554_432 as real) <= z <= 2 as real / 33_554_432 as real,
                t == limit(k) / 33_554_432 as real,
        ;
    }
    lemma_limits_grow(n);
}

/// Limits multiply.
pub proof fn lemma_limits_multiply(k: nat, q: nat)
    ensures
        limit(k + q) == limit(k) * limit(q),
{
    lemma_pow2_adds(k, q);
    let (a, b) = (vstd::arithmetic::power2::pow2(k) as int, vstd::arithmetic::power2::pow2(q) as int);
    assert((a * b) as real == a as real * b as real) by (nonlinear_arith);
}

/// Limits grow.
pub proof fn lemma_limits_grow(n: nat)
    requires
        n <= 16,
    ensures
        limit(n) <= limit(16),
        limit(16) == 65_536 as real,
        limit(22) == 4_194_304 as real,
{
    lemma2_to64();
    if n < 16 {
        vstd::arithmetic::power2::lemma_pow2_strictly_increases(n, 16);
    }
}

/// A number lies between its whole part and the next.
pub proof fn lemma_floor(a: Single)
    requires
        a.finite(),
        -limit(22) <= exact(a) <= limit(22),
    ensures
        a.floor_i32() as real <= exact(a) < a.floor_i32() as real + 1 as real,
        a.floor_i32() * one() <= a.value() < a.floor_i32() * one() + one(),
        -0x40_0001 <= a.floor_i32() <= 0x40_0000,
{
    reveal(Single::floor_i32);
    lemma_absolute(a);
    lemma_limits_grow(0);
    lemma_pow2_pos(149);
    let (v, o) = (a.value(), one());
    assert(-(4_194_304 * o) <= v <= 4_194_304 * o) by (nonlinear_arith)
        requires
            -(4_194_304 as real) <= v as real / o as real <= 4_194_304 as real,
            o > 0,
    ;
    let w = absolute(v) / o;
    vstd::arithmetic::div_mod::lemma_fundamental_div_mod(absolute(v), o);
    vstd::arithmetic::div_mod::lemma_mod_bound(absolute(v), o);
    assert(0 <= w <= 4_194_304) by (nonlinear_arith)
        requires
            0 <= absolute(v) <= 4_194_304 * o,
            absolute(v) == o * w + absolute(v) % o,
            0 <= absolute(v) % o < o,
            o > 0,
    ;
    let j = a.floor_i32() as int;
    assert(j * o <= v < j * o + o) by (nonlinear_arith)
        requires
            absolute(v) == o * w + absolute(v) % o,
            0 <= absolute(v) % o < o,
            (j == w && v == absolute(v)) || (j == -w && v == -absolute(v) && absolute(v) % o == 0)
                || (j == -w - 1 && v == -absolute(v) && absolute(v) % o != 0),
    ;
    assert(j as real <= v as real / o as real && v as real / (o as real) < j as real + 1 as real)
        by (nonlinear_arith)
        requires
            j * o <= v < j * o + o,
            o > 0,
    ;
}

/// How far a point is on its way to the next centre.
proof fn lemma_fraction(cx: Single)
    requires
        cx.finite(),
        -limit(22) <= exact(cx) <= limit(22),
        cx.floor_i32() >= 0,
    ensures
        ({
            let j = cx.floor_i32() as int;
            let fx = cx.minus(rounded(j));
            &&& fx.finite()
            &&& 0 as real <= exact(fx) <= 1 as real
            &&& within(exact(fx), exact(cx) - j as real, slack(0))
        }),
{
    let j = cx.floor_i32() as int;
    let n = rounded(j);
    let fx = cx.minus(n);
    lemma_floor(cx);
    law_whole_is_exact(j);
    law_negation_exact(n);
    law_negation(n);
    lemma2_to64();
    law_sum_error(cx, n.negated(), 0);
    lemma_unit();
    let o = one();
    assert(n.value() == j * o) by (nonlinear_arith)
        requires
            n.value() as real / o as real == j as real,
            o > 0,
    ;
    lemma_sum_within(cx, n.negated(), ONE_BITS as int);
    let f = fx.value();
    assert(0 as real <= f as real / o as real <= 1 as real) by (nonlinear_arith)
        requires
            0 <= f <= o,
            o > 0,
    ;
}

// ---- Mixing -----------------------------------------------------------------

/// The number that is `t` of the way from `x` to `y`.
pub open spec fn along(t: real, x: real, y: real) -> real {
    x + product(t, y - x)
}

/// It lies between them.
pub proof fn lemma_along(t: real, x: real, y: real, lo: real, hi: real)
    requires
        0 as real <= t <= 1 as real,
        lo <= x <= hi,
        lo <= y <= hi,
    ensures
        lo <= along(t, x, y) <= hi,
        along(t, x, y) == product(1 as real - t, x) + product(t, y),
{
    lemma_distributes(t, y, -x);
    lemma_negated(t, x);
    lemma_distributes(x, 1 as real, -t);
    lemma_plain(x);
    lemma_plain(lo);
    lemma_plain(hi);
    lemma_ordered(x, hi, 1 as real - t);
    lemma_ordered(lo, x, 1 as real - t);
    lemma_ordered(y, hi, t);
    lemma_ordered(lo, y, t);
    lemma_distributes(lo, 1 as real, -t);
    lemma_distributes(hi, 1 as real, -t);
    lemma_negated(t, lo);
    lemma_negated(t, hi);
}

/// Moving the ends a little moves it no more.
pub proof fn lemma_along_near(t: real, x: real, y: real, u: real, v: real, e: real)
    requires
        0 as real <= t <= 1 as real,
        within(x, u, e),
        within(y, v, e),
    ensures
        within(along(t, x, y), along(t, u, v), e),
{
    lemma_along(t, x - u, y - v, -e, e);
    lemma_distributes(t, y - x, -(v - u));
    lemma_negated(t, v - u);
    assert((y - v) - (x - u) == (y - x) + -(v - u));
}

/// A mix with weights that are a little off.
proof fn lemma_weighed(t: real, g: real, x: real, y: real, m: nat)
    requires
        within(g, 1 as real - t, slack(0)),
        0 as real <= t <= 1 as real,
        -(4 as real * limit(m)) <= x <= 4 as real * limit(m),
    ensures
        within(product(g, x) + product(t, y), along(t, x, y), 4 as real * slack(m)),
{
    let e = g - (1 as real - t);
    lemma_distributes(x, 1 as real - t, e);
    lemma_distributes(x, 1 as real, -t);
    lemma_distributes(t, y, -x);
    lemma_negated(t, x);
    lemma_plain(x);
    lemma2_to64();
    assert(within(product(e, x), 0 as real, 4 as real * slack(m))) by {
        reveal(product);
        assert(-(4 as real * slack(m)) <= e * x <= 4 as real * slack(m)) by (nonlinear_arith)
            requires
                -(4 as real * limit(m)) <= x <= 4 as real * limit(m),
                -(1 as real / 33_554_432 as real) <= e <= 1 as real / 33_554_432 as real,
                slack(m) == limit(m) / 33_554_432 as real,
        ;
    }
}

/// One of the four terms of a mix.
proof fn lemma_term(g: Single, h: Single, d: Single, m: nat)
    requires
        g.finite() && h.finite() && d.finite(),
        0 as real <= exact(g) <= 1 as real,
        0 as real <= exact(h) <= 1 as real,
        -limit(m) <= exact(d) <= limit(m),
        m <= 60,
    ensures
        g.times(h).times(d).finite(),
        within(
            exact(g.times(h).times(d)),
            product(product(exact(g), exact(h)), exact(d)),
            3 as real * slack(m),
        ),
        -limit(m) <= product(product(exact(g), exact(h)), exact(d)) <= limit(m),
{
    lemma_binades(m);
    lemma2_to64();
    let (x, y, v) = (exact(g), exact(h), exact(d));
    lemma_shortened(x, y, 1 as real);
    lemma_sign(x, y);
    lemma_shortened(product(x, y), v, limit(m));
    assert(product(x, y) == x * y) by {
        reveal(product);
    }
    law_product_error(g, h, 0);
    let w = exact(g.times(h));
    let e = w - product(x, y);
    lemma_distributes(v, product(x, y), e);
    assert(within(product(e, v), 0 as real, slack(m))) by {
        reveal(product);
        assert(-slack(m) <= e * v <= slack(m)) by (nonlinear_arith)
            requires
                -limit(m) <= v <= limit(m),
                -(1 as real / 33_554_432 as real) <= e <= 1 as real / 33_554_432 as real,
                slack(m) == limit(m) / 33_554_432 as real,
        ;
    }
    assert(product(w, v) == w * v) by {
        reveal(product);
    }
    law_product_error(g.times(h), d, m + 1);
}

/// What remains of a fraction.
pub proof fn lemma_rest(f: Single)
    requires
        f.finite(),
        0 as real <= exact(f) <= 1 as real,
    ensures
        unit().minus(f).finite(),
        0 as real <= exact(unit().minus(f)) <= 1 as real,
        within(exact(unit().minus(f)), 1 as real - exact(f), slack(0)),
{
    lemma_one_exact();
    lemma_unit();
    lemma2_to64();
    law_negation_exact(f);
    law_negation(f);
    law_sum_error(unit(), f.negated(), 0);
    let o = one();
    let v = f.value();
    assert(0 <= v <= o) by (nonlinear_arith)
        requires
            0 as real <= v as real / o as real <= 1 as real,
            o > 0,
    ;
    lemma_sum_within(unit(), f.negated(), ONE_BITS as int);
    let r = unit().minus(f).value();
    assert(0 as real <= r as real / o as real <= 1 as real) by (nonlinear_arith)
        requires
            0 <= r <= o,
            o > 0,
    ;
}

/// The number that a mix stands for.
pub open spec fn blend(a: real, b: real, d00: real, d01: real, d10: real, d11: real) -> real {
    along(b, along(a, d00, d01), along(a, d10, d11))
}

/// A factor of two terms.
proof fn lemma_taken_out(g: real, p: real, u: real, q: real, v: real)
    ensures
        product(g, product(p, u) + product(q, v)) == product(product(p, g), u) + product(
            product(q, g),
            v,
        ),
{
    lemma_distributes(g, product(p, u), product(q, v));
    lemma_associates(g, p, u);
    lemma_associates(g, q, v);
    lemma_commutes(g, p);
    lemma_commutes(g, q);
}

/// The distance of a mix.
pub proof fn lemma_mixed_distance(
    d00: Single,
    d01: Single,
    d10: Single,
    d11: Single,
    fx: Single,
    fy: Single,
    inv: Single,
    m: nat,
)
    requires
        d00.finite() && d01.finite() && d10.finite() && d11.finite(),
        fx.finite() && fy.finite(),
        -limit(m) <= exact(d00) <= limit(m),
        -limit(m) <= exact(d01) <= limit(m),
        -limit(m) <= exact(d10) <= limit(m),
        -limit(m) <= exact(d11) <= limit(m),
        0 as real <= exact(fx) <= 1 as real,
        0 as real <= exact(fy) <= 1 as real,
        m <= 60,
    ensures
        ({
            let d = mixed(d00, d01, d10, d11, fx, fy, inv).d;
            &&& d.finite()
            &&& within(
                exact(d),
                blend(exact(fx), exact(fy), exact(d00), exact(d01), exact(d10), exact(d11)),
                40 as real * slack(m),
            )
        }),
{
    let (gx, gy) = (unit().minus(fx), unit().minus(fy));
    lemma_binades(m);
    lemma_rest(fx);
    lemma_rest(fy);
    lemma_term(gx, gy, d00, m);
    lemma_term(fx, gy, d01, m);
    lemma_term(gx, fy, d10, m);
    lemma_term(fx, fy, d11, m);
    let t0 = gx.times(gy).times(d00);
    let t1 = fx.times(gy).times(d01);
    let t2 = gx.times(fy).times(d10);
    let t3 = fx.times(fy).times(d11);
    law_sum_error(t0, t1, m + 2);
    law_sum_error(t0.plus(t1), t2, m + 2);
    law_sum_error(t0.plus(t1).plus(t2), t3, m + 3);
    let (a, b, g, h) = (exact(fx), exact(fy), exact(gx), exact(gy));
    let (v0, v1, v2, v3) = (exact(d00), exact(d01), exact(d10), exact(d11));
    lemma_taken_out(h, g, v0, a, v1);
    lemma_taken_out(b, g, v2, a, v3);
    let (p, q) = (product(g, v0) + product(a, v1), product(g, v2) + product(a, v3));
    let l = limit(m);
    lemma_weighed(a, g, v0, v1, m);
    lemma_weighed(a, g, v2, v3, m);
    lemma_along(a, v0, v1, -l, l);
    lemma_along(a, v2, v3, -l, l);
    lemma_weighed(b, h, p, q, m);
    lemma_along_near(b, p, q, along(a, v0, v1), along(a, v2, v3), 4 as real * slack(m));
}

/// A difference over one cell, in metres.
pub proof fn lemma_per_cell(s: Single, cell: Single, m: nat, q: nat)
    requires
        s.finite(),
        -(4 as real * limit(m)) <= exact(s) <= 4 as real * limit(m),
        cell_is(cell, q),
        q <= 16,
        m <= 60,
    ensures
        s.times(unit().over(cell)).finite(),
        within(
            product(exact(s.times(unit().over(cell))), exact(cell)),
            exact(s),
            24 as real * slack(m),
        ),
{
    let (t, l, c) = (slack(m), limit(m), exact(cell));
    let inv = unit().over(cell);
    let n = (m + q) as nat;
    lemma_inverse(cell, q);
    lemma_binades(m);
    lemma_binades(q);
    lemma_binades(n);
    lemma_limits_multiply(m, q);
    let (g, w) = (exact(s), exact(inv));
    assert(-limit(n + 3) <= g * w <= limit(n + 3)) by (nonlinear_arith)
        requires
            -(4 as real * l) <= g <= 4 as real * l,
            0 as real <= w <= 2 as real * limit(q),
            limit(n + 3) == 8 as real * limit(n),
            limit(n) == l * limit(q),
    ;
    law_product_error(s, inv, n + 3);
    let out = exact(s.times(inv));
    // back from metres to cells
    let e = 8 as real * slack(n);
    let gw = product(g, w);
    assert(gw == g * w) by {
        reveal(product);
    }
    lemma_ordered(gw - e, out, c);
    lemma_ordered(out, gw + e, c);
    lemma_distributes(c, gw, e);
    lemma_distributes(c, gw, -e);
    lemma_negated(e, c);
    assert(product(e, c) <= 16 as real * t) by {
        reveal(product);
        let k = limit(q);
        assert(e == 8 as real * t * k) by (nonlinear_arith)
            requires
                e == 8 as real * (l * k / 33_554_432 as real),
                t == l / 33_554_432 as real,
        ;
        assert(e * c <= 16 as real * t) by (nonlinear_arith)
            requires
                e == 8 as real * t * k,
                k * c <= 2 as real,
                t > 0 as real,
        ;
    }
    lemma_associates(g, w, c);
    let z = product(w, c) - 1 as real;
    lemma_distributes(g, z, 1 as real);
    lemma_commutes(g, 1 as real);
    lemma_plain(g);
    lemma2_to64();
    assert(within(product(g, z), 0 as real, 8 as real * t)) by {
        reveal(product);
        assert(-(8 as real * t) <= g * z <= 8 as real * t) by (nonlinear_arith)
            requires
                -(4 as real * l) <= g <= 4 as real * l,
                -(2 as real / 33_554_432 as real) <= z <= 2 as real / 33_554_432 as real,
                t == l / 33_554_432 as real,
        ;
    }
}

/// The difference of two distances.
proof fn lemma_difference(u: Single, v: Single, m: nat)
    requires
        u.finite() && v.finite(),
        -limit(m) <= exact(u) <= limit(m),
        -limit(m) <= exact(v) <= limit(m),
        m <= 60,
    ensures
        v.minus(u).finite(),
        within(exact(v.minus(u)), exact(v) - exact(u), 2 as real * slack(m)),
{
    lemma_binades(m);
    law_negation_exact(u);
    law_sum_error(v, u.negated(), m + 1);
}

/// A difference with its weight.
proof fn lemma_weighed_difference(e: Single, w: Single, m: nat)
    requires
        e.finite() && w.finite(),
        0 as real <= exact(w) <= 1 as real,
        -(4 as real * limit(m)) <= exact(e) <= 4 as real * limit(m),
        m <= 60,
    ensures
        e.times(w).finite(),
        within(exact(e.times(w)), product(exact(w), exact(e)), 4 as real * slack(m)),
{
    lemma_binades(m);
    lemma_shortened(exact(w), exact(e), 4 as real * limit(m));
    lemma_commutes(exact(w), exact(e));
    reveal(product);
    law_product_error(e, w, m + 2);
}

/// One coordinate of the gradient of a mix, in cells.
proof fn lemma_mixed_gradient(
    u: Single,
    v: Single,
    x: Single,
    y: Single,
    f: Single,
    cell: Single,
    m: nat,
    q: nat,
)
    requires
        u.finite() && v.finite() && x.finite() && y.finite() && f.finite(),
        -limit(m) <= exact(u) <= limit(m),
        -limit(m) <= exact(v) <= limit(m),
        -limit(m) <= exact(x) <= limit(m),
        -limit(m) <= exact(y) <= limit(m),
        0 as real <= exact(f) <= 1 as real,
        cell_is(cell, q),
        q <= 16,
        m <= 60,
    ensures
        ({
            let g = v.minus(u).times(unit().minus(f)).plus(y.minus(x).times(f)).times(
                unit().over(cell),
            );
            &&& g.finite()
            &&& within(
                product(exact(g), exact(cell)),
                along(exact(f), exact(v) - exact(u), exact(y) - exact(x)),
                64 as real * slack(m),
            )
        }),
{
    let rest = unit().minus(f);
    let (e0, e1) = (v.minus(u), y.minus(x));
    let (t, l) = (slack(m), limit(m));
    lemma_binades(m);
    lemma_rest(f);
    lemma_difference(u, v, m);
    lemma_difference(x, y, m);
    let (a, r) = (exact(f), exact(rest));
    let (z0, z1) = (exact(v) - exact(u), exact(y) - exact(x));
    lemma_weighed_difference(e0, rest, m);
    lemma_weighed_difference(e1, f, m);
    let (p0, p1) = (e0.times(rest), e1.times(f));
    let bound = 2 as real * l + 2 as real * t;
    lemma_weighed(a, r, exact(e0), exact(e1), m);
    lemma_along(a, exact(e0), exact(e1), -bound, bound);
    law_sum_error(p0, p1, m + 2);
    lemma_along_near(a, exact(e0), exact(e1), z0, z1, 2 as real * t);
    lemma_per_cell(p0.plus(p1), cell, m, q);
}

// ---- Laws -------------------------------------------------------------------

/// A field and a point that can be measured: the field has cells of size `q`
/// and distances of at most `2^m`, the point is at most `2^k` from the field's
/// corner, and between the centres of its outer cells, by more than rounding.
pub open spec fn measured(f: Field, p: (Single, Single), k: nat, q: nat, m: nat) -> bool {
    let e = 32 as real * slack(k);
    &&& cell_is(f.cfg.cell, q)
    &&& k + q <= 16
    &&& m <= 60
    &&& f.cfg.x_range.0.finite() && f.cfg.y_range.0.finite()
    &&& p.0.finite() && p.1.finite()
    &&& -limit(k) <= exact(p.0) - exact(f.cfg.x_range.0) <= limit(k)
    &&& -limit(k) <= exact(p.1) - exact(f.cfg.y_range.0) <= limit(k)
    &&& forall|i: int, j: int|
        f.has(i, j) ==> (#[trigger] f.at(i, j)).finite() && -limit(m) <= exact(f.at(i, j))
            <= limit(m)
    &&& column_centre(f.cfg, 0) + e <= exact(p.0)
    &&& exact(p.0) + e < column_centre(f.cfg, f.w - 1)
    &&& row_centre(f.cfg, 0) + e <= exact(p.1)
    &&& exact(p.1) + e < row_centre(f.cfg, f.h - 1)
}

/// Cell `(i, j)` is the first of the four whose centres surround the point, up
/// to rounding.
pub open spec fn surround(f: Field, p: (Single, Single), i: int, j: int, k: nat) -> bool {
    let e = 32 as real * slack(k);
    &&& f.has(i, j) && f.has(i, j + 1) && f.has(i + 1, j) && f.has(i + 1, j + 1)
    &&& column_centre(f.cfg, j) - e <= exact(p.0) <= column_centre(f.cfg, j + 1) + e
    &&& row_centre(f.cfg, i) - e <= exact(p.1) <= row_centre(f.cfg, i + 1) + e
}

/// Between which centres a coordinate lies.
pub proof fn lemma_surround(v: Single, start: Single, cell: Single, n: int, k: nat, q: nat)
    requires
        cell_is(cell, q),
        k + q <= 16,
        v.finite() && start.finite(),
        -limit(k) <= exact(v) - exact(start) <= limit(k),
        product(half(), exact(cell)) + 32 as real * slack(k) <= exact(v) - exact(start),
        exact(v) - exact(start) + 32 as real * slack(k) < product(
            (n - 1) as real + half(),
            exact(cell),
        ),
    ensures
        ({
            let cx = between_centres(v, start, cell);
            let j = cx.floor_i32() as int;
            let fx = cx.minus(rounded(j));
            let (c, e) = (exact(cell), 32 as real * slack(k));
            &&& 0 <= j && j + 1 < n
            &&& product(j as real + half(), c) - e <= exact(v) - exact(start)
            &&& exact(v) - exact(start) <= product((j + 1) as real + half(), c) + e
            &&& fx.finite()
            &&& 0 as real <= exact(fx) <= 1 as real
            &&& within(
                product(j as real + half() + exact(fx), c),
                exact(v) - exact(start),
                34 as real * slack(k),
            )
        }),
{
    let cx = between_centres(v, start, cell);
    let j = cx.floor_i32() as int;
    let fx = cx.minus(rounded(j));
    let (c, u, x) = (exact(cell), exact(v) - exact(start), exact(cx));
    lemma_coordinate(v, start, cell, k, q);
    lemma_floor(cx);
    if j < 0 {
        lemma_strictly(x + half(), half(), c);
    }
    if j >= n - 1 {
        lemma_ordered((n - 1) as real + half(), x + half(), c);
    }
    lemma_ordered(j as real + half(), x + half(), c);
    lemma_ordered(x + half(), (j + 1) as real + half(), c);
    lemma_fraction(cx);
    let y = j as real + half() + exact(fx);
    let s = slack(0);
    lemma_ordered(x + half() - s, y, c);
    lemma_ordered(y, x + half() + s, c);
    lemma_distributes(c, x + half(), s);
    lemma_distributes(c, x + half(), -s);
    lemma_negated(s, c);
    // one cell is at most two metres
    assert(product(s, c) <= 2 as real * slack(k)) by {
        lemma2_to64();
        lemma_pow2_pos(q);
        lemma_pow2_pos(k);
        assert(limit(q) >= 1 as real && limit(k) >= 1 as real);
        lemma_ordered(1 as real, limit(q), c);
        lemma_plain(c);
        reveal(product);
    }
}

pub proof fn lemma_strictly(x: real, y: real, z: real)
    requires
        x < y,
        z > 0 as real,
    ensures
        product(x, z) < product(y, z),
{
    reveal(product);
    assert(x * z < y * z) by (nonlinear_arith)
        requires
            x < y,
            z > 0 as real,
    ;
}

/// The next centre is one cell on.
pub proof fn lemma_next_centre(c: real, j: int)
    ensures
        product((j + 1) as real + half(), c) == product(j as real + half(), c) + c,
{
    lemma_distributes(c, j as real + half(), 1 as real);
    lemma_plain(c);
    assert((j + 1) as real + half() == (j as real + half()) + 1 as real);
}

/// A sample mixes the four cells whose centres surround its point, whatever the
/// corner and the cell size of the grid are: its distance lies between the
/// least and the largest of theirs, up to rounding.
pub proof fn law_sample_between_neighbours(
    f: Field,
    p: (Single, Single),
    sigma: Single,
    lo: real,
    hi: real,
    k: nat,
    q: nat,
    m: nat,
) -> (at: (int, int))
    requires
        measured(f, p, k, q, m),
    ensures
        surround(f, p, at.0, at.1, k),
        ({
            let (i, j) = at;
            let d = sampled(f, p, sigma).d;
            &&& d.finite()
            &&& lo <= exact(f.at(i, j)) <= hi && lo <= exact(f.at(i, j + 1)) <= hi && lo <= exact(
                f.at(i + 1, j),
            ) <= hi && lo <= exact(f.at(i + 1, j + 1)) <= hi ==> lo - 40 as real * slack(m)
                <= exact(d) <= hi + 40 as real * slack(m)
        }),
{
    let cx = between_centres(p.0, f.cfg.x_range.0, f.cfg.cell);
    let cy = between_centres(p.1, f.cfg.y_range.0, f.cfg.cell);
    let (i, j) = (cy.floor_i32() as int, cx.floor_i32() as int);
    lemma_surround(p.0, f.cfg.x_range.0, f.cfg.cell, f.w as int, k, q);
    lemma_surround(p.1, f.cfg.y_range.0, f.cfg.cell, f.h as int, k, q);
    let (fx, fy) = (cx.minus(rounded(j)), cy.minus(rounded(i)));
    let (d0, d1, d2, d3) = (f.at(i, j), f.at(i, j + 1), f.at(i + 1, j), f.at(i + 1, j + 1));
    lemma_mixed_distance(d0, d1, d2, d3, fx, fy, unit().over(f.cfg.cell), m);
    let (a, b) = (exact(fx), exact(fy));
    let (v0, v1, v2, v3) = (exact(d0), exact(d1), exact(d2), exact(d3));
    if lo <= v0 <= hi && lo <= v1 <= hi && lo <= v2 <= hi && lo <= v3 <= hi {
        lemma_along(a, v0, v1, lo, hi);
        lemma_along(a, v2, v3, lo, hi);
        lemma_along(b, along(a, v0, v1), along(a, v2, v3), lo, hi);
    }
    (i, j)
}

/// A plane over the map, of height `h` at the origin.
pub open spec fn plane(h: real, bx: real, by: real, x: real, y: real) -> real {
    h + product(bx, x) + product(by, y)
}

/// The field is a plane at its cell centres, up to `e`.
pub open spec fn is_plane(f: Field, h: real, bx: real, by: real, e: real) -> bool {
    forall|i: int, j: int|
        f.has(i, j) ==> within(
            exact(#[trigger] f.at(i, j)),
            plane(h, bx, by, column_centre(f.cfg, j), row_centre(f.cfg, i)),
            e,
        )
}

/// A mix of four corners of a plane.
proof fn lemma_plane_blend(
    h: real,
    bx: real,
    by: real,
    x: real,
    y: real,
    c: real,
    a: real,
    b: real,
)
    ensures
        blend(
            a,
            b,
            plane(h, bx, by, x, y),
            plane(h, bx, by, x + c, y),
            plane(h, bx, by, x, y + c),
            plane(h, bx, by, x + c, y + c),
        ) == plane(h, bx, by, x + product(a, c), y + product(b, c)),
        plane(h, bx, by, x + c, y) - plane(h, bx, by, x, y) == product(bx, c),
        plane(h, bx, by, x + c, y + c) - plane(h, bx, by, x, y + c) == product(bx, c),
        plane(h, bx, by, x, y + c) - plane(h, bx, by, x, y) == product(by, c),
        plane(h, bx, by, x + c, y + c) - plane(h, bx, by, x + c, y) == product(by, c),
{
    lemma_distributes(bx, x, c);
    lemma_distributes(by, y, c);
    lemma_distributes(bx, x, product(a, c));
    lemma_distributes(by, y, product(b, c));
    lemma_associates(bx, a, c);
    lemma_associates(a, bx, c);
    lemma_commutes(a, bx);
    lemma_associates(by, b, c);
    lemma_associates(b, by, c);
    lemma_commutes(b, by);
    let (v00, v01) = (plane(h, bx, by, x, y), plane(h, bx, by, x + c, y));
    let (v10, v11) = (plane(h, bx, by, x, y + c), plane(h, bx, by, x + c, y + c));
    assert(along(a, v00, v01) == v00 + product(a, product(bx, c)));
    assert(along(a, v10, v11) == v10 + product(a, product(bx, c)));
    assert(along(a, v10, v11) - along(a, v00, v01) == product(by, c));
}

/// A plane at points that are close.
proof fn lemma_plane_near(h: real, bx: real, by: real, x: real, y: real, u: real, v: real, e: real)
    requires
        -(1 as real) <= bx <= 1 as real,
        -(1 as real) <= by <= 1 as real,
        within(x, u, e),
        within(y, v, e),
    ensures
        within(plane(h, bx, by, x, y), plane(h, bx, by, u, v), 2 as real * e),
{
    lemma_shortened(bx, x - u, e);
    lemma_shortened(by, y - v, e);
    lemma_distributes(bx, u, x - u);
    lemma_distributes(by, v, y - v);
}

/// A sample follows a slope: where the field is a plane at its cell centres,
/// rising by `bx` per metre in x and by `by` in y, the sample is that plane at
/// its point, and its gradient is `(bx, by)`, up to rounding and to how far the
/// field is from the plane.
pub proof fn law_sample_follows_slope(
    f: Field,
    p: (Single, Single),
    sigma: Single,
    h: real,
    bx: real,
    by: real,
    e: real,
    k: nat,
    q: nat,
    m: nat,
)
    requires
        measured(f, p, k, q, m),
        is_plane(f, h, bx, by, e),
        -(1 as real) <= bx <= 1 as real,
        -(1 as real) <= by <= 1 as real,
    ensures
        ({
            let s = sampled(f, p, sigma);
            let c = exact(f.cfg.cell);
            &&& s.d.finite() && s.dx.finite() && s.dy.finite()
            &&& within(
                exact(s.d),
                plane(h, bx, by, exact(p.0), exact(p.1)),
                e + 68 as real * slack(k) + 40 as real * slack(m),
            )
            &&& within(
                product(exact(s.dx), c),
                product(bx, c),
                2 as real * e + 64 as real * slack(m),
            )
            &&& within(
                product(exact(s.dy), c),
                product(by, c),
                2 as real * e + 64 as real * slack(m),
            )
        }),
{
    let cx = between_centres(p.0, f.cfg.x_range.0, f.cfg.cell);
    let cy = between_centres(p.1, f.cfg.y_range.0, f.cfg.cell);
    let (i, j) = (cy.floor_i32() as int, cx.floor_i32() as int);
    lemma_surround(p.0, f.cfg.x_range.0, f.cfg.cell, f.w as int, k, q);
    lemma_surround(p.1, f.cfg.y_range.0, f.cfg.cell, f.h as int, k, q);
    let (fx, fy) = (cx.minus(rounded(j)), cy.minus(rounded(i)));
    let (d0, d1, d2, d3) = (f.at(i, j), f.at(i, j + 1), f.at(i + 1, j), f.at(i + 1, j + 1));
    assert(f.has(i, j) && f.has(i, j + 1) && f.has(i + 1, j) && f.has(i + 1, j + 1));
    let (a, b, c) = (exact(fx), exact(fy), exact(f.cfg.cell));
    let (x, y) = (column_centre(f.cfg, j), row_centre(f.cfg, i));
    lemma_next_centre(c, j);
    lemma_next_centre(c, i);
    let (v0, v1, v2, v3) = (exact(d0), exact(d1), exact(d2), exact(d3));
    let (w0, w1) = (plane(h, bx, by, x, y), plane(h, bx, by, x + c, y));
    let (w2, w3) = (plane(h, bx, by, x, y + c), plane(h, bx, by, x + c, y + c));
    assert(within(v0, w0, e) && within(v1, w1, e) && within(v2, w2, e) && within(v3, w3, e));
    lemma_plane_blend(h, bx, by, x, y, c, a, b);
    // the distance
    lemma_mixed_distance(d0, d1, d2, d3, fx, fy, unit().over(f.cfg.cell), m);
    lemma_along_near(a, v0, v1, w0, w1, e);
    lemma_along_near(a, v2, v3, w2, w3, e);
    lemma_along_near(b, along(a, v0, v1), along(a, v2, v3), along(a, w0, w1), along(a, w2, w3), e);
    lemma_distributes(c, j as real + half(), a);
    lemma_distributes(c, i as real + half(), b);
    lemma_plane_near(
        h,
        bx,
        by,
        x + product(a, c),
        y + product(b, c),
        exact(p.0),
        exact(p.1),
        34 as real * slack(k),
    );
    // the gradient
    lemma_mixed_gradient(d0, d1, d2, d3, fy, f.cfg.cell, m, q);
    lemma_mixed_gradient(d0, d2, d1, d3, fx, f.cfg.cell, m, q);
    lemma_along_near(b, v1 - v0, v3 - v2, product(bx, c), product(bx, c), 2 as real * e);
    lemma_along_near(a, v2 - v0, v3 - v1, product(by, c), product(by, c), 2 as real * e);
    lemma_plain(a);
    lemma_plain(b);
    lemma_commutes(a, 0 as real);
    lemma_commutes(b, 0 as real);
}

} // verus!
