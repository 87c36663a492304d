//! What is sampled at the centre of a cell, in exact numbers.

use vstd::prelude::*;
use vstd::arithmetic::power2::pow2;
use crate::accuracy::{exact, limit, slack, within};
use crate::arith::unit;
use crate::beams::Field;
use crate::cells::{law_centres, lemma_centre, lemma_fine};
use crate::conversion::rounded;
use crate::pose::lemma_binades;
use crate::sampling::{along, cell_is, half, lemma_along, lemma_limits_grow, lemma_limits_multiply, lemma_mixed_distance, lemma_next_centre, lemma_ordered, lemma_surround};
use crate::scan_matcher::{between_centres, sampled};
use crate::single::Single;
use crate::turning::{lemma_distributes, lemma_negated, lemma_plain, product};

verus! {

/// The cell and its eight neighbours are on the map, and differ by at most `g`.
pub open spec fn level_around(f: Field, i: int, j: int, g: real) -> bool {
    &&& 1 <= i && i + 1 < f.h
    &&& 1 <= j && j + 1 < f.w
    &&& forall|a: int, b: int|
        i - 1 <= a <= i + 1 && j - 1 <= b <= j + 1 ==> within(
            exact(#[trigger] f.at(a, b)),
            exact(f.at(i, j)),
            g,
        )
}

/// A point close to one end.
proof fn lemma_near_end(t: real, x: real, y: real, v: real, a: real, g: real, e: real)
    requires
        0 as real <= t <= 1 as real,
        0 as real <= e,
        0 as real <= a,
        0 as real <= g,
        (t <= e && within(x, v, a) && within(y, v, g)) || (1 as real - t <= e && within(y, v, a)
            && within(x, v, g)),
    ensures
        within(along(t, x, y), v, a + product(e, a + g)),
{
    let d = y - x;
    if t <= e && within(x, v, a) && within(y, v, g) {
        lemma_part_of(t, d, e, a + g);
    } else {
        let s = 1 as real - t;
        lemma_part_of(s, d, e, a + g);
        lemma_distributes(d, 1 as real, -t);
        lemma_negated(t, d);
        lemma_plain(d);
    }
}

/// A small part of a difference.
proof fn lemma_part_of(t: real, d: real, e: real, m: real)
    requires
        0 as real <= t <= e,
        -m <= d <= m,
        0 as real <= m,
    ensures
        -product(e, m) <= product(t, d) <= product(e, m),
{
    lemma_ordered(-m, d, t);
    lemma_ordered(d, m, t);
    lemma_negated(t, m);
    lemma_ordered(t, e, m);
}

/// Where a coordinate that is close to centre `j` is between the centres.
proof fn lemma_at_centre(x: real, j: int, i: int, a: real, cell: Single, k: nat, q: nat)
    requires
        cell_is(cell, q),
        k + q <= 16,
        0 as real <= a <= 1 as real,
        within(product(i as real + half() + a, exact(cell)), x, 34 as real * slack(k)),
        within(x, product(j as real + half(), exact(cell)), 16 as real * slack(k)),
    ensures
        ({
            let e = 50 as real * slack(k + q);
            (i == j && a <= e) || (i == j - 1 && 1 as real - a <= e)
        }),
{
    let (c, l, t) = (exact(cell), limit(q), slack(k));
    lemma_limits_multiply(k, q);
    lemma_limits_grow(k + q);
    lemma_binades(k);
    let (u, v) = (i as real + half() + a, j as real + half());
    let d = u - v;
    lemma_distributes(c, v, d);
    assert(product(d, c) == d * c && product(l, c) == l * c) by {
        reveal(product);
    }
    assert(slack(k + q) == t * l) by (nonlinear_arith)
        requires
            slack(k + q) == (limit(k) * l) / 33_554_432 as real,
            t == limit(k) / 33_554_432 as real,
    ;
    let e = 50 as real * (t * l);
    assert(-e <= d <= e) by (nonlinear_arith)
        requires
            -(50 as real * t) <= d * c <= 50 as real * t,
            l * c >= 1 as real,
            c > 0 as real,
            t > 0 as real,
            e == 50 as real * (t * l),
    {
        assert(e * c >= 50 as real * t) by (nonlinear_arith)
            requires
                e == 50 as real * (t * l),
                l * c >= 1 as real,
                t > 0 as real,
        ;
        assert(d * c <= e * c && (-e) * c <= d * c) by (nonlinear_arith)
            requires
                -(50 as real * t) <= d * c <= 50 as real * t,
                e * c >= 50 as real * t,
        ;
    }
    assert(e < 1 as real / 2 as real);
}

/// The distance that is sampled at the centre of a cell is the field's distance
/// of that cell, whatever the corner of the grid is: off by rounding, and by as
/// much of the differences to the neighbours as rounding moves the centre.
pub proof fn law_sample_at_a_centre(
    f: Field,
    i: int,
    j: int,
    sigma: Single,
    g: real,
    k: nat,
    q: nat,
    m: nat,
)
    requires
        cell_is(f.cfg.cell, q),
        k + q <= 14,
        m <= 60,
        f.cfg.x_range.0.finite() && f.cfg.y_range.0.finite(),
        -limit(k) <= exact(f.cfg.x_range.0) <= limit(k),
        -limit(k) <= exact(f.cfg.y_range.0) <= limit(k),
        0 <= i < pow2((k + q) as nat),
        0 <= j < pow2((k + q) as nat),
        forall|a: int, b: int|
            f.has(a, b) ==> (#[trigger] f.at(a, b)).finite() && -limit(m) <= exact(f.at(a, b))
                <= limit(m),
        level_around(f, i, j, g),
        0 as real <= g,
    ensures
        ({
            let p = (f.cfg.centre_x(j), f.cfg.centre_y(i));
            let e = 50 as real * slack(k + 2 + q);
            within(
                exact(sampled(f, p, sigma).d),
                exact(f.at(i, j)),
                3 as real * product(e, g) + 40 as real * slack(m),
            )
        }),
{
    let n = (k + 2) as nat;
    let (c, cell) = (exact(f.cfg.cell), f.cfg.cell);
    let p = (f.cfg.centre_x(j), f.cfg.centre_y(i));
    let (x0, y0) = (f.cfg.x_range.0, f.cfg.y_range.0);
    law_centres(f.cfg, i, j, k, q);
    lemma_centre(x0, cell, j, k, q);
    lemma_centre(y0, cell, i, k, q);
    lemma_fine(cell, k, q);
    lemma_binades(k);
    lemma_inside(c, j, f.w as int, slack(k));
    lemma_inside(c, i, f.h as int, slack(k));
    lemma_surround(p.0, x0, cell, f.w as int, n, q);
    lemma_surround(p.1, y0, cell, f.h as int, n, q);
    let cx = between_centres(p.0, x0, cell);
    let cy = between_centres(p.1, y0, cell);
    let (r, s) = (cy.floor_i32() as int, cx.floor_i32() as int);
    let (fx, fy) = (cx.minus(rounded(s)), cy.minus(rounded(r)));
    let (a, b, e) = (exact(fx), exact(fy), 50 as real * slack(n + q));
    lemma_at_centre(exact(p.0) - exact(x0), j, s, a, cell, n, q);
    lemma_at_centre(exact(p.1) - exact(y0), i, r, b, cell, n, q);
    let (d0, d1, d2, d3) = (f.at(r, s), f.at(r, s + 1), f.at(r + 1, s), f.at(r + 1, s + 1));
    assert(f.has(r, s) && f.has(r, s + 1) && f.has(r + 1, s) && f.has(r + 1, s + 1));
    lemma_mixed_distance(d0, d1, d2, d3, fx, fy, unit().over(cell), m);
    let v = exact(f.at(i, j));
    let (v0, v1, v2, v3) = (exact(d0), exact(d1), exact(d2), exact(d3));
    assert(within(v0, v, g) && within(v1, v, g) && within(v2, v, g) && within(v3, v, g));
    let (up, down) = (along(a, v0, v1), along(a, v2, v3));
    lemma_binades(n + q);
    lemma_limits_grow(n + q);
    let h = product(e, g);
    lemma_small_part(e, g);
    if r == i {
        lemma_near_end(a, v0, v1, v, 0 as real, g, e);
        lemma_along(a, v2, v3, v - g, v + g);
        lemma_near_end(b, up, down, v, h, g, e);
    } else {
        lemma_near_end(a, v2, v3, v, 0 as real, g, e);
        lemma_along(a, v0, v1, v - g, v + g);
        lemma_near_end(b, up, down, v, h, g, e);
    }
    lemma_distributes(e, h, g);
    lemma_small_part(e, h);
}

/// A small part is no more than the whole.
proof fn lemma_small_part(e: real, g: real)
    requires
        0 as real <= e <= 1 as real,
        0 as real <= g,
    ensures
        0 as real <= product(e, g) <= g,
        product(e, 0 as real + g) == product(e, g),
{
    lemma_ordered(e, 1 as real, g);
    lemma_ordered(0 as real, e, g);
    lemma_plain(g);
}

/// An inner cell is between the outer centres, by more than rounding.
proof fn lemma_inside(c: real, j: int, w: int, t: real)
    requires
        512 as real * t <= c,
        t > 0 as real,
        1 <= j,
        j + 1 < w,
    ensures
        product(half(), c) + 256 as real * t <= product(j as real + half(), c),
        product(j as real + half(), c) + 256 as real * t < product((w - 1) as real + half(), c),
{
    lemma_ordered(1 as real + half(), j as real + half(), c);
    lemma_distributes(c, 1 as real, half());
    lemma_plain(c);
    lemma_next_centre(c, j);
    lemma_ordered((j + 1) as real + half(), (w - 1) as real + half(), c);
}

} // verus!
