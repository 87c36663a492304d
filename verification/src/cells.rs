//! Where the cells of a grid are, in exact numbers.
//!
//! A grid starts at the lower ends of its ranges; its cells are squares, column
//! by column in x and row by row in y. These laws say that looking a point up
//! finds the cell it lies in, that centres are half a cell from the borders, and
//! that the cells cover the ranges.

use vstd::arithmetic::power2::{lemma2_to64, lemma_pow2_pos, pow2};
use vstd::prelude::*;
use crate::accuracy::{exact, law_negation_exact, law_product_error, law_quotient_error, law_sum_error, law_whole_is_exact, limit, slack, within};
use crate::arith::{lemma_absolute, one, zero};
use crate::beams::Field;
use crate::conversion::rounded;
use crate::grid::{cells_from, GridConfig};
use crate::mcl::{injected, seed_pose, InjectDraw, SeedDraw};
use crate::pose::lemma_binades;
use crate::random::{fraction, law_fraction_below_one};
use crate::sampling::{cell_is, column_centre, half, lemma_floor, lemma_limits_grow, lemma_limits_multiply, lemma_one_exact, lemma_ordered, lemma_strictly, row_centre};
use crate::single::{Single, HALF_BITS};
use crate::turning::{lemma_commutes, lemma_distributes, lemma_negated, lemma_plain, lemma_sign, product};

verus! {

/// Where column `j` begins.
pub open spec fn column_edge(cfg: GridConfig, j: int) -> real {
    exact(cfg.x_range.0) + product(j as real, exact(cfg.cell))
}

/// Where row `i` begins.
pub open spec fn row_edge(cfg: GridConfig, i: int) -> real {
    exact(cfg.y_range.0) + product(i as real, exact(cfg.cell))
}

/// A rounding error of `2^k` metres is small against a cell.
pub proof fn lemma_fine(cell: Single, k: nat, q: nat)
    requires
        cell_is(cell, q),
        k + q <= 16,
    ensures
        512 as real * slack(k) <= exact(cell),
        exact(cell) <= 2 as real * limit(k),
        product(slack((k + q) as nat), exact(cell)) <= 2 as real * slack(k),
        product(limit((k + q) as nat), exact(cell)) <= 2 as real * limit(k),
{
    let (c, t, l, n) = (exact(cell), slack(k), limit(q), (k + q) as nat);
    lemma_limits_multiply(k, q);
    lemma_limits_grow(n);
    lemma_binades(k);
    reveal(product);
    assert(slack(n) == t * l) by (nonlinear_arith)
        requires
            slack(n) == limit(n) / 33_554_432 as real,
            limit(n) == limit(k) * l,
            t == limit(k) / 33_554_432 as real,
    ;
    assert(t <= t * l * c) by (nonlinear_arith)
        requires
            l * c >= 1 as real,
            t > 0 as real,
    ;
    assert(t * l * c <= c / 512 as real) by (nonlinear_arith)
        requires
            t * l <= 65_536 as real / 33_554_432 as real,
            c > 0 as real,
    ;
    assert(slack(n) * c <= 2 as real * t) by (nonlinear_arith)
        requires
            slack(n) == t * l,
            l * c <= 2 as real,
            t > 0 as real,
    ;
    assert(limit(n) * c <= 2 as real * limit(k)) by (nonlinear_arith)
        requires
            limit(n) == limit(k) * l,
            l * c <= 2 as real,
            limit(k) > 0 as real,
    ;
    lemma_pow2_pos(q);
    lemma_pow2_pos(k);
    assert(c <= 2 as real) by (nonlinear_arith)
        requires
            l >= 1 as real,
            l * c <= 2 as real,
            c > 0 as real,
    ;
}

/// How many cells a point is from the start.
proof fn lemma_cells(v: Single, start: Single, cell: Single, k: nat, q: nat)
    requires
        cell_is(cell, q),
        k + q <= 16,
        v.finite() && start.finite(),
        -limit(k) <= exact(v) - exact(start) <= limit(k),
    ensures
        ({
            let n = v.minus(start).over(cell);
            &&& n.finite()
            &&& -limit(22) <= exact(n) <= limit(22)
            &&& within(product(exact(n), exact(cell)), exact(v) - exact(start), 8 as real * slack(k))
        }),
{
    let (c, t, m) = (exact(cell), slack(k), (k + q) as nat);
    let off = v.minus(start);
    lemma_fine(cell, k, q);
    lemma_binades(k);
    lemma_binades(m);
    lemma_limits_multiply(k, q);
    lemma_limits_grow(m);
    law_negation_exact(start);
    law_sum_error(v, start.negated(), k);
    lemma_absolute(cell);
    if cell.zero() {
        lemma_pow2_pos(149);
        let o = one() as real;
        assert(0 as real / o == 0 as real) by (nonlinear_arith)
            requires
                o > 0 as real,
        ;
    }
    let u = exact(off);
    let r = u / c;
    assert(r * c == u) by (nonlinear_arith)
        requires
            r == u / c,
            c > 0 as real,
    ;
    assert(limit(q) * c >= 1 as real) by {
        reveal(product);
    }
    assert(-(2 as real * limit(m)) <= r <= 2 as real * limit(m)) by (nonlinear_arith)
        requires
            -(2 as real * limit(k)) <= r * c <= 2 as real * limit(k),
            limit(q) * c >= 1 as real,
            limit(m) == limit(k) * limit(q),
            limit(k) > 0 as real,
            c > 0 as real,
    {
        assert(limit(k) <= limit(k) * (limit(q) * c));
        assert(limit(k) * (limit(q) * c) == limit(m) * c);
        assert(r * c <= (2 as real * limit(m)) * c);
        assert(-(2 as real * limit(m)) * c <= r * c);
    }
    law_quotient_error(off, cell, m + 1);
    let n = exact(off.over(cell));
    let e = 2 as real * slack(m);
    lemma_ordered(r - e, n, c);
    lemma_ordered(n, r + e, c);
    lemma_distributes(c, r, e);
    lemma_distributes(c, r, -e);
    lemma_negated(e, c);
    lemma_distributes(c, slack(m), slack(m));
    assert(product(r, c) == u) by {
        reveal(product);
    }
}

/// A point is looked up in the cell it lies in.
proof fn lemma_found(start: Single, v: Single, cell: Single, j: int, k: nat, q: nat)
    requires
        cell_is(cell, q),
        k + q <= 16,
        v.finite() && start.finite(),
        0 <= j,
        exact(v) - exact(start) <= limit(k),
        product(j as real, exact(cell)) + 8 as real * slack(k) <= exact(v) - exact(start),
        exact(v) - exact(start) + 8 as real * slack(k) < product((j + 1) as real, exact(cell)),
    ensures
        cells_from(start, v, cell) == j,
{
    let n = v.minus(start).over(cell);
    let (x, c, f) = (exact(n), exact(cell), n.floor_i32() as int);
    lemma_sign(j as real, c);
    lemma_binades(k);
    lemma_cells(v, start, cell, k, q);
    lemma_floor(n);
    if x < j as real {
        lemma_strictly(x, j as real, c);
    }
    if x >= (j + 1) as real {
        lemma_ordered((j + 1) as real, x, c);
    }
    assert(f == j);
    if v.below(start) {
        lemma_pow2_pos(149);
        let (a, b, o) = (v.value() as real, start.value() as real, one() as real);
        assert(a / o < b / o) by (nonlinear_arith)
            requires
                a < b,
                o > 0 as real,
        ;
    }
}

/// Looking up a point finds the column and the row whose borders it lies
/// between, each measured from the start of its own range, unless rounding
/// could take it across a border.
pub proof fn law_points_are_found(
    cfg: GridConfig,
    x: Single,
    y: Single,
    i: int,
    j: int,
    k: nat,
    q: nat,
)
    requires
        cell_is(cfg.cell, q),
        k + q <= 16,
        x.finite() && y.finite(),
        cfg.x_range.0.finite() && cfg.y_range.0.finite(),
        exact(x) - exact(cfg.x_range.0) <= limit(k),
        exact(y) - exact(cfg.y_range.0) <= limit(k),
        0 <= i,
        0 <= j,
        column_edge(cfg, j) + 8 as real * slack(k) <= exact(x),
        exact(x) + 8 as real * slack(k) < column_edge(cfg, j + 1),
        row_edge(cfg, i) + 8 as real * slack(k) <= exact(y),
        exact(y) + 8 as real * slack(k) < row_edge(cfg, i + 1),
    ensures
        cfg.column(x) == j,
        cfg.row(y) == i,
{
    lemma_found(cfg.x_range.0, x, cfg.cell, j, k, q);
    lemma_found(cfg.y_range.0, y, cfg.cell, i, k, q);
}

/// The centre of a cell, in metres from the start.
pub proof fn lemma_centre(start: Single, cell: Single, j: int, k: nat, q: nat)
    requires
        cell_is(cell, q),
        k + q <= 16,
        start.finite(),
        -limit(k) <= exact(start) <= limit(k),
        0 <= j < pow2((k + q) as nat),
    ensures
        ({
            let x = start.plus(rounded(j).plus(Single { bits: HALF_BITS }).times(cell));
            &&& x.finite()
            &&& within(
                exact(x),
                exact(start) + product(j as real + half(), exact(cell)),
                16 as real * slack(k),
            )
            &&& 0 as real <= product(j as real + half(), exact(cell)) <= 2 as real * limit(k)
        }),
{
    let (c, t, m) = (exact(cell), slack(k), (k + q) as nat);
    let hf = Single { bits: HALF_BITS };
    lemma_one_exact();
    lemma_fine(cell, k, q);
    lemma_binades(k);
    lemma_binades(m);
    lemma_limits_grow(m);
    law_whole_is_exact(j);
    law_sum_error(rounded(j), hf, m + 1);
    let a = exact(rounded(j).plus(hf));
    let y = j as real + half();
    let e = 2 as real * slack(m);
    lemma_ordered(y - e, a, c);
    lemma_ordered(a, y + e, c);
    lemma_distributes(c, y, e);
    lemma_distributes(c, y, -e);
    lemma_negated(e, c);
    lemma_distributes(c, slack(m), slack(m));
    assert(y <= limit(m));
    lemma_ordered(y, limit(m), c);
    lemma_sign(y, c);
    assert(product(a, c) == a * c) by {
        reveal(product);
    }
    let p = rounded(j).plus(hf).times(cell);
    law_product_error(rounded(j).plus(hf), cell, k + 2);
    law_sum_error(start, p, k + 2);
}

/// The centre of a cell is half a cell past its borders, in x from the start of
/// the x range and in y from that of the y range, up to rounding; so it is
/// looked up in its own cell.
pub proof fn law_centres(cfg: GridConfig, i: int, j: int, k: nat, q: nat)
    requires
        cell_is(cfg.cell, q),
        k + q <= 14,
        cfg.x_range.0.finite() && cfg.y_range.0.finite(),
        -limit(k) <= exact(cfg.x_range.0) <= limit(k),
        -limit(k) <= exact(cfg.y_range.0) <= limit(k),
        0 <= i < pow2((k + q) as nat),
        0 <= j < pow2((k + q) as nat),
    ensures
        cfg.centre_x(j).finite() && cfg.centre_y(i).finite(),
        within(exact(cfg.centre_x(j)), column_centre(cfg, j), 16 as real * slack(k)),
        within(exact(cfg.centre_y(i)), row_centre(cfg, i), 16 as real * slack(k)),
        cfg.column(cfg.centre_x(j)) == j,
        cfg.row(cfg.centre_y(i)) == i,
{
    lemma_centre(cfg.x_range.0, cfg.cell, j, k, q);
    lemma_centre(cfg.y_range.0, cfg.cell, i, k, q);
    let (c, h) = (exact(cfg.cell), half());
    lemma_fine(cfg.cell, k, q);
    lemma_binades(k);
    lemma_distributes(c, j as real, h);
    lemma_distributes(c, i as real, h);
    lemma_distributes(c, j as real, 1 as real);
    lemma_distributes(c, i as real, 1 as real);
    lemma_plain(c);
    assert((j + 1) as real == j as real + 1 as real);
    assert((i + 1) as real == i as real + 1 as real);
    let n = (k + 2) as nat;
    lemma_found(cfg.x_range.0, cfg.centre_x(j), cfg.cell, j, n, q);
    lemma_found(cfg.y_range.0, cfg.centre_y(i), cfg.cell, i, n, q);
}

/// A number rounded up.
proof fn lemma_ceiling(a: Single)
    requires
        a.finite(),
        0 as real <= exact(a) <= limit(22),
    ensures
        exact(a) <= a.ceil_usize() as real,
        exact(a) > a.ceil_usize() as real - 1 as real,
{
    reveal(Single::ceil_usize);
    lemma_absolute(a);
    lemma_limits_grow(0);
    lemma_pow2_pos(149);
    let (v, o) = (a.value(), one());
    assert(0 <= v <= 4_194_304 * o) by (nonlinear_arith)
        requires
            0 as real <= v as real / o as real <= 4_194_304 as real,
            o > 0,
    ;
    let w = v / o;
    vstd::arithmetic::div_mod::lemma_fundamental_div_mod(v, o);
    vstd::arithmetic::div_mod::lemma_mod_bound(v, o);
    assert(0 <= w <= 4_194_304) by (nonlinear_arith)
        requires
            0 <= v <= 4_194_304 * o,
            v == o * w + v % o,
            0 <= v % o < o,
            o > 0,
    ;
    let n = a.ceil_usize() as int;
    if a.negative() {
        assert(v == 0);
        assert(w == 0) by (nonlinear_arith)
            requires
                0 == o * w + v % o,
                0 <= v % o < o,
                o > 0,
                0 <= w,
        ;
    }
    assert(n == w && v % o == 0 || n == w + 1 && v % o != 0);
    assert(n * o - o < v <= n * o) by (nonlinear_arith)
        requires
            v == o * w + v % o,
            0 <= v % o < o,
            n == w && v % o == 0 || n == w + 1 && v % o != 0,
            o > 0,
    ;
    assert(v as real / o as real <= n as real && v as real / o as real > n as real - 1 as real)
        by (nonlinear_arith)
        requires
            n * o - o < v <= n * o,
            o > 0,
    ;
}

/// The cells cover the ranges, and no column and no row is superfluous, up to
/// rounding.
pub proof fn law_cells_cover_the_ranges(cfg: GridConfig, k: nat, q: nat)
    requires
        cell_is(cfg.cell, q),
        k + q <= 16,
        cfg.x_range.0.finite() && cfg.x_range.1.finite(),
        cfg.y_range.0.finite() && cfg.y_range.1.finite(),
        512 as real * slack(k) <= exact(cfg.x_range.1) - exact(cfg.x_range.0) <= limit(k),
        512 as real * slack(k) <= exact(cfg.y_range.1) - exact(cfg.y_range.0) <= limit(k),
    ensures
        ({
            let e = 8 as real * slack(k);
            let (w, h) = (cfg.columns() as int, cfg.lines() as int);
            &&& exact(cfg.x_range.1) - e <= column_edge(cfg, w)
            &&& column_edge(cfg, w - 1) < exact(cfg.x_range.1) + e
            &&& exact(cfg.y_range.1) - e <= row_edge(cfg, h)
            &&& row_edge(cfg, h - 1) < exact(cfg.y_range.1) + e
        }),
{
    lemma_covered(cfg.x_range.0, cfg.x_range.1, cfg.cell, k, q);
    lemma_covered(cfg.y_range.0, cfg.y_range.1, cfg.cell, k, q);
}

/// One range.
proof fn lemma_covered(a: Single, b: Single, cell: Single, k: nat, q: nat)
    requires
        cell_is(cell, q),
        k + q <= 16,
        a.finite() && b.finite(),
        512 as real * slack(k) <= exact(b) - exact(a) <= limit(k),
    ensures
        ({
            let n = b.minus(a).over(cell).ceil_usize() as int;
            let (c, d, e) = (exact(cell), exact(b) - exact(a), 8 as real * slack(k));
            d - e <= product(n as real, c) && product((n - 1) as real, c) < d + e
        }),
{
    let m = b.minus(a).over(cell);
    let (x, c) = (exact(m), exact(cell));
    lemma_binades(k);
    lemma_cells(b, a, cell, k, q);
    if x < 0 as real {
        lemma_ordered(x, 0 as real, c);
        lemma_plain(c);
    }
    lemma_ceiling(m);
    let n = m.ceil_usize() as int;
    lemma_ordered(x, n as real, c);
    lemma_strictly((n - 1) as real, x, c);
}

/// One coordinate of a seed.
proof fn lemma_seed(centre: Single, at: real, cell: Single, f: Single, k: nat, q: nat)
    requires
        cell_is(cell, q),
        k + q <= 14,
        centre.finite() && f.finite(),
        0 as real <= exact(f) <= 1 as real,
        -(4 as real * limit(k)) <= exact(centre) <= 4 as real * limit(k),
        within(exact(centre), at, 16 as real * slack(k)),
    ensures
        ({
            let x = centre.plus(f.minus(Single { bits: HALF_BITS }).times(cell));
            let c = exact(cell);
            &&& x.finite()
            &&& within(exact(x), at + product(exact(f) - half(), c), 32 as real * slack(k))
            &&& within(exact(x), at, product(half(), c) + 32 as real * slack(k))
        }),
{
    let (c, t) = (exact(cell), slack(k));
    let hf = Single { bits: HALF_BITS };
    lemma_one_exact();
    lemma_fine(cell, k, q);
    lemma_binades(k);
    lemma2_to64();
    law_negation_exact(hf);
    law_sum_error(f, hf.negated(), 0);
    let off = f.minus(hf);
    let (a, b, s) = (exact(off), exact(f) - half(), slack(0));
    lemma_ordered(b - s, a, c);
    lemma_ordered(a, b + s, c);
    lemma_distributes(c, b, s);
    lemma_distributes(c, b, -s);
    lemma_negated(s, c);
    lemma_ordered(b, half(), c);
    lemma_ordered(-half(), b, c);
    lemma_negated(half(), c);
    lemma_plain(c);
    // one cell is at most two metres
    lemma_pow2_pos(k);
    lemma_fine(cell, 0, q);
    lemma_ordered(exact(cell), 2 as real, s);
    lemma_commutes(s, c);
    assert(product(2 as real, s) == 2 as real * s && product(a, c) == a * c) by {
        reveal(product);
    }
    assert(s <= t);
    law_product_error(off, cell, k + 1);
    law_sum_error(centre, off.times(cell), k + 3);
}

/// A seed stands in the free cell that was drawn for it: at its centre, off by
/// the two drawn fractions of a cell, at most half a cell each way, in x and in
/// y on their own.
pub proof fn law_seeds_stand_in_their_cells(
    cfg: GridConfig,
    free: Seq<(usize, usize)>,
    d: SeedDraw,
    p: usize,
    k: nat,
    q: nat,
)
    requires
        d.pick == Some(p),
        p < free.len(),
        cell_is(cfg.cell, q),
        k + q <= 14,
        cfg.x_range.0.finite() && cfg.y_range.0.finite(),
        -limit(k) <= exact(cfg.x_range.0) <= limit(k),
        -limit(k) <= exact(cfg.y_range.0) <= limit(k),
        free[p as int].0 < pow2((k + q) as nat),
        free[p as int].1 < pow2((k + q) as nat),
    ensures
        ({
            let s = seed_pose(cfg, free, d);
            let (x, y) = (
                column_centre(cfg, free[p as int].1 as int),
                row_centre(cfg, free[p as int].0 as int),
            );
            let (c, e) = (exact(cfg.cell), 32 as real * slack(k));
            &&& within(exact(s.0), x + product(exact(fraction(d.x_word)) - half(), c), e)
            &&& within(exact(s.1), y + product(exact(fraction(d.y_word)) - half(), c), e)
            &&& within(exact(s.0), x, product(half(), c) + e)
            &&& within(exact(s.1), y, product(half(), c) + e)
        }),
{
    let (i, j) = (free[p as int].0 as int, free[p as int].1 as int);
    law_centres(cfg, i, j, k, q);
    lemma_centre(cfg.x_range.0, cfg.cell, j, k, q);
    lemma_centre(cfg.y_range.0, cfg.cell, i, k, q);
    lemma_binades(k);
    law_fraction_below_one(d.x_word);
    law_fraction_below_one(d.y_word);
    lemma_fraction_exact(d.x_word);
    lemma_fraction_exact(d.y_word);
    lemma_seed(cfg.centre_x(j), column_centre(cfg, j), cfg.cell, fraction(d.x_word), k, q);
    lemma_seed(cfg.centre_y(i), row_centre(cfg, i), cfg.cell, fraction(d.y_word), k, q);
}

pub proof fn lemma_fraction_exact(word: u32)
    ensures
        fraction(word).finite(),
        0 as real <= exact(fraction(word)) <= 1 as real,
{
    law_fraction_below_one(word);
    crate::arith::lemma_unit();
    assert(crate::single::magnitude_value(0) == 0);
    let (v, o) = (fraction(word).value() as real, one() as real);
    assert(0 as real <= v / o <= 1 as real) by (nonlinear_arith)
        requires
            0 as real <= v <= o,
            o > 0 as real,
    ;
}

/// An injected particle stands at the centre of its cell.
pub proof fn law_injected_at_the_centre(cfg: GridConfig, d: InjectDraw, k: nat, q: nat)
    requires
        cell_is(cfg.cell, q),
        k + q <= 14,
        cfg.x_range.0.finite() && cfg.y_range.0.finite(),
        -limit(k) <= exact(cfg.x_range.0) <= limit(k),
        -limit(k) <= exact(cfg.y_range.0) <= limit(k),
        d.i < pow2((k + q) as nat),
        d.j < pow2((k + q) as nat),
    ensures
        ({
            let p = injected(cfg, d);
            &&& within(exact(p.0), column_centre(cfg, d.j as int), 16 as real * slack(k))
            &&& within(exact(p.1), row_centre(cfg, d.i as int), 16 as real * slack(k))
            &&& cfg.column(p.0) == d.j
            &&& cfg.row(p.1) == d.i
        }),
{
    law_centres(cfg, d.i as int, d.j as int, k, q);
}

/// A point before the start of a range is in no cell, however little it is
/// before it.
pub proof fn law_points_before_the_start(cfg: GridConfig, x: Single, y: Single)
    requires
        zero().below(cfg.cell),
    ensures
        x.below(cfg.x_range.0) ==> cfg.column(x) < 0,
        y.below(cfg.y_range.0) ==> cfg.row(y) < 0,
{
}

/// The distance that is looked up for a point is that of the cell it lies in.
pub proof fn law_near_is_of_the_cell(
    f: Field,
    x: Single,
    y: Single,
    i: int,
    j: int,
    k: nat,
    q: nat,
)
    requires
        cell_is(f.cfg.cell, q),
        k + q <= 16,
        x.finite() && y.finite(),
        f.cfg.x_range.0.finite() && f.cfg.y_range.0.finite(),
        exact(x) - exact(f.cfg.x_range.0) <= limit(k),
        exact(y) - exact(f.cfg.y_range.0) <= limit(k),
        f.has(i, j),
        column_edge(f.cfg, j) + 8 as real * slack(k) <= exact(x),
        exact(x) + 8 as real * slack(k) < column_edge(f.cfg, j + 1),
        row_edge(f.cfg, i) + 8 as real * slack(k) <= exact(y),
        exact(y) + 8 as real * slack(k) < row_edge(f.cfg, i + 1),
    ensures
        f.near((x, y)) == Some(f.metres@[i * f.w + j]),
{
    law_points_are_found(f.cfg, x, y, i, j, k, q);
}

} // verus!
