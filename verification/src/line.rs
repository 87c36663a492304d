//! Digital lines between grid cells.
//!
//! [`bresenham`] walks the cells of the straight line between two cells with
//! additions and comparisons only. What it visits has a closed form: along
//! the longer axis it takes one step at a time, and on the other axis it
//! stands at the proportional coordinate, rounded to the nearest integer with
//! ties towards the start.

use vstd::prelude::*;

verus! {

/// The distance between two integers.
pub open spec fn gap(a: int, b: int) -> int {
    if a <= b {
        b - a
    } else {
        a - b
    }
}

/// The number of steps of the line from `(i0, j0)` to `(i1, j1)`: the longer
/// of its two extents.
pub open spec fn line_steps(i0: int, j0: int, i1: int, j1: int) -> int {
    if gap(i0, i1) >= gap(j0, j1) {
        gap(i0, i1)
    } else {
        gap(j0, j1)
    }
}

/// `x / n` rounded to the nearest integer, halves rounded down.
pub open spec fn round_half_down(x: int, n: int) -> int {
    if n <= 0 {
        0
    } else {
        (2 * x + n - 1) / (2 * n)
    }
}

/// Where the walk from `a` to `b` in `n` steps stands after `k` of them.
pub open spec fn walk(a: int, b: int, n: int, k: int) -> int {
    if a <= b {
        a + round_half_down(k * gap(a, b), n)
    } else {
        a - round_half_down(k * gap(a, b), n)
    }
}

/// The cell that the line from `(i0, j0)` to `(i1, j1)` visits after `k` steps.
pub open spec fn line_cell(i0: int, j0: int, i1: int, j1: int, k: int) -> (int, int) {
    let n = line_steps(i0, j0, i1, j1);
    (walk(i0, i1, n, k), walk(j0, j1, n, k))
}

/// The quotient `(2x + n - 1) / 2n` is the only integer whose half-open
/// interval of width `2n` holds the dividend.
proof fn lemma_round_bounds(x: int, n: int)
    requires
        n > 0,
    ensures
        2 * (n * round_half_down(x, n)) <= 2 * x + n - 1,
        2 * x + n - 1 < 2 * (n * round_half_down(x, n)) + 2 * n,
{
    let y = 2 * x + n - 1;
    let d = 2 * n;
    let q = y / d;
    vstd::arithmetic::div_mod::lemma_fundamental_div_mod(y, d);
    vstd::arithmetic::div_mod::lemma_mod_bound(y, d);
    assert(d * q == 2 * (n * q)) by (nonlinear_arith)
        requires
            d == 2 * n,
    ;
}

proof fn lemma_round_is(x: int, n: int, q: int)
    requires
        n > 0,
        2 * (n * q) <= 2 * x + n - 1,
        2 * x + n - 1 < 2 * (n * q) + 2 * n,
    ensures
        round_half_down(x, n) == q,
{
    let r = round_half_down(x, n);
    lemma_round_bounds(x, n);
    assert(n * (r - q) < n && n * (q - r) < n) by (nonlinear_arith)
        requires
            2 * (n * q) <= 2 * x + n - 1,
            2 * x + n - 1 < 2 * (n * q) + 2 * n,
            2 * (n * r) <= 2 * x + n - 1,
            2 * x + n - 1 < 2 * (n * r) + 2 * n,
    ;
    assert(r == q) by (nonlinear_arith)
        requires
            n > 0,
            n * (r - q) < n,
            n * (q - r) < n,
    ;
}

/// Along the longer axis the walk takes exactly one step at a time.
proof fn lemma_round_major(n: int, k: int)
    requires
        n > 0,
    ensures
        round_half_down(k * n, n) == k,
{
    assert(n * k == k * n) by (nonlinear_arith);
    lemma_round_is(k * n, n, k);
}

/// After all steps the walk has covered its whole extent; before, no more.
proof fn lemma_round_ends(d: int, n: int, k: int)
    requires
        0 <= d <= n,
        0 <= k <= n,
    ensures
        0 <= round_half_down(k * d, n) <= d,
        n > 0 ==> round_half_down(n * d, n) == d,
        round_half_down(0 * d, n) == 0,
{
    if n > 0 {
        lemma_round_is(n * d, n, d);
        lemma_round_is(0 * d, n, 0);
        lemma_round_bounds(k * d, n);
        let r = round_half_down(k * d, n);
        assert(0 <= r) by (nonlinear_arith)
            requires
                2 * (k * d) + n - 1 < 2 * (n * r) + 2 * n,
                k >= 0,
                d >= 0,
                n > 0,
        ;
        assert(r <= d) by (nonlinear_arith)
            requires
                2 * (n * r) <= 2 * (k * d) + n - 1,
                0 <= k <= n,
                d >= 0,
                n > 0,
        ;
    }
}

/// One step of the error-driven walk when `n` is the longer extent and `m`
/// the shorter: `b` moves exactly when twice the error is below `n`, and the
/// longer axis always moves.
proof fn lemma_step(n: int, m: int, k: int, b: int, err: int)
    requires
        n > 0,
        0 <= m <= n,
        b == round_half_down(k * m, n),
        err == (b + 1) * n - (k + 1) * m,
    ensures
        2 * err > -m,
        2 * err <= 3 * n,
        2 * err < n ==> round_half_down((k + 1) * m, n) == b + 1,
        2 * err >= n ==> round_half_down((k + 1) * m, n) == b,
{
    lemma_round_bounds(k * m, n);
    assert((b + 1) * n == n * b + n) by (nonlinear_arith);
    assert((k + 1) * m == k * m + m) by (nonlinear_arith);
    assert(n * (b + 1) == n * b + n) by (nonlinear_arith);
    if m == n {
        lemma_round_major(n, k);
        assert(err == 0) by (nonlinear_arith)
            requires
                b == k,
                m == n,
                err == (b + 1) * n - (k + 1) * m,
        ;
    }
    if 2 * err < n {
        lemma_round_is((k + 1) * m, n, b + 1);
    } else {
        lemma_round_is((k + 1) * m, n, b);
    }
}

/// Walk integer cells along the line from `(i0, j0)` to `(i1, j1)`: each cell
/// in turn, both ends with them, and whether it is the last.
pub fn bresenham(i0: i32, j0: i32, i1: i32, j1: i32) -> (cells: Vec<(i32, i32, bool)>)
    ensures
        cells@.len() == line_steps(i0 as int, j0 as int, i1 as int, j1 as int) + 1,
        forall|k: int|
            0 <= k < cells@.len() ==> {
                let c = line_cell(i0 as int, j0 as int, i1 as int, j1 as int, k);
                &&& (#[trigger] cells@[k]).0 == c.0
                &&& cells@[k].1 == c.1
                &&& cells@[k].2 == (k == cells@.len() - 1)
            },
{
    let di: i64 = if i0 <= i1 { i1 as i64 - i0 as i64 } else { i0 as i64 - i1 as i64 };
    let dj: i64 = if j0 <= j1 { j1 as i64 - j0 as i64 } else { j0 as i64 - j1 as i64 };
    let si: i64 = if i0 < i1 { 1 } else { -1 };
    let sj: i64 = if j0 < j1 { 1 } else { -1 };
    let mut i: i64 = i0 as i64;
    let mut j: i64 = j0 as i64;
    let mut err: i64 = di - dj;
    let mut cells: Vec<(i32, i32, bool)> = Vec::new();
    let ghost n = line_steps(i0 as int, j0 as int, i1 as int, j1 as int);
    let ghost mut k: int = 0;
    proof {
        lemma_round_ends(di as int, n, 0);
        lemma_round_ends(dj as int, n, 0);
        assert((0 + 1) * di - (0 + 1) * dj == err) by (nonlinear_arith)
            requires
                err == di - dj,
        ;
    }
    loop
        invariant_except_break
            cells@.len() == k,
            i == walk(i0 as int, i1 as int, n, k),
            j == walk(j0 as int, j1 as int, n, k),
            n > 0 ==> err == (round_half_down(k * dj, n) + 1) * di - (round_half_down(k * di, n)
                + 1) * dj,
            forall|t: int|
                0 <= t < k ==> {
                    let c = line_cell(i0 as int, j0 as int, i1 as int, j1 as int, t);
                    &&& (#[trigger] cells@[t]).0 == c.0
                    &&& cells@[t].1 == c.1
                    &&& cells@[t].2 == false
                },
        invariant
            di == gap(i0 as int, i1 as int),
            dj == gap(j0 as int, j1 as int),
            si == if i0 < i1 { 1int } else { -1 },
            sj == if j0 < j1 { 1int } else { -1 },
            n == line_steps(i0 as int, j0 as int, i1 as int, j1 as int),
            n == if di >= dj { di } else { dj },
            0 <= k <= n,
        ensures
            cells@.len() == n + 1,
            forall|t: int|
                0 <= t < cells@.len() ==> {
                    let c = line_cell(i0 as int, j0 as int, i1 as int, j1 as int, t);
                    &&& (#[trigger] cells@[t]).0 == c.0
                    &&& cells@[t].1 == c.1
                    &&& cells@[t].2 == (t == cells@.len() - 1)
                },
        decreases n - k,
    {
        let ghost a = round_half_down(k * di, n);
        let ghost b = round_half_down(k * dj, n);
        proof {
            lemma_round_ends(di as int, n, k);
            lemma_round_ends(dj as int, n, k);
            if n > 0 {
                lemma_round_major(n, k);
            }
        }
        let at_end = i == i1 as i64 && j == j1 as i64;
        assert(at_end == (k == n));
        cells.push((i as i32, j as i32, at_end));
        if at_end {
            break;
        }
        proof {
            if di >= dj {
                lemma_step(n, dj as int, k, b, err as int);
                lemma_round_major(n, k + 1);
            } else {
                assert(-err == (a + 1) * dj - (k + 1) * di) by (nonlinear_arith)
                    requires
                        err == (k + 1) * di - (a + 1) * dj,
                ;
                lemma_step(n, di as int, k, a, -err as int);
                lemma_round_major(n, k + 1);
            }
            lemma_round_ends(di as int, n, k + 1);
            lemma_round_ends(dj as int, n, k + 1);
        }
        let e2: i64 = 2 * err;
        let ghost err0 = err;
        if e2 > -dj {
            err = err - dj;
            i = i + si;
        }
        if e2 < di {
            err = err + di;
            j = j + sj;
        }
        proof {
            let a1 = round_half_down((k + 1) * di, n);
            let b1 = round_half_down((k + 1) * dj, n);
            assert(a1 == if e2 > -dj { a + 1 } else { a });
            assert(b1 == if e2 < di { b + 1 } else { b });
            assert((b + 1 + 1) * di == (b + 1) * di + di) by (nonlinear_arith);
            assert((a + 1 + 1) * dj == (a + 1) * dj + dj) by (nonlinear_arith);
            k = k + 1;
        }
    }
    cells
}

/// A line starts at its first end and stops at its second.
pub proof fn law_line_ends(i0: int, j0: int, i1: int, j1: int)
    ensures
        line_cell(i0, j0, i1, j1, 0) == (i0, j0),
        line_cell(i0, j0, i1, j1, line_steps(i0, j0, i1, j1)) == (i1, j1),
{
    let n = line_steps(i0, j0, i1, j1);
    lemma_round_ends(gap(i0, i1), n, 0);
    lemma_round_ends(gap(j0, j1), n, 0);
}

/// No cell of a line leaves the box that its two ends span.
pub proof fn law_line_in_box(i0: int, j0: int, i1: int, j1: int, k: int)
    requires
        0 <= k <= line_steps(i0, j0, i1, j1),
    ensures
        i0 <= line_cell(i0, j0, i1, j1, k).0 <= i1 || i1 <= line_cell(i0, j0, i1, j1, k).0 <= i0,
        j0 <= line_cell(i0, j0, i1, j1, k).1 <= j1 || j1 <= line_cell(i0, j0, i1, j1, k).1 <= j0,
{
    let n = line_steps(i0, j0, i1, j1);
    lemma_round_ends(gap(i0, i1), n, k);
    lemma_round_ends(gap(j0, j1), n, k);
}

/// A line has no holes: each step goes to one of the eight neighbours.
pub proof fn law_line_connected(i0: int, j0: int, i1: int, j1: int, k: int)
    requires
        0 <= k < line_steps(i0, j0, i1, j1),
    ensures
        gap(line_cell(i0, j0, i1, j1, k).0, line_cell(i0, j0, i1, j1, k + 1).0) <= 1,
        gap(line_cell(i0, j0, i1, j1, k).1, line_cell(i0, j0, i1, j1, k + 1).1) <= 1,
        line_cell(i0, j0, i1, j1, k) != line_cell(i0, j0, i1, j1, k + 1),
{
    let n = line_steps(i0, j0, i1, j1);
    let di = gap(i0, i1);
    let dj = gap(j0, j1);
    lemma_round_major(n, k);
    lemma_round_major(n, k + 1);
    if di >= dj {
        let b = round_half_down(k * dj, n);
        lemma_step(n, dj, k, b, (b + 1) * n - (k + 1) * dj);
    } else {
        let a = round_half_down(k * di, n);
        lemma_step(n, di, k, a, (a + 1) * n - (k + 1) * di);
    }
}

/// A line visits no cell twice.
pub proof fn law_line_distinct(i0: int, j0: int, i1: int, j1: int, k: int, l: int)
    requires
        0 <= k < l <= line_steps(i0, j0, i1, j1),
    ensures
        line_cell(i0, j0, i1, j1, k) != line_cell(i0, j0, i1, j1, l),
{
    let n = line_steps(i0, j0, i1, j1);
    lemma_round_major(n, k);
    lemma_round_major(n, l);
}

/// Every cell of a line lies within half a cell of the ideal segment: on each
/// axis, `n` times the covered extent differs from `k` times the whole extent
/// by at most `n / 2`.
pub proof fn law_line_close(i0: int, j0: int, i1: int, j1: int, k: int)
    requires
        0 <= k <= line_steps(i0, j0, i1, j1),
    ensures
        ({
            let n = line_steps(i0, j0, i1, j1);
            let c = line_cell(i0, j0, i1, j1, k);
            &&& -n <= 2 * (n * gap(i0, c.0) - k * gap(i0, i1)) <= n
            &&& -n <= 2 * (n * gap(j0, c.1) - k * gap(j0, j1)) <= n
        }),
{
    let n = line_steps(i0, j0, i1, j1);
    let di = gap(i0, i1);
    let dj = gap(j0, j1);
    lemma_round_ends(di, n, k);
    lemma_round_ends(dj, n, k);
    if n > 0 {
        lemma_round_bounds(k * di, n);
        lemma_round_bounds(k * dj, n);
    }
}

} // verus!
