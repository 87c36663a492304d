//! Exact Euclidean distance transforms on integer grids.
//!
//! [`dt_1d`] is the lower-envelope sweep of Felzenszwalb and Huttenlocher on
//! integers: the boundary between two parabolas is kept as the last integer at
//! which the left one is not above the right one, so nothing is rounded.
//! [`squared_field`] applies it along rows and then along columns and gives,
//! for every cell, the squared distance in cells to the nearest obstacle.

use vstd::prelude::*;
use crate::conversion::rounded;
use crate::single::Single;

verus! {

/// The height at `x` of the upright parabola with its vertex at `(p, f[p])`.
pub open spec fn parabola(f: Seq<Option<u64>>, p: int, x: int) -> int {
    (x - p) * (x - p) + f[p]->0
}

/// `d` is the smallest height at `x` of the parabolas that `f` holds, and
/// `None` if it holds none.
pub open spec fn is_lowest(f: Seq<Option<u64>>, x: int, d: Option<u64>) -> bool {
    match d {
        None => forall|p: int| 0 <= p < f.len() ==> #[trigger] f[p] is None,
        Some(m) => {
            &&& exists|p: int|
                0 <= p < f.len() && #[trigger] f[p] is Some && m == parabola(f, p, x)
            &&& forall|p: int|
                0 <= p < f.len() && #[trigger] f[p] is Some ==> m <= parabola(f, p, x)
        },
    }
}

/// The last integer at which the parabola of `p` is not above that of `q`.
spec fn crossing(f: Seq<Option<u64>>, p: int, q: int) -> int {
    ((f[q]->0 + q * q) - (f[p]->0 + p * p)) / (2 * (q - p))
}

proof fn lemma_crossing(f: Seq<Option<u64>>, p: int, q: int, x: int)
    requires
        p < q,
    ensures
        parabola(f, p, x) <= parabola(f, q, x) <==> x <= crossing(f, p, q),
{
    let fp = f[p]->0 as int;
    let fq = f[q]->0 as int;
    let n = (fq + q * q) - (fp + p * p);
    let d = 2 * (q - p);
    assert(parabola(f, q, x) - parabola(f, p, x) == n - d * x) by (nonlinear_arith)
        requires
            parabola(f, q, x) == (x - q) * (x - q) + fq,
            parabola(f, p, x) == (x - p) * (x - p) + fp,
            n == (fq + q * q) - (fp + p * p),
            d == 2 * (q - p),
    ;
    let s = n / d;
    vstd::arithmetic::div_mod::lemma_fundamental_div_mod(n, d);
    vstd::arithmetic::div_mod::lemma_mod_bound(n, d);
    let r = n % d;
    assert(d * x <= n <==> x <= s) by (nonlinear_arith)
        requires
            n == d * s + r,
            0 <= r < d,
    ;
}

/// Some parabola of the envelope `v` is not above that of `p` at `x`.
spec fn covered(f: Seq<Option<u64>>, v: Seq<usize>, p: int, x: int) -> bool {
    exists|k: int| 0 <= k < v.len() && parabola(f, #[trigger] v[k] as int, x) <= parabola(f, p, x)
}

/// `v` lists parabolas of `f` before position `n` from left to right, and
/// `z[k]` is the last integer that the left neighbour of `v[k]` owns.
spec fn envelope(f: Seq<Option<u64>>, v: Seq<usize>, z: Seq<i128>, n: int) -> bool {
    &&& z.len() == v.len()
    &&& forall|k: int| 0 <= k < v.len() ==> (#[trigger] v[k]) < n && f[v[k] as int] is Some
    &&& forall|a: int, b: int| 0 <= a < b < v.len() ==> #[trigger] v[a] < #[trigger] v[b]
    &&& forall|k: int|
        1 <= k < v.len() ==> #[trigger] z[k] == crossing(f, v[k - 1] as int, v[k] as int)
    &&& forall|a: int, b: int| 1 <= a < b < v.len() ==> #[trigger] z[a] < #[trigger] z[b]
}

/// Where `z[k] < x <= z[k + 1]`, the parabola of `v[k]` is the lowest.
proof fn lemma_owner(
    f: Seq<Option<u64>>,
    v: Seq<usize>,
    z: Seq<i128>,
    n: int,
    k: int,
    j: int,
    x: int,
)
    requires
        envelope(f, v, z, n),
        0 <= k < v.len(),
        0 <= j < v.len(),
        k == 0 || z[k] < x,
        k + 1 == v.len() || x <= z[k + 1],
    ensures
        parabola(f, v[k] as int, x) <= parabola(f, v[j] as int, x),
    decreases
            if j >= k {
                j - k
            } else {
                k - j
            },
{
    if j > k {
        lemma_owner(f, v, z, n, k, j - 1, x);
        assert(v[j - 1] < v[j]);
        if j > k + 1 {
            assert(z[k + 1] < z[j]);
        }
        lemma_crossing(f, v[j - 1] as int, v[j] as int, x);
    } else if j < k {
        lemma_owner(f, v, z, n, k, j + 1, x);
        assert(v[j] < v[j + 1]);
        if j + 1 < k {
            assert(z[j + 1] < z[k]);
        }
        assert(z[j + 1] == crossing(f, v[j + 1 - 1] as int, v[j + 1] as int));
        lemma_crossing(f, v[j] as int, v[j + 1] as int, x);
    }
}

/// Dropping the top of the envelope loses nothing once a new parabola `q`
/// overtakes it before its own range begins.
proof fn lemma_drop_top(
    f: Seq<Option<u64>>,
    v: Seq<usize>,
    z: Seq<i128>,
    q: int,
    p: int,
    x: int,
)
    requires
        envelope(f, v, z, q),
        v.len() >= 2,
        crossing(f, v.last() as int, q) <= z.last(),
        covered(f, v, p, x) || parabola(f, q, x) <= parabola(f, p, x),
    ensures
        covered(f, v.drop_last(), p, x) || parabola(f, q, x) <= parabola(f, p, x),
{
    if !(parabola(f, q, x) <= parabola(f, p, x)) {
        let k = choose|k: int|
            0 <= k < v.len() && parabola(f, #[trigger] v[k] as int, x) <= parabola(f, p, x);
        let top = v.len() - 1;
        if k < top {
            assert(v.drop_last()[k] == v[k]);
        } else {
            assert(v[top - 1] < v[top]);
            lemma_crossing(f, v[top - 1] as int, v[top] as int, x);
            lemma_crossing(f, v[top] as int, q, x);
            assert(z[top] == crossing(f, v[top - 1] as int, v[top] as int));
            assert(v.drop_last()[top - 1] == v[top - 1]);
        }
    }
}

/// The last integer at which the parabola of `p` is not above that of `q`,
/// for `p < q`.
fn compute_intersection(f: &[Option<u64>], q: usize, vk: usize) -> (s: i128)
    requires
        vk < q < f@.len(),
        f@.len() * f@.len() <= u64::MAX,
        f@[q as int] is Some,
        f@[vk as int] is Some,
    ensures
        s == crossing(f@, vk as int, q as int),
        s > i128::MIN,
{
    let fq: u64 = match f[q] {
        Some(a) => a,
        None => 0,
    };
    let fv: u64 = match f[vk] {
        Some(a) => a,
        None => 0,
    };
    let ghost n = f@.len() as int;
    assert(q * q <= n * n && vk * vk <= n * n) by (nonlinear_arith)
        requires
            0 <= vk < q < n,
    ;
    let a: u128 = fq as u128 + (q as u128) * (q as u128);
    let b: u128 = fv as u128 + (vk as u128) * (vk as u128);
    let d: u128 = 2 * ((q - vk) as u128);
    assert(d > 0);
    if a >= b {
        let s: u128 = (a - b) / d;
        assert(s <= a - b) by (nonlinear_arith)
            requires
                s == (a - b) as int / d as int,
                d > 0,
                a >= b,
        ;
        s as i128
    } else {
        let m: u128 = b - a;
        let t: u128 = (m + (d - 1)) / d;
        proof {
            let y = m + (d - 1);
            vstd::arithmetic::div_mod::lemma_fundamental_div_mod(y as int, d as int);
            vstd::arithmetic::div_mod::lemma_mod_bound(y as int, d as int);
            let r = y as int % d as int;
            assert(t <= y) by (nonlinear_arith)
                requires
                    y == d * t + r,
                    r >= 0,
                    d > 0,
                    t >= 0,
            ;
            assert(-m as int == d * (-(t as int)) + (d - 1 - r)) by (nonlinear_arith)
                requires
                    y == d * t + r,
                    y == m + (d - 1),
            ;
            vstd::arithmetic::div_mod::lemma_fundamental_div_mod_converse(
                -(m as int),
                d as int,
                -(t as int),
                d - 1 - r,
            );
        }
        -(t as i128)
    }
}

/// The one-dimensional distance transform: at each position the smallest
/// height of the parabolas that `f` holds.
pub fn dt_1d(f: &[Option<u64>]) -> (d: Vec<Option<u64>>)
    requires
        forall|p: int|
            0 <= p < f@.len() && #[trigger] f@[p] is Some ==> f@[p]->0 + f@.len() * f@.len()
                <= u64::MAX,
    ensures
        d@.len() == f@.len(),
        forall|x: int| 0 <= x < d@.len() ==> is_lowest(f@, x, #[trigger] d@[x]),
{
    let n = f.len();
    let mut v: Vec<usize> = Vec::new();
    let mut z: Vec<i128> = Vec::new();
    let mut q: usize = 0;
    while q < n
        invariant
            n == f@.len(),
            q <= n,
            forall|p: int|
                0 <= p < f@.len() && #[trigger] f@[p] is Some ==> f@[p]->0 + f@.len() * f@.len()
                    <= u64::MAX,
            envelope(f@, v@, z@, q as int),
            v@.len() > 0 ==> z@[0] == i128::MIN,
            forall|p: int, x: int|
                0 <= p < q && f@[p] is Some ==> #[trigger] covered(f@, v@, p, x),
        decreases n - q,
    {
        if f[q].is_some() {
            let ghost gq = q as int;
            let mut bound: i128 = i128::MIN;
            while v.len() > 0
                invariant_except_break
                    bound == i128::MIN,
                invariant
                    n == f@.len(),
                    q < n,
                    gq == q,
                    f@[gq] is Some,
                    f@[gq]->0 + f@.len() * f@.len() <= u64::MAX,
                    v@.len() > 0 ==> z@[0] == i128::MIN,
                    envelope(f@, v@, z@, gq),
                    forall|p: int, x: int|
                        0 <= p < q && f@[p] is Some ==> #[trigger] covered(f@, v@, p, x)
                            || parabola(f@, gq, x) <= parabola(f@, p, x),
                ensures
                    v@.len() == 0 ==> bound == i128::MIN,
                    v@.len() > 0 ==> bound == crossing(f@, v@.last() as int, gq) && (v@.len() >= 2
                        ==> z@.last() < bound),
                decreases v@.len(),
            {
                let top = v.len() - 1;
                assert(v@[top as int] < gq);
                let s = compute_intersection(f, q, v[top]);
                if s <= z[top] {
                    proof {
                        assert(top > 0);
                        assert forall|p: int, x: int|
                            0 <= p < q && f@[p] is Some implies #[trigger] covered(
                            f@,
                            v@.drop_last(),
                            p,
                            x,
                        ) || parabola(f@, gq, x) <= parabola(f@, p, x) by {
                            assert(covered(f@, v@, p, x) || parabola(f@, gq, x) <= parabola(
                                f@,
                                p,
                                x,
                            ));
                            lemma_drop_top(f@, v@, z@, gq, p, x);
                        }
                    }
                    let ghost v1 = v@;
                    v.pop();
                    z.pop();
                    assert(v@ =~= v1.drop_last());
                } else {
                    bound = s;
                    break;
                }
            }
            let ghost v0 = v@;
            z.push(bound);
            v.push(q);
            proof {
                assert forall|p: int, x: int| 0 <= p < q + 1 && f@[p] is Some implies #[trigger]
                    covered(f@, v@, p, x) by {
                    assert(v@[v@.len() - 1] == q);
                    if p < q {
                        if covered(f@, v0, p, x) {
                            let k = choose|k: int|
                                0 <= k < v0.len() && parabola(f@, #[trigger] v0[k] as int, x)
                                    <= parabola(f@, p, x);
                            assert(v@[k] == v0[k]);
                        }
                    }
                }
            }
        }
        q = q + 1;
    }
    let mut d: Vec<Option<u64>> = Vec::new();
    if v.len() == 0 {
        proof {
            assert forall|p: int| 0 <= p < f@.len() implies #[trigger] f@[p] is None by {
                if f@[p] is Some {
                    assert(covered(f@, v@, p, 0));
                }
            }
        }
        let mut x: usize = 0;
        while x < n
            invariant
                n == f@.len(),
                x <= n,
                d@.len() == x,
                forall|p: int| 0 <= p < f@.len() ==> #[trigger] f@[p] is None,
                forall|t: int| 0 <= t < x ==> #[trigger] d@[t] is None,
            decreases n - x,
        {
            d.push(None);
            x = x + 1;
        }
        return d;
    }
    let mut k: usize = 0;
    let mut x: usize = 0;
    while x < n
        invariant
            n == f@.len(),
            x <= n,
            d@.len() == x,
            0 <= k < v@.len(),
            envelope(f@, v@, z@, n as int),
            k > 0 ==> z@[k as int] < x,
            forall|p: int|
                0 <= p < f@.len() && #[trigger] f@[p] is Some ==> f@[p]->0 + f@.len() * f@.len()
                    <= u64::MAX,
            forall|p: int, y: int|
                0 <= p < n && f@[p] is Some ==> #[trigger] covered(f@, v@, p, y),
            forall|t: int| 0 <= t < x ==> is_lowest(f@, t, #[trigger] d@[t]),
        decreases n - x,
    {
        while k < v.len() - 1 && z[k + 1] < x as i128
            invariant
                0 <= k < v@.len(),
                v@.len() == z@.len(),
                k > 0 ==> z@[k as int] < x,
            decreases v@.len() - k,
        {
            k = k + 1;
        }
        let p = v[k];
        let fp: u64 = match f[p] {
            Some(a) => a,
            None => 0,
        };
        assert(v@[k as int] < n && f@[v@[k as int] as int] is Some);
        let dq: usize = if x >= p { x - p } else { p - x };
        assert(dq * dq == (x - p) * (x - p) && dq * dq <= n * n) by (nonlinear_arith)
            requires
                0 <= x < n,
                0 <= p < n,
                dq == if x >= p { x - p } else { p - x },
        ;
        assert(dq <= dq * dq || dq == 0) by (nonlinear_arith);
        let m: u64 = (dq as u64) * (dq as u64) + fp;
        proof {
            assert forall|p2: int| 0 <= p2 < f@.len() && #[trigger] f@[p2] is Some implies m
                <= parabola(f@, p2, x as int) by {
                assert(covered(f@, v@, p2, x as int));
                let j = choose|j: int|
                    0 <= j < v@.len() && parabola(f@, #[trigger] v@[j] as int, x as int)
                        <= parabola(f@, p2, x as int);
                lemma_owner(f@, v@, z@, n as int, k as int, j, x as int);
            }
            assert(m == parabola(f@, p as int, x as int));
            assert(is_lowest(f@, x as int, Some(m)));
        }
        d.push(Some(m));
        x = x + 1;
    }
    d
}

/// Row-major position of cell `(i, j)` in a grid `w` cells wide.
pub open spec fn index_of(w: int, i: int, j: int) -> int {
    i * w + j
}

/// Row-major positions fill `0 .. w * h` and tell cells apart.
pub proof fn lemma_index_of(w: int, h: int, i: int, j: int)
    requires
        0 <= i < h,
        0 <= j < w,
    ensures
        0 <= index_of(w, i, j) < w * h,
        index_of(w, i, j) / w == i,
        index_of(w, i, j) % w == j,
{
    assert(0 <= i * w + j < w * h) by (nonlinear_arith)
        requires
            0 <= i < h,
            0 <= j < w,
    ;
    vstd::arithmetic::div_mod::lemma_fundamental_div_mod_converse(i * w + j, w, i, j);
}

/// Every position of a grid belongs to one of its cells.
pub proof fn lemma_index_split(w: int, h: int, at: int)
    requires
        0 <= at < w * h,
        0 <= w,
    ensures
        0 <= at / w < h,
        0 <= at % w < w,
        index_of(w, at / w, at % w) == at,
{
    assert(w > 0) by (nonlinear_arith)
        requires
            0 <= at < w * h,
            0 <= w,
    ;
    vstd::arithmetic::div_mod::lemma_fundamental_div_mod(at, w);
    vstd::arithmetic::div_mod::lemma_mod_bound(at, w);
    let q = at / w;
    let r = at % w;
    assert(q * w == w * q) by (nonlinear_arith);
    assert(0 <= q < h) by (nonlinear_arith)
        requires
            0 <= w * q + r < w * h,
            0 <= r < w,
    ;
}

/// The squared distance between cells `(i, j)` and `(i2, j2)`, in cells.
pub open spec fn squared_cells(i: int, j: int, i2: int, j2: int) -> int {
    (i - i2) * (i - i2) + (j - j2) * (j - j2)
}

/// Some cell of `log` lies above the threshold.
pub open spec fn any_obstacle(log: Seq<i16>, threshold: i16) -> bool {
    exists|at: int| 0 <= at < log.len() && #[trigger] log[at] > threshold
}

/// `d` is the squared distance from `(i, j)` to the nearest cell above the
/// threshold: one such cell is that far, and none is nearer.
pub open spec fn is_squared_distance(
    log: Seq<i16>,
    w: int,
    h: int,
    threshold: i16,
    i: int,
    j: int,
    d: int,
) -> bool {
    &&& exists|i2: int, j2: int|
        0 <= i2 < h && 0 <= j2 < w && log[#[trigger] index_of(w, i2, j2)] > threshold && d
            == squared_cells(i, j, i2, j2)
    &&& forall|i2: int, j2: int|
        0 <= i2 < h && 0 <= j2 < w && log[#[trigger] index_of(w, i2, j2)] > threshold ==> d
            <= squared_cells(i, j, i2, j2)
}

/// `field` holds for every cell of a `w` by `h` grid its squared distance to
/// the nearest cell above the threshold; with no such cell, the squared width
/// of the grid everywhere.
pub open spec fn is_squared_field(
    log: Seq<i16>,
    w: int,
    h: int,
    threshold: i16,
    field: Seq<u64>,
) -> bool {
    &&& field.len() == w * h
    &&& !any_obstacle(log, threshold) ==> forall|at: int|
        0 <= at < field.len() ==> #[trigger] field[at] == w * w
    &&& any_obstacle(log, threshold) ==> forall|i: int, j: int|
        0 <= i < h && 0 <= j < w ==> is_squared_distance(
            log,
            w,
            h,
            threshold,
            i,
            j,
            field[#[trigger] index_of(w, i, j)] as int,
        )
}

/// `d` is the squared distance along row `i` from column `j` to the nearest
/// obstacle of that row, `None` where the row has none.
spec fn is_row_distance(
    log: Seq<i16>,
    w: int,
    threshold: i16,
    i: int,
    j: int,
    d: Option<u64>,
) -> bool {
    match d {
        None => forall|j2: int|
            0 <= j2 < w ==> log[#[trigger] index_of(w, i, j2)] <= threshold,
        Some(m) => {
            &&& exists|j2: int|
                0 <= j2 < w && log[#[trigger] index_of(w, i, j2)] > threshold && m == (j - j2) * (j
                    - j2)
            &&& forall|j2: int|
                0 <= j2 < w && log[#[trigger] index_of(w, i, j2)] > threshold ==> m <= (j - j2) * (j
                    - j2)
        },
    }
}

/// The distances along row `i`, from the indicator of its obstacles.
fn row_distances(log: &[i16], w: usize, h: usize, threshold: i16, i: usize) -> (d: Vec<Option<u64>>)
    requires
        log@.len() == w * h,
        w * w <= u64::MAX,
        i < h,
    ensures
        d@.len() == w,
        forall|j: int|
            0 <= j < w ==> is_row_distance(log@, w as int, threshold, i as int, j, #[trigger] d@[j]),
        forall|j: int| 0 <= j < w && #[trigger] d@[j] is Some ==> d@[j]->0 <= w * w,
{
    let mut line: Vec<Option<u64>> = Vec::new();
    let mut j: usize = 0;
    while j < w
        invariant
            log@.len() == w * h,
            i < h,
            j <= w,
            line@.len() == j,
            forall|t: int|
                0 <= t < j ==> #[trigger] line@[t] == if log@[index_of(w as int, i as int, t)]
                    > threshold {
                    Some(0u64)
                } else {
                    None::<u64>
                },
        decreases w - j,
    {
        proof {
            lemma_index_of(w as int, h as int, i as int, j as int);
            lemma_index_of(w as int, h as int, i as int, 0);
        }
        assert(log@.len() == log.len());
        let at: usize = i * w + j;
        line.push(
            if log[at] > threshold {
                Some(0)
            } else {
                None
            },
        );
        j = j + 1;
    }
    let d = dt_1d(line.as_slice());
    proof {
        assert forall|j: int| 0 <= j < w implies is_row_distance(
            log@,
            w as int,
            threshold,
            i as int,
            j,
            #[trigger] d@[j],
        ) && (d@[j] is Some ==> d@[j]->0 <= w * w) by {
            assert(is_lowest(line@, j, d@[j]));
            match d@[j] {
                None => {
                    assert forall|j2: int| 0 <= j2 < w implies log@[#[trigger] index_of(
                        w as int,
                        i as int,
                        j2,
                    )] <= threshold by {
                        assert(line@[j2] is None);
                    }
                },
                Some(m) => {
                    let p = choose|p: int|
                        0 <= p < line@.len() && #[trigger] line@[p] is Some && m == parabola(
                            line@,
                            p,
                            j,
                        );
                    assert(log@[index_of(w as int, i as int, p)] > threshold);
                    assert((j - p) * (j - p) <= w * w) by (nonlinear_arith)
                        requires
                            0 <= j < w,
                            0 <= p < w,
                    ;
                    assert forall|j2: int|
                        0 <= j2 < w && log@[#[trigger] index_of(w as int, i as int, j2)]
                            > threshold implies m <= (j - j2) * (j - j2) by {
                        assert(line@[j2] is Some);
                    }
                },
            }
        }
    }
    d
}

/// The distances of one column's cells to the nearest obstacle of the grid,
/// from the distances along each row.
proof fn lemma_column(
    log: Seq<i16>,
    w: int,
    h: int,
    threshold: i16,
    line: Seq<Option<u64>>,
    i: int,
    j: int,
    d: Option<u64>,
)
    requires
        log.len() == w * h,
        0 <= i < h,
        0 <= j < w,
        line.len() == h,
        forall|r: int| 0 <= r < h ==> is_row_distance(log, w, threshold, r, j, #[trigger] line[r]),
        is_lowest(line, i, d),
        any_obstacle(log, threshold),
    ensures
        d is Some,
        is_squared_distance(log, w, h, threshold, i, j, d->0 as int),
{
    let at = choose|at: int| 0 <= at < log.len() && #[trigger] log[at] > threshold;
    lemma_index_split(w, h, at);
    assert(log[index_of(w, at / w, at % w)] > threshold);
    assert(line[at / w] is Some);
    let m = d->0 as int;
    let r = choose|r: int|
        0 <= r < line.len() && #[trigger] line[r] is Some && m == parabola(line, r, i);
    let j2 = choose|j2: int|
        0 <= j2 < w && log[#[trigger] index_of(w, r, j2)] > threshold && line[r]->0 == (j - j2) * (j
            - j2);
    assert(m == squared_cells(i, j, r, j2));
    assert forall|i2: int, j2: int|
        0 <= i2 < h && 0 <= j2 < w && log[#[trigger] index_of(w, i2, j2)] > threshold implies m
        <= squared_cells(i, j, i2, j2) by {
        assert(line[i2] is Some);
        assert(m <= parabola(line, i2, i));
    }
}

/// The squared distance in cells from every cell of a grid to the nearest one
/// above `threshold`.
pub fn squared_field(log: &[i16], w: usize, h: usize, threshold: i16) -> (field: Vec<u64>)
    requires
        log@.len() == w * h,
        w * w + h * h <= u64::MAX,
    ensures
        is_squared_field(log@, w as int, h as int, threshold, field@),
{
    let n = log.len();
    let mut any = false;
    let mut at: usize = 0;
    while at < n
        invariant
            n == log@.len(),
            at <= n,
            any <==> exists|t: int| 0 <= t < at && #[trigger] log@[t] > threshold,
        decreases n - at,
    {
        if log[at] > threshold {
            any = true;
        }
        at = at + 1;
    }
    assert(0 <= h * h) by (nonlinear_arith);
    assert(0 <= w * w) by (nonlinear_arith);
    let mut field: Vec<u64> = Vec::new();
    if !any {
        assert(w <= w * w || w == 0) by (nonlinear_arith);
        let cap: u64 = (w as u64) * (w as u64);
        let mut at: usize = 0;
        while at < n
            invariant
                n == log@.len(),
                at <= n,
                field@.len() == at,
                cap == w * w,
                forall|t: int| 0 <= t < at ==> #[trigger] field@[t] == cap,
            decreases n - at,
        {
            field.push(cap);
            at = at + 1;
        }
        return field;
    }
    // Along each row.
    let mut rows: Vec<Vec<Option<u64>>> = Vec::new();
    let mut i: usize = 0;
    while i < h
        invariant
            log@.len() == w * h,
            w * w <= u64::MAX,
            i <= h,
            rows@.len() == i,
            forall|r: int| 0 <= r < i ==> (#[trigger] rows@[r])@.len() == w,
            forall|r: int, j: int|
                0 <= r < i && 0 <= j < w ==> is_row_distance(
                    log@,
                    w as int,
                    threshold,
                    r,
                    j,
                    #[trigger] rows@[r]@[j],
                ),
            forall|r: int, j: int|
                0 <= r < i && 0 <= j < w && #[trigger] rows@[r]@[j] is Some ==> rows@[r]@[j]->0 <= w
                    * w,
        decreases h - i,
    {
        rows.push(row_distances(log, w, h, threshold, i));
        i = i + 1;
    }
    // Down each column.
    let mut columns: Vec<Vec<Option<u64>>> = Vec::new();
    let mut j: usize = 0;
    while j < w
        invariant
            log@.len() == w * h,
            w * w + h * h <= u64::MAX,
            any_obstacle(log@, threshold),
            j <= w,
            rows@.len() == h,
            forall|r: int| 0 <= r < h ==> (#[trigger] rows@[r])@.len() == w,
            forall|r: int, j: int|
                0 <= r < h && 0 <= j < w ==> is_row_distance(
                    log@,
                    w as int,
                    threshold,
                    r,
                    j,
                    #[trigger] rows@[r]@[j],
                ),
            forall|r: int, j: int|
                0 <= r < h && 0 <= j < w && #[trigger] rows@[r]@[j] is Some ==> rows@[r]@[j]->0 <= w
                    * w,
            columns@.len() == j,
            forall|c: int| 0 <= c < j ==> (#[trigger] columns@[c])@.len() == h,
            forall|i: int, c: int|
                0 <= i < h && 0 <= c < j ==> (#[trigger] columns@[c]@[i]) is Some
                    && is_squared_distance(
                    log@,
                    w as int,
                    h as int,
                    threshold,
                    i,
                    c,
                    columns@[c]@[i]->0 as int,
                ),
        decreases w - j,
    {
        let mut line: Vec<Option<u64>> = Vec::new();
        let mut r: usize = 0;
        while r < h
            invariant
                j < w,
                r <= h,
                rows@.len() == h,
                forall|r: int| 0 <= r < h ==> (#[trigger] rows@[r])@.len() == w,
                line@.len() == r,
                forall|t: int| 0 <= t < r ==> #[trigger] line@[t] == rows@[t]@[j as int],
            decreases h - r,
        {
            line.push(rows[r][j]);
            r = r + 1;
        }
        let d = dt_1d(line.as_slice());
        proof {
            assert forall|i: int| 0 <= i < h implies (#[trigger] d@[i]) is Some
                && is_squared_distance(
                log@,
                w as int,
                h as int,
                threshold,
                i,
                j as int,
                d@[i]->0 as int,
            ) by {
                assert(is_lowest(line@, i, d@[i]));
                assert forall|r: int| 0 <= r < h implies is_row_distance(
                    log@,
                    w as int,
                    threshold,
                    r,
                    j as int,
                    #[trigger] line@[r],
                ) by {
                    assert(line@[r] == rows@[r]@[j as int]);
                }
                lemma_column(log@, w as int, h as int, threshold, line@, i, j as int, d@[i]);
            }
        }
        columns.push(d);
        j = j + 1;
    }
    // Back to row-major order.
    let mut i: usize = 0;
    while i < h
        invariant
            log@.len() == w * h,
            i <= h,
            columns@.len() == w,
            forall|c: int| 0 <= c < w ==> (#[trigger] columns@[c])@.len() == h,
            field@.len() == index_of(w as int, i as int, 0),
            forall|r: int, c: int|
                0 <= r < i && 0 <= c < w && columns@[c]@[r] is Some ==> field@[#[trigger] index_of(
                    w as int,
                    r,
                    c,
                )] == columns@[c]@[r]->0,
        decreases h - i,
    {
        let mut j: usize = 0;
        while j < w
            invariant
                i < h,
                j <= w,
                columns@.len() == w,
                forall|c: int| 0 <= c < w ==> (#[trigger] columns@[c])@.len() == h,
                field@.len() == index_of(w as int, i as int, j as int),
                forall|r: int, c: int|
                    0 <= r < i && 0 <= c < w && columns@[c]@[r] is Some
                        ==> field@[#[trigger] index_of(w as int, r, c)] == columns@[c]@[r]->0,
                forall|c: int|
                    0 <= c < j && columns@[c]@[i as int] is Some ==> field@[#[trigger] index_of(
                        w as int,
                        i as int,
                        c,
                    )] == columns@[c]@[i as int]->0,
            decreases w - j,
        {
            let v: u64 = match columns[j][i] {
                Some(d) => d,
                None => 0,
            };
            proof {
                assert forall|r: int, c: int| 0 <= r < i && 0 <= c < w implies #[trigger] index_of(
                    w as int,
                    r,
                    c,
                ) < field@.len() by {
                    assert(r * w + c < i * w) by (nonlinear_arith)
                        requires
                            0 <= r < i,
                            0 <= c < w,
                    ;
                }
            }
            field.push(v);
            j = j + 1;
        }
        assert(index_of(w as int, i as int, w as int) == index_of(w as int, i + 1, 0))
            by (nonlinear_arith);
        i = i + 1;
    }
    proof {
        assert(index_of(w as int, h as int, 0) == w * h) by (nonlinear_arith);
        assert forall|i: int, j: int| 0 <= i < h && 0 <= j < w implies is_squared_distance(
            log@,
            w as int,
            h as int,
            threshold,
            i,
            j,
            field@[#[trigger] index_of(w as int, i, j)] as int,
        ) by {
            assert(columns@[j]@[i] is Some);
        }
    }
    field
}

/// The squared distance from `(i, j)` to the nearest cell above the threshold.
pub open spec fn squared_distance(
    log: Seq<i16>,
    w: int,
    h: int,
    threshold: i16,
    i: int,
    j: int,
) -> int {
    choose|d: int| is_squared_distance(log, w, h, threshold, i, j, d)
}

/// The distance in metres from `(i, j)` to the nearest cell above the
/// threshold; with no such cell, the width of the grid.
pub open spec fn distance_at(
    log: Seq<i16>,
    w: int,
    h: int,
    threshold: i16,
    cell: Single,
    i: int,
    j: int,
) -> Single {
    if any_obstacle(log, threshold) {
        rounded(squared_distance(log, w, h, threshold, i, j)).root().times(cell)
    } else {
        rounded(w).times(cell)
    }
}

/// The distances of all cells of a `w` by `h` grid, row by row.
pub open spec fn distances(
    log: Seq<i16>,
    w: int,
    h: int,
    threshold: i16,
    cell: Single,
) -> Seq<Single> {
    Seq::new(
        (w * h) as nat,
        |at: int| distance_at(log, w, h, threshold, cell, at / w, at % w),
    )
}

/// A cell has one squared distance to the obstacles.
pub proof fn law_one_distance(
    log: Seq<i16>,
    w: int,
    h: int,
    threshold: i16,
    i: int,
    j: int,
    d: int,
    e: int,
)
    requires
        is_squared_distance(log, w, h, threshold, i, j, d),
        is_squared_distance(log, w, h, threshold, i, j, e),
    ensures
        d == e,
{
}

/// The distance is zero exactly at the obstacles.
pub proof fn law_zero_at_obstacles(
    log: Seq<i16>,
    w: int,
    h: int,
    threshold: i16,
    i: int,
    j: int,
    d: int,
)
    requires
        0 <= i < h,
        0 <= j < w,
        is_squared_distance(log, w, h, threshold, i, j, d),
    ensures
        d == 0 <==> log[index_of(w, i, j)] > threshold,
        d >= 0,
{
    let (i2, j2) = choose|i2: int, j2: int|
        0 <= i2 < h && 0 <= j2 < w && log[#[trigger] index_of(w, i2, j2)] > threshold && d
            == squared_cells(i, j, i2, j2);
    assert(d >= 0 && (d == 0 ==> i == i2 && j == j2)) by (nonlinear_arith)
        requires
            d == (i - i2) * (i - i2) + (j - j2) * (j - j2),
    ;
    assert(squared_cells(i, j, i, j) == 0) by (nonlinear_arith);
    assert(index_of(w, i, j) == index_of(w, i, j));
}

/// More obstacles never bring a cell farther from the nearest one.
pub proof fn law_more_obstacles_are_nearer(
    log: Seq<i16>,
    more: Seq<i16>,
    w: int,
    h: int,
    threshold: i16,
    i: int,
    j: int,
    d: int,
    e: int,
)
    requires
        is_squared_distance(log, w, h, threshold, i, j, d),
        is_squared_distance(more, w, h, threshold, i, j, e),
        forall|i2: int, j2: int|
            0 <= i2 < h && 0 <= j2 < w && log[#[trigger] index_of(w, i2, j2)] > threshold
                ==> more[index_of(w, i2, j2)] > threshold,
    ensures
        e <= d,
{
    let (i2, j2) = choose|i2: int, j2: int|
        0 <= i2 < h && 0 <= j2 < w && log[#[trigger] index_of(w, i2, j2)] > threshold && d
            == squared_cells(i, j, i2, j2);
    assert(more[index_of(w, i2, j2)] > threshold);
}

/// A squared field holds the squared distance of each cell.
proof fn lemma_metre(
    log: Seq<i16>,
    w: int,
    h: int,
    threshold: i16,
    squares: Seq<u64>,
    at: int,
)
    requires
        0 <= w,
        0 <= at < w * h,
        is_squared_field(log, w, h, threshold, squares),
    ensures
        any_obstacle(log, threshold) ==> squares[at] == squared_distance(
            log,
            w,
            h,
            threshold,
            at / w,
            at % w,
        ),
{
    let (i, j) = (at / w, at % w);
    lemma_index_split(w, h, at);
    if any_obstacle(log, threshold) {
        let d = squares[index_of(w, i, j)] as int;
        assert(is_squared_distance(log, w, h, threshold, i, j, d));
        law_one_distance(
            log,
            w,
            h,
            threshold,
            i,
            j,
            d,
            squared_distance(log, w, h, threshold, i, j),
        );
    }
}

/// Distance in metres from each cell to the nearest one above the threshold.
pub fn metric_field(
    log: &[i16],
    w: usize,
    h: usize,
    threshold: i16,
    cell: Single,
) -> (field: Vec<Single>)
    requires
        log@.len() == w * h,
        w * w + h * h <= u64::MAX,
    ensures
        field@ == distances(log@, w as int, h as int, threshold, cell),
{
    let squares = squared_field(log, w, h, threshold);
    let n = squares.len();
    let any = has_obstacle(log, threshold);
    let far = Single::from_u64(w as u64).mul(cell);
    let mut field: Vec<Single> = Vec::new();
    let mut k: usize = 0;
    let ghost want = distances(log@, w as int, h as int, threshold, cell);
    while k < n
        invariant
            n == squares@.len(),
            n == w * h,
            k <= n,
            field@.len() == k,
            any == any_obstacle(log@, threshold),
            far == rounded(w as int).times(cell),
            is_squared_field(log@, w as int, h as int, threshold, squares@),
            want == distances(log@, w as int, h as int, threshold, cell),
            forall|t: int| 0 <= t < k ==> #[trigger] field@[t] == want[t],
        decreases n - k,
    {
        let d = if any {
            Single::from_u64(squares[k]).sqrt().mul(cell)
        } else {
            far
        };
        proof {
            lemma_metre(log@, w as int, h as int, threshold, squares@, k as int);
        }
        field.push(d);
        k = k + 1;
    }
    assert(field@ =~= want);
    field
}

/// True if some value lies above the threshold.
fn has_obstacle(log: &[i16], threshold: i16) -> (r: bool)
    ensures
        r == any_obstacle(log@, threshold),
{
    let n = log.len();
    let mut k: usize = 0;
    while k < n
        invariant
            n == log@.len(),
            k <= n,
            forall|at: int| 0 <= at < k ==> #[trigger] log@[at] <= threshold,
        decreases n - k,
    {
        if log[k] > threshold {
            assert(log@[k as int] > threshold);
            return true;
        }
        k = k + 1;
    }
    false
}

} // verus!
