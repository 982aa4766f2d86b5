//! Rectangular grids of whole numbers, listed line by line.

use vstd::arithmetic::div_mod::{lemma_fundamental_div_mod, lemma_fundamental_div_mod_converse};
use vstd::prelude::*;

use crate::types::Span;

verus! {

/// How many numbers a range holds; an inverted range holds none.
pub open spec fn extent(span: Span) -> nat {
    if span.start <= span.end {
        (span.end - span.start + 1) as nat
    } else {
        0
    }
}

/// All pairs of a number of `outer` and a number of `inner`. The inner number
/// runs fastest.
pub open spec fn grid_of(outer: Span, inner: Span) -> Seq<(i32, i32)> {
    Seq::new(
        extent(outer) * extent(inner),
        |k: int|
            (
                (outer.start + k / (extent(inner) as int)) as i32,
                (inner.start + k % (extent(inner) as int)) as i32,
            ),
    )
}

/// List all pairs of a number of `outer` and a number of `inner`.
pub fn grid(outer: Span, inner: Span) -> (points: Vec<(i32, i32)>)
    ensures
        points@ == grid_of(outer, inner),
{
    let ghost n = extent(inner) as int;
    let mut points: Vec<(i32, i32)> = Vec::new();
    if outer.start > outer.end || inner.start > inner.end {
        proof {
            assert(extent(outer) * extent(inner) == 0) by (nonlinear_arith)
                requires
                    extent(outer) == 0 || extent(inner) == 0,
            ;
        }
        assert(points@ =~= grid_of(outer, inner));
        return points;
    }
    let mut a: i64 = outer.start as i64;
    assert(0 * n == 0) by (nonlinear_arith);
    while a <= outer.end as i64
        invariant
            outer.start <= a <= outer.end + 1,
            inner.start <= inner.end,
            n == extent(inner),
            points@.len() == (a - outer.start) * n,
            forall|k: int|
                0 <= k < points@.len() ==> #[trigger] points@[k] == (
                    (outer.start + k / n) as i32,
                    (inner.start + k % n) as i32,
                ),
        decreases outer.end + 1 - a,
    {
        let mut b: i64 = inner.start as i64;
        while b <= inner.end as i64
            invariant
                outer.start <= a <= outer.end,
                inner.start <= b <= inner.end + 1,
                n == extent(inner),
                points@.len() == (a - outer.start) * n + (b - inner.start),
                forall|k: int|
                    0 <= k < points@.len() ==> #[trigger] points@[k] == (
                        (outer.start + k / n) as i32,
                        (inner.start + k % n) as i32,
                    ),
            decreases inner.end + 1 - b,
        {
            proof {
                lemma_fundamental_div_mod_converse(
                    points@.len() as int,
                    n,
                    a - outer.start,
                    b - inner.start,
                );
            }
            points.push((a as i32, b as i32));
            b += 1;
        }
        assert((a - outer.start) * n + n == (a + 1 - outer.start) * n) by (nonlinear_arith);
        a += 1;
    }
    assert(points@ =~= grid_of(outer, inner));
    points
}

/// A grid holds exactly the pairs within its two ranges.
pub proof fn law_grid_covers(outer: Span, inner: Span, a: i32, b: i32)
    ensures
        grid_of(outer, inner).contains((a, b)) <==> outer.start <= a <= outer.end && inner.start <= b
            <= inner.end,
{
    let all = grid_of(outer, inner);
    let n = extent(inner) as int;
    if outer.start <= a <= outer.end && inner.start <= b <= inner.end {
        let k = (a - outer.start) * n + (b - inner.start);
        assert(0 <= k < extent(outer) * n) by (nonlinear_arith)
            requires
                k == (a - outer.start) * n + (b - inner.start),
                0 <= a - outer.start < extent(outer),
                0 <= b - inner.start < n,
        ;
        lemma_fundamental_div_mod_converse(k, n, a - outer.start, b - inner.start);
        assert(all[k] == (a, b));
    }
    if all.contains((a, b)) {
        let k = choose|k: int| 0 <= k < all.len() && all[k] == (a, b);
        lemma_grid_index(outer, inner, k);
    }
}

/// The pair of index `k` lies within the two ranges.
pub proof fn lemma_grid_index(outer: Span, inner: Span, k: int)
    requires
        0 <= k < grid_of(outer, inner).len(),
    ensures
        extent(inner) > 0,
        k == (k / (extent(inner) as int)) * extent(inner) + k % (extent(inner) as int),
        0 <= k / (extent(inner) as int) < extent(outer),
        0 <= k % (extent(inner) as int) < extent(inner),
        outer.start <= grid_of(outer, inner)[k].0 <= outer.end,
        inner.start <= grid_of(outer, inner)[k].1 <= inner.end,
{
    let n = extent(inner) as int;
    let m = extent(outer) as int;
    assert(n > 0) by (nonlinear_arith)
        requires
            0 <= k < m * n,
            0 <= n,
    ;
    lemma_fundamental_div_mod(k, n);
    let (q, r) = (k / n, k % n);
    assert(q * n == n * q) by (nonlinear_arith);
    assert(0 <= q < m) by (nonlinear_arith)
        requires
            k == n * q + r,
            0 <= r < n,
            0 <= k < m * n,
            n > 0,
    ;
}

/// A grid lists no pair twice.
pub proof fn law_grid_distinct(outer: Span, inner: Span, j: int, k: int)
    requires
        0 <= j < grid_of(outer, inner).len(),
        0 <= k < grid_of(outer, inner).len(),
        grid_of(outer, inner)[j] == grid_of(outer, inner)[k],
    ensures
        j == k,
{
    lemma_grid_index(outer, inner, j);
    lemma_grid_index(outer, inner, k);
}

/// A grid is listed row by row: the inner number goes up by one, or starts again with
/// the next outer number.
pub proof fn law_grid_runs_row_by_row(outer: Span, inner: Span, k: int)
    requires
        0 <= k < grid_of(outer, inner).len() - 1,
    ensures
        ({
            let (a, b) = (grid_of(outer, inner)[k], grid_of(outer, inner)[k + 1]);
            ||| b.0 == a.0 && b.1 == a.1 + 1
            ||| b.0 == a.0 + 1 && a.1 == inner.end && b.1 == inner.start
        }),
{
    let n = extent(inner) as int;
    lemma_grid_index(outer, inner, k);
    lemma_grid_index(outer, inner, k + 1);
    let (q, r) = (k / n, k % n);
    if r < n - 1 {
        lemma_fundamental_div_mod_converse(k + 1, n, q, r + 1);
    } else {
        assert((q + 1) * n == q * n + n) by (nonlinear_arith);
        lemma_fundamental_div_mod_converse(k + 1, n, q + 1, 0);
    }
}

/// A grid lists all pairs of the two ranges and no others, none twice, beginning with
/// the lowest and row by row.
pub proof fn law_grid(outer: Span, inner: Span, points: Vec<(i32, i32)>, a: i32, b: i32)
    requires
        call_ensures(grid, (outer, inner), points),
    ensures
        points@.contains((a, b)) <==> outer.start <= a <= outer.end && inner.start <= b <= inner.end,
        points@.len() > 0 ==> points@[0] == (outer.start, inner.start),
        forall|k: int|
            0 <= k < points@.len() - 1 ==> {
                let (c, d) = (points@[k], #[trigger] points@[k + 1]);
                ||| d.0 == c.0 && d.1 == c.1 + 1
                ||| d.0 == c.0 + 1 && c.1 == inner.end && d.1 == inner.start
            },
{
    law_grid_covers(outer, inner, a, b);
    if points@.len() > 0 {
        lemma_grid_index(outer, inner, 0);
        lemma_fundamental_div_mod_converse(0, extent(inner) as int, 0, 0);
    }
    assert forall|k: int| 0 <= k < points@.len() - 1 implies ({
        let (c, d) = (points@[k], #[trigger] points@[k + 1]);
        ||| d.0 == c.0 && d.1 == c.1 + 1
        ||| d.0 == c.0 + 1 && c.1 == inner.end && d.1 == inner.start
    }) by {
        law_grid_runs_row_by_row(outer, inner, k);
    }
}

} // verus!
