//! Sums of a function over a range of integers and over the pixels of a
//! rectangle.

use vstd::prelude::*;

verus! {

/// The sum of `f(i)` for `lo <= i < hi`.
pub open spec fn sum_range(f: spec_fn(int) -> nat, lo: int, hi: int) -> nat
    decreases hi - lo,
{
    if hi <= lo {
        0
    } else {
        sum_range(f, lo, hi - 1) + f(hi - 1)
    }
}

/// The function `f` along the column `x`.
pub open spec fn column_of(f: spec_fn(int, int) -> nat, x: int) -> spec_fn(int) -> nat {
    |y: int| f(x, y)
}

/// The sum of `f(x, y)` over the pixels with `x0 <= x < x1` and
/// `y0 <= y < y1`.
pub open spec fn sum_rect(f: spec_fn(int, int) -> nat, x0: int, x1: int, y0: int, y1: int) -> nat
    decreases x1 - x0,
{
    if x1 <= x0 {
        0
    } else {
        sum_rect(f, x0, x1 - 1, y0, y1) + sum_range(column_of(f, x1 - 1), y0, y1)
    }
}

/// A sum of values of at most `bound` is at most `bound` times their number.
pub proof fn lemma_sum_range_bound(f: spec_fn(int) -> nat, lo: int, hi: int, bound: nat)
    requires
        lo <= hi,
        forall|i: int| lo <= i < hi ==> #[trigger] f(i) <= bound,
    ensures
        sum_range(f, lo, hi) <= bound * (hi - lo),
    decreases hi - lo,
{
    if hi > lo {
        lemma_sum_range_bound(f, lo, hi - 1, bound);
        assert(bound * (hi - 1 - lo) + bound == bound * (hi - lo)) by (nonlinear_arith);
    } else {
        assert(bound * (hi - lo) == 0) by (nonlinear_arith)
            requires
                hi - lo == 0,
        ;
    }
}

/// Sums of functions that agree on the range are equal.
pub proof fn lemma_sum_range_agree(f: spec_fn(int) -> nat, g: spec_fn(int) -> nat, lo: int, hi: int)
    requires
        forall|i: int| lo <= i < hi ==> #[trigger] f(i) == g(i),
    ensures
        sum_range(f, lo, hi) == sum_range(g, lo, hi),
    decreases hi - lo,
{
    if hi > lo {
        lemma_sum_range_agree(f, g, lo, hi - 1);
    }
}

/// A sum does not exceed the sum of a function that is nowhere smaller.
pub proof fn lemma_sum_range_le(f: spec_fn(int) -> nat, g: spec_fn(int) -> nat, lo: int, hi: int)
    requires
        forall|i: int| lo <= i < hi ==> #[trigger] f(i) <= g(i),
    ensures
        sum_range(f, lo, hi) <= sum_range(g, lo, hi),
    decreases hi - lo,
{
    if hi > lo {
        lemma_sum_range_le(f, g, lo, hi - 1);
    }
}

/// A range sum is the sum over its two parts.
pub proof fn lemma_sum_range_split(f: spec_fn(int) -> nat, lo: int, mid: int, hi: int)
    requires
        lo <= mid <= hi,
    ensures
        sum_range(f, lo, hi) == sum_range(f, lo, mid) + sum_range(f, mid, hi),
    decreases hi - mid,
{
    if hi > mid {
        lemma_sum_range_split(f, lo, mid, hi - 1);
    }
}

/// A sum over a rectangle of values of at most `bound` is at most `bound`
/// times the number of pixels.
pub proof fn lemma_sum_rect_bound(
    f: spec_fn(int, int) -> nat,
    x0: int,
    x1: int,
    y0: int,
    y1: int,
    bound: nat,
)
    requires
        x0 <= x1,
        y0 <= y1,
        forall|x: int, y: int| x0 <= x < x1 && y0 <= y < y1 ==> #[trigger] f(x, y) <= bound,
    ensures
        sum_rect(f, x0, x1, y0, y1) <= bound * ((x1 - x0) * (y1 - y0)),
    decreases x1 - x0,
{
    if x1 > x0 {
        lemma_sum_rect_bound(f, x0, x1 - 1, y0, y1, bound);
        let col = column_of(f, x1 - 1);
        assert forall|y: int| y0 <= y < y1 implies #[trigger] col(y) <= bound by {
            assert(f(x1 - 1, y) <= bound);
        }
        lemma_sum_range_bound(col, y0, y1, bound);
        assert(bound * ((x1 - 1 - x0) * (y1 - y0)) + bound * (y1 - y0) == bound * ((x1 - x0) * (y1
            - y0))) by (nonlinear_arith);
    } else {
        assert(bound * ((x1 - x0) * (y1 - y0)) == 0) by (nonlinear_arith)
            requires
                x1 - x0 == 0,
        ;
    }
}

/// Sums over a rectangle of functions that agree on it are equal.
pub proof fn lemma_sum_rect_agree(
    f: spec_fn(int, int) -> nat,
    g: spec_fn(int, int) -> nat,
    x0: int,
    x1: int,
    y0: int,
    y1: int,
)
    requires
        forall|x: int, y: int| x0 <= x < x1 && y0 <= y < y1 ==> #[trigger] f(x, y) == g(x, y),
    ensures
        sum_rect(f, x0, x1, y0, y1) == sum_rect(g, x0, x1, y0, y1),
    decreases x1 - x0,
{
    if x1 > x0 {
        lemma_sum_rect_agree(f, g, x0, x1 - 1, y0, y1);
        let cf = column_of(f, x1 - 1);
        let cg = column_of(g, x1 - 1);
        assert forall|y: int| y0 <= y < y1 implies #[trigger] cf(y) == cg(y) by {
            assert(f(x1 - 1, y) == g(x1 - 1, y));
        }
        lemma_sum_range_agree(cf, cg, y0, y1);
    }
}

/// A rectangle sum is the sum over its left and its right part.
pub proof fn lemma_sum_rect_split_x(
    f: spec_fn(int, int) -> nat,
    x0: int,
    xm: int,
    x1: int,
    y0: int,
    y1: int,
)
    requires
        x0 <= xm <= x1,
    ensures
        sum_rect(f, x0, x1, y0, y1) == sum_rect(f, x0, xm, y0, y1) + sum_rect(f, xm, x1, y0, y1),
    decreases x1 - xm,
{
    if x1 > xm {
        lemma_sum_rect_split_x(f, x0, xm, x1 - 1, y0, y1);
    }
}

/// A rectangle sum is the sum over its lower and its upper part.
pub proof fn lemma_sum_rect_split_y(
    f: spec_fn(int, int) -> nat,
    x0: int,
    x1: int,
    y0: int,
    ym: int,
    y1: int,
)
    requires
        y0 <= ym <= y1,
    ensures
        sum_rect(f, x0, x1, y0, y1) == sum_rect(f, x0, x1, y0, ym) + sum_rect(f, x0, x1, ym, y1),
    decreases x1 - x0,
{
    if x1 > x0 {
        lemma_sum_rect_split_y(f, x0, x1 - 1, y0, ym, y1);
        lemma_sum_range_split(column_of(f, x1 - 1), y0, ym, y1);
    }
}

/// The sum over the columns before `x` and over column `x` below `y` is at
/// most `bound` times the number of pixels of a canvas that holds them.
pub proof fn lemma_partial_sum_bound(
    f: spec_fn(int, int) -> nat,
    x0: int,
    x: int,
    y0: int,
    y: int,
    y1: int,
    bound: nat,
    n: int,
    m: int,
)
    requires
        0 <= x0 <= x < n,
        0 <= y0 <= y <= y1 <= m,
        forall|i: int, j: int| #[trigger] f(i, j) <= bound,
    ensures
        sum_rect(f, x0, x, y0, y1) + sum_range(column_of(f, x), y0, y) <= bound * (n * m),
{
    lemma_sum_rect_bound(f, x0, x, y0, y1, bound);
    let col = column_of(f, x);
    assert forall|j: int| y0 <= j < y implies #[trigger] col(j) <= bound by {
        assert(f(x, j) <= bound);
    }
    lemma_sum_range_bound(col, y0, y, bound);
    assert(bound * ((x - x0) * (y1 - y0)) + bound * (y - y0) <= bound * (n * m))
        by (nonlinear_arith)
        requires
            0 <= x0 <= x < n,
            0 <= y0 <= y <= y1 <= m,
    ;
}

} // verus!
