//! The pixel distance between pictures, in score units: the sum over the
//! pixels of the fixed-point distance between their colours.

use crate::color::{color_dist, lemma_color_dist_bound, Color};
use crate::consts::{MAX_COLOR_DIST, MAX_SIDE};
use crate::picture::cells;
use crate::rand::{next_state, output_between, Random};
use crate::sums::{column_of, lemma_partial_sum_bound, sum_range, sum_rect};
use crate::test_case::is_grid;
use std::ops::Range;
use vstd::prelude::*;

verus! {

/// A pixel distance that was counted in full, or one that was estimated
/// from a sample of the pixels.
#[derive(Clone, Copy, Debug)]
pub enum EstimateResult {
    RealResult(u128),
    Estimation(u128),
}

/// Number of pixels below which a distance is counted in full.
pub const SMALL_AREA: usize = 50;

/// Number of pixels in the sample of an estimate.
pub const MAX_TRIES: usize = 20;

/// Largest pixel distance of a picture.
pub const MAX_PIXEL_DIST: u128 = 2_190_366_474_750_000_000;

/// The distance between the colours that `a` and `b` show at a pixel.
pub open spec fn diff_at(a: Seq<Seq<Color>>, b: Seq<Seq<Color>>) -> spec_fn(int, int) -> nat {
    |x: int, y: int| color_dist(a[x][y], b[x][y])
}

/// The distance between `c` and the colour that `b` shows at a pixel.
pub open spec fn flat_diff_at(c: Color, b: Seq<Seq<Color>>) -> spec_fn(int, int) -> nat {
    |x: int, y: int| color_dist(c, b[x][y])
}

/// The pixel distance between `a` and `b` over the pixels with
/// `x0 <= x < x1` and `y0 <= y < y1`.
pub open spec fn range_distance(
    a: Seq<Seq<Color>>,
    b: Seq<Seq<Color>>,
    x0: int,
    x1: int,
    y0: int,
    y1: int,
) -> nat {
    sum_rect(diff_at(a, b), x0, x1, y0, y1)
}

/// The pixel distance between a picture that shows `c` everywhere and `b`,
/// over the pixels with `x0 <= x < x1` and `y0 <= y < y1`.
pub open spec fn flat_distance(c: Color, b: Seq<Seq<Color>>, x0: int, x1: int, y0: int, y1: int)
    -> nat {
    sum_rect(flat_diff_at(c, b), x0, x1, y0, y1)
}

/// The pixel distance between two pictures of `n` columns and `m` rows.
pub open spec fn pixel_distance(a: Seq<Seq<Color>>, b: Seq<Seq<Color>>, n: int, m: int) -> nat {
    range_distance(a, b, 0, n, 0, m)
}

/// The sum of the distances between `c` and `k` pixels of `b` that the
/// generator picks from state `s` on, a column and then a row for each.
pub open spec fn sample_sum(
    c: Color,
    b: Seq<Seq<Color>>,
    x0: int,
    x1: int,
    y0: int,
    y1: int,
    s: u64,
    k: nat,
) -> nat
    decreases k,
{
    if k == 0 {
        0
    } else {
        let sx = next_state(s);
        let sy = next_state(sx);
        color_dist(c, b[output_between(sx, x0, x1)][output_between(sy, y0, y1)]) + sample_sum(
            c,
            b,
            x0,
            x1,
            y0,
            y1,
            sy,
            (k - 1) as nat,
        )
    }
}

/// The state of the generator after `k` draws from state `s`.
pub open spec fn state_after(s: u64, k: nat) -> u64
    decreases k,
{
    if k == 0 {
        s
    } else {
        state_after(next_state(s), (k - 1) as nat)
    }
}

/// What `estimate_pixel_distance_range_one_color` gives for a rectangle of
/// at least `SMALL_AREA` pixels.
pub open spec fn estimated_distance(
    c: Color,
    b: Seq<Seq<Color>>,
    x0: int,
    x1: int,
    y0: int,
    y1: int,
    s: u64,
) -> nat {
    (sample_sum(c, b, x0, x1, y0, y1, s, MAX_TRIES as nat) * ((x1 - x0) * (y1 - y0)) / (
    MAX_TRIES as int)) as nat
}

/// A sample of `k` pixels is at most `k` times as far as two colours can
/// be.
pub proof fn lemma_sample_sum_bound(
    c: Color,
    b: Seq<Seq<Color>>,
    x0: int,
    x1: int,
    y0: int,
    y1: int,
    s: u64,
    k: nat,
)
    ensures
        sample_sum(c, b, x0, x1, y0, y1, s, k) <= k * MAX_COLOR_DIST,
    decreases k,
{
    if k > 0 {
        let sx = next_state(s);
        let sy = next_state(sx);
        lemma_color_dist_bound(c, b[output_between(sx, x0, x1)][output_between(sy, y0, y1)]);
        lemma_sample_sum_bound(c, b, x0, x1, y0, y1, sy, (k - 1) as nat);
        assert((k - 1) * MAX_COLOR_DIST + MAX_COLOR_DIST == k * MAX_COLOR_DIST)
            by (nonlinear_arith);
    }
}

/// Every pixel distance over a part of a canvas is at most
/// `MAX_PIXEL_DIST`.
pub proof fn lemma_distance_bound(
    f: spec_fn(int, int) -> nat,
    x0: int,
    x: int,
    y0: int,
    y: int,
    y1: int,
    n: int,
    m: int,
)
    requires
        0 <= x0 <= x < n <= MAX_SIDE,
        0 <= y0 <= y <= y1 <= m <= MAX_SIDE,
        forall|i: int, j: int| #[trigger] f(i, j) <= MAX_COLOR_DIST,
    ensures
        sum_rect(f, x0, x, y0, y1) + sum_range(column_of(f, x), y0, y) <= MAX_PIXEL_DIST,
{
    lemma_partial_sum_bound(f, x0, x, y0, y, y1, MAX_COLOR_DIST as nat, n, m);
    assert(MAX_COLOR_DIST * (n * m) <= 510_000_000 * (65535 * 65535)) by (nonlinear_arith)
        requires
            0 <= n <= 65535,
            0 <= m <= 65535,
            MAX_COLOR_DIST == 510_000_000,
    ;
}

/// Sums the distances between the colours of `my` and of `expected` over
/// the pixels with `x` in `xs` and `y` in `ys`.
pub fn get_pixel_distance_range(
    my: &Vec<Vec<Color>>,
    expected: &Vec<Vec<Color>>,
    xs: Range<usize>,
    ys: Range<usize>,
) -> (res: u128)
    requires
        my@.len() <= MAX_SIDE,
        my@.len() == expected@.len(),
        xs.end <= my@.len(),
        exists|m: int|
            ys.end <= m <= MAX_SIDE && is_grid(my@, my@.len() as int, m) && is_grid(
                expected@,
                my@.len() as int,
                m,
            ),
    ensures
        res == range_distance(
            cells(my@),
            cells(expected@),
            xs.start as int,
            xs.end as int,
            ys.start as int,
            ys.end as int,
        ),
        res <= MAX_PIXEL_DIST,
{
    let ghost f = diff_at(cells(my@), cells(expected@));
    let ghost n = my@.len() as int;
    let ghost m = choose|m: int|
        ys.end <= m <= MAX_SIDE && is_grid(my@, my@.len() as int, m) && is_grid(
            expected@,
            my@.len() as int,
            m,
        );
    let x0 = xs.start;
    let x1 = xs.end;
    let y0 = ys.start;
    let y1 = ys.end;
    let mut res: u128 = 0;
    if x0 >= x1 || y0 >= y1 {
        proof {
            lemma_empty_rect(f, x0 as int, x1 as int, y0 as int, y1 as int);
        }
        return 0;
    }
    proof {
        assert forall|i: int, j: int| #[trigger] f(i, j) <= MAX_COLOR_DIST by {
            lemma_color_dist_bound(cells(my@)[i][j], cells(expected@)[i][j]);
        }
    }
    let mut x: usize = x0;
    while x < x1
        invariant
            x0 <= x <= x1 <= n <= MAX_SIDE,
            y0 < y1 <= m <= MAX_SIDE,
            n == my@.len(),
            is_grid(my@, n, m),
            is_grid(expected@, n, m),
            f == diff_at(cells(my@), cells(expected@)),
            forall|i: int, j: int| #[trigger] f(i, j) <= MAX_COLOR_DIST,
            res == sum_rect(f, x0 as int, x as int, y0 as int, y1 as int),
            res <= MAX_PIXEL_DIST,
        decreases x1 - x,
    {
        let mut y: usize = y0;
        assert(my@[x as int].len() == m);
        assert(expected@[x as int].len() == m);
        proof {
            lemma_distance_bound(f, x0 as int, x as int, y0 as int, y0 as int, y1 as int, n, m);
        }
        while y < y1
            invariant
                x0 <= x < x1 <= n <= MAX_SIDE,
                y0 <= y <= y1 <= m <= MAX_SIDE,
                n == my@.len(),
                n == expected@.len(),
                my@[x as int].len() == m,
                expected@[x as int].len() == m,
                f == diff_at(cells(my@), cells(expected@)),
                forall|i: int, j: int| #[trigger] f(i, j) <= MAX_COLOR_DIST,
                res == sum_rect(f, x0 as int, x as int, y0 as int, y1 as int) + sum_range(
                    column_of(f, x as int),
                    y0 as int,
                    y as int,
                ),
                res <= MAX_PIXEL_DIST,
            decreases y1 - y,
        {
            let d = my[x][y].dist(&expected[x][y]);
            proof {
                assert(column_of(f, x as int)(y as int) == d);
                lemma_distance_bound(
                    f,
                    x0 as int,
                    x as int,
                    y0 as int,
                    y + 1,
                    y1 as int,
                    n,
                    m,
                );
            }
            res = res + d as u128;
            y = y + 1;
        }
        x = x + 1;
    }
    res
}

/// A sum over a rectangle without pixels is zero.
pub proof fn lemma_empty_rect(f: spec_fn(int, int) -> nat, x0: int, x1: int, y0: int, y1: int)
    requires
        x1 <= x0 || y1 <= y0,
    ensures
        sum_rect(f, x0, x1, y0, y1) == 0,
    decreases x1 - x0,
{
    if x1 > x0 {
        lemma_empty_rect(f, x0, x1 - 1, y0, y1);
    }
}

/// Sums the distances between the colours of two pictures of the same
/// size.
pub fn get_pixel_distance(my: &Vec<Vec<Color>>, expected: &Vec<Vec<Color>>) -> (res: u128)
    requires
        1 <= my@.len() <= MAX_SIDE,
        my@.len() == expected@.len(),
        my@[0]@.len() <= MAX_SIDE,
        is_grid(my@, my@.len() as int, my@[0]@.len() as int),
        is_grid(expected@, my@.len() as int, my@[0]@.len() as int),
    ensures
        res == pixel_distance(
            cells(my@),
            cells(expected@),
            my@.len() as int,
            my@[0]@.len() as int,
        ),
        res <= MAX_PIXEL_DIST,
{
    get_pixel_distance_range(my, expected, 0..my.len(), 0..my[0].len())
}

/// Sums the distances between `color` and the colours of `expected` over
/// the pixels with `x` in `xs` and `y` in `ys`.
pub fn get_pixel_distance_range_one_color(
    color: Color,
    expected: &Vec<Vec<Color>>,
    xs: Range<usize>,
    ys: Range<usize>,
) -> (res: u128)
    requires
        expected@.len() <= MAX_SIDE,
        xs.end <= expected@.len(),
        exists|m: int| ys.end <= m <= MAX_SIDE && is_grid(expected@, expected@.len() as int, m),
    ensures
        res == flat_distance(
            color,
            cells(expected@),
            xs.start as int,
            xs.end as int,
            ys.start as int,
            ys.end as int,
        ),
        res <= MAX_PIXEL_DIST,
{
    let ghost f = flat_diff_at(color, cells(expected@));
    let ghost n = expected@.len() as int;
    let ghost m = choose|m: int|
        ys.end <= m <= MAX_SIDE && is_grid(expected@, expected@.len() as int, m);
    let x0 = xs.start;
    let x1 = xs.end;
    let y0 = ys.start;
    let y1 = ys.end;
    let mut res: u128 = 0;
    if x0 >= x1 || y0 >= y1 {
        proof {
            lemma_empty_rect(f, x0 as int, x1 as int, y0 as int, y1 as int);
        }
        return 0;
    }
    proof {
        assert forall|i: int, j: int| #[trigger] f(i, j) <= MAX_COLOR_DIST by {
            lemma_color_dist_bound(color, cells(expected@)[i][j]);
        }
    }
    let mut x: usize = x0;
    while x < x1
        invariant
            x0 <= x <= x1 <= n <= MAX_SIDE,
            y0 < y1 <= m <= MAX_SIDE,
            n == expected@.len(),
            is_grid(expected@, n, m),
            f == flat_diff_at(color, cells(expected@)),
            forall|i: int, j: int| #[trigger] f(i, j) <= MAX_COLOR_DIST,
            res == sum_rect(f, x0 as int, x as int, y0 as int, y1 as int),
            res <= MAX_PIXEL_DIST,
        decreases x1 - x,
    {
        let mut y: usize = y0;
        assert(expected@[x as int].len() == m);
        proof {
            lemma_distance_bound(f, x0 as int, x as int, y0 as int, y0 as int, y1 as int, n, m);
        }
        while y < y1
            invariant
                x0 <= x < x1 <= n <= MAX_SIDE,
                y0 <= y <= y1 <= m <= MAX_SIDE,
                n == expected@.len(),
                expected@[x as int].len() == m,
                f == flat_diff_at(color, cells(expected@)),
                forall|i: int, j: int| #[trigger] f(i, j) <= MAX_COLOR_DIST,
                res == sum_rect(f, x0 as int, x as int, y0 as int, y1 as int) + sum_range(
                    column_of(f, x as int),
                    y0 as int,
                    y as int,
                ),
                res <= MAX_PIXEL_DIST,
            decreases y1 - y,
        {
            let d = color.dist(&expected[x][y]);
            proof {
                assert(column_of(f, x as int)(y as int) == d);
                lemma_distance_bound(
                    f,
                    x0 as int,
                    x as int,
                    y0 as int,
                    y + 1,
                    y1 as int,
                    n,
                    m,
                );
            }
            res = res + d as u128;
            y = y + 1;
        }
        x = x + 1;
    }
    res
}

/// Counts the distance between `color` and `expected` over a rectangle of
/// fewer than `SMALL_AREA` pixels in full.  For a larger one, scales the
/// distance of `MAX_TRIES` pixels that `rnd` picks up to the rectangle.
pub fn estimate_pixel_distance_range_one_color(
    color: Color,
    expected: &Vec<Vec<Color>>,
    xs: Range<usize>,
    ys: Range<usize>,
    rnd: &mut Random,
) -> (res: EstimateResult)
    requires
        expected@.len() <= MAX_SIDE,
        xs.start < xs.end <= expected@.len(),
        ys.start < ys.end,
        exists|m: int| ys.end <= m <= MAX_SIDE && is_grid(expected@, expected@.len() as int, m),
    ensures
        match res {
            EstimateResult::RealResult(v) => (xs.end - xs.start) * (ys.end - ys.start)
                < SMALL_AREA && v == flat_distance(
                color,
                cells(expected@),
                xs.start as int,
                xs.end as int,
                ys.start as int,
                ys.end as int,
            ) && final(rnd).state == old(rnd).state && v <= MAX_PIXEL_DIST,
            EstimateResult::Estimation(v) => (xs.end - xs.start) * (ys.end - ys.start)
                >= SMALL_AREA && v == estimated_distance(
                color,
                cells(expected@),
                xs.start as int,
                xs.end as int,
                ys.start as int,
                ys.end as int,
                old(rnd).state,
            ) && final(rnd).state == state_after(old(rnd).state, 2 * MAX_TRIES as nat) && v
                <= MAX_PIXEL_DIST,
        },
{
    let ghost n = expected@.len() as int;
    let ghost m = choose|m: int|
        ys.end <= m <= MAX_SIDE && is_grid(expected@, expected@.len() as int, m);
    let x0 = xs.start;
    let x1 = xs.end;
    let y0 = ys.start;
    let y1 = ys.end;
    assert(0 < (x1 - x0) * (y1 - y0) <= 65535 * 65535) by (nonlinear_arith)
        requires
            0 < x1 - x0 <= 65535,
            0 < y1 - y0 <= 65535,
    ;
    let area: usize = (x1 - x0) * (y1 - y0);
    if area < SMALL_AREA {
        return EstimateResult::RealResult(
            get_pixel_distance_range_one_color(color, expected, xs, ys),
        );
    }
    let ghost b = cells(expected@);
    let ghost start = rnd.state;
    let mut res: u128 = 0;
    let mut i: usize = 0;
    while i < MAX_TRIES
        invariant
            i <= MAX_TRIES,
            x0 < x1 <= n,
            y0 < y1 <= m,
            n == expected@.len(),
            is_grid(expected@, n, m),
            b == cells(expected@),
            res <= i * MAX_COLOR_DIST,
            res + sample_sum(
                color,
                b,
                x0 as int,
                x1 as int,
                y0 as int,
                y1 as int,
                rnd.state,
                (MAX_TRIES - i) as nat,
            ) == sample_sum(
                color,
                b,
                x0 as int,
                x1 as int,
                y0 as int,
                y1 as int,
                start,
                MAX_TRIES as nat,
            ),
            state_after(rnd.state, (2 * (MAX_TRIES - i)) as nat) == state_after(
                start,
                2 * MAX_TRIES as nat,
            ),
        decreases MAX_TRIES - i,
    {
        let ghost before = rnd.state;
        let x = rnd.gen(x0, x1);
        let y = rnd.gen(y0, y1);
        assert(expected@[x as int].len() == m);
        let d = color.dist(&expected[x][y]);
        proof {
            reveal_with_fuel(state_after, 3);
            assert((i + 1) * MAX_COLOR_DIST == i * MAX_COLOR_DIST + MAX_COLOR_DIST)
                by (nonlinear_arith);
        }
        res = res + d as u128;
        i = i + 1;
    }
    assert(res <= 20 * 510_000_000);
    assert(res * area <= 20 * 510_000_000 * (65535 * 65535)) by (nonlinear_arith)
        requires
            0 <= res <= 20 * 510_000_000,
            0 <= area <= 65535 * 65535,
    ;
    let scaled: u128 = res * (area as u128) / (MAX_TRIES as u128);
    EstimateResult::Estimation(scaled)
}

} // verus!
