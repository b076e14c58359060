//! The partition that the tables of the solver stand for: the rectangles of
//! a window, the order in which they are painted, and what they score.

use crate::color::Color;
use crate::color_corner::corner_cost;
use crate::consts::{MAX_SIDE, SCORE_SCALE};
use crate::ops_by_rects::stack_cost;
use crate::picture::is_picture;
use crate::pixel_dist::{diff_at, flat_diff_at, range_distance};
use crate::solution::{
    anchors_inside, box_owner, held_later, holds, lemma_box_owner, lemma_painted_boxes,
    painted_boxes, reaches, tiled_in_order, SolutionRect,
};
use crate::solver::{
    cell_ok, finer_of, level_ok, lemma_map_increasing, solution_ok, BestWay, Env, Level, Solution,
};
use crate::sums::{lemma_sum_rect_agree, lemma_sum_rect_split_x, lemma_sum_rect_split_y};
use crate::utils::{p, Point};
use vstd::prelude::*;

verus! {

/// The rectangles that paint a window of level `k`, in the order in which
/// they are painted: the window itself, the rectangles of its two parts,
/// those of the part at the lower line first, or the rectangles of the
/// window of the finer grid that it maps onto.
pub open spec fn window_rects(levels: Seq<Level>, k: int, a: int, b: int, c: int, d: int) -> Seq<
    SolutionRect,
>
    decreases k, c + d,
{
    if k < 0 || k >= levels.len() || c < 1 || d < 1 {
        Seq::empty()
    } else {
        let lv = levels[k];
        match lv.cell(a, b, c, d).way {
            BestWay::FullColor(col) => seq![
                SolutionRect {
                    from: Point { x: lv.xs@[a] as i32, y: lv.ys@[b] as i32 },
                    to: Point { x: lv.xs@[a + c] as i32, y: lv.ys@[b + d] as i32 },
                    color: col,
                },
            ],
            BestWay::SplitX(mid) => if a < mid < a + c {
                window_rects(levels, k, a, b, mid - a, d) + window_rects(
                    levels,
                    k,
                    mid as int,
                    b,
                    a + c - mid,
                    d,
                )
            } else {
                Seq::empty()
            },
            BestWay::SplitY(mid) => if b < mid < b + d {
                window_rects(levels, k, a, b, c, mid - b) + window_rects(
                    levels,
                    k,
                    a,
                    mid as int,
                    c,
                    b + d - mid,
                )
            } else {
                Seq::empty()
            },
            BestWay::SolveRec => if k > 0 {
                window_rects(
                    levels,
                    k - 1,
                    lv.x_map@[a] as int,
                    lv.y_map@[b] as int,
                    lv.x_map@[a + c] - lv.x_map@[a],
                    lv.y_map@[b + d] - lv.y_map@[b],
                )
            } else {
                Seq::empty()
            },
        }
    }
}

/// Some rectangle holds the pixel `(x, y)` in its box.
pub open spec fn held(rects: Seq<SolutionRect>, x: int, y: int) -> bool {
    exists|i: int| 0 <= i < rects.len() && holds(#[trigger] rects[i], x, y)
}

/// The boxes of `rects` tile the rectangle from `(x0, y0)` to `(x1, y1)`:
/// each lies in it and holds a pixel, no two share a pixel, together they
/// hold every pixel of it, and every pixel of it that a rectangle reaches
/// from its anchor but does not hold lies in the box of a later rectangle.
pub open spec fn tiles(rects: Seq<SolutionRect>, x0: int, x1: int, y0: int, y1: int) -> bool {
    &&& forall|i: int|
        0 <= i < rects.len() ==> x0 <= (#[trigger] rects[i]).from.x < rects[i].to.x <= x1 && y0
            <= rects[i].from.y < rects[i].to.y <= y1
    &&& forall|i: int, j: int, x: int, y: int|
        #![trigger holds(rects[i], x, y), holds(rects[j], x, y)]
        0 <= i < j < rects.len() && holds(rects[i], x, y) ==> !holds(rects[j], x, y)
    &&& forall|x: int, y: int| x0 <= x < x1 && y0 <= y < y1 ==> #[trigger] held(rects, x, y)
    &&& forall|i: int, x: int, y: int|
        0 <= i < rects.len() && x0 <= x < x1 && y0 <= y < y1 && reaches(rects[i], x, y) && !holds(
            rects[i],
            x,
            y,
        ) ==> #[trigger] held_later(rects, i, x, y)
}

/// A rectangle tiles its own box.
pub proof fn lemma_tiles_one(r: SolutionRect)
    requires
        r.from.x < r.to.x,
        r.from.y < r.to.y,
    ensures
        tiles(seq![r], r.from.x as int, r.to.x as int, r.from.y as int, r.to.y as int),
{
    let rects = seq![r];
    assert forall|x: int, y: int|
        r.from.x <= x < r.to.x && r.from.y <= y < r.to.y implies #[trigger] held(rects, x, y) by {
        assert(holds(rects[0], x, y));
    }
}

/// Tilings of two rectangles that lie side by side make a tiling of both
/// together, the left one first.
pub proof fn lemma_tiles_beside(
    left: Seq<SolutionRect>,
    right: Seq<SolutionRect>,
    x0: int,
    xm: int,
    x1: int,
    y0: int,
    y1: int,
)
    requires
        x0 <= xm <= x1,
        tiles(left, x0, xm, y0, y1),
        tiles(right, xm, x1, y0, y1),
    ensures
        tiles(left + right, x0, x1, y0, y1),
{
    let all = left + right;
    let k = left.len() as int;
    assert forall|i: int| 0 <= i < all.len() implies x0 <= (#[trigger] all[i]).from.x
        < all[i].to.x <= x1 && y0 <= all[i].from.y < all[i].to.y <= y1 by {
        if i < k {
            assert(all[i] == left[i]);
        } else {
            assert(all[i] == right[i - k]);
        }
    }
    assert forall|i: int, j: int, x: int, y: int|
        #![trigger holds(all[i], x, y), holds(all[j], x, y)]
        0 <= i < j < all.len() && holds(all[i], x, y) implies !holds(all[j], x, y) by {
        if j < k {
            assert(all[i] == left[i] && all[j] == left[j]);
        } else if i >= k {
            assert(all[i] == right[i - k] && all[j] == right[j - k]);
        } else {
            assert(all[i] == left[i] && all[j] == right[j - k]);
        }
    }
    assert forall|x: int, y: int| x0 <= x < x1 && y0 <= y < y1 implies #[trigger] held(
        all,
        x,
        y,
    ) by {
        if x < xm {
            assert(held(left, x, y));
            let i = choose|i: int| 0 <= i < left.len() && holds(#[trigger] left[i], x, y);
            assert(all[i] == left[i]);
        } else {
            assert(held(right, x, y));
            let i = choose|i: int| 0 <= i < right.len() && holds(#[trigger] right[i], x, y);
            assert(all[i + k] == right[i]);
        }
    }
    assert forall|i: int, x: int, y: int|
        0 <= i < all.len() && x0 <= x < x1 && y0 <= y < y1 && reaches(all[i], x, y) && !holds(
            all[i],
            x,
            y,
        ) implies #[trigger] held_later(all, i, x, y) by {
        if i < k {
            assert(all[i] == left[i]);
            if x < xm {
                assert(held_later(left, i, x, y));
                let j = choose|j: int| i < j < left.len() && holds(#[trigger] left[j], x, y);
                assert(all[j] == left[j]);
            } else {
                assert(held(right, x, y));
                let j = choose|j: int| 0 <= j < right.len() && holds(#[trigger] right[j], x, y);
                assert(all[j + k] == right[j]);
            }
        } else {
            assert(all[i] == right[i - k]);
            assert(held_later(right, i - k, x, y));
            let j = choose|j: int| i - k < j < right.len() && holds(#[trigger] right[j], x, y);
            assert(all[j + k] == right[j]);
        }
    }
}

/// Tilings of two rectangles that lie one above the other make a tiling of
/// both together, the lower one first.
pub proof fn lemma_tiles_above(
    low: Seq<SolutionRect>,
    high: Seq<SolutionRect>,
    x0: int,
    x1: int,
    y0: int,
    ym: int,
    y1: int,
)
    requires
        y0 <= ym <= y1,
        tiles(low, x0, x1, y0, ym),
        tiles(high, x0, x1, ym, y1),
    ensures
        tiles(low + high, x0, x1, y0, y1),
{
    let all = low + high;
    let k = low.len() as int;
    assert forall|i: int| 0 <= i < all.len() implies x0 <= (#[trigger] all[i]).from.x
        < all[i].to.x <= x1 && y0 <= all[i].from.y < all[i].to.y <= y1 by {
        if i < k {
            assert(all[i] == low[i]);
        } else {
            assert(all[i] == high[i - k]);
        }
    }
    assert forall|i: int, j: int, x: int, y: int|
        #![trigger holds(all[i], x, y), holds(all[j], x, y)]
        0 <= i < j < all.len() && holds(all[i], x, y) implies !holds(all[j], x, y) by {
        if j < k {
            assert(all[i] == low[i] && all[j] == low[j]);
        } else if i >= k {
            assert(all[i] == high[i - k] && all[j] == high[j - k]);
        } else {
            assert(all[i] == low[i] && all[j] == high[j - k]);
        }
    }
    assert forall|x: int, y: int| x0 <= x < x1 && y0 <= y < y1 implies #[trigger] held(
        all,
        x,
        y,
    ) by {
        if y < ym {
            assert(held(low, x, y));
            let i = choose|i: int| 0 <= i < low.len() && holds(#[trigger] low[i], x, y);
            assert(all[i] == low[i]);
        } else {
            assert(held(high, x, y));
            let i = choose|i: int| 0 <= i < high.len() && holds(#[trigger] high[i], x, y);
            assert(all[i + k] == high[i]);
        }
    }
    assert forall|i: int, x: int, y: int|
        0 <= i < all.len() && x0 <= x < x1 && y0 <= y < y1 && reaches(all[i], x, y) && !holds(
            all[i],
            x,
            y,
        ) implies #[trigger] held_later(all, i, x, y) by {
        if i < k {
            assert(all[i] == low[i]);
            if y < ym {
                assert(held_later(low, i, x, y));
                let j = choose|j: int| i < j < low.len() && holds(#[trigger] low[j], x, y);
                assert(all[j] == low[j]);
            } else {
                assert(held(high, x, y));
                let j = choose|j: int| 0 <= j < high.len() && holds(#[trigger] high[j], x, y);
                assert(all[j + k] == high[j]);
            }
        } else {
            assert(all[i] == high[i - k]);
            assert(held_later(high, i - k, x, y));
            let j = choose|j: int| i - k < j < high.len() && holds(#[trigger] high[j], x, y);
            assert(all[j + k] == high[j]);
        }
    }
}

/// The lines of a window of a grid on a canvas: the lower ones lie before
/// the upper ones, and none beyond the canvas.
pub proof fn lemma_window_lines(lv: Level, n: int, m: int, a: int, b: int, c: int, d: int)
    requires
        lv.shape(n, m),
        lv.window(a, b, c, d),
    ensures
        0 <= lv.xs@[a] < lv.xs@[a + c] <= n,
        0 <= lv.ys@[b] < lv.ys@[b + d] <= m,
{
    assert(lv.xs@[a] < lv.xs@[a + c]);
    assert(lv.ys@[b] < lv.ys@[b + d]);
    if a + c < lv.xs@.len() - 1 {
        assert(lv.xs@[a + c] < lv.xs@[lv.xs@.len() - 1]);
    }
    if b + d < lv.ys@.len() - 1 {
        assert(lv.ys@[b + d] < lv.ys@[lv.ys@.len() - 1]);
    }
}

/// The rectangles of a window tile the window.
pub proof fn lemma_window_tiles(env: Env, levels: Seq<Level>, k: int, a: int, b: int, c: int, d: int)
    requires
        1 <= env.n <= MAX_SIDE,
        1 <= env.m <= MAX_SIDE,
        solution_ok(env, levels),
        0 <= k < levels.len(),
        levels[k].window(a, b, c, d),
    ensures
        tiles(
            window_rects(levels, k, a, b, c, d),
            levels[k].xs@[a] as int,
            levels[k].xs@[a + c] as int,
            levels[k].ys@[b] as int,
            levels[k].ys@[b + d] as int,
        ),
    decreases k, c + d,
{
    let lv = levels[k];
    assert(level_ok(env, lv, finer_of(levels, k)));
    assert(cell_ok(env, lv, finer_of(levels, k), a, b, c, d));
    lemma_window_lines(lv, env.n, env.m, a, b, c, d);
    match lv.cell(a, b, c, d).way {
        BestWay::FullColor(col) => {
            let r = SolutionRect {
                from: Point { x: lv.xs@[a] as i32, y: lv.ys@[b] as i32 },
                to: Point { x: lv.xs@[a + c] as i32, y: lv.ys@[b + d] as i32 },
                color: col,
            };
            lemma_tiles_one(r);
        },
        BestWay::SplitX(mid) => {
            assert(lv.window(a, b, mid - a, d));
            assert(lv.window(mid as int, b, a + c - mid, d));
            lemma_window_tiles(env, levels, k, a, b, mid - a, d);
            lemma_window_tiles(env, levels, k, mid as int, b, a + c - mid, d);
            lemma_window_lines(lv, env.n, env.m, a, b, mid - a, d);
            lemma_window_lines(lv, env.n, env.m, mid as int, b, a + c - mid, d);
            lemma_tiles_beside(
                window_rects(levels, k, a, b, mid - a, d),
                window_rects(levels, k, mid as int, b, a + c - mid, d),
                lv.xs@[a] as int,
                lv.xs@[mid as int] as int,
                lv.xs@[a + c] as int,
                lv.ys@[b] as int,
                lv.ys@[b + d] as int,
            );
        },
        BestWay::SplitY(mid) => {
            assert(lv.window(a, b, c, mid - b));
            assert(lv.window(a, mid as int, c, b + d - mid));
            lemma_window_tiles(env, levels, k, a, b, c, mid - b);
            lemma_window_tiles(env, levels, k, a, mid as int, c, b + d - mid);
            lemma_window_lines(lv, env.n, env.m, a, b, c, mid - b);
            lemma_window_lines(lv, env.n, env.m, a, mid as int, c, b + d - mid);
            lemma_tiles_above(
                window_rects(levels, k, a, b, c, mid - b),
                window_rects(levels, k, a, mid as int, c, b + d - mid),
                lv.xs@[a] as int,
                lv.xs@[a + c] as int,
                lv.ys@[b] as int,
                lv.ys@[mid as int] as int,
                lv.ys@[b + d] as int,
            );
        },
        BestWay::SolveRec => {
            let f = levels[k - 1];
            assert(lv.maps_ok(f));
            lemma_window_tiles(
                env,
                levels,
                k - 1,
                lv.x_map@[a] as int,
                lv.y_map@[b] as int,
                lv.x_map@[a + c] - lv.x_map@[a],
                lv.y_map@[b + d] - lv.y_map@[b],
            );
        },
    }
}

/// A window is painted by no more rectangles than it has pixels.
pub proof fn lemma_window_count(env: Env, levels: Seq<Level>, k: int, a: int, b: int, c: int, d: int)
    requires
        1 <= env.n <= MAX_SIDE,
        1 <= env.m <= MAX_SIDE,
        solution_ok(env, levels),
        0 <= k < levels.len(),
        levels[k].window(a, b, c, d),
    ensures
        window_rects(levels, k, a, b, c, d).len() <= (levels[k].xs@[a + c] - levels[k].xs@[a]) * (
        levels[k].ys@[b + d] - levels[k].ys@[b]),
    decreases k, c + d,
{
    let lv = levels[k];
    assert(level_ok(env, lv, finer_of(levels, k)));
    assert(cell_ok(env, lv, finer_of(levels, k), a, b, c, d));
    lemma_window_lines(lv, env.n, env.m, a, b, c, d);
    let w = lv.xs@[a + c] - lv.xs@[a];
    let h = lv.ys@[b + d] - lv.ys@[b];
    match lv.cell(a, b, c, d).way {
        BestWay::FullColor(col) => {
            assert(1 <= w * h) by (nonlinear_arith)
                requires
                    1 <= w,
                    1 <= h,
            ;
        },
        BestWay::SplitX(mid) => {
            assert(lv.window(a, b, mid - a, d));
            assert(lv.window(mid as int, b, a + c - mid, d));
            lemma_window_count(env, levels, k, a, b, mid - a, d);
            lemma_window_count(env, levels, k, mid as int, b, a + c - mid, d);
            let w1 = lv.xs@[mid as int] - lv.xs@[a];
            let w2 = lv.xs@[a + c] - lv.xs@[mid as int];
            assert(w1 * h + w2 * h == w * h) by (nonlinear_arith)
                requires
                    w1 + w2 == w,
            ;
        },
        BestWay::SplitY(mid) => {
            assert(lv.window(a, b, c, mid - b));
            assert(lv.window(a, mid as int, c, b + d - mid));
            lemma_window_count(env, levels, k, a, b, c, mid - b);
            lemma_window_count(env, levels, k, a, mid as int, c, b + d - mid);
            let h1 = lv.ys@[mid as int] - lv.ys@[b];
            let h2 = lv.ys@[b + d] - lv.ys@[mid as int];
            assert(w * h1 + w * h2 == w * h) by (nonlinear_arith)
                requires
                    h1 + h2 == h,
            ;
        },
        BestWay::SolveRec => {
            let f = levels[k - 1];
            assert(lv.maps_ok(f));
            lemma_window_count(
                env,
                levels,
                k - 1,
                lv.x_map@[a] as int,
                lv.y_map@[b] as int,
                lv.x_map@[a + c] - lv.x_map@[a],
                lv.y_map@[b + d] - lv.y_map@[b],
            );
        },
    }
}

/// A stack that tiles the canvas is tiled in order, and all its anchors
/// lie inside the canvas.
pub proof fn lemma_tiles_canvas(rects: Seq<SolutionRect>, n: int, m: int)
    requires
        tiles(rects, 0, n, 0, m),
    ensures
        tiled_in_order(rects, n, m),
        anchors_inside(rects, n, m),
{
    assert forall|i: int, x: int, y: int|
        0 <= i < rects.len() && 0 <= x < n && 0 <= y < m && reaches(rects[i], x, y) && !holds(
            rects[i],
            x,
            y,
        ) implies #[trigger] held_later(rects, i, x, y) by {}
}

/// The picture `pic` shows, in the box of every rectangle of `rects`, the
/// colour of the rectangle.
pub open spec fn shows(pic: Seq<Seq<Color>>, rects: Seq<SolutionRect>) -> bool {
    forall|i: int, x: int, y: int|
        0 <= i < rects.len() && #[trigger] holds(rects[i], x, y) ==> pic[x][y] == rects[i].color
}

/// The picture that a tiling paints box by box shows every colour in its
/// box, whatever the picture was before.
pub proof fn lemma_tiling_shows(start: Seq<Seq<Color>>, rects: Seq<SolutionRect>, n: int, m: int)
    requires
        is_picture(start, n, m),
        tiles(rects, 0, n, 0, m),
    ensures
        shows(painted_boxes(start, rects), rects),
        is_picture(painted_boxes(start, rects), n, m),
{
    lemma_painted_boxes(start, rects, n, m);
    let pic = painted_boxes(start, rects);
    assert forall|i: int, x: int, y: int|
        0 <= i < rects.len() && #[trigger] holds(rects[i], x, y) implies pic[x][y]
        == rects[i].color by {
        lemma_box_owner(rects, x, y);
        let o = box_owner(rects, x, y);
        if o < i {
            assert(!holds(rects[i], x, y));
        }
        if o > i {
            assert(holds(rects[o], x, y));
        }
        assert(0 <= x < n && 0 <= y < m);
    }
}

/// A tiling paints the same picture box by box whatever the picture was
/// before.
pub proof fn lemma_tiling_hides_start(
    first: Seq<Seq<Color>>,
    second: Seq<Seq<Color>>,
    rects: Seq<SolutionRect>,
    n: int,
    m: int,
)
    requires
        is_picture(first, n, m),
        is_picture(second, n, m),
        tiles(rects, 0, n, 0, m),
    ensures
        painted_boxes(first, rects) == painted_boxes(second, rects),
{
    lemma_painted_boxes(first, rects, n, m);
    lemma_painted_boxes(second, rects, n, m);
    let a = painted_boxes(first, rects);
    let b = painted_boxes(second, rects);
    assert forall|x: int| 0 <= x < n implies #[trigger] a[x] =~= b[x] by {
        assert forall|y: int| 0 <= y < m implies a[x][y] == b[x][y] by {
            assert(held(rects, x, y));
            let i = choose|i: int| 0 <= i < rects.len() && holds(#[trigger] rects[i], x, y);
            lemma_box_owner(rects, x, y);
            if box_owner(rects, x, y) < i {
                assert(!holds(rects[i], x, y));
            }
        }
    }
    assert(a =~= b);
}

/// The cost of the operations of two stacks, one after the other, is the
/// sum of their costs.
pub proof fn lemma_stack_cost_concat(
    a: Seq<SolutionRect>,
    b: Seq<SolutionRect>,
    n: int,
    m: int,
    test_id: usize,
)
    ensures
        stack_cost(a + b, n, m, test_id) == stack_cost(a, n, m, test_id) + stack_cost(
            b,
            n,
            m,
            test_id,
        ),
    decreases b.len(),
{
    if b.len() == 0 {
        assert(a + b =~= a);
    } else {
        lemma_stack_cost_concat(a, b.drop_last(), n, m, test_id);
        assert((a + b).drop_last() =~= a + b.drop_last());
        assert((a + b).last() == b.last());
    }
}

/// The score in the cell of a window is the cost of the operations that
/// fill its rectangles, in score units, and the pixel distance over the
/// window of any picture that shows the colours of the rectangles in their
/// boxes.
pub proof fn lemma_window_score(
    env: Env,
    levels: Seq<Level>,
    k: int,
    a: int,
    b: int,
    c: int,
    d: int,
    pic: Seq<Seq<Color>>,
)
    requires
        1 <= env.n <= MAX_SIDE,
        1 <= env.m <= MAX_SIDE,
        solution_ok(env, levels),
        0 <= k < levels.len(),
        levels[k].window(a, b, c, d),
        shows(pic, window_rects(levels, k, a, b, c, d)),
    ensures
        levels[k].cell(a, b, c, d).cost == stack_cost(
            window_rects(levels, k, a, b, c, d),
            env.n,
            env.m,
            env.test_id,
        ) * SCORE_SCALE + range_distance(
            pic,
            env.expected,
            levels[k].xs@[a] as int,
            levels[k].xs@[a + c] as int,
            levels[k].ys@[b] as int,
            levels[k].ys@[b + d] as int,
        ),
    decreases k, c + d,
{
    let lv = levels[k];
    let rects = window_rects(levels, k, a, b, c, d);
    assert(level_ok(env, lv, finer_of(levels, k)));
    assert(cell_ok(env, lv, finer_of(levels, k), a, b, c, d));
    lemma_window_lines(lv, env.n, env.m, a, b, c, d);
    let x0 = lv.xs@[a] as int;
    let x1 = lv.xs@[a + c] as int;
    let y0 = lv.ys@[b] as int;
    let y1 = lv.ys@[b + d] as int;
    match lv.cell(a, b, c, d).way {
        BestWay::FullColor(col) => {
            let r = rects[0];
            assert(rects.drop_last() =~= Seq::<SolutionRect>::empty());
            assert(stack_cost(rects, env.n, env.m, env.test_id) == corner_cost(
                env.n,
                env.m,
                r.from,
                env.test_id,
            )) by {
                assert(stack_cost(rects.drop_last(), env.n, env.m, env.test_id) == 0);
            }
            assert forall|x: int, y: int| x0 <= x < x1 && y0 <= y < y1 implies #[trigger] diff_at(
                pic,
                env.expected,
            )(x, y) == flat_diff_at(col, env.expected)(x, y) by {
                assert(holds(rects[0], x, y));
                assert(pic[x][y] == col);
            }
            lemma_sum_rect_agree(
                diff_at(pic, env.expected),
                flat_diff_at(col, env.expected),
                x0,
                x1,
                y0,
                y1,
            );
        },
        BestWay::SplitX(mid) => {
            let left = window_rects(levels, k, a, b, mid - a, d);
            let right = window_rects(levels, k, mid as int, b, a + c - mid, d);
            assert(lv.window(a, b, mid - a, d));
            assert(lv.window(mid as int, b, a + c - mid, d));
            assert forall|i: int, x: int, y: int|
                0 <= i < left.len() && #[trigger] holds(left[i], x, y) implies pic[x][y]
                == left[i].color by {
                assert(rects[i] == left[i]);
            }
            assert forall|i: int, x: int, y: int|
                0 <= i < right.len() && #[trigger] holds(right[i], x, y) implies pic[x][y]
                == right[i].color by {
                assert(rects[i + left.len()] == right[i]);
            }
            lemma_window_score(env, levels, k, a, b, mid - a, d, pic);
            lemma_window_score(env, levels, k, mid as int, b, a + c - mid, d, pic);
            lemma_stack_cost_concat(left, right, env.n, env.m, env.test_id);
            lemma_window_lines(lv, env.n, env.m, a, b, mid - a, d);
            lemma_sum_rect_split_x(diff_at(pic, env.expected), x0, lv.xs@[mid as int] as int, x1, y0, y1);
            let sl = stack_cost(left, env.n, env.m, env.test_id);
            let sr = stack_cost(right, env.n, env.m, env.test_id);
            assert((sl + sr) * SCORE_SCALE == sl * SCORE_SCALE + sr * SCORE_SCALE)
                by (nonlinear_arith);
        },
        BestWay::SplitY(mid) => {
            let low = window_rects(levels, k, a, b, c, mid - b);
            let high = window_rects(levels, k, a, mid as int, c, b + d - mid);
            assert(lv.window(a, b, c, mid - b));
            assert(lv.window(a, mid as int, c, b + d - mid));
            assert forall|i: int, x: int, y: int|
                0 <= i < low.len() && #[trigger] holds(low[i], x, y) implies pic[x][y]
                == low[i].color by {
                assert(rects[i] == low[i]);
            }
            assert forall|i: int, x: int, y: int|
                0 <= i < high.len() && #[trigger] holds(high[i], x, y) implies pic[x][y]
                == high[i].color by {
                assert(rects[i + low.len()] == high[i]);
            }
            lemma_window_score(env, levels, k, a, b, c, mid - b, pic);
            lemma_window_score(env, levels, k, a, mid as int, c, b + d - mid, pic);
            lemma_stack_cost_concat(low, high, env.n, env.m, env.test_id);
            lemma_window_lines(lv, env.n, env.m, a, b, c, mid - b);
            lemma_sum_rect_split_y(diff_at(pic, env.expected), x0, x1, y0, lv.ys@[mid as int] as int, y1);
            let sl = stack_cost(low, env.n, env.m, env.test_id);
            let sr = stack_cost(high, env.n, env.m, env.test_id);
            assert((sl + sr) * SCORE_SCALE == sl * SCORE_SCALE + sr * SCORE_SCALE)
                by (nonlinear_arith);
        },
        BestWay::SolveRec => {
            let f = levels[k - 1];
            assert(lv.maps_ok(f));
            lemma_window_score(
                env,
                levels,
                k - 1,
                lv.x_map@[a] as int,
                lv.y_map@[b] as int,
                lv.x_map@[a + c] - lv.x_map@[a],
                lv.y_map@[b + d] - lv.y_map@[b],
                pic,
            );
        },
    }
}

impl Solution {
    /// Appends to `rects` the rectangles that paint the window of level `k`
    /// that starts at the lines `x_it` and `y_it` and spans `x_len` and
    /// `y_len` intervals.
    fn walk(
        &self,
        k: usize,
        x_it: usize,
        y_it: usize,
        x_len: usize,
        y_len: usize,
        rects: &mut Vec<SolutionRect>,
    )
        requires
            self.wf(),
            k < self.levels@.len(),
            self.levels@[k as int].window(x_it as int, y_it as int, x_len as int, y_len as int),
        ensures
            final(rects)@ == old(rects)@ + window_rects(
                self.levels@,
                k as int,
                x_it as int,
                y_it as int,
                x_len as int,
                y_len as int,
            ),
        decreases k, x_len + y_len,
    {
        let lv = &self.levels[k];
        let ghost env = self.env@;
        proof {
            assert(level_ok(env, *lv, finer_of(self.levels@, k as int)));
            assert(cell_ok(
                env,
                *lv,
                finer_of(self.levels@, k as int),
                x_it as int,
                y_it as int,
                x_len as int,
                y_len as int,
            ));
            lemma_window_lines(*lv, env.n, env.m, x_it as int, y_it as int, x_len as int, y_len as int);
            crate::solver::lemma_block_shape(*lv, x_it as int, y_it as int, env.n, env.m);
        }
        let xn = lv.xs.len();
        let yn = lv.ys.len();
        let pr = lv.table[x_it][y_it][x_len][y_len].way;
        assert(pr == lv.cell(x_it as int, y_it as int, x_len as int, y_len as int).way);
        match pr {
            BestWay::FullColor(color) => {
                rects.push(
                    SolutionRect {
                        from: p(lv.xs[x_it], lv.ys[y_it]),
                        to: p(lv.xs[x_it + x_len], lv.ys[y_it + y_len]),
                        color,
                    },
                );
                assert(rects@ =~= old(rects)@ + window_rects(
                    self.levels@,
                    k as int,
                    x_it as int,
                    y_it as int,
                    x_len as int,
                    y_len as int,
                ));
            },
            BestWay::SplitX(x_mid_it) => {
                self.walk(k, x_it, y_it, x_mid_it - x_it, y_len, rects);
                let ghost mid = rects@;
                self.walk(k, x_mid_it, y_it, x_it + x_len - x_mid_it, y_len, rects);
                assert(rects@ =~= old(rects)@ + window_rects(
                    self.levels@,
                    k as int,
                    x_it as int,
                    y_it as int,
                    x_len as int,
                    y_len as int,
                ));
            },
            BestWay::SplitY(y_mid_it) => {
                self.walk(k, x_it, y_it, x_len, y_mid_it - y_it, rects);
                self.walk(k, x_it, y_mid_it, x_len, y_it + y_len - y_mid_it, rects);
                assert(rects@ =~= old(rects)@ + window_rects(
                    self.levels@,
                    k as int,
                    x_it as int,
                    y_it as int,
                    x_len as int,
                    y_len as int,
                ));
            },
            BestWay::SolveRec => {
                let ghost f = self.levels@[k - 1];
                proof {
                    assert(lv.maps_ok(f));
                    assert(level_ok(env, f, finer_of(self.levels@, k - 1)));
                    lemma_map_increasing(lv.xs@, f.xs@, lv.x_map@, x_it as int, x_it + x_len);
                    lemma_map_increasing(lv.ys@, f.ys@, lv.y_map@, y_it as int, y_it + y_len);
                }
                let x_it2 = lv.x_map[x_it + x_len];
                let x_it1 = lv.x_map[x_it];
                let y_it2 = lv.y_map[y_it + y_len];
                let y_it1 = lv.y_map[y_it];
                self.walk(k - 1, x_it1, y_it1, x_it2 - x_it1, y_it2 - y_it1, rects);
            },
        }
    }

    /// Appends to `rects` the rectangles that paint the window of the
    /// coarsest grid that starts at the lines `x_it` and `y_it` and spans
    /// `x_len` and `y_len` intervals, in the order in which they are
    /// painted.
    pub fn iter_rects(
        &self,
        x_it: usize,
        y_it: usize,
        x_len: usize,
        y_len: usize,
        rects: &mut Vec<SolutionRect>,
    )
        requires
            self.wf(),
            self.levels@.len() >= 1,
            self.levels@.last().window(x_it as int, y_it as int, x_len as int, y_len as int),
        ensures
            final(rects)@ == old(rects)@ + window_rects(
                self.levels@,
                self.levels@.len() - 1,
                x_it as int,
                y_it as int,
                x_len as int,
                y_len as int,
            ),
    {
        self.walk(self.levels.len() - 1, x_it, y_it, x_len, y_len, rects);
    }
}

} // verus!
