//! Refining a stack of corner-anchored rectangles: which rectangle owns
//! which pixel, the picture a stack paints, tight boxes, better colours,
//! and the moves of the search.

pub use crate::annealing::optimize_positions;
use crate::color::{lemma_color_eq, Color};
use crate::color_corner::{color_corner, lemma_corner_cost_bound, MAX_CORNER_COST};
use crate::color_picker::{climb, find_best_color, is_local_best, list_distance};
use crate::consts::{MAX_MERGE_COST, MAX_SIDE, SCORE_SCALE};
use crate::interpreter::{
    apply_ops, gen_start_field, initial_state, lemma_run_concat, replay, run, try_apply_ops,
    OpError, MAX_OP_COST,
};
use crate::merger::{merges_into_one, MergeResult};
use crate::op::{extend_ops, ops_view, Op};
use crate::ops_by_rects::{
    gen_ops_by_solution_rects, lemma_ops_view_concat, lemma_stack_replay, stack_cost, stack_ops,
};
use crate::picture::{cells, lemma_cells_shape, same_picture};
use crate::pixel_dist::{get_pixel_distance, pixel_distance, MAX_PIXEL_DIST};
use crate::solution::{
    anchored, anchors_inside, lemma_anchored, lemma_owner, lemma_owner_same_anchors,
    lemma_owner_step, lemma_rendered_is_painted, owner, rendered, SolutionRect,
};
use crate::solve::{res_consistent, SolutionRes};
use crate::test_case::{is_grid, TestCase};
use crate::utils::{point_inside, Point};
use vstd::prelude::*;

verus! {

/// How a table of owners writes the index `o`: `usize::MAX` stands for no
/// owner.
pub open spec fn owner_id(o: int) -> usize {
    if o < 0 {
        usize::MAX
    } else {
        o as usize
    }
}

/// `grid` tells for every pixel of the canvas which rectangle of `rects`
/// owns it.
pub open spec fn is_owner_table(
    grid: Seq<Vec<usize>>,
    rects: Seq<SolutionRect>,
    n: int,
    m: int,
) -> bool {
    &&& is_grid(grid, n, m)
    &&& forall|x: int, y: int|
        0 <= x < n && 0 <= y < m ==> (#[trigger] grid[x]@[y]) == owner_id(owner(rects, x, y))
}

/// A grid of `n` columns and `m` rows that holds `v` everywhere.
pub fn new_grid(v: usize, n: usize, m: usize) -> (a: Vec<Vec<usize>>)
    ensures
        is_grid(a@, n as int, m as int),
        forall|x: int, y: int| 0 <= x < n && 0 <= y < m ==> (#[trigger] a@[x]@[y]) == v,
{
    let mut a: Vec<Vec<usize>> = Vec::new();
    let mut x: usize = 0;
    while x < n
        invariant
            x <= n,
            a@.len() == x,
            forall|i: int| 0 <= i < x ==> (#[trigger] a@[i])@.len() == m,
            forall|i: int, j: int| 0 <= i < x && 0 <= j < m ==> (#[trigger] a@[i]@[j]) == v,
        decreases n - x,
    {
        let mut col: Vec<usize> = Vec::new();
        let mut y: usize = 0;
        while y < m
            invariant
                y <= m,
                col@.len() == y,
                forall|j: int| 0 <= j < y ==> col@[j] == v,
            decreases m - y,
        {
            col.push(v);
            y = y + 1;
        }
        a.push(col);
        x = x + 1;
    }
    a
}

/// Tells for every pixel of a canvas of `n` columns and `m` rows which
/// rectangle of the stack owns it: the last one whose anchor lies to the
/// left of and below the pixel, or on it.  `usize::MAX` stands for none.
pub fn colored_by_rect(rects: &[SolutionRect], n: usize, m: usize) -> (res: Vec<Vec<usize>>)
    requires
        anchors_inside(rects@, n as int, m as int),
    ensures
        is_owner_table(res@, rects@, n as int, m as int),
{
    let mut res = new_grid(usize::MAX, n, m);
    let mut r_id: usize = 0;
    while r_id < rects.len()
        invariant
            r_id <= rects@.len(),
            anchors_inside(rects@, n as int, m as int),
            is_grid(res@, n as int, m as int),
            forall|x: int, y: int|
                0 <= x < n && 0 <= y < m ==> (#[trigger] res@[x]@[y]) == owner_id(
                    anchored(rects@.take(r_id as int), x, y),
                ),
        decreases rects@.len() - r_id,
    {
        let r = rects[r_id];
        let ghost prev = res@;
        assert(point_inside(rects@[r_id as int].from, n as int, m as int));
        assert(res@[r.from.x as int].len() == m);
        res[r.from.x as usize][r.from.y as usize] = r_id;
        proof {
            let t = rects@.take(r_id + 1);
            assert(t.drop_last() =~= rects@.take(r_id as int));
            assert(t.last() == rects@[r_id as int]);
            assert forall|x: int| 0 <= x < n implies (#[trigger] res@[x]).len() == m by {
                assert(prev[x].len() == m);
            }
            assert forall|x: int, y: int| 0 <= x < n && 0 <= y < m implies (
            #[trigger] res@[x]@[y]) == owner_id(anchored(t, x, y)) by {
                assert(prev[x].len() == m);
                assert(prev[x]@[y] == owner_id(anchored(rects@.take(r_id as int), x, y)));
            }
        }
        r_id = r_id + 1;
    }
    assert(rects@.take(r_id as int) =~= rects@);
    let mut x: usize = 0;
    while x < n
        invariant
            x <= n,
            rects@.len() <= usize::MAX,
            anchors_inside(rects@, n as int, m as int),
            is_grid(res@, n as int, m as int),
            forall|i: int, j: int|
                0 <= i < n && 0 <= j < m ==> (#[trigger] res@[i]@[j]) == (if i < x {
                    owner_id(owner(rects@, i, j))
                } else {
                    owner_id(anchored(rects@, i, j))
                }),
        decreases n - x,
    {
        let mut y: usize = 0;
        while y < m
            invariant
                x < n,
                y <= m,
                rects@.len() <= usize::MAX,
                anchors_inside(rects@, n as int, m as int),
                is_grid(res@, n as int, m as int),
                forall|i: int, j: int|
                    0 <= i < n && 0 <= j < m ==> (#[trigger] res@[i]@[j]) == (if i < x || (i == x
                        && j < y) {
                        owner_id(owner(rects@, i, j))
                    } else {
                        owner_id(anchored(rects@, i, j))
                    }),
            decreases m - y,
        {
            assert(res@[x as int].len() == m);
            let mut v: usize = res[x][y];
            assert(v == owner_id(anchored(rects@, x as int, y as int)));
            proof {
                lemma_owner_step(rects@, x as int, y as int);
                lemma_anchored(rects@, x as int, y as int);
                lemma_owner(rects@, x - 1, y as int);
                lemma_owner(rects@, x as int, y - 1);
                lemma_owner(rects@, x as int, y as int);
                if x == 0 {
                    lemma_owner_outside(rects@, n as int, m as int, x - 1, y as int);
                }
                if y == 0 {
                    lemma_owner_outside(rects@, n as int, m as int, x as int, y - 1);
                }
            }
            if x > 0 {
                assert(res@[x - 1].len() == m);
                let left = res[x - 1][y];
                assert(left == owner_id(owner(rects@, x - 1, y as int)));
                if left != usize::MAX && (v == usize::MAX || v < left) {
                    v = left;
                }
            }
            if y > 0 {
                let down = res[x][y - 1];
                assert(down == owner_id(owner(rects@, x as int, y - 1)));
                if down != usize::MAX && (v == usize::MAX || v < down) {
                    v = down;
                }
            }
            let ghost prev = res@;
            assert(v == owner_id(owner(rects@, x as int, y as int)));
            res[x][y] = v;
            proof {
                assert forall|i: int| 0 <= i < n implies (#[trigger] res@[i]).len() == m by {
                    assert(prev[i].len() == m);
                }
                assert forall|i: int, j: int| 0 <= i < n && 0 <= j < m implies (
                #[trigger] res@[i]@[j]) == (if i < x || (i == x && j < y + 1) {
                    owner_id(owner(rects@, i, j))
                } else {
                    owner_id(anchored(rects@, i, j))
                }) by {
                    assert(prev[i].len() == m);
                    assert(prev[i]@[j] == (if i < x || (i == x && j < y) {
                        owner_id(owner(rects@, i, j))
                    } else {
                        owner_id(anchored(rects@, i, j))
                    }));
                }
            }
            y = y + 1;
        }
        x = x + 1;
    }
    res
}

/// No rectangle anchored inside the canvas reaches a pixel to the left of
/// the canvas or below it.
pub proof fn lemma_owner_outside(rects: Seq<SolutionRect>, n: int, m: int, x: int, y: int)
    requires
        anchors_inside(rects, n, m),
        x < 0 || y < 0,
    ensures
        owner(rects, x, y) == -1,
{
    lemma_owner(rects, x, y);
    let o = owner(rects, x, y);
    if o >= 0 {
        assert(point_inside(rects[o].from, n, m));
    }
}

/// The picture that the stack `rects` paints over the starting picture of
/// `test_case`: every pixel that a rectangle owns shows the colour of its
/// owner.
pub fn gen_field_by_rects(rects: &[SolutionRect], test_case: &TestCase) -> (my: Vec<Vec<Color>>)
    requires
        test_case.wf(),
        anchors_inside(rects@, test_case.n(), test_case.m()),
    ensures
        is_grid(my@, test_case.n(), test_case.m()),
        cells(my@) == rendered(cells(test_case.start_field@), rects@),
{
    let mut my = gen_start_field(test_case);
    let (n, m) = test_case.get_size();
    let by_ids = colored_by_rect(rects, n, m);
    let count = rects.len();
    let ghost start = test_case.start_field@;
    proof {
        assert(is_grid(start, n as int, m as int));
        assert(is_grid(my@, n as int, m as int));
        assert forall|i: int, j: int| 0 <= i < n && 0 <= j < m implies (#[trigger] my@[i]@[j])
            == start[i]@[j] by {
            assert(cells(my@)[i] == cells(start)[i]);
        }
    }
    let mut x: usize = 0;
    while x < n
        invariant
            x <= n,
            is_grid(my@, n as int, m as int),
            is_grid(start, n as int, m as int),
            rects@.len() == count,
            is_owner_table(by_ids@, rects@, n as int, m as int),
            forall|i: int, j: int|
                0 <= i < n && 0 <= j < m ==> (#[trigger] my@[i]@[j]) == (if i < x && owner(
                    rects@,
                    i,
                    j,
                ) >= 0 {
                    rects@[owner(rects@, i, j)].color
                } else {
                    start[i]@[j]
                }),
        decreases n - x,
    {
        let mut y: usize = 0;
        while y < m
            invariant
                x < n,
                y <= m,
                is_grid(my@, n as int, m as int),
                is_grid(start, n as int, m as int),
                rects@.len() == count,
                is_owner_table(by_ids@, rects@, n as int, m as int),
                forall|i: int, j: int|
                    0 <= i < n && 0 <= j < m ==> (#[trigger] my@[i]@[j]) == (if (i < x || (i == x
                        && j < y)) && owner(rects@, i, j) >= 0 {
                        rects@[owner(rects@, i, j)].color
                    } else {
                        start[i]@[j]
                    }),
            decreases m - y,
        {
            assert(by_ids@[x as int].len() == m);
            assert(my@[x as int].len() == m);
            let id = by_ids[x][y];
            proof {
                lemma_owner(rects@, x as int, y as int);
                assert(by_ids@[x as int]@[y as int] == owner_id(owner(rects@, x as int, y as int)));
            }
            if id != usize::MAX {
                let ghost prev = my@;
                my[x][y] = rects[id].color;
                proof {
                    assert forall|i: int| 0 <= i < n implies (#[trigger] my@[i]).len() == m by {
                        assert(prev[i].len() == m);
                    }
                    assert forall|i: int, j: int| 0 <= i < n && 0 <= j < m implies (
                    #[trigger] my@[i]@[j]) == (if (i < x || (i == x && j < y + 1)) && owner(
                        rects@,
                        i,
                        j,
                    ) >= 0 {
                        rects@[owner(rects@, i, j)].color
                    } else {
                        start[i]@[j]
                    }) by {
                        assert(prev[i].len() == m);
                        assert(prev[i]@[j] == (if (i < x || (i == x && j < y)) && owner(
                            rects@,
                            i,
                            j,
                        ) >= 0 {
                            rects@[owner(rects@, i, j)].color
                        } else {
                            start[i]@[j]
                        }));
                    }
                }
            }
            y = y + 1;
        }
        x = x + 1;
    }
    proof {
        let a = cells(my@);
        let b = rendered(cells(start), rects@);
        assert forall|i: int| 0 <= i < n implies #[trigger] a[i] =~= b[i] by {
            assert(my@[i].len() == m);
            assert(start[i].len() == m);
            assert forall|j: int| 0 <= j < m implies a[i][j] == b[i][j] by {
                assert(my@[i]@[j] == (if owner(rects@, i, j) >= 0 {
                    rects@[owner(rects@, i, j)].color
                } else {
                    start[i]@[j]
                }));
            }
        }
        assert(a =~= b);
    }
    my
}

/// The colours of `expected` in column `x` from row `y` upwards, as far as
/// `grid` names an owner before `my_id`.
pub open spec fn column_run(
    grid: Seq<Vec<usize>>,
    expected: Seq<Seq<Color>>,
    x: int,
    y: int,
    m: int,
    my_id: usize,
) -> Seq<Color>
    decreases m - y,
{
    if y >= m || grid[x]@[y] >= my_id {
        Seq::empty()
    } else {
        seq![expected[x][y]] + column_run(grid, expected, x, y + 1, m, my_id)
    }
}

/// The colours of `expected` that a new rectangle at position `my_id` of
/// the stack, anchored at `(x, y_start)`, would cover: column by column
/// from `x` to the right as far as the pixel in row `y_start` has an owner
/// before `my_id`, and in each column from row `y_start` upwards as far as
/// the pixels have an owner before `my_id`.
pub open spec fn covered_pixels(
    grid: Seq<Vec<usize>>,
    expected: Seq<Seq<Color>>,
    x: int,
    y_start: int,
    n: int,
    m: int,
    my_id: usize,
) -> Seq<Color>
    decreases n - x,
{
    if x >= n || grid[x]@[y_start] >= my_id {
        Seq::empty()
    } else {
        column_run(grid, expected, x, y_start, m, my_id) + covered_pixels(
            grid,
            expected,
            x + 1,
            y_start,
            n,
            m,
            my_id,
        )
    }
}

/// The colours of `expected` in column `x` from row `y` upwards, as far as
/// the pixels have an owner in the stack `rects` before position `my_id`.
pub open spec fn owned_run(
    rects: Seq<SolutionRect>,
    expected: Seq<Seq<Color>>,
    x: int,
    y: int,
    m: int,
    my_id: usize,
) -> Seq<Color>
    decreases m - y,
{
    if y >= m || owner_id(owner(rects, x, y)) >= my_id {
        Seq::empty()
    } else {
        seq![expected[x][y]] + owned_run(rects, expected, x, y + 1, m, my_id)
    }
}

/// The colours of `expected` that a new rectangle at position `my_id` of
/// the stack `rects`, anchored at `(x, y_start)`, would cover: the pixels
/// to the right of and above its anchor that have an owner before
/// position `my_id`, column by column.
pub open spec fn covered_of(
    rects: Seq<SolutionRect>,
    expected: Seq<Seq<Color>>,
    x: int,
    y_start: int,
    n: int,
    m: int,
    my_id: usize,
) -> Seq<Color>
    decreases n - x,
{
    if x >= n || owner_id(owner(rects, x, y_start)) >= my_id {
        Seq::empty()
    } else {
        owned_run(rects, expected, x, y_start, m, my_id) + covered_of(
            rects,
            expected,
            x + 1,
            y_start,
            n,
            m,
            my_id,
        )
    }
}

/// A table of owners tells what the stack tells.
pub proof fn lemma_run_of_table(
    grid: Seq<Vec<usize>>,
    rects: Seq<SolutionRect>,
    expected: Seq<Seq<Color>>,
    x: int,
    y: int,
    n: int,
    m: int,
    my_id: usize,
)
    requires
        is_owner_table(grid, rects, n, m),
        0 <= x < n,
        0 <= y,
    ensures
        column_run(grid, expected, x, y, m, my_id) == owned_run(rects, expected, x, y, m, my_id),
    decreases m - y,
{
    if y < m {
        assert(grid[x]@[y] == owner_id(owner(rects, x, y)));
        lemma_run_of_table(grid, rects, expected, x, y + 1, n, m, my_id);
    }
}

/// A table of owners tells what the stack tells.
pub proof fn lemma_covered_of_table(
    grid: Seq<Vec<usize>>,
    rects: Seq<SolutionRect>,
    expected: Seq<Seq<Color>>,
    x: int,
    y_start: int,
    n: int,
    m: int,
    my_id: usize,
)
    requires
        is_owner_table(grid, rects, n, m),
        0 <= x,
        0 <= y_start < m,
    ensures
        covered_pixels(grid, expected, x, y_start, n, m, my_id) == covered_of(
            rects,
            expected,
            x,
            y_start,
            n,
            m,
            my_id,
        ),
    decreases n - x,
{
    if x < n {
        assert(grid[x]@[y_start] == owner_id(owner(rects, x, y_start)));
        lemma_run_of_table(grid, rects, expected, x, y_start, n, m, my_id);
        lemma_covered_of_table(grid, rects, expected, x + 1, y_start, n, m, my_id);
    }
}

/// Collects the colours of `expected` that a new rectangle at position
/// `my_id` of the stack, anchored at `(x_start, y_start)`, would cover,
/// given the owners `old_colored` of the pixels before it is added.
pub fn get_covered_pixels_if_add_new_rect(
    old_colored: &Vec<Vec<usize>>,
    x_start: usize,
    y_start: usize,
    expected: &Vec<Vec<Color>>,
    my_id: usize,
) -> (res: Vec<Color>)
    requires
        expected@.len() >= 1,
        is_grid(expected@, expected@.len() as int, expected@[0]@.len() as int),
        is_grid(old_colored@, expected@.len() as int, expected@[0]@.len() as int),
        y_start < expected@[0]@.len(),
    ensures
        res@ == covered_pixels(
            old_colored@,
            cells(expected@),
            x_start as int,
            y_start as int,
            expected@.len() as int,
            expected@[0]@.len() as int,
            my_id,
        ),
{
    let n = expected.len();
    let m = expected[0].len();
    let ghost e = cells(expected@);
    let ghost g = old_colored@;
    let ghost all = covered_pixels(g, e, x_start as int, y_start as int, n as int, m as int, my_id);
    let mut res: Vec<Color> = Vec::new();
    let mut x: usize = x_start;
    assert(res@ + all =~= all);
    while x < n
        invariant_except_break
            x_start <= x,
            res@ + covered_pixels(g, e, x as int, y_start as int, n as int, m as int, my_id)
                == all,
        invariant
            n == expected@.len(),
            m == expected@[0]@.len(),
            y_start < m,
            is_grid(expected@, n as int, m as int),
            is_grid(old_colored@, n as int, m as int),
            e == cells(expected@),
            g == old_colored@,
        ensures
            res@ == all,
        decreases n - x,
    {
        assert(old_colored@[x as int].len() == m);
        assert(expected@[x as int].len() == m);
        if old_colored[x][y_start] >= my_id {
            assert(res@ + Seq::<Color>::empty() =~= res@);
            break;
        }
        let ghost before = res@;
        let ghost rest = covered_pixels(g, e, x + 1, y_start as int, n as int, m as int, my_id);
        let mut y: usize = y_start;
        assert(before + column_run(g, e, x as int, y as int, m as int, my_id) + rest =~= before + (
        column_run(g, e, x as int, y as int, m as int, my_id) + rest));
        while y < m
            invariant_except_break
                y_start <= y,
                res@ + column_run(g, e, x as int, y as int, m as int, my_id) + rest == all,
            invariant
                x < n,
                n == expected@.len(),
                n == old_colored@.len(),
                old_colored@[x as int].len() == m,
                expected@[x as int].len() == m,
                e == cells(expected@),
                g == old_colored@,
            ensures
                res@ + rest == all,
            decreases m - y,
        {
            if old_colored[x][y] >= my_id {
                assert(res@ + Seq::<Color>::empty() =~= res@);
                break;
            }
            let ghost prev = res@;
            let ghost tail = column_run(g, e, x as int, y + 1, m as int, my_id);
            res.push(expected[x][y]);
            proof {
                assert(e[x as int][y as int] == expected@[x as int]@[y as int]);
                assert(prev + (seq![e[x as int][y as int]] + tail) + rest =~= res@ + tail + rest);
            }
            y = y + 1;
        }
        proof {
            if y >= m {
                assert(res@ + Seq::<Color>::empty() =~= res@);
            }
        }
        x = x + 1;
    }
    proof {
        if x >= n {
            assert(res@ + Seq::<Color>::empty() =~= res@);
        }
    }
    res
}

/// The pixel `(px, py)` comes before `(x, y)` when the canvas is walked
/// column by column, each column upwards.
pub open spec fn seen(px: int, py: int, x: int, y: int) -> bool {
    px < x || (px == x && py < y)
}

/// Rectangle `i` owns a pixel of column `tx - 1` that comes before `(x, y)`.
pub open spec fn owns_in_column(
    rects: Seq<SolutionRect>,
    i: int,
    tx: int,
    m: int,
    x: int,
    y: int,
) -> bool {
    exists|py: int| 0 <= py < m && seen(tx - 1, py, x, y) && (#[trigger] owner(rects, tx - 1, py)) == i
}

/// Rectangle `i` owns a pixel of row `ty - 1` that comes before `(x, y)`.
pub open spec fn owns_in_row(
    rects: Seq<SolutionRect>,
    i: int,
    ty: int,
    n: int,
    m: int,
    x: int,
    y: int,
) -> bool {
    0 <= ty - 1 < m && exists|px: int|
        0 <= px < n && seen(px, ty - 1, x, y) && (#[trigger] owner(rects, px, ty - 1)) == i
}

/// `to` is the top-right corner of the smallest box from the anchor of
/// rectangle `i` that holds the pixels which the rectangle owns among
/// those that come before `(x, y)`.
pub open spec fn is_tight(
    rects: Seq<SolutionRect>,
    i: int,
    to: Point,
    n: int,
    m: int,
    x: int,
    y: int,
) -> bool {
    &&& to.x >= rects[i].from.x
    &&& to.y >= rects[i].from.y
    &&& forall|px: int, py: int|
        0 <= px < n && 0 <= py < m && seen(px, py, x, y) && (#[trigger] owner(rects, px, py)) == i
            ==> px < to.x && py < to.y
    &&& to.x == rects[i].from.x || owns_in_column(rects, i, to.x as int, m, x, y)
    &&& to.y == rects[i].from.y || owns_in_row(rects, i, to.y as int, n, m, x, y)
}

/// `after` is the stack `before` with every box shrunk to the pixels that
/// its rectangle owns on a canvas of `n` columns and `m` rows: anchors and
/// colours stay, and each `to` corner is tight.
pub open spec fn is_shrunk(
    before: Seq<SolutionRect>,
    after: Seq<SolutionRect>,
    n: int,
    m: int,
) -> bool {
    &&& after.len() == before.len()
    &&& forall|i: int|
        0 <= i < before.len() ==> (#[trigger] after[i]).from == before[i].from && after[i].color
            == before[i].color && is_tight(before, i, after[i].to, n, m, n, 0)
}

/// There is one tight corner.
pub proof fn lemma_tight_unique(
    rects: Seq<SolutionRect>,
    i: int,
    a: Point,
    b: Point,
    n: int,
    m: int,
)
    requires
        is_tight(rects, i, a, n, m, n, 0),
        is_tight(rects, i, b, n, m, n, 0),
        anchors_inside(rects, n, m),
        0 <= i < rects.len(),
    ensures
        a == b,
{
    assert(point_inside(rects[i].from, n, m));
    if a.x < b.x {
        let py = choose|py: int|
            0 <= py < m && seen(b.x - 1, py, n, 0) && (#[trigger] owner(rects, b.x - 1, py)) == i;
        assert(owner(rects, b.x - 1, py) == i);
    }
    if b.x < a.x {
        let py = choose|py: int|
            0 <= py < m && seen(a.x - 1, py, n, 0) && (#[trigger] owner(rects, a.x - 1, py)) == i;
        assert(owner(rects, a.x - 1, py) == i);
    }
    if a.y < b.y {
        let px = choose|px: int|
            0 <= px < n && seen(px, b.y - 1, n, 0) && (#[trigger] owner(rects, px, b.y - 1)) == i;
        assert(owner(rects, px, b.y - 1) == i);
    }
    if b.y < a.y {
        let px = choose|px: int|
            0 <= px < n && seen(px, a.y - 1, n, 0) && (#[trigger] owner(rects, px, a.y - 1)) == i;
        assert(owner(rects, px, a.y - 1) == i);
    }
}

/// Shrinking is idempotent: a stack that was shrunk stays as it is when it
/// is shrunk once more.
pub proof fn lemma_shrink_idempotent(
    start: Seq<SolutionRect>,
    once: Seq<SolutionRect>,
    twice: Seq<SolutionRect>,
    n: int,
    m: int,
)
    requires
        anchors_inside(start, n, m),
        is_shrunk(start, once, n, m),
        is_shrunk(once, twice, n, m),
    ensures
        twice == once,
{
    assert forall|i: int| 0 <= i < once.len() implies twice[i] == once[i] by {
        assert(once[i].from == start[i].from);
        assert(twice[i].from == once[i].from);
        assert forall|px: int, py: int| owner(once, px, py) == #[trigger] owner(start, px, py) by {
            assert forall|k: int| 0 <= k < once.len() implies (#[trigger] once[k]).from
                == start[k].from by {}
            lemma_owner_same_anchors(once, start, px, py);
        }
        let to = twice[i].to;
        assert(is_tight(once, i, to, n, m, n, 0));
        if to.x != start[i].from.x {
            let py = choose|py: int|
                0 <= py < m && seen(to.x - 1, py, n, 0) && #[trigger] owner(once, to.x - 1, py)
                    == i;
            assert(owner(start, to.x - 1, py) == i);
        }
        if to.y != start[i].from.y {
            let px = choose|px: int|
                0 <= px < n && seen(px, to.y - 1, n, 0) && #[trigger] owner(once, px, to.y - 1)
                    == i;
            assert(owner(start, px, to.y - 1) == i);
        }
        assert(is_tight(start, i, to, n, m, n, 0));
        lemma_tight_unique(start, i, to, once[i].to, n, m);
        lemma_color_eq(twice[i].color, once[i].color);
    }
    assert(twice =~= once);
}

/// Shrinks the box of every rectangle of the stack to the pixels that the
/// rectangle owns on a canvas of `n` columns and `m` rows.  A rectangle
/// that owns no pixel gets an empty box at its anchor.
pub fn shrink_rects(rects: &mut Vec<SolutionRect>, n: usize, m: usize)
    requires
        n <= MAX_SIDE,
        m <= MAX_SIDE,
        anchors_inside(old(rects)@, n as int, m as int),
    ensures
        is_shrunk(old(rects)@, final(rects)@, n as int, m as int),
        anchors_inside(final(rects)@, n as int, m as int),
{
    let colored = colored_by_rect(rects.as_slice(), n, m);
    let ghost before = rects@;
    let count = rects.len();
    let mut i: usize = 0;
    while i < count
        invariant
            i <= count,
            count == before.len(),
            rects@.len() == count,
            forall|k: int|
                0 <= k < count ==> (#[trigger] rects@[k]).from == before[k].from && rects@[k].color
                    == before[k].color,
            forall|k: int| 0 <= k < i ==> (#[trigger] rects@[k]).to == before[k].from,
        decreases count - i,
    {
        let mut r = rects[i];
        r.to = r.from;
        rects[i] = r;
        i = i + 1;
    }
    let mut x: usize = 0;
    while x < n
        invariant
            x <= n,
            n <= MAX_SIDE,
            m <= MAX_SIDE,
            count == before.len(),
            rects@.len() == count,
            anchors_inside(before, n as int, m as int),
            is_owner_table(colored@, before, n as int, m as int),
            forall|k: int|
                0 <= k < count ==> (#[trigger] rects@[k]).from == before[k].from && rects@[k].color
                    == before[k].color && is_tight(
                    before,
                    k,
                    rects@[k].to,
                    n as int,
                    m as int,
                    x as int,
                    0,
                ),
        decreases n - x,
    {
        let mut y: usize = 0;
        while y < m
            invariant
                x < n,
                y <= m,
                n <= MAX_SIDE,
                m <= MAX_SIDE,
                count == before.len(),
                rects@.len() == count,
                anchors_inside(before, n as int, m as int),
                is_owner_table(colored@, before, n as int, m as int),
                forall|k: int|
                    0 <= k < count ==> (#[trigger] rects@[k]).from == before[k].from
                        && rects@[k].color == before[k].color && is_tight(
                        before,
                        k,
                        rects@[k].to,
                        n as int,
                        m as int,
                        x as int,
                        y as int,
                    ),
            decreases m - y,
        {
            assert(colored@[x as int].len() == m);
            let o = colored[x][y];
            let ghost prev = rects@;
            proof {
                lemma_owner(before, x as int, y as int);
                assert(colored@[x as int]@[y as int] == owner_id(owner(before, x as int, y as int)));
            }
            if o != usize::MAX {
                let mut r = rects[o];
                assert(is_tight(before, o as int, r.to, n as int, m as int, x as int, y as int));
                assert(point_inside(before[o as int].from, n as int, m as int));
                if r.to.x < x as i32 + 1 {
                    r.to.x = x as i32 + 1;
                }
                if r.to.y < y as i32 + 1 {
                    r.to.y = y as i32 + 1;
                }
                rects[o] = r;
            }
            proof {
                assert forall|k: int| 0 <= k < count implies is_tight(
                    before,
                    k,
                    (#[trigger] rects@[k]).to,
                    n as int,
                    m as int,
                    x as int,
                    y + 1,
                ) by {
                    let was = prev[k].to;
                    let now = rects@[k].to;
                    assert(is_tight(before, k, was, n as int, m as int, x as int, y as int));
                    if owner(before, x as int, y as int) == k {
                        if now.x != before[k].from.x {
                            if now.x == was.x {
                                let py = choose|py: int|
                                    0 <= py < m && seen(was.x - 1, py, x as int, y as int)
                                        && (#[trigger] owner(before, was.x - 1, py)) == k;
                                assert(seen(now.x - 1, py, x as int, y + 1) && owner(
                                    before,
                                    now.x - 1,
                                    py,
                                ) == k);
                            } else {
                                assert(seen(now.x - 1, y as int, x as int, y + 1) && owner(
                                    before,
                                    now.x - 1,
                                    y as int,
                                ) == k);
                            }
                        }
                        if now.y != before[k].from.y {
                            if now.y == was.y {
                                let px = choose|px: int|
                                    0 <= px < n && seen(px, was.y - 1, x as int, y as int)
                                        && (#[trigger] owner(before, px, was.y - 1)) == k;
                                assert(seen(px, now.y - 1, x as int, y + 1) && owner(
                                    before,
                                    px,
                                    now.y - 1,
                                ) == k);
                            } else {
                                assert(seen(x as int, now.y - 1, x as int, y + 1) && owner(
                                    before,
                                    x as int,
                                    now.y - 1,
                                ) == k);
                            }
                        }
                    } else {
                        assert(now == was);
                        if now.x != before[k].from.x {
                            let py = choose|py: int|
                                0 <= py < m && seen(was.x - 1, py, x as int, y as int)
                                    && (#[trigger] owner(before, was.x - 1, py)) == k;
                            assert(seen(now.x - 1, py, x as int, y + 1) && owner(
                                before,
                                now.x - 1,
                                py,
                            ) == k);
                        }
                        if now.y != before[k].from.y {
                            let px = choose|px: int|
                                0 <= px < n && seen(px, was.y - 1, x as int, y as int)
                                    && (#[trigger] owner(before, px, was.y - 1)) == k;
                            assert(seen(px, now.y - 1, x as int, y + 1) && owner(
                                before,
                                px,
                                now.y - 1,
                            ) == k);
                        }
                    }
                }
            }
            y = y + 1;
        }
        proof {
            assert forall|k: int| 0 <= k < count implies is_tight(
                before,
                k,
                (#[trigger] rects@[k]).to,
                n as int,
                m as int,
                x + 1,
                0,
            ) by {
                let to = rects@[k].to;
                assert(is_tight(before, k, to, n as int, m as int, x as int, m as int));
                if to.x != before[k].from.x {
                    let py = choose|py: int|
                        0 <= py < m && seen(to.x - 1, py, x as int, m as int) && (#[trigger] owner(
                            before,
                            to.x - 1,
                            py,
                        )) == k;
                    assert(seen(to.x - 1, py, x + 1, 0) && owner(before, to.x - 1, py) == k);
                }
                if to.y != before[k].from.y {
                    let px = choose|px: int|
                        0 <= px < n && seen(px, to.y - 1, x as int, m as int) && (#[trigger] owner(
                            before,
                            px,
                            to.y - 1,
                        )) == k;
                    assert(seen(px, to.y - 1, x + 1, 0) && owner(before, px, to.y - 1) == k);
                }
            }
        }
        x = x + 1;
    }
    proof {
        assert forall|k: int| 0 <= k < count implies point_inside(
            (#[trigger] rects@[k]).from,
            n as int,
            m as int,
        ) by {
            assert(point_inside(before[k].from, n as int, m as int));
        }
    }
}

/// The score of the stack `rects` on the canvas of `tc`: the cost of
/// merging the seed regions and of the operations that fill the rectangles
/// corner by corner, in score units, and the pixel distance of the picture
/// that the stack paints from the picture that `tc` asks for.
pub open spec fn total_score(tc: TestCase, rects: Seq<SolutionRect>, merge_cost: u128) -> nat {
    (stack_cost(rects, tc.n(), tc.m(), tc.test_id) + merge_cost as nat) * (SCORE_SCALE as nat)
        + pixel_distance(
        rendered(cells(tc.start_field@), rects),
        cells(tc.expected@),
        tc.n(),
        tc.m(),
    )
}

/// The operations of a stack cost at most `MAX_CORNER_COST` for each
/// rectangle.
pub proof fn lemma_stack_cost_bound(rects: Seq<SolutionRect>, n: int, m: int, test_id: usize)
    requires
        1 <= n <= MAX_SIDE,
        1 <= m <= MAX_SIDE,
        anchors_inside(rects, n, m),
    ensures
        stack_cost(rects, n, m, test_id) <= rects.len() * MAX_CORNER_COST,
    decreases rects.len(),
{
    if rects.len() > 0 {
        let prev = rects.drop_last();
        assert forall|i: int| 0 <= i < prev.len() implies point_inside(
            (#[trigger] prev[i]).from,
            n,
            m,
        ) by {
            assert(prev[i] == rects[i]);
        }
        lemma_stack_cost_bound(prev, n, m, test_id);
        assert(point_inside(rects.last().from, n, m));
        lemma_corner_cost_bound(n, m, rects.last().from, test_id);
        assert((rects.len() - 1) * MAX_CORNER_COST + MAX_CORNER_COST == rects.len()
            * MAX_CORNER_COST) by (nonlinear_arith);
    } else {
        assert(rects.len() * MAX_CORNER_COST == 0) by (nonlinear_arith)
            requires
                rects.len() == 0,
        ;
    }
}

/// A cost of operations of at most `MAX_CORNER_COST` for each of `count`
/// rectangles and `MAX_MERGE_COST` for the merges fits a score.
pub proof fn lemma_score_fits(cost: nat, merge_cost: nat, count: nat)
    requires
        cost <= count * MAX_CORNER_COST,
        merge_cost <= MAX_MERGE_COST,
        count <= 0xffff_ffff_ffff_ffff,
    ensures
        (cost + merge_cost) * SCORE_SCALE + MAX_PIXEL_DIST <= u128::MAX,
{
    assert(count * MAX_CORNER_COST <= 0xffff_ffff_ffff_ffff * 34_358_689_810) by (nonlinear_arith)
        requires
            count <= 0xffff_ffff_ffff_ffff,
            MAX_CORNER_COST == 34_358_689_810,
    ;
    let total = cost + merge_cost;
    assert(total * SCORE_SCALE <= (0xffff_ffff_ffff_ffff * 34_358_689_810
        + 792_257_446_810_718_524_046_092_533_750) * 200_000_000) by (nonlinear_arith)
        requires
            total <= 0xffff_ffff_ffff_ffff * 34_358_689_810
                + 792_257_446_810_718_524_046_092_533_750,
            SCORE_SCALE == 200_000_000,
    ;
}

/// The score of the stack `rects` on the canvas of `test_case`, given what
/// merging the seed regions costs.
pub fn score_by_rects(rects: &[SolutionRect], test_case: &TestCase, merge_cost: u128) -> (res: u128)
    requires
        test_case.wf(),
        anchors_inside(rects@, test_case.n(), test_case.m()),
        merge_cost <= MAX_MERGE_COST,
    ensures
        res == total_score(*test_case, rects@, merge_cost),
{
    let my = gen_field_by_rects(rects, test_case);
    let pixel_dist = get_pixel_distance(&my, &test_case.expected);
    let (n, m) = test_case.get_size();
    let mut ops_cost: u128 = 0;
    let mut i: usize = 0;
    assert(rects@.take(0) =~= Seq::<SolutionRect>::empty());
    while i < rects.len()
        invariant
            i <= rects@.len(),
            test_case.wf(),
            n == test_case.n(),
            m == test_case.m(),
            anchors_inside(rects@, n as int, m as int),
            ops_cost == stack_cost(rects@.take(i as int), n as int, m as int, test_case.test_id),
            ops_cost <= i * MAX_CORNER_COST,
        decreases rects@.len() - i,
    {
        let r = rects[i];
        proof {
            assert(rects@.take(i + 1).drop_last() =~= rects@.take(i as int));
            assert(point_inside(rects@[i as int].from, n as int, m as int));
            assert((i + 1) * MAX_CORNER_COST == i * MAX_CORNER_COST + MAX_CORNER_COST)
                by (nonlinear_arith);
            assert(i * MAX_CORNER_COST + MAX_CORNER_COST <= 0x1_0000_0000_0000_0000
                * 34_358_689_810) by (nonlinear_arith)
                requires
                    i < 0x1_0000_0000_0000_0000,
                    MAX_CORNER_COST == 34_358_689_810,
            ;
        }
        let c = color_corner(n, m, r.from, 0, r.color, test_case).cost;
        ops_cost = ops_cost + c;
        i = i + 1;
    }
    proof {
        assert(rects@.take(i as int) =~= rects@);
        lemma_score_fits(ops_cost as nat, merge_cost as nat, rects@.len());
    }
    (ops_cost + merge_cost) * SCORE_SCALE + pixel_dist
}

/// The colours that `expected` shows in column `x` below row `y` at the
/// pixels that rectangle `i` owns, from the bottom up.
pub open spec fn owned_in_column(
    expected: Seq<Seq<Color>>,
    rects: Seq<SolutionRect>,
    i: int,
    x: int,
    y: int,
) -> Seq<Color>
    decreases y,
{
    if y <= 0 {
        Seq::empty()
    } else if owner(rects, x, y - 1) == i {
        owned_in_column(expected, rects, i, x, y - 1).push(expected[x][y - 1])
    } else {
        owned_in_column(expected, rects, i, x, y - 1)
    }
}

/// The colours that `expected` shows at the pixels that rectangle `i` owns
/// in the columns before `x` of a canvas of `m` rows, column by column.
pub open spec fn owned_pixels(
    expected: Seq<Seq<Color>>,
    rects: Seq<SolutionRect>,
    i: int,
    x: int,
    m: int,
) -> Seq<Color>
    decreases x,
{
    if x <= 0 {
        Seq::empty()
    } else {
        owned_pixels(expected, rects, i, x - 1, m) + owned_in_column(expected, rects, i, x - 1, m)
    }
}

/// `after` is the stack `before` with the colour of every rectangle stepped
/// towards the colours that the picture `expected` shows at the pixels
/// which the rectangle owns, as far as steps of one channel by one bring
/// it closer: it is no further from them than before, and no such step
/// brings it closer.
pub open spec fn is_recolored(
    before: Seq<SolutionRect>,
    after: Seq<SolutionRect>,
    expected: Seq<Seq<Color>>,
    n: int,
    m: int,
) -> bool {
    &&& after.len() == before.len()
    &&& forall|i: int|
        0 <= i < before.len() ==> (#[trigger] after[i]).from == before[i].from && after[i].to
            == before[i].to && after[i].color == climb(
            owned_pixels(expected, before, i, n, m),
            before[i].color,
        ) && is_local_best(owned_pixels(expected, before, i, n, m), after[i].color)
            && list_distance(owned_pixels(expected, before, i, n, m), after[i].color)
            <= list_distance(owned_pixels(expected, before, i, n, m), before[i].color)
}

/// For each rectangle of the stack, the colours that `expected` shows at
/// the pixels which the rectangle owns.
fn pixels_by_rect(rects: &[SolutionRect], expected: &Vec<Vec<Color>>, n: usize, m: usize) -> (res:
    Vec<Vec<Color>>)
    requires
        is_grid(expected@, n as int, m as int),
        anchors_inside(rects@, n as int, m as int),
    ensures
        res@.len() == rects@.len(),
        forall|i: int|
            0 <= i < rects@.len() ==> (#[trigger] res@[i])@ == owned_pixels(
                cells(expected@),
                rects@,
                i,
                n as int,
                m as int,
            ),
{
    let colored = colored_by_rect(rects, n, m);
    let count = rects.len();
    let ghost e = cells(expected@);
    let mut res: Vec<Vec<Color>> = Vec::new();
    let mut i: usize = 0;
    while i < count
        invariant
            i <= count,
            res@.len() == i,
            forall|k: int| 0 <= k < i ==> (#[trigger] res@[k])@ == Seq::<Color>::empty(),
        decreases count - i,
    {
        res.push(Vec::new());
        i = i + 1;
    }
    let mut x: usize = 0;
    while x < n
        invariant
            x <= n,
            count == rects@.len(),
            res@.len() == count,
            e == cells(expected@),
            is_grid(expected@, n as int, m as int),
            is_owner_table(colored@, rects@, n as int, m as int),
            forall|k: int|
                0 <= k < count ==> (#[trigger] res@[k])@ == owned_pixels(e, rects@, k, x as int, m as int),
        decreases n - x,
    {
        let mut y: usize = 0;
        proof {
            assert forall|k: int| 0 <= k < count implies (#[trigger] res@[k])@ == owned_pixels(
                e,
                rects@,
                k,
                x as int,
                m as int,
            ) + owned_in_column(e, rects@, k, x as int, 0) by {
                assert(owned_pixels(e, rects@, k, x as int, m as int) + Seq::<Color>::empty()
                    =~= owned_pixels(e, rects@, k, x as int, m as int));
            }
        }
        while y < m
            invariant
                x < n,
                y <= m,
                count == rects@.len(),
                res@.len() == count,
                e == cells(expected@),
                is_grid(expected@, n as int, m as int),
                is_owner_table(colored@, rects@, n as int, m as int),
                forall|k: int|
                    0 <= k < count ==> (#[trigger] res@[k])@ == owned_pixels(
                        e,
                        rects@,
                        k,
                        x as int,
                        m as int,
                    ) + owned_in_column(e, rects@, k, x as int, y as int),
            decreases m - y,
        {
            assert(colored@[x as int].len() == m);
            assert(expected@[x as int].len() == m);
            let o = colored[x][y];
            let ghost before = res@;
            proof {
                lemma_owner(rects@, x as int, y as int);
                assert(colored@[x as int]@[y as int] == owner_id(owner(rects@, x as int, y as int)));
            }
            if o != usize::MAX {
                let c = expected[x][y];
                let mut list: Vec<Color> = Vec::new();
                std::mem::swap(&mut list, &mut res[o]);
                list.push(c);
                res[o] = list;
            }
            proof {
                assert forall|k: int| 0 <= k < count implies (#[trigger] res@[k])@ == owned_pixels(
                    e,
                    rects@,
                    k,
                    x as int,
                    m as int,
                ) + owned_in_column(e, rects@, k, x as int, y + 1) by {
                    let base = owned_pixels(e, rects@, k, x as int, m as int);
                    let col = owned_in_column(e, rects@, k, x as int, y as int);
                    assert(before[k]@ == base + col);
                    if owner(rects@, x as int, y as int) == k {
                        assert(e[x as int][y as int] == expected@[x as int]@[y as int]);
                        assert((base + col).push(e[x as int][y as int]) =~= base + col.push(
                            e[x as int][y as int],
                        ));
                    }
                }
            }
            y = y + 1;
        }
        x = x + 1;
    }
    res
}

/// Steps the colour of every rectangle of the stack towards the colours
/// that the picture of `test_case` shows at the pixels which the rectangle
/// owns.
pub fn recolor(rects: &[SolutionRect], test_case: &TestCase) -> (res: Vec<SolutionRect>)
    requires
        test_case.wf(),
        anchors_inside(rects@, test_case.n(), test_case.m()),
    ensures
        is_recolored(rects@, res@, cells(test_case.expected@), test_case.n(), test_case.m()),
        anchors_inside(res@, test_case.n(), test_case.m()),
{
    let (n, m) = test_case.get_size();
    let pixels = pixels_by_rect(rects, &test_case.expected, n, m);
    let ghost e = cells(test_case.expected@);
    let mut res: Vec<SolutionRect> = Vec::new();
    let mut it: usize = 0;
    while it < rects.len()
        invariant
            it <= rects@.len(),
            pixels@.len() == rects@.len(),
            res@.len() == it,
            forall|i: int|
                0 <= i < rects@.len() ==> (#[trigger] pixels@[i])@ == owned_pixels(
                    e,
                    rects@,
                    i,
                    n as int,
                    m as int,
                ),
            forall|i: int|
                0 <= i < it ==> (#[trigger] res@[i]).from == rects@[i].from && res@[i].to
                    == rects@[i].to && res@[i].color == climb(
                    owned_pixels(e, rects@, i, n as int, m as int),
                    rects@[i].color,
                ) && is_local_best(
                    owned_pixels(e, rects@, i, n as int, m as int),
                    res@[i].color,
                ) && list_distance(owned_pixels(e, rects@, i, n as int, m as int), res@[i].color)
                    <= list_distance(
                    owned_pixels(e, rects@, i, n as int, m as int),
                    rects@[i].color,
                ),
        decreases rects@.len() - it,
    {
        let r = rects[it];
        let new_color = find_best_color(pixels[it].as_slice(), r.color);
        res.push(SolutionRect { from: r.from, to: r.to, color: new_color });
        it = it + 1;
    }
    proof {
        assert forall|i: int| 0 <= i < res@.len() implies point_inside(
            (#[trigger] res@[i]).from,
            n as int,
            m as int,
        ) by {
            assert(point_inside(rects@[i].from, n as int, m as int));
        }
    }
    res
}

/// The numbers of seed regions, of merges and of `count` rectangles are
/// small enough for the names and the operations of a program to be
/// counted.
pub open spec fn counts_fit(tc: TestCase, merge_result: MergeResult, count: nat) -> bool {
    merge_result.last_block_id <= usize::MAX / 4 && count <= usize::MAX / 8 - 1
        && merge_result.ops@.len() <= usize::MAX / 8 && tc.regions@.len() <= usize::MAX / 8
}

/// `r` is the solution that follows from the stack `rects` when the
/// colours are stepped towards the pixels that the rectangles own and the
/// boxes are shrunk: its program is the program of that stack, with the
/// merges of `mr` before it, and it replays, paints the picture of `r` and
/// has its score.
pub open spec fn is_colored_solution(
    tc: TestCase,
    mr: MergeResult,
    rects: Seq<SolutionRect>,
    r: SolutionRes,
) -> bool {
    res_consistent(tc, r) && exists|colored: Seq<SolutionRect>, shrunk: Seq<SolutionRect>|
        #![trigger is_shrunk(colored, shrunk, tc.n(), tc.m())]
        is_recolored(rects, colored, cells(tc.expected@), tc.n(), tc.m()) && is_shrunk(
            colored,
            shrunk,
            tc.n(),
            tc.m(),
        ) && ops_view(r.ops@) == ops_view(mr.ops@) + stack_ops(
            shrunk,
            tc.n(),
            tc.m(),
            mr.last_block_id as nat,
        )
}

/// The program `ops` replays on the canvas of `tc` and paints what the
/// stack `rects` paints.
pub open spec fn paints_stack(tc: TestCase, ops: Seq<Op>, rects: Seq<SolutionRect>) -> bool {
    match replay(tc, ops) {
        Ok(s) => s.picture == rendered(cells(tc.start_field@), rects),
        Err(_) => false,
    }
}

/// For the stack `rects`, whose picture the program `ops` paints: steps
/// the colour of every rectangle towards the colours of the pixels that it
/// owns, shrinks the boxes, and gives the program of the new stack, with
/// the merges of `merge_result` before it, its picture and its score.  A
/// caller that does not know whether the program paints the picture of the
/// stack uses `try_optimize_colors`.
pub fn optimize_colors(
    rects: &[SolutionRect],
    ops: &[Op],
    test_case: &TestCase,
    merge_result: &MergeResult,
) -> (res: Result<SolutionRes, OpError>)
    requires
        test_case.wf(),
        anchors_inside(rects@, test_case.n(), test_case.m()),
        merges_into_one(
            *test_case,
            merge_result.ops@,
            merge_result.last_block_id,
            merge_result.expected_score,
        ),
        paints_stack(*test_case, ops@, rects@),
    ensures
        match res {
            Ok(r) => is_colored_solution(*test_case, *merge_result, rects@, r) && counts_fit(
                *test_case,
                *merge_result,
                rects@.len(),
            ),
            Err(e) => e == OpError::TooLarge && !counts_fit(
                *test_case,
                *merge_result,
                rects@.len(),
            ),
        },
{
    let (n, m) = test_case.get_size();
    let mut new_rects = recolor(rects, test_case);
    let ghost colored = new_rects@;
    shrink_rects(&mut new_rects, n, m);
    finish(&new_rects, test_case, merge_result)
}

/// Checks that the program `ops` paints what the stack `rects` paints, and
/// if it does gives what `optimize_colors` gives; else says why it does
/// not: the reason for which the replay fails, or `PictureMismatch`.
pub fn try_optimize_colors(
    rects: &[SolutionRect],
    ops: &[Op],
    test_case: &TestCase,
    merge_result: &MergeResult,
) -> (res: Result<SolutionRes, OpError>)
    requires
        test_case.wf(),
        anchors_inside(rects@, test_case.n(), test_case.m()),
        merges_into_one(
            *test_case,
            merge_result.ops@,
            merge_result.last_block_id,
            merge_result.expected_score,
        ),
    ensures
        match res {
            Ok(r) => is_colored_solution(*test_case, *merge_result, rects@, r) && paints_stack(
                *test_case,
                ops@,
                rects@,
            ),
            Err(e) => if test_case.regions@.len() + ops@.len() > usize::MAX {
                e == OpError::TooLarge
            } else {
                match replay(*test_case, ops@) {
                    Ok(s) => if s.picture != rendered(cells(test_case.start_field@), rects@) {
                        e == OpError::PictureMismatch
                    } else {
                        e == OpError::TooLarge && !counts_fit(
                            *test_case,
                            *merge_result,
                            rects@.len(),
                        )
                    },
                    Err(f) => e == f,
                }
            },
        },
{
    let (n, m) = test_case.get_size();
    if ops.len() > usize::MAX - test_case.regions.len() {
        return Err(OpError::TooLarge);
    }
    let final_res = match try_apply_ops(ops, test_case) {
        Ok(r) => r,
        Err(e) => {
            return Err(e);
        },
    };
    let my = gen_field_by_rects(rects, test_case);
    if !same_picture(&my, &final_res.picture, n, m) {
        return Err(OpError::PictureMismatch);
    }
    optimize_colors(rects, ops, test_case, merge_result)
}

/// The program of the stack `rects`, with the merges of `merge_result`
/// before it, its picture and its score.
pub fn finish(rects: &Vec<SolutionRect>, test_case: &TestCase, merge_result: &MergeResult) -> (res:
    Result<SolutionRes, OpError>)
    requires
        test_case.wf(),
        anchors_inside(rects@, test_case.n(), test_case.m()),
        merges_into_one(
            *test_case,
            merge_result.ops@,
            merge_result.last_block_id,
            merge_result.expected_score,
        ),
    ensures
        match res {
            Ok(r) => res_consistent(*test_case, r) && ops_view(r.ops@) == ops_view(
                merge_result.ops@,
            ) + stack_ops(
                rects@,
                test_case.n(),
                test_case.m(),
                merge_result.last_block_id as nat,
            ) && cells(r.a@) == rendered(cells(test_case.start_field@), rects@)
                && r.expected_score == total_score(
                *test_case,
                rects@,
                merge_result.expected_score,
            ) && counts_fit(*test_case, *merge_result, rects@.len()) && test_case.regions@.len()
                + r.ops@.len() <= usize::MAX,
            Err(e) => e == OpError::TooLarge && !counts_fit(*test_case, *merge_result, rects@.len()),
        },
{
    let (n, m) = test_case.get_size();
    let first_id = merge_result.last_block_id;
    let merge_len = merge_result.ops.len();
    if first_id > usize::MAX / 4 || rects.len() > usize::MAX / 8 - 1 || merge_len > usize::MAX / 8
        || test_case.regions.len() > usize::MAX / 8 {
        return Err(OpError::TooLarge);
    }
    proof {
        crate::ops_by_rects::lemma_stack_ops_len(
            rects@,
            n as int,
            m as int,
            first_id as nat,
        );
    }
    let mut new_ops: Vec<Op> = Vec::new();
    extend_ops(&mut new_ops, &merge_result.ops);
    let mut rect_ops = gen_ops_by_solution_rects(rects.as_slice(), n, m, first_id, test_case);
    let ghost added = rect_ops@;
    let ghost head = new_ops@;
    assert(ops_view(added).len() == added.len());
    assert(ops_view(head).len() == head.len());
    assert(ops_view(merge_result.ops@).len() == merge_len);
    new_ops.append(&mut rect_ops);
    proof {
        assert(ops_view(head) =~= ops_view(merge_result.ops@));
        lemma_ops_view_concat(head, added);
        let tc = *test_case;
        let init = initial_state(tc);
        let s1 = run(init, ops_view(merge_result.ops@), tc.n(), tc.m(), tc.test_id)->Ok_0;
        lemma_cells_shape(tc.start_field@, tc.n(), tc.m());
        lemma_stack_replay(s1, rects@, tc.n(), tc.m(), first_id as nat, tc.test_id);
        lemma_run_concat(
            init,
            ops_view(merge_result.ops@),
            stack_ops(rects@, tc.n(), tc.m(), first_id as nat),
            tc.n(),
            tc.m(),
            tc.test_id,
        );
        lemma_rendered_is_painted(s1.picture, rects@, tc.n(), tc.m());
        lemma_stack_cost_bound(rects@, tc.n(), tc.m(), tc.test_id);
        lemma_score_fits(
            stack_cost(rects@, tc.n(), tc.m(), tc.test_id),
            merge_result.expected_score as nat,
            rects@.len(),
        );
        assert(merge_result.expected_score <= MAX_MERGE_COST) by (nonlinear_arith)
            requires
                merge_result.expected_score <= merge_len * MAX_OP_COST,
                merge_len <= 0xffff_ffff_ffff_ffff,
                MAX_OP_COST == 42_948_362_250,
                MAX_MERGE_COST == 792_257_446_810_718_524_046_092_533_750,
        ;
    }
    let final_res = apply_ops(new_ops.as_slice(), test_case);
    let pixel_dist = get_pixel_distance(&final_res.picture, &test_case.expected);
    Ok(
        SolutionRes {
            ops: new_ops,
            a: final_res.picture,
            expected_score: final_res.only_ops_cost * SCORE_SCALE + pixel_dist,
            last_block_id: final_res.last_block_id,
        },
    )
}

} // verus!
