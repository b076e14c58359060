//! Finding a stack of corner-anchored rectangles that paints a given
//! picture.

use crate::color::{lemma_color_eq, Color};
use crate::consts::MAX_SIDE;
use crate::local_optimizations::{gen_field_by_rects, new_grid};
use crate::picture::{cells, same_picture};
use crate::placement::{
    comes_before, count_set, edge_order, given_to, grown, grown_after, is_blocked, is_edge_order,
    is_free, joined, lemma_count_set_bound, lemma_count_set_update, lemma_rounds_settle,
    neighbours, nothing_placed, picked_rects, place, placed, rounds, rows, scanned, with_mark,
    Placed,
};
use crate::solution::{anchors_inside, rendered, SolutionRect};
use crate::test_case::{is_grid, TestCase};
use crate::utils::{p, point_inside};
use vstd::prelude::*;

verus! {

/// `after` has a row and a column for each of `count` rectangles.
pub open spec fn is_square(after: Seq<Vec<bool>>, count: int) -> bool {
    after.len() == count && forall|i: int| 0 <= i < count ==> (#[trigger] after[i])@.len() == count
}

/// Tells whether two colours are the same.
fn same_color(a: Color, b: Color) -> (r: bool)
    ensures
        r == (a == b),
{
    proof {
        lemma_color_eq(a, b);
    }
    a == b
}

/// Notes that rectangle `x` is to be painted after rectangle `y`.
fn add_edge(after: &mut Vec<Vec<bool>>, x: usize, y: usize)
    requires
        x < old(after)@.len(),
        y < old(after)@.len(),
        is_square(old(after)@, old(after)@.len() as int),
    ensures
        is_square(final(after)@, old(after)@.len() as int),
        rows(final(after)@) == with_mark(rows(old(after)@), x as int, y as int),
{
    let ghost count = after@.len() as int;
    let ghost prev = after@;
    assert(after@[x as int].len() == count);
    after[x][y] = true;
    assert forall|i: int| 0 <= i < count implies (#[trigger] after@[i])@.len() == count by {
        assert(prev[i].len() == count);
    }
    assert(rows(after@) =~~= with_mark(rows(prev), x as int, y as int));
}

/// Adds a row and a column without marks to `after`.
fn grow(after: &mut Vec<Vec<bool>>)
    requires
        is_square(old(after)@, old(after)@.len() as int),
        old(after)@.len() < usize::MAX,
    ensures
        final(after)@.len() == old(after)@.len() + 1,
        is_square(final(after)@, final(after)@.len() as int),
        rows(final(after)@) == grown(rows(old(after)@)),
{
    let count = after.len();
    let ghost prev = after@;
    let mut i: usize = 0;
    while i < count
        invariant
            i <= count,
            after@.len() == count,
            prev.len() == count,
            is_square(prev, count as int),
            forall|k: int| 0 <= k < i ==> (#[trigger] after@[k])@ == prev[k]@.push(false),
            forall|k: int| i <= k < count ==> (#[trigger] after@[k])@ == prev[k]@,
        decreases count - i,
    {
        let mut row: Vec<bool> = Vec::new();
        std::mem::swap(&mut row, &mut after[i]);
        row.push(false);
        after[i] = row;
        i = i + 1;
    }
    let mut last: Vec<bool> = Vec::new();
    let mut j: usize = 0;
    while j <= count
        invariant
            j <= count + 1,
            count < usize::MAX,
            last@.len() == j,
            forall|k: int| 0 <= k < j ==> !(#[trigger] last@[k]),
        decreases count + 1 - j,
    {
        last.push(false);
        j = j + 1;
    }
    after.push(last);
    proof {
        assert forall|k: int| 0 <= k < count + 1 implies (#[trigger] after@[k])@.len() == count
            + 1 by {
            if k < count {
                assert(prev[k]@.len() == count);
            }
        }
        let want = grown(rows(prev));
        assert forall|k: int| 0 <= k < count + 1 implies #[trigger] rows(after@)[k] =~= want[k] by {
            if k < count {
                assert(prev[k]@.len() == count);
            }
        }
        assert(rows(after@) =~= want);
    }
}

/// Puts the rectangles of `res` in an order in which each comes after the
/// rectangles that it is to be painted after, as far as there is one: takes,
/// round after round, every rectangle that is to come after none that is
/// left.
fn sort_by_edges(res: &Vec<SolutionRect>, after: &Vec<Vec<bool>>) -> (sorted: Vec<SolutionRect>)
    requires
        is_square(after@, res@.len() as int),
    ensures
        sorted@ == picked_rects(res@, edge_order(rows(after@), res@.len() as int)),
        is_edge_order(
            res@,
            rows(after@),
            sorted@,
            edge_order(rows(after@), res@.len() as int),
        ),
{
    let count = res.len();
    let mut sorted: Vec<SolutionRect> = Vec::new();
    let mut used: Vec<bool> = Vec::new();
    let mut k: usize = 0;
    while k < count
        invariant
            k <= count,
            used@.len() == k,
            forall|i: int| 0 <= i < k ==> !(#[trigger] used@[i]),
        decreases count - k,
    {
        used.push(false);
        k = k + 1;
    }
    let ghost marks = rows(after@);
    let ghost mut order: Seq<int> = Seq::empty();
    proof {
        lemma_count_set_bound(used@);
        assert(used@ =~= rounds(marks, count as int, 0).0);
    }
    let mut pass: usize = 0;
    let mut go = true;
    while pass < count && go
        invariant
            pass <= count,
            count == res@.len(),
            used@.len() == count,
            is_square(after@, count as int),
            marks == rows(after@),
            is_taken(res@, marks, sorted@, order, used@),
            sorted@.len() >= pass,
            !go ==> forall|i: int|
                0 <= i < count && !used@[i] ==> #[trigger] is_blocked(marks, order, i, count as int),
            go ==> (used@, order) == rounds(marks, count as int, pass as int),
            !go ==> (used@, order) == rounds(marks, count as int, count as int),
        decreases count - pass, (if go { 1int } else { 0int }),
    {
        let mut changed = false;
        let ghost at_start = sorted@.len();
        let ghost used0 = used@;
        let ghost order0 = order;
        let mut i: usize = 0;
        while i < count
            invariant
                i <= count,
                count == res@.len(),
                used@.len() == count,
                is_square(after@, count as int),
                marks == rows(after@),
                is_taken(res@, marks, sorted@, order, used@),
                sorted@.len() >= at_start,
                changed ==> sorted@.len() > at_start,
                !changed ==> forall|t: int|
                    0 <= t < i && !used@[t] ==> #[trigger] is_blocked(marks, order, t, count as int),
                !changed ==> used@ == used0 && order == order0,
                (used@, order) == scanned(marks, used0, order0, i as int),
            decreases count - i,
        {
            if !used[i] {
                let mut ok = true;
                let mut j: usize = 0;
                assert(after@[i as int].len() == count);
                while j < count && ok
                    invariant
                        j <= count,
                        i < count,
                        used@.len() == count,
                        after@.len() == count,
                        after@[i as int]@.len() == count,
                        forall|t: int| 0 <= t < j ==> used@[t] || !(#[trigger] after@[i as int]@[t]),
                        !ok ==> j < count && !used@[j as int] && after@[i as int]@[j as int],
                    decreases count - j, (if ok { 1int } else { 0int }),
                {
                    if !used[j] && after[i][j] {
                        ok = false;
                    } else {
                        j = j + 1;
                    }
                }
                proof {
                    assert(ok == is_free(marks, used@, i as int)) by {
                        if !ok {
                            assert(marks[i as int][j as int]);
                        } else {
                            assert forall|t: int| 0 <= t < used@.len() implies used@[t] || !(
                            #[trigger] marks[i as int][t]) by {
                                assert(used@[t] || !after@[i as int]@[t]);
                            }
                        }
                    }
                }
                if ok {
                    let ghost before = sorted@;
                    let ghost before_order = order;
                    let ghost before_used = used@;
                    used[i] = true;
                    sorted.push(res[i]);
                    changed = true;
                    proof {
                        order = before_order.push(i as int);
                        lemma_count_set_update(before_used, i as int);
                        lemma_take_one(
                            res@,
                            marks,
                            before,
                            before_order,
                            before_used,
                            i as int,
                        );
                    }
                } else {
                    proof {
                        assert(!order.contains(j as int));
                        assert(marks[i as int][j as int]);
                        assert(is_blocked(marks, order, i as int, count as int));
                    }
                }
            }
            proof {
                assert((used@, order) == scanned(marks, used0, order0, i + 1));
            }
            i = i + 1;
        }
        proof {
            assert((used@, order) == rounds(marks, count as int, pass + 1));
        }
        if !changed {
            proof {
                lemma_rounds_settle(marks, count as int, pass as int, count as int);
            }
            go = false;
        } else {
            pass = pass + 1;
        }
    }
    proof {
        assert(order == edge_order(marks, count as int));
        assert(sorted@ =~= picked_rects(res@, order));
        lemma_count_set_bound(used@);
        assert forall|i: int| 0 <= i < count && !order.contains(i) implies #[trigger] is_blocked(
            marks,
            order,
            i,
            count as int,
        ) by {
            assert(!used@[i]);
        }
        assert(is_edge_order(res@, marks, sorted@, order));
    }
    sorted
}

/// `sorted` holds the rectangles of `rects` at the places that `order`
/// lists, each place once and each after the rectangles that it is to be
/// painted after, and `used` marks the places that `order` lists.
pub open spec fn is_taken(
    rects: Seq<SolutionRect>,
    after: Seq<Seq<bool>>,
    sorted: Seq<SolutionRect>,
    order: Seq<int>,
    used: Seq<bool>,
) -> bool {
    &&& order.len() == sorted.len()
    &&& used.len() == rects.len()
    &&& count_set(used) == order.len()
    &&& forall|k: int|
        0 <= k < order.len() ==> 0 <= #[trigger] order[k] < rects.len() && sorted[k]
            == rects[order[k]]
    &&& forall|i: int| 0 <= i < rects.len() ==> (#[trigger] used[i] <==> order.contains(i))
    &&& forall|k1: int, k2: int|
        0 <= k1 < k2 < order.len() ==> #[trigger] order[k1] != #[trigger] order[k2]
    &&& forall|k: int, j: int|
        0 <= k < order.len() && 0 <= j < rects.len() && #[trigger] after[order[k]][j]
            ==> comes_before(order, k, j)
}

/// Taking a rectangle that is to be painted after none that is left keeps
/// what is taken in order.
proof fn lemma_take_one(
    rects: Seq<SolutionRect>,
    after: Seq<Seq<bool>>,
    sorted: Seq<SolutionRect>,
    order: Seq<int>,
    used: Seq<bool>,
    i: int,
)
    requires
        is_taken(rects, after, sorted, order, used),
        0 <= i < rects.len(),
        !used[i],
        forall|t: int| 0 <= t < rects.len() ==> used[t] || !(#[trigger] after[i][t]),
        count_set(used.update(i, true)) == count_set(used) + 1,
    ensures
        is_taken(rects, after, sorted.push(rects[i]), order.push(i), used.update(i, true)),
{
    let sorted2 = sorted.push(rects[i]);
    let order2 = order.push(i);
    let used2 = used.update(i, true);
    let len = order.len() as int;
    assert forall|k: int| 0 <= k < order2.len() implies 0 <= #[trigger] order2[k] < rects.len()
        && sorted2[k] == rects[order2[k]] by {
        if k < len {
            assert(order2[k] == order[k]);
        }
    }
    assert forall|t: int| 0 <= t < rects.len() implies (#[trigger] used2[t] <==> order2.contains(
        t,
    )) by {
        if t == i {
            assert(order2[len] == i);
        } else {
            if used[t] {
                let k = choose|k: int| 0 <= k < order.len() && order[k] == t;
                assert(order2[k] == t);
            }
            if order2.contains(t) {
                let k = choose|k: int| 0 <= k < order2.len() && order2[k] == t;
                assert(k < len);
                assert(order[k] == t);
            }
        }
    }
    assert forall|k1: int, k2: int| 0 <= k1 < k2 < order2.len() implies #[trigger] order2[k1]
        != #[trigger] order2[k2] by {
        if k2 == len {
            assert(order2[k1] == order[k1]);
            if order[k1] == i {
                assert(order.contains(i));
            }
        } else {
            assert(order2[k1] == order[k1] && order2[k2] == order[k2]);
        }
    }
    assert forall|k: int, j: int|
        0 <= k < order2.len() && 0 <= j < rects.len() && #[trigger] after[order2[k]][j]
        implies comes_before(order2, k, j) by {
        if k < len {
            assert(order2[k] == order[k]);
            assert(comes_before(order, k, j));
            let t = choose|t: int| 0 <= t < k && #[trigger] order[t] == j;
            assert(order2[t] == j);
        } else {
            assert(used[j]);
            assert(order.contains(j));
            let t = choose|t: int| 0 <= t < order.len() && order[t] == j;
            assert(order2[t] == j);
        }
    }
}

/// Looks for a stack of corner-anchored rectangles that paints the picture
/// `need` on the canvas of `test_case`: walks the pixels column by column,
/// lets a pixel join the rectangle of its left or of its lower neighbour
/// if the colour and the order of painting allow it, and else anchors a new
/// rectangle at it; then puts the rectangles in an order in which each
/// comes after those that it is to be painted after.  Gives the stack if
/// it holds every rectangle and paints `need`, and nothing if it does not.
pub fn restore_rects_by_field(need: &Vec<Vec<Color>>, test_case: &TestCase) -> (res: Option<
    Vec<SolutionRect>,
>)
    requires
        test_case.wf(),
        is_grid(need@, test_case.n(), test_case.m()),
    ensures
        match res {
            Some(rects) => rects@ == restored_stack(cells(need@), test_case.n(), test_case.m())
                && is_whole_stack(cells(need@), test_case.n(), test_case.m()) && rendered(
                cells(test_case.start_field@),
                rects@,
            ) == cells(need@) && anchors_inside(rects@, test_case.n(), test_case.m())
                && is_edge_order(
                placed(cells(need@), test_case.n(), test_case.m(), test_case.n(), 0).rects,
                placed(cells(need@), test_case.n(), test_case.m(), test_case.n(), 0).after,
                rects@,
                edge_order(
                    placed(cells(need@), test_case.n(), test_case.m(), test_case.n(), 0).after,
                    placed(
                        cells(need@),
                        test_case.n(),
                        test_case.m(),
                        test_case.n(),
                        0,
                    ).rects.len() as int,
                ),
            ),
            None => !is_whole_stack(cells(need@), test_case.n(), test_case.m()) || rendered(
                cells(test_case.start_field@),
                restored_stack(cells(need@), test_case.n(), test_case.m()),
            ) != cells(need@),
        },
{
    let (n, m) = test_case.get_size();
    let mut res: Vec<SolutionRect> = Vec::new();
    let mut covered_by = new_grid(usize::MAX, n, m);
    let mut after: Vec<Vec<bool>> = Vec::new();
    let ghost want = cells(need@);
    proof {
        let st = state_of(res@, after@, covered_by@);
        let none = nothing_placed(n as int, m as int);
        assert(st.rects =~= none.rects);
        assert(st.after =~= none.after);
        assert forall|i: int| 0 <= i < n implies #[trigger] st.owner[i] =~= none.owner[i] by {
            assert(covered_by@[i].len() == m);
        }
        assert(st.owner =~= none.owner);
    }
    let mut x: usize = 0;
    while x < n
        invariant
            x <= n,
            1 <= n <= MAX_SIDE,
            1 <= m <= MAX_SIDE,
            want == cells(need@),
            is_grid(need@, n as int, m as int),
            is_grid(covered_by@, n as int, m as int),
            is_square(after@, res@.len() as int),
            res@.len() <= x * m,
            anchors_inside(res@, n as int, m as int),
            forall|i: int, j: int|
                0 <= i < x && 0 <= j < m ==> (#[trigger] covered_by@[i]@[j]) < res@.len(),
            state_of(res@, after@, covered_by@) == placed(want, n as int, m as int, x as int, 0),
        decreases n - x,
    {
        let mut y: usize = 0;
        while y < m
            invariant
                x < n,
                y <= m,
                1 <= n <= MAX_SIDE,
                1 <= m <= MAX_SIDE,
                want == cells(need@),
                is_grid(need@, n as int, m as int),
                is_grid(covered_by@, n as int, m as int),
                is_square(after@, res@.len() as int),
                res@.len() <= x * m + y,
                anchors_inside(res@, n as int, m as int),
                forall|i: int, j: int|
                    0 <= i < n && 0 <= j < m && (i < x || (i == x && j < y)) ==> (
                    #[trigger] covered_by@[i]@[j]) < res@.len(),
                state_of(res@, after@, covered_by@) == placed(
                    want,
                    n as int,
                    m as int,
                    x as int,
                    y as int,
                ),
            decreases m - y,
        {
            assert(need@[x as int].len() == m);
            let need_color = need[x][y];
            assert(want[x as int][y as int] == need_color);
            place_pixel(&mut res, &mut after, &mut covered_by, need_color, x, y, n, m);
            y = y + 1;
        }
        proof {
            assert((x + 1) * m == x * m + m) by (nonlinear_arith);
        }
        x = x + 1;
    }
    let ghost st = placed(want, n as int, m as int, n as int, 0);
    let sorted_res = sort_by_edges(&res, &after);
    proof {
        assert(st.rects == res@);
        assert(st.after == rows(after@));
        assert(sorted_res@ == restored_stack(want, n as int, m as int));
    }
    if sorted_res.len() != res.len() {
        return None;
    }
    proof {
        let order = edge_order(rows(after@), res@.len() as int);
        assert forall|i: int| 0 <= i < sorted_res@.len() implies point_inside(
            (#[trigger] sorted_res@[i]).from,
            n as int,
            m as int,
        ) by {
            assert(sorted_res@[i] == res@[order[i]]);
            assert(point_inside(res@[order[i]].from, n as int, m as int));
        }
    }
    let new_field = gen_field_by_rects(sorted_res.as_slice(), test_case);
    if same_picture(&new_field, need, n, m) {
        Some(sorted_res)
    } else {
        None
    }
}

/// What is placed, as the tables of a walk hold it.
pub open spec fn state_of(
    rects: Seq<SolutionRect>,
    after: Seq<Vec<bool>>,
    covered_by: Seq<Vec<usize>>,
) -> Placed {
    Placed { rects, after: rows(after), owner: rows(covered_by) }
}

/// The stack that is restored for the picture `need` of `n` columns and
/// `m` rows: the rectangles that were placed, in the order in which the
/// rounds take them.
pub open spec fn restored_stack(need: Seq<Seq<Color>>, n: int, m: int) -> Seq<SolutionRect> {
    picked_rects(
        placed(need, n, m, n, 0).rects,
        edge_order(placed(need, n, m, n, 0).after, placed(need, n, m, n, 0).rects.len() as int),
    )
}

/// The stack that is restored for the picture `need` holds every
/// rectangle that was placed.
pub open spec fn is_whole_stack(need: Seq<Seq<Color>>, n: int, m: int) -> bool {
    restored_stack(need, n, m).len() == placed(need, n, m, n, 0).rects.len()
}

/// Gives the pixel `(x, y)`, which is to show the colour `c`, to the
/// rectangle of a neighbour that it can join, or to a new rectangle.
fn place_pixel(
    res: &mut Vec<SolutionRect>,
    after: &mut Vec<Vec<bool>>,
    covered_by: &mut Vec<Vec<usize>>,
    c: Color,
    x: usize,
    y: usize,
    n: usize,
    m: usize,
)
    requires
        x < n <= MAX_SIDE,
        y < m <= MAX_SIDE,
        is_grid(old(covered_by)@, n as int, m as int),
        is_square(old(after)@, old(res)@.len() as int),
        old(res)@.len() <= x * m + y,
        anchors_inside(old(res)@, n as int, m as int),
        forall|i: int, j: int|
            0 <= i < n && 0 <= j < m && (i < x || (i == x && j < y)) ==> (
            #[trigger] old(covered_by)@[i]@[j]) < old(res)@.len(),
    ensures
        is_grid(final(covered_by)@, n as int, m as int),
        is_square(final(after)@, final(res)@.len() as int),
        final(res)@.len() <= x * m + y + 1,
        anchors_inside(final(res)@, n as int, m as int),
        forall|i: int, j: int|
            0 <= i < n && 0 <= j < m && (i < x || (i == x && j < y + 1)) ==> (
            #[trigger] final(covered_by)@[i]@[j]) < final(res)@.len(),
        state_of(final(res)@, final(after)@, final(covered_by)@) == place(
            state_of(old(res)@, old(after)@, old(covered_by)@),
            c,
            x as int,
            y as int,
            n as int,
            m as int,
        ),
{
    let ghost st = state_of(res@, after@, covered_by@);
    assert(x * m + y < 65535 * 65535 + 65535) by (nonlinear_arith)
        requires
            x < 65535,
            m <= 65535,
            y < m,
    ;
    assert(covered_by@[x as int].len() == m);
    let mut prevs: Vec<usize> = Vec::new();
    if x > 0 {
        assert(covered_by@[x - 1].len() == m);
        prevs.push(covered_by[x - 1][y]);
    }
    if y > 0 {
        let below = covered_by[x][y - 1];
        if prevs.len() == 0 || prevs[0] != below {
            prevs.push(below);
        }
    }
    assert(prevs@ =~= neighbours(st.owner, x as int, y as int));
    assert(forall|t: int| 0 <= t < prevs@.len() ==> (#[trigger] prevs@[t]) < res@.len());
    let mut need_new = prevs.len() == 0;
    let mut owner: usize = usize::MAX;
    if prevs.len() == 1 {
        if !same_color(res[prevs[0]].color, c) {
            need_new = true;
        } else {
            owner = prevs[0];
        }
    }
    if prevs.len() == 2 {
        let a = prevs[0];
        let b = prevs[1];
        assert(after@[a as int].len() == res@.len());
        assert(after@[b as int].len() == res@.len());
        let a_fits = same_color(res[a].color, c);
        let b_fits = same_color(res[b].color, c);
        if !a_fits && !b_fits {
            need_new = true;
        } else if !a_fits && after[a][b] {
            need_new = true;
        } else if !b_fits && after[b][a] {
            need_new = true;
        } else if !a_fits {
            add_edge(after, b, a);
            owner = b;
        } else if !b_fits {
            add_edge(after, a, b);
            owner = a;
        } else {
            if after[a][b] {
                owner = a;
            } else {
                add_edge(after, b, a);
                owner = b;
            }
        }
    }
    proof {
        match joined(st, prevs@, c) {
            Some((o, marks)) => {
                assert(!need_new);
                assert(owner == o);
                assert(rows(after@) == marks);
            },
            None => {
                assert(need_new);
                assert(rows(after@) == st.after);
            },
        }
    }
    let ghost before = res@;
    if need_new {
        res.push(SolutionRect { from: p(x, y), to: p(n, m), color: c });
        let ghost old_marks = rows(after@);
        grow(after);
        let new_id = after.len() - 1;
        owner = new_id;
        let mut k: usize = 0;
        assert(prevs@.take(0) =~= Seq::<usize>::empty());
        while k < prevs.len()
            invariant
                k <= prevs@.len(),
                new_id < after@.len(),
                new_id == before.len(),
                after@.len() == res@.len(),
                is_square(after@, after@.len() as int),
                forall|t: int| 0 <= t < prevs@.len() ==> (#[trigger] prevs@[t]) < after@.len(),
                rows(after@) == grown_after(old_marks, new_id as int, prevs@.take(k as int)),
            decreases prevs@.len() - k,
        {
            add_edge(after, new_id, prevs[k]);
            proof {
                assert(prevs@.take(k + 1).drop_last() =~= prevs@.take(k as int));
                assert(prevs@.take(k + 1).last() == prevs@[k as int]);
            }
            k = k + 1;
        }
        proof {
            assert(prevs@.take(k as int) =~= prevs@);
            assert forall|i: int| 0 <= i < res@.len() implies point_inside(
                (#[trigger] res@[i]).from,
                n as int,
                m as int,
            ) by {
                if i < before.len() {
                    assert(res@[i] == before[i]);
                    assert(point_inside(before[i].from, n as int, m as int));
                }
            }
        }
    }
    let ghost prev_grid = covered_by@;
    covered_by[x][y] = owner;
    proof {
        assert forall|i: int| 0 <= i < n implies (#[trigger] covered_by@[i]).len() == m by {
            assert(prev_grid[i].len() == m);
        }
        assert forall|i: int, j: int|
            0 <= i < n && 0 <= j < m && (i < x || (i == x && j < y + 1)) implies (
        #[trigger] covered_by@[i]@[j]) < res@.len() by {
            assert(prev_grid[i].len() == m);
            if i == x && j == y {
            } else {
                assert(prev_grid[i]@[j] < before.len());
            }
        }
        assert(rows(covered_by@) =~~= given_to(st.owner, x as int, y as int, owner));
        let next = place(st, c, x as int, y as int, n as int, m as int);
        assert(res@ =~= next.rects);
    }
}

} // verus!
