//! From a stack of corner-anchored rectangles to a program, and back.

use crate::color::Color;
use crate::color_corner::{color_corner, corner_cost, corner_next_id, corner_ops};
use crate::consts::MAX_SIDE;
use crate::corner_replay::{lemma_corner_replay, whole_canvas};
use crate::interpreter::{lemma_run_concat, run, CanvasState, OpError};
use crate::op::{ops_view, Op, OpView};
use crate::picture::is_picture;
use crate::solution::{
    anchors_inside, lemma_boxes_are_corners, painted_boxes, painted_corners, tiled_in_order,
    SolutionRect,
};
use crate::test_case::TestCase;
use crate::utils::{p, point_inside, Point};
use vstd::prelude::*;

verus! {

/// The number that names the canvas after the rectangles of the stack were
/// filled in order, if `id` named it before.
pub open spec fn stack_next_id(rects: Seq<SolutionRect>, id: nat) -> nat
    decreases rects.len(),
{
    if rects.len() == 0 {
        id
    } else {
        corner_next_id(rects.last().from, stack_next_id(rects.drop_last(), id))
    }
}

/// The program that fills the rectangles of the stack in order, each from
/// its anchor to the top-right corner, on a canvas that is one region named
/// by the number `id`.
pub open spec fn stack_ops(rects: Seq<SolutionRect>, n: int, m: int, id: nat) -> Seq<OpView>
    decreases rects.len(),
{
    if rects.len() == 0 {
        Seq::empty()
    } else {
        stack_ops(rects.drop_last(), n, m, id) + corner_ops(
            n,
            m,
            rects.last().from,
            stack_next_id(rects.drop_last(), id),
            rects.last().color,
        )
    }
}

/// What the operations of `stack_ops` cost.
pub open spec fn stack_cost(rects: Seq<SolutionRect>, n: int, m: int, test_id: usize) -> nat
    decreases rects.len(),
{
    if rects.len() == 0 {
        0
    } else {
        stack_cost(rects.drop_last(), n, m, test_id) + corner_cost(
            n,
            m,
            rects.last().from,
            test_id,
        )
    }
}

/// The number that names the canvas grows by at most three with each
/// rectangle.
pub proof fn lemma_stack_next_id(rects: Seq<SolutionRect>, id: nat)
    ensures
        id <= stack_next_id(rects, id) <= id + 3 * rects.len(),
    decreases rects.len(),
{
    if rects.len() > 0 {
        lemma_stack_next_id(rects.drop_last(), id);
    }
}

/// The program of a stack has at most five operations for each rectangle.
pub proof fn lemma_stack_ops_len(rects: Seq<SolutionRect>, n: int, m: int, id: nat)
    ensures
        stack_ops(rects, n, m, id).len() <= 5 * rects.len(),
    decreases rects.len(),
{
    if rects.len() > 0 {
        lemma_stack_ops_len(rects.drop_last(), n, m, id);
    }
}

/// The views of a program in two parts are the views of the parts.
pub proof fn lemma_ops_view_concat(a: Seq<Op>, b: Seq<Op>)
    ensures
        ops_view(a + b) == ops_view(a) + ops_view(b),
{
    assert(ops_view(a + b) =~= ops_view(a) + ops_view(b));
}

/// The program of a stack can be replayed on a canvas that is one region
/// named by the number `id`.  The replay paints what the stack paints
/// corner by corner, costs what the corner cost model says for each
/// rectangle, and leaves the canvas one region.
pub proof fn lemma_stack_replay(
    s: CanvasState,
    rects: Seq<SolutionRect>,
    n: int,
    m: int,
    id: nat,
    test_id: usize,
)
    requires
        1 <= n <= MAX_SIDE,
        1 <= m <= MAX_SIDE,
        anchors_inside(rects, n, m),
        is_picture(s.picture, n, m),
        s.rects == whole_canvas(n, m, id),
        s.last_rect_id == id,
    ensures
        run(s, stack_ops(rects, n, m, id), n, m, test_id) == Ok::<CanvasState, OpError>(
            CanvasState {
                rects: whole_canvas(n, m, stack_next_id(rects, id)),
                picture: painted_corners(s.picture, rects, n, m),
                cost: s.cost + stack_cost(rects, n, m, test_id),
                last_rect_id: stack_next_id(rects, id),
                only_colored_top_right: s.only_colored_top_right,
            },
        ),
        is_picture(painted_corners(s.picture, rects, n, m), n, m),
    decreases rects.len(),
{
    if rects.len() == 0 {
    } else {
        let prev = rects.drop_last();
        let last = rects.last();
        assert forall|i: int| 0 <= i < prev.len() implies point_inside(
            (#[trigger] prev[i]).from,
            n,
            m,
        ) by {
            assert(prev[i] == rects[i]);
        }
        lemma_stack_replay(s, prev, n, m, id, test_id);
        let t = run(s, stack_ops(prev, n, m, id), n, m, test_id)->Ok_0;
        let mid = stack_next_id(prev, id);
        lemma_run_concat(
            s,
            stack_ops(prev, n, m, id),
            corner_ops(n, m, last.from, mid, last.color),
            n,
            m,
            test_id,
        );
        assert(point_inside(last.from, n, m));
        lemma_corner_replay(t, n, m, last.from, mid, last.color, test_id);
    }
}

/// The picture that a stack which is tiled in order paints box by box is
/// the picture that the replay of its program paints.
pub proof fn lemma_tiling_replays(
    s: CanvasState,
    rects: Seq<SolutionRect>,
    n: int,
    m: int,
    id: nat,
    test_id: usize,
)
    requires
        1 <= n <= MAX_SIDE,
        1 <= m <= MAX_SIDE,
        anchors_inside(rects, n, m),
        tiled_in_order(rects, n, m),
        is_picture(s.picture, n, m),
        s.rects == whole_canvas(n, m, id),
        s.last_rect_id == id,
    ensures
        run(s, stack_ops(rects, n, m, id), n, m, test_id) is Ok,
        run(s, stack_ops(rects, n, m, id), n, m, test_id)->Ok_0.picture == painted_boxes(
            s.picture,
            rects,
        ),
{
    lemma_stack_replay(s, rects, n, m, id, test_id);
    lemma_boxes_are_corners(s.picture, rects, n, m);
}

/// Computes the program that fills the rectangles of the stack in order,
/// each from its anchor to the top-right corner of the canvas, which is
/// one region named by the number `cur_whole_id`.
pub fn gen_ops_by_solution_rects(
    rects: &[SolutionRect],
    field_n: usize,
    field_m: usize,
    cur_whole_id: usize,
    test_case: &TestCase,
) -> (res: Vec<Op>)
    requires
        1 <= field_n <= MAX_SIDE,
        1 <= field_m <= MAX_SIDE,
        anchors_inside(rects@, field_n as int, field_m as int),
        cur_whole_id + 3 * rects@.len() + 3 <= usize::MAX,
    ensures
        ops_view(res@) == stack_ops(rects@, field_n as int, field_m as int, cur_whole_id as nat),
{
    let mut res: Vec<Op> = Vec::new();
    let mut cur: usize = cur_whole_id;
    let mut i: usize = 0;
    assert(rects@.take(0) =~= Seq::<SolutionRect>::empty());
    assert(ops_view(res@) =~= Seq::<OpView>::empty());
    while i < rects.len()
        invariant
            i <= rects@.len(),
            1 <= field_n <= MAX_SIDE,
            1 <= field_m <= MAX_SIDE,
            anchors_inside(rects@, field_n as int, field_m as int),
            cur_whole_id + 3 * rects@.len() + 3 <= usize::MAX,
            cur == stack_next_id(rects@.take(i as int), cur_whole_id as nat),
            ops_view(res@) == stack_ops(
                rects@.take(i as int),
                field_n as int,
                field_m as int,
                cur_whole_id as nat,
            ),
        decreases rects@.len() - i,
    {
        let r = rects[i];
        proof {
            lemma_stack_next_id(rects@.take(i as int), cur_whole_id as nat);
            assert(point_inside(rects@[i as int].from, field_n as int, field_m as int));
            assert(rects@.take(i + 1).drop_last() =~= rects@.take(i as int));
        }
        let mut to_color = color_corner(field_n, field_m, r.from, cur, r.color, test_case);
        let ghost before = res@;
        let ghost added = to_color.ops@;
        res.append(&mut to_color.ops);
        proof {
            lemma_ops_view_concat(before, added);
        }
        cur = to_color.cur_whole_id;
        i = i + 1;
    }
    assert(rects@.take(i as int) =~= rects@);
    res
}

/// The point of the last cut of a program, or the origin if the program
/// cuts nowhere.
pub open spec fn last_cut_point(ops: Seq<OpView>) -> Point
    decreases ops.len(),
{
    if ops.len() == 0 {
        Point { x: 0, y: 0 }
    } else {
        match ops.last() {
            OpView::CutPoint(_, p) => p,
            OpView::CutY(_, y) => Point { x: 0, y },
            OpView::CutX(_, x) => Point { x, y: 0 },
            _ => last_cut_point(ops.drop_last()),
        }
    }
}

/// The stack of rectangles that a program fills: one for each colour
/// operation, anchored at the point of the last cut before it and reaching
/// to the corner `to`.
pub open spec fn rects_of_ops(ops: Seq<OpView>, to: Point) -> Seq<SolutionRect>
    decreases ops.len(),
{
    if ops.len() == 0 {
        Seq::empty()
    } else {
        match ops.last() {
            OpView::Color(_, color) => rects_of_ops(ops.drop_last(), to).push(
                SolutionRect { from: last_cut_point(ops.drop_last()), to, color },
            ),
            _ => rects_of_ops(ops.drop_last(), to),
        }
    }
}

/// Reads the stack of rectangles off a program that fills corner
/// rectangles of a canvas of `n` columns and `m` rows.
pub fn gen_rects_by_ops(ops: &[Op], n: usize, m: usize) -> (res: Vec<SolutionRect>)
    requires
        n <= i32::MAX,
        m <= i32::MAX,
    ensures
        res@ == rects_of_ops(ops_view(ops@), Point { x: n as i32, y: m as i32 }),
{
    let mut res: Vec<SolutionRect> = Vec::new();
    let mut last_point = Point::zero();
    let corner = p(n, m);
    let ghost all = ops_view(ops@);
    let mut i: usize = 0;
    assert(all.take(0) =~= Seq::<OpView>::empty());
    while i < ops.len()
        invariant
            i <= ops@.len(),
            all == ops_view(ops@),
            corner == (Point { x: n as i32, y: m as i32 }),
            last_point == last_cut_point(all.take(i as int)),
            res@ == rects_of_ops(all.take(i as int), corner),
        decreases ops@.len() - i,
    {
        proof {
            assert(all.take(i + 1).drop_last() =~= all.take(i as int));
            assert(all.take(i + 1).last() == ops@[i as int]@);
        }
        match &ops[i] {
            Op::CutPoint(_, pt) => {
                last_point = *pt;
            },
            Op::Color(_, color) => {
                res.push(SolutionRect { from: last_point, to: corner, color: *color });
            },
            Op::CutY(_, y) => {
                last_point = Point::new(0, *y);
            },
            Op::CutX(_, x) => {
                last_point = Point::new(*x, 0);
            },
            Op::Merge(_, _) => {},
            Op::Swap(_, _) => {},
        }
        i = i + 1;
    }
    assert(all.take(i as int) =~= all);
    res
}

} // verus!
