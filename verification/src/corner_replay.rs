//! The corner cost model agrees with the replay: the operations of
//! `color_corner` can be replayed, cost what the model says, fill the
//! corner rectangle and leave the canvas one region.

use crate::arith::{lemma_round_div_nearest, round_div};
use crate::color::Color;
use crate::color_corner::{
    area0, area1, area2, area3, corner_cost, corner_next_id, corner_ops, lemma_quadrants,
    merge_x_first, merge_y_first,
};
use crate::consts::{COLOR_COST, MAX_SIDE};
use crate::interpreter::{op_cost, run, step, CanvasState, OpError};
use crate::op::OpView;
use crate::picture::{filled, is_picture};
use crate::rect_id::{decimal, lemma_decimal_injective, lemma_sub_key_distinct, sub_key};
use crate::test_case::{Rect, TestCase};
use crate::utils::{point_inside, Point};
use vstd::prelude::*;

verus! {

/// The rectangle of all pixels of a canvas of `n` columns and `m` rows.
pub open spec fn canvas_rect(n: int, m: int) -> Rect {
    Rect { from: Point { x: 0, y: 0 }, to: Point { x: n as i32, y: m as i32 } }
}

/// The rectangle between `p` and the top-right corner of the canvas.
pub open spec fn corner_rect(p: Point, n: int, m: int) -> Rect {
    Rect { from: p, to: Point { x: n as i32, y: m as i32 } }
}

/// The table of a canvas that is one region, named by the number `id`.
pub open spec fn whole_canvas(n: int, m: int, id: nat) -> Map<Seq<u8>, Rect> {
    Map::empty().insert(decimal(id), canvas_rect(n, m))
}

/// The state after the corner at `p` of a canvas in state `s` was filled
/// with `color`, the canvas being one region named by the number `id`.
pub open spec fn corner_filled(
    s: CanvasState,
    n: int,
    m: int,
    p: Point,
    id: nat,
    color: Color,
    test_id: usize,
) -> CanvasState {
    CanvasState {
        rects: whole_canvas(n, m, corner_next_id(p, id)),
        picture: filled(s.picture, corner_rect(p, n, m), color),
        cost: s.cost + corner_cost(n, m, p, test_id),
        last_rect_id: corner_next_id(p, id),
        only_colored_top_right: s.only_colored_top_right,
    }
}

/// Replaying a program and one more operation continues from where the
/// program ends.
pub proof fn lemma_run_push(
    s: CanvasState,
    ops: Seq<OpView>,
    op: OpView,
    n: int,
    m: int,
    test_id: usize,
)
    ensures
        run(s, ops.push(op), n, m, test_id) == (match run(s, ops, n, m, test_id) {
            Ok(t) => step(t, op, n, m, test_id),
            Err(e) => Err(e),
        }),
{
    assert(ops.push(op).drop_last() =~= ops);
}

/// An operation on the whole canvas costs its base cost.
pub proof fn lemma_whole_cost(base: nat, n: int, m: int)
    requires
        n >= 1,
        m >= 1,
    ensures
        op_cost(base, n, m, n * m) == base,
{
    let a = n * m;
    assert(a >= 1) by (nonlinear_arith)
        requires
            a == n * m,
            n >= 1,
            m >= 1,
    ;
    lemma_round_div_nearest((base * a) as nat, a as nat);
    let q = round_div((base * a) as nat, a as nat) as int;
    assert(base * a >= 0) by (nonlinear_arith)
        requires
            base >= 0,
            a >= 1,
    ;
    assert(q == base) by (nonlinear_arith)
        requires
            2 * a * q <= 2 * (base * a) + a < 2 * a * (q + 1),
            a >= 1,
    ;
}

/// The names used while a corner is filled differ from each other.
proof fn lemma_names_distinct(id: nat)
    ensures
        decimal(id) != decimal(id + 1),
        decimal(id) != decimal(id + 2),
        decimal(id) != decimal(id + 3),
        decimal(id + 1) != decimal(id + 2),
        decimal(id + 1) != decimal(id + 3),
        decimal(id + 2) != decimal(id + 3),
        forall|i: nat, k: nat|
            i < 10 ==> #[trigger] sub_key(decimal(id), i) != #[trigger] decimal(k),
        forall|i: nat, j: nat|
            i < 10 && j < 10 && i != j ==> #[trigger] sub_key(decimal(id), i) != #[trigger] sub_key(
                decimal(id),
                j,
            ),
{
    if decimal(id) == decimal(id + 1) {
        lemma_decimal_injective(id, id + 1);
    }
    if decimal(id) == decimal(id + 2) {
        lemma_decimal_injective(id, id + 2);
    }
    if decimal(id) == decimal(id + 3) {
        lemma_decimal_injective(id, id + 3);
    }
    if decimal(id + 1) == decimal(id + 2) {
        lemma_decimal_injective(id + 1, id + 2);
    }
    if decimal(id + 1) == decimal(id + 3) {
        lemma_decimal_injective(id + 1, id + 3);
    }
    if decimal(id + 2) == decimal(id + 3) {
        lemma_decimal_injective(id + 2, id + 3);
    }
    assert forall|i: nat, k: nat| i < 10 implies #[trigger] sub_key(decimal(id), i)
        != #[trigger] decimal(k) by {
        lemma_sub_key_distinct(decimal(id), i, i, k);
    }
    assert forall|i: nat, j: nat| i < 10 && j < 10 && i != j implies #[trigger] sub_key(
        decimal(id),
        i,
    ) != #[trigger] sub_key(decimal(id), j) by {
        lemma_sub_key_distinct(decimal(id), i, j, 0);
    }
}

/// Filling the whole canvas: one colour operation.
proof fn lemma_replay_origin(
    s: CanvasState,
    n: int,
    m: int,
    p: Point,
    id: nat,
    color: Color,
    test_id: usize,
)
    requires
        1 <= n <= MAX_SIDE,
        1 <= m <= MAX_SIDE,
        p.x == 0 && p.y == 0,
        is_picture(s.picture, n, m),
        s.rects == whole_canvas(n, m, id),
        s.last_rect_id == id,
    ensures
        run(s, corner_ops(n, m, p, id, color), n, m, test_id) == Ok::<CanvasState, OpError>(
            corner_filled(s, n, m, p, id, color, test_id),
        ),
{
    let main = decimal(id);
    let e = Seq::<OpView>::empty();
    let op0 = OpView::Color(main, color);
    assert(corner_ops(n, m, p, id, color) =~= e.push(op0));
    lemma_run_push(s, e, op0, n, m, test_id);
    lemma_whole_cost(COLOR_COST as nat, n, m);
    assert(s.rects.contains_key(main));
    assert(s.rects[main] == canvas_rect(n, m));
    assert(canvas_rect(n, m).area() == n * m);
    assert(corner_rect(p, n, m) == canvas_rect(n, m));
}

/// The two parts that a horizontal cut at `p` makes of the whole canvas, the
/// lower one first, or that a vertical cut makes, the left one first.
pub open spec fn part(n: int, m: int, p: Point, along_y: bool, i: int) -> Rect {
    let whole = canvas_rect(n, m);
    if along_y {
        if i == 0 {
            Rect { from: whole.from, to: Point { x: whole.to.x, y: p.y } }
        } else {
            Rect { from: Point { x: whole.from.x, y: p.y }, to: whole.to }
        }
    } else {
        if i == 0 {
            Rect { from: whole.from, to: Point { x: p.x, y: whole.to.y } }
        } else {
            Rect { from: Point { x: p.x, y: whole.from.y }, to: whole.to }
        }
    }
}

/// The table of a canvas cut in two at `p`, the canvas having been named by
/// the number `id`.
pub open spec fn two_parts(n: int, m: int, p: Point, along_y: bool, id: nat) -> Map<Seq<u8>, Rect> {
    Map::empty().insert(sub_key(decimal(id), 0), part(n, m, p, along_y, 0)).insert(
        sub_key(decimal(id), 1),
        part(n, m, p, along_y, 1),
    )
}

/// The line cut and the colour operation of a corner on an edge.
proof fn lemma_replay_line_cut(
    s: CanvasState,
    n: int,
    m: int,
    p: Point,
    id: nat,
    color: Color,
    test_id: usize,
    along_y: bool,
)
    requires
        1 <= n <= MAX_SIDE,
        1 <= m <= MAX_SIDE,
        point_inside(p, n, m),
        along_y ==> p.x == 0 && p.y != 0,
        !along_y ==> p.x != 0 && p.y == 0,
        is_picture(s.picture, n, m),
        s.rects == whole_canvas(n, m, id),
        s.last_rect_id == id,
    ensures
        run(
            s,
            seq![
                if along_y {
                    OpView::CutY(decimal(id), p.y)
                } else {
                    OpView::CutX(decimal(id), p.x)
                },
                OpView::Color(sub_key(decimal(id), 1), color),
            ],
            n,
            m,
            test_id,
        ) == Ok::<CanvasState, OpError>(
            CanvasState {
                rects: two_parts(n, m, p, along_y, id),
                picture: filled(s.picture, corner_rect(p, n, m), color),
                cost: s.cost + TestCase::line_cut_cost_of(test_id) + op_cost(
                    COLOR_COST as nat,
                    n,
                    m,
                    area2(n, m, p),
                ),
                last_rect_id: id,
                only_colored_top_right: s.only_colored_top_right,
            },
        ),
{
    let main = decimal(id);
    let e = Seq::<OpView>::empty();
    let op0 = if along_y {
        OpView::CutY(main, p.y)
    } else {
        OpView::CutX(main, p.x)
    };
    let op1 = OpView::Color(sub_key(main, 1), color);
    assert(seq![op0, op1] =~= e.push(op0).push(op1));
    lemma_run_push(s, e, op0, n, m, test_id);
    lemma_run_push(s, e.push(op0), op1, n, m, test_id);
    lemma_whole_cost(TestCase::line_cut_cost_of(test_id), n, m);
    lemma_names_distinct(id);
    let whole = canvas_rect(n, m);
    assert(s.rects.contains_key(main) && s.rects[main] == whole);
    assert(whole.area() == n * m);
    let s1 = step(s, op0, n, m, test_id)->Ok_0;
    assert(step(s, op0, n, m, test_id) is Ok);
    assert(s1.rects =~= two_parts(n, m, p, along_y, id));
    assert(s1.cost == s.cost + TestCase::line_cut_cost_of(test_id));
    assert(part(n, m, p, along_y, 1) == corner_rect(p, n, m));
    assert(part(n, m, p, along_y, 1).area() == area2(n, m, p));
    assert(step(s1, op1, n, m, test_id) is Ok);
}

/// The merge that makes a canvas cut in two one region again.
proof fn lemma_replay_rejoin(
    t: CanvasState,
    n: int,
    m: int,
    p: Point,
    id: nat,
    test_id: usize,
    along_y: bool,
)
    requires
        1 <= n <= MAX_SIDE,
        1 <= m <= MAX_SIDE,
        point_inside(p, n, m),
        along_y ==> p.x == 0 && p.y != 0,
        !along_y ==> p.x != 0 && p.y == 0,
        t.rects == two_parts(n, m, p, along_y, id),
        t.last_rect_id == id,
    ensures
        run(
            t,
            seq![OpView::Merge(sub_key(decimal(id), 0), sub_key(decimal(id), 1))],
            n,
            m,
            test_id,
        ) == Ok::<CanvasState, OpError>(
            CanvasState {
                rects: whole_canvas(n, m, id + 1),
                picture: t.picture,
                cost: t.cost + (if along_y {
                    crate::color_corner::merge_cost_of(n, m, area1(n, m, p), area2(n, m, p))
                } else {
                    crate::color_corner::merge_cost_of(n, m, area3(n, m, p), area2(n, m, p))
                }),
                last_rect_id: id + 1,
                only_colored_top_right: t.only_colored_top_right,
            },
        ),
{
    let main = decimal(id);
    let k0 = sub_key(main, 0);
    let k1 = sub_key(main, 1);
    let e = Seq::<OpView>::empty();
    let op2 = OpView::Merge(k0, k1);
    assert(seq![op2] =~= e.push(op2));
    lemma_run_push(t, e, op2, n, m, test_id);
    lemma_names_distinct(id);
    lemma_quadrants(n, m, p);
    assert(k0 != k1);
    let r0 = part(n, m, p, along_y, 0);
    let r1 = part(n, m, p, along_y, 1);
    assert(crate::interpreter::bounding_box(r0, r1) == canvas_rect(n, m));
    assert(r1.area() == area2(n, m, p));
    if along_y {
        assert(r0.area() == area1(n, m, p));
    } else {
        assert(r0.area() == area3(n, m, p));
    }
    assert(canvas_rect(n, m).area() == n * m);
    lemma_merge_step(t, k0, k1, r0, r1, canvas_rect(n, m), n, m, test_id);
    let t1 = step(t, op2, n, m, test_id)->Ok_0;
    assert(t1.rects =~= whole_canvas(n, m, id + 1));
}

/// Filling a corner whose point lies on the left edge: a horizontal cut, a
/// colour operation and a merge.
proof fn lemma_replay_left_edge(
    s: CanvasState,
    n: int,
    m: int,
    p: Point,
    id: nat,
    color: Color,
    test_id: usize,
)
    requires
        1 <= n <= MAX_SIDE,
        1 <= m <= MAX_SIDE,
        point_inside(p, n, m),
        p.x == 0 && p.y != 0,
        is_picture(s.picture, n, m),
        s.rects == whole_canvas(n, m, id),
        s.last_rect_id == id,
    ensures
        run(s, corner_ops(n, m, p, id, color), n, m, test_id) == Ok::<CanvasState, OpError>(
            corner_filled(s, n, m, p, id, color, test_id),
        ),
{
    let main = decimal(id);
    let head = seq![OpView::CutY(main, p.y), OpView::Color(sub_key(main, 1), color)];
    let tail = seq![OpView::Merge(sub_key(main, 0), sub_key(main, 1))];
    assert(corner_ops(n, m, p, id, color) =~= head + tail);
    lemma_replay_line_cut(s, n, m, p, id, color, test_id, true);
    let t = run(s, head, n, m, test_id)->Ok_0;
    crate::interpreter::lemma_run_concat(s, head, tail, n, m, test_id);
    lemma_replay_rejoin(t, n, m, p, id, test_id, true);
}

/// Filling a corner whose point lies on the bottom edge: a vertical cut, a
/// colour operation and a merge.
proof fn lemma_replay_bottom_edge(
    s: CanvasState,
    n: int,
    m: int,
    p: Point,
    id: nat,
    color: Color,
    test_id: usize,
)
    requires
        1 <= n <= MAX_SIDE,
        1 <= m <= MAX_SIDE,
        point_inside(p, n, m),
        p.x != 0 && p.y == 0,
        is_picture(s.picture, n, m),
        s.rects == whole_canvas(n, m, id),
        s.last_rect_id == id,
    ensures
        run(s, corner_ops(n, m, p, id, color), n, m, test_id) == Ok::<CanvasState, OpError>(
            corner_filled(s, n, m, p, id, color, test_id),
        ),
{
    let main = decimal(id);
    let head = seq![OpView::CutX(main, p.x), OpView::Color(sub_key(main, 1), color)];
    let tail = seq![OpView::Merge(sub_key(main, 0), sub_key(main, 1))];
    assert(corner_ops(n, m, p, id, color) =~= head + tail);
    lemma_replay_line_cut(s, n, m, p, id, color, test_id, false);
    let t = run(s, head, n, m, test_id)->Ok_0;
    crate::interpreter::lemma_run_concat(s, head, tail, n, m, test_id);
    lemma_replay_rejoin(t, n, m, p, id, test_id, false);
}

/// The four quadrants that a point cut at `p` makes of the whole canvas.
pub open spec fn quadrant(n: int, m: int, p: Point, i: int) -> Rect {
    let whole = canvas_rect(n, m);
    if i == 0 {
        Rect { from: whole.from, to: p }
    } else if i == 1 {
        Rect { from: Point { x: p.x, y: whole.from.y }, to: Point { x: whole.to.x, y: p.y } }
    } else if i == 2 {
        Rect { from: p, to: whole.to }
    } else {
        Rect { from: Point { x: whole.from.x, y: p.y }, to: Point { x: p.x, y: whole.to.y } }
    }
}

/// The table of a canvas cut into four at `p`, the canvas having been named
/// by the number `id`.
pub open spec fn four_quadrants(n: int, m: int, p: Point, id: nat) -> Map<Seq<u8>, Rect> {
    Map::empty().insert(sub_key(decimal(id), 0), quadrant(n, m, p, 0)).insert(
        sub_key(decimal(id), 1),
        quadrant(n, m, p, 1),
    ).insert(sub_key(decimal(id), 2), quadrant(n, m, p, 2)).insert(
        sub_key(decimal(id), 3),
        quadrant(n, m, p, 3),
    )
}

/// The areas of the four quadrants.
proof fn lemma_quadrant_areas(n: int, m: int, p: Point)
    requires
        1 <= n <= MAX_SIDE,
        1 <= m <= MAX_SIDE,
        point_inside(p, n, m),
    ensures
        quadrant(n, m, p, 0).area() == area0(n, m, p),
        quadrant(n, m, p, 1).area() == area1(n, m, p),
        quadrant(n, m, p, 2).area() == area2(n, m, p),
        quadrant(n, m, p, 3).area() == area3(n, m, p),
        quadrant(n, m, p, 2) == corner_rect(p, n, m),
{
}

/// The point cut and the colour operation of a corner off the edges.
proof fn lemma_replay_cut_and_color(
    s: CanvasState,
    n: int,
    m: int,
    p: Point,
    id: nat,
    color: Color,
    test_id: usize,
)
    requires
        1 <= n <= MAX_SIDE,
        1 <= m <= MAX_SIDE,
        point_inside(p, n, m),
        p.x != 0 && p.y != 0,
        is_picture(s.picture, n, m),
        s.rects == whole_canvas(n, m, id),
        s.last_rect_id == id,
    ensures
        run(
            s,
            seq![OpView::CutPoint(decimal(id), p), OpView::Color(sub_key(decimal(id), 2), color)],
            n,
            m,
            test_id,
        ) == Ok::<CanvasState, OpError>(
            CanvasState {
                rects: four_quadrants(n, m, p, id),
                picture: filled(s.picture, corner_rect(p, n, m), color),
                cost: s.cost + TestCase::point_cut_cost_of(test_id) + op_cost(
                    COLOR_COST as nat,
                    n,
                    m,
                    area2(n, m, p),
                ),
                last_rect_id: id,
                only_colored_top_right: s.only_colored_top_right,
            },
        ),
{
    let main = decimal(id);
    let e = Seq::<OpView>::empty();
    let op0 = OpView::CutPoint(main, p);
    let op1 = OpView::Color(sub_key(main, 2), color);
    assert(seq![op0, op1] =~= e.push(op0).push(op1));
    lemma_run_push(s, e, op0, n, m, test_id);
    lemma_run_push(s, e.push(op0), op1, n, m, test_id);
    lemma_whole_cost(TestCase::point_cut_cost_of(test_id), n, m);
    lemma_names_distinct(id);
    lemma_quadrant_areas(n, m, p);
    let whole = canvas_rect(n, m);
    assert(s.rects.contains_key(main) && s.rects[main] == whole);
    assert(whole.area() == n * m);
    let s1 = step(s, op0, n, m, test_id)->Ok_0;
    assert(step(s, op0, n, m, test_id) is Ok);
    assert(s1.rects =~= four_quadrants(n, m, p, id));
    assert(s1.cost == s.cost + TestCase::point_cut_cost_of(test_id));
    assert(step(s1, op1, n, m, test_id) is Ok);
}

/// One merge of two regions that lie side by side.
proof fn lemma_merge_step(
    t: CanvasState,
    a: Seq<u8>,
    b: Seq<u8>,
    ra: Rect,
    rb: Rect,
    joined: Rect,
    n: int,
    m: int,
    test_id: usize,
)
    requires
        t.rects.contains_key(a),
        t.rects.contains_key(b),
        t.rects[a] == ra,
        t.rects[b] == rb,
        crate::interpreter::bounding_box(ra, rb) == joined,
        joined.area() == ra.area() + rb.area(),
    ensures
        step(t, OpView::Merge(a, b), n, m, test_id) == Ok::<CanvasState, OpError>(
            CanvasState {
                rects: t.rects.insert(decimal(t.last_rect_id + 1), joined).remove(a).remove(b),
                picture: t.picture,
                cost: t.cost + crate::color_corner::merge_cost_of(n, m, ra.area(), rb.area()),
                last_rect_id: t.last_rect_id + 1,
                only_colored_top_right: t.only_colored_top_right,
            },
        ),
{
}

/// The halves that the canvas falls into along the lines through `p`.
pub open spec fn half(n: int, m: int, p: Point, i: int) -> Rect {
    let whole = canvas_rect(n, m);
    if i == 0 {
        // below
        Rect { from: whole.from, to: Point { x: whole.to.x, y: p.y } }
    } else if i == 1 {
        // above
        Rect { from: Point { x: whole.from.x, y: p.y }, to: whole.to }
    } else if i == 2 {
        // to the right
        Rect { from: Point { x: p.x, y: whole.from.y }, to: whole.to }
    } else {
        // to the left
        Rect { from: whole.from, to: Point { x: p.x, y: whole.to.y } }
    }
}

/// How the quadrants make up the halves, and the halves the canvas.
proof fn lemma_halves(n: int, m: int, p: Point)
    requires
        1 <= n <= MAX_SIDE,
        1 <= m <= MAX_SIDE,
        point_inside(p, n, m),
        p.x != 0 && p.y != 0,
    ensures
        crate::interpreter::bounding_box(quadrant(n, m, p, 0), quadrant(n, m, p, 1)) == half(
            n,
            m,
            p,
            0,
        ),
        crate::interpreter::bounding_box(quadrant(n, m, p, 3), quadrant(n, m, p, 2)) == half(
            n,
            m,
            p,
            1,
        ),
        crate::interpreter::bounding_box(quadrant(n, m, p, 2), quadrant(n, m, p, 1)) == half(
            n,
            m,
            p,
            2,
        ),
        crate::interpreter::bounding_box(quadrant(n, m, p, 3), quadrant(n, m, p, 0)) == half(
            n,
            m,
            p,
            3,
        ),
        crate::interpreter::bounding_box(half(n, m, p, 0), half(n, m, p, 1)) == canvas_rect(n, m),
        crate::interpreter::bounding_box(half(n, m, p, 2), half(n, m, p, 3)) == canvas_rect(n, m),
        half(n, m, p, 0).area() == area0(n, m, p) + area1(n, m, p),
        half(n, m, p, 1).area() == area2(n, m, p) + area3(n, m, p),
        half(n, m, p, 2).area() == area1(n, m, p) + area2(n, m, p),
        half(n, m, p, 3).area() == area0(n, m, p) + area3(n, m, p),
        canvas_rect(n, m).area() == area0(n, m, p) + area1(n, m, p) + area2(n, m, p) + area3(
            n,
            m,
            p,
        ),
{
    lemma_quadrants(n, m, p);
}

/// The three merges that join the quadrants row by row.
proof fn lemma_replay_merge_rows(t: CanvasState, n: int, m: int, p: Point, id: nat, test_id: usize)
    requires
        1 <= n <= MAX_SIDE,
        1 <= m <= MAX_SIDE,
        point_inside(p, n, m),
        p.x != 0 && p.y != 0,
        t.rects == four_quadrants(n, m, p, id),
        t.last_rect_id == id,
    ensures
        run(
            t,
            seq![
                OpView::Merge(sub_key(decimal(id), 0), sub_key(decimal(id), 1)),
                OpView::Merge(sub_key(decimal(id), 3), sub_key(decimal(id), 2)),
                OpView::Merge(decimal(id + 1), decimal(id + 2)),
            ],
            n,
            m,
            test_id,
        ) == Ok::<CanvasState, OpError>(
            CanvasState {
                rects: whole_canvas(n, m, id + 3),
                picture: t.picture,
                cost: t.cost + merge_x_first(n, m, p),
                last_rect_id: id + 3,
                only_colored_top_right: t.only_colored_top_right,
            },
        ),
{
    let main = decimal(id);
    let k0 = sub_key(main, 0);
    let k1 = sub_key(main, 1);
    let k2 = sub_key(main, 2);
    let k3 = sub_key(main, 3);
    let d1 = decimal(id + 1);
    let d2 = decimal(id + 2);
    let e = Seq::<OpView>::empty();
    let op2 = OpView::Merge(k0, k1);
    let op3 = OpView::Merge(k3, k2);
    let op4 = OpView::Merge(d1, d2);
    assert(seq![op2, op3, op4] =~= e.push(op2).push(op3).push(op4));
    lemma_run_push(t, e, op2, n, m, test_id);
    lemma_run_push(t, e.push(op2), op3, n, m, test_id);
    lemma_run_push(t, e.push(op2).push(op3), op4, n, m, test_id);
    lemma_names_distinct(id);
    lemma_quadrant_areas(n, m, p);
    lemma_halves(n, m, p);
    assert(k0 != k1 && k0 != k2 && k0 != k3 && k1 != k2 && k1 != k3 && k2 != k3);
    let q0 = quadrant(n, m, p, 0);
    let q1 = quadrant(n, m, p, 1);
    let q2 = quadrant(n, m, p, 2);
    let q3 = quadrant(n, m, p, 3);
    lemma_merge_step(t, k0, k1, q0, q1, half(n, m, p, 0), n, m, test_id);
    let t1 = step(t, op2, n, m, test_id)->Ok_0;
    assert(t1.rects =~= Map::<Seq<u8>, Rect>::empty().insert(k2, q2).insert(k3, q3).insert(
        d1,
        half(n, m, p, 0),
    ));
    lemma_merge_step(t1, k3, k2, q3, q2, half(n, m, p, 1), n, m, test_id);
    let t2 = step(t1, op3, n, m, test_id)->Ok_0;
    assert(t2.rects =~= Map::<Seq<u8>, Rect>::empty().insert(d1, half(n, m, p, 0)).insert(
        d2,
        half(n, m, p, 1),
    ));
    lemma_merge_step(
        t2,
        d1,
        d2,
        half(n, m, p, 0),
        half(n, m, p, 1),
        canvas_rect(n, m),
        n,
        m,
        test_id,
    );
    let t3 = step(t2, op4, n, m, test_id)->Ok_0;
    assert(t3.rects =~= whole_canvas(n, m, id + 3));
}

/// The three merges that join the quadrants column by column.
proof fn lemma_replay_merge_columns(
    t: CanvasState,
    n: int,
    m: int,
    p: Point,
    id: nat,
    test_id: usize,
)
    requires
        1 <= n <= MAX_SIDE,
        1 <= m <= MAX_SIDE,
        point_inside(p, n, m),
        p.x != 0 && p.y != 0,
        t.rects == four_quadrants(n, m, p, id),
        t.last_rect_id == id,
    ensures
        run(
            t,
            seq![
                OpView::Merge(sub_key(decimal(id), 2), sub_key(decimal(id), 1)),
                OpView::Merge(sub_key(decimal(id), 3), sub_key(decimal(id), 0)),
                OpView::Merge(decimal(id + 1), decimal(id + 2)),
            ],
            n,
            m,
            test_id,
        ) == Ok::<CanvasState, OpError>(
            CanvasState {
                rects: whole_canvas(n, m, id + 3),
                picture: t.picture,
                cost: t.cost + merge_y_first(n, m, p),
                last_rect_id: id + 3,
                only_colored_top_right: t.only_colored_top_right,
            },
        ),
{
    let main = decimal(id);
    let k0 = sub_key(main, 0);
    let k1 = sub_key(main, 1);
    let k2 = sub_key(main, 2);
    let k3 = sub_key(main, 3);
    let d1 = decimal(id + 1);
    let d2 = decimal(id + 2);
    let e = Seq::<OpView>::empty();
    let op2 = OpView::Merge(k2, k1);
    let op3 = OpView::Merge(k3, k0);
    let op4 = OpView::Merge(d1, d2);
    assert(seq![op2, op3, op4] =~= e.push(op2).push(op3).push(op4));
    lemma_run_push(t, e, op2, n, m, test_id);
    lemma_run_push(t, e.push(op2), op3, n, m, test_id);
    lemma_run_push(t, e.push(op2).push(op3), op4, n, m, test_id);
    lemma_names_distinct(id);
    lemma_quadrant_areas(n, m, p);
    lemma_halves(n, m, p);
    assert(k0 != k1 && k0 != k2 && k0 != k3 && k1 != k2 && k1 != k3 && k2 != k3);
    let q0 = quadrant(n, m, p, 0);
    let q1 = quadrant(n, m, p, 1);
    let q2 = quadrant(n, m, p, 2);
    let q3 = quadrant(n, m, p, 3);
    lemma_merge_step(t, k2, k1, q2, q1, half(n, m, p, 2), n, m, test_id);
    let t1 = step(t, op2, n, m, test_id)->Ok_0;
    assert(t1.rects =~= Map::<Seq<u8>, Rect>::empty().insert(k0, q0).insert(k3, q3).insert(
        d1,
        half(n, m, p, 2),
    ));
    lemma_merge_step(t1, k3, k0, q3, q0, half(n, m, p, 3), n, m, test_id);
    let t2 = step(t1, op3, n, m, test_id)->Ok_0;
    assert(t2.rects =~= Map::<Seq<u8>, Rect>::empty().insert(d1, half(n, m, p, 2)).insert(
        d2,
        half(n, m, p, 3),
    ));
    lemma_merge_step(
        t2,
        d1,
        d2,
        half(n, m, p, 2),
        half(n, m, p, 3),
        canvas_rect(n, m),
        n,
        m,
        test_id,
    );
    let t3 = step(t2, op4, n, m, test_id)->Ok_0;
    assert(t3.rects =~= whole_canvas(n, m, id + 3));
}

/// The state of a canvas after the point cut and the colour operation of a
/// corner off the edges.
spec fn cut_and_colored(
    s: CanvasState,
    n: int,
    m: int,
    p: Point,
    id: nat,
    color: Color,
    test_id: usize,
) -> CanvasState {
    CanvasState {
        rects: four_quadrants(n, m, p, id),
        picture: filled(s.picture, corner_rect(p, n, m), color),
        cost: s.cost + TestCase::point_cut_cost_of(test_id) + op_cost(
            COLOR_COST as nat,
            n,
            m,
            area2(n, m, p),
        ),
        last_rect_id: id,
        only_colored_top_right: s.only_colored_top_right,
    }
}

/// Filling a corner whose point lies off the edges, where joining the
/// quadrants row by row is cheaper.
proof fn lemma_replay_interior_rows(
    s: CanvasState,
    n: int,
    m: int,
    p: Point,
    id: nat,
    color: Color,
    test_id: usize,
)
    requires
        1 <= n <= MAX_SIDE,
        1 <= m <= MAX_SIDE,
        point_inside(p, n, m),
        p.x != 0 && p.y != 0,
        is_picture(s.picture, n, m),
        s.rects == whole_canvas(n, m, id),
        s.last_rect_id == id,
        merge_x_first(n, m, p) < merge_y_first(n, m, p),
    ensures
        run(s, corner_ops(n, m, p, id, color), n, m, test_id) == Ok::<CanvasState, OpError>(
            corner_filled(s, n, m, p, id, color, test_id),
        ),
{
    let main = decimal(id);
    let head = seq![OpView::CutPoint(main, p), OpView::Color(sub_key(main, 2), color)];
    let tail = seq![
        OpView::Merge(sub_key(main, 0), sub_key(main, 1)),
        OpView::Merge(sub_key(main, 3), sub_key(main, 2)),
        OpView::Merge(decimal(id + 1), decimal(id + 2)),
    ];
    let t = cut_and_colored(s, n, m, p, id, color, test_id);
    lemma_replay_cut_and_color(s, n, m, p, id, color, test_id);
    assert(run(s, head, n, m, test_id) == Ok::<CanvasState, OpError>(t));
    lemma_replay_merge_rows(t, n, m, p, id, test_id);
    crate::interpreter::lemma_run_concat(s, head, tail, n, m, test_id);
    assert(corner_ops(n, m, p, id, color) =~= head + tail);
    assert(corner_cost(n, m, p, test_id) == TestCase::point_cut_cost_of(test_id) + op_cost(
        COLOR_COST as nat,
        n,
        m,
        area2(n, m, p),
    ) + merge_x_first(n, m, p));
    assert(corner_next_id(p, id) == id + 3);
}

/// Filling a corner whose point lies off the edges, where joining the
/// quadrants row by row is not cheaper.
proof fn lemma_replay_interior_columns(
    s: CanvasState,
    n: int,
    m: int,
    p: Point,
    id: nat,
    color: Color,
    test_id: usize,
)
    requires
        1 <= n <= MAX_SIDE,
        1 <= m <= MAX_SIDE,
        point_inside(p, n, m),
        p.x != 0 && p.y != 0,
        is_picture(s.picture, n, m),
        s.rects == whole_canvas(n, m, id),
        s.last_rect_id == id,
        merge_x_first(n, m, p) >= merge_y_first(n, m, p),
    ensures
        run(s, corner_ops(n, m, p, id, color), n, m, test_id) == Ok::<CanvasState, OpError>(
            corner_filled(s, n, m, p, id, color, test_id),
        ),
{
    let main = decimal(id);
    let head = seq![OpView::CutPoint(main, p), OpView::Color(sub_key(main, 2), color)];
    let tail = seq![
        OpView::Merge(sub_key(main, 2), sub_key(main, 1)),
        OpView::Merge(sub_key(main, 3), sub_key(main, 0)),
        OpView::Merge(decimal(id + 1), decimal(id + 2)),
    ];
    let t = cut_and_colored(s, n, m, p, id, color, test_id);
    lemma_replay_cut_and_color(s, n, m, p, id, color, test_id);
    assert(run(s, head, n, m, test_id) == Ok::<CanvasState, OpError>(t));
    lemma_replay_merge_columns(t, n, m, p, id, test_id);
    crate::interpreter::lemma_run_concat(s, head, tail, n, m, test_id);
    assert(corner_ops(n, m, p, id, color) =~= head + tail);
    assert(corner_cost(n, m, p, test_id) == TestCase::point_cut_cost_of(test_id) + op_cost(
        COLOR_COST as nat,
        n,
        m,
        area2(n, m, p),
    ) + merge_y_first(n, m, p));
    assert(corner_next_id(p, id) == id + 3);
}

/// Filling a corner whose point lies off the edges: a point cut, a colour
/// operation and three merges.
proof fn lemma_replay_interior(
    s: CanvasState,
    n: int,
    m: int,
    p: Point,
    id: nat,
    color: Color,
    test_id: usize,
)
    requires
        1 <= n <= MAX_SIDE,
        1 <= m <= MAX_SIDE,
        point_inside(p, n, m),
        p.x != 0 && p.y != 0,
        is_picture(s.picture, n, m),
        s.rects == whole_canvas(n, m, id),
        s.last_rect_id == id,
    ensures
        run(s, corner_ops(n, m, p, id, color), n, m, test_id) == Ok::<CanvasState, OpError>(
            corner_filled(s, n, m, p, id, color, test_id),
        ),
{
    if merge_x_first(n, m, p) < merge_y_first(n, m, p) {
        lemma_replay_interior_rows(s, n, m, p, id, color, test_id);
    } else {
        lemma_replay_interior_columns(s, n, m, p, id, color, test_id);
    }
}

/// The operations that `color_corner` computes for the point `p` can be
/// replayed on a canvas that is one region named by the number `id`.  The
/// replay fills the rectangle between `p` and the top-right corner, costs
/// what the cost model says, and leaves the canvas one region.
pub proof fn lemma_corner_replay(
    s: CanvasState,
    n: int,
    m: int,
    p: Point,
    id: nat,
    color: Color,
    test_id: usize,
)
    requires
        1 <= n <= MAX_SIDE,
        1 <= m <= MAX_SIDE,
        point_inside(p, n, m),
        is_picture(s.picture, n, m),
        s.rects == whole_canvas(n, m, id),
        s.last_rect_id == id,
    ensures
        run(s, corner_ops(n, m, p, id, color), n, m, test_id) == Ok::<CanvasState, OpError>(
            corner_filled(s, n, m, p, id, color, test_id),
        ),
        is_picture(corner_filled(s, n, m, p, id, color, test_id).picture, n, m),
{
    if p.x == 0 && p.y == 0 {
        lemma_replay_origin(s, n, m, p, id, color, test_id);
    } else if p.x == 0 {
        lemma_replay_left_edge(s, n, m, p, id, color, test_id);
    } else if p.y == 0 {
        lemma_replay_bottom_edge(s, n, m, p, id, color, test_id);
    } else {
        lemma_replay_interior(s, n, m, p, id, color, test_id);
    }
    let q = filled(s.picture, corner_rect(p, n, m), color);
    assert forall|x: int| 0 <= x < n implies (#[trigger] q[x]).len() == m by {
        assert(s.picture[x].len() == m);
    }
}

} // verus!
