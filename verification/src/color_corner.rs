//! The cheapest way to fill the rectangle between a point and the top-right
//! corner of a canvas that is one region, and to make the canvas one region
//! again.

use crate::color::Color;
use crate::consts::{COLOR_COST, MAX_SIDE, MERGE_COST};
use crate::interpreter::{max_int, op_cost, scaled_cost};
use crate::op::{ops_view, Op, OpView};
use crate::picture::filled;
use crate::rect_id::{decimal, rect_id_from_usize, rect_id_sub_key, sub_key};
use crate::test_case::TestCase;
use crate::utils::{point_inside, Point};
use vstd::prelude::*;

verus! {

/// The operations that fill a corner rectangle, what they cost, and the
/// number that names the canvas after them.
#[derive(Debug)]
pub struct ColorToCorner {
    pub cost: u128,
    pub ops: Vec<Op>,
    pub cur_whole_id: usize,
}

/// No corner costs more than this to fill.
pub const MAX_CORNER_COST: u128 = 34_358_689_810;

/// Pixels to the left of and below `p`.
pub open spec fn area0(n: int, m: int, p: Point) -> int {
    p.x * p.y
}

/// Pixels to the right of and below `p`.
pub open spec fn area1(n: int, m: int, p: Point) -> int {
    (n - p.x) * p.y
}

/// Pixels between `p` and the top-right corner.
pub open spec fn area2(n: int, m: int, p: Point) -> int {
    (n - p.x) * (m - p.y)
}

/// Pixels to the left of and above `p`.
pub open spec fn area3(n: int, m: int, p: Point) -> int {
    p.x * (m - p.y)
}

/// Cost of a merge of two regions of `a` and `b` pixels.
pub open spec fn merge_cost_of(n: int, m: int, a: int, b: int) -> nat {
    op_cost(MERGE_COST as nat, n, m, max_int(a, b))
}

/// Cost of joining the four quadrants around `p` column by column.
pub open spec fn merge_y_first(n: int, m: int, p: Point) -> nat {
    merge_cost_of(n, m, area0(n, m, p), area3(n, m, p)) + merge_cost_of(
        n,
        m,
        area1(n, m, p),
        area2(n, m, p),
    ) + merge_cost_of(
        n,
        m,
        area0(n, m, p) + area3(n, m, p),
        area1(n, m, p) + area2(n, m, p),
    )
}

/// Cost of joining the four quadrants around `p` row by row.
pub open spec fn merge_x_first(n: int, m: int, p: Point) -> nat {
    merge_cost_of(n, m, area0(n, m, p), area1(n, m, p)) + merge_cost_of(
        n,
        m,
        area2(n, m, p),
        area3(n, m, p),
    ) + merge_cost_of(
        n,
        m,
        area0(n, m, p) + area1(n, m, p),
        area2(n, m, p) + area3(n, m, p),
    )
}

/// Cost of filling the region between `p` and the top-right corner.
pub open spec fn corner_color_cost(n: int, m: int, p: Point) -> nat {
    op_cost(COLOR_COST as nat, n, m, area2(n, m, p))
}

/// Cost of filling the rectangle between `p` and the top-right corner of a
/// canvas of `n` columns and `m` rows, and of making the canvas one region
/// again.
pub open spec fn corner_cost(n: int, m: int, p: Point, test_id: usize) -> nat {
    if p.x == 0 && p.y == 0 {
        COLOR_COST as nat
    } else if p.x == 0 {
        TestCase::line_cut_cost_of(test_id) + corner_color_cost(n, m, p) + merge_cost_of(
            n,
            m,
            area1(n, m, p),
            area2(n, m, p),
        )
    } else if p.y == 0 {
        TestCase::line_cut_cost_of(test_id) + corner_color_cost(n, m, p) + merge_cost_of(
            n,
            m,
            area3(n, m, p),
            area2(n, m, p),
        )
    } else {
        TestCase::point_cut_cost_of(test_id) + corner_color_cost(n, m, p) + (if merge_x_first(
            n,
            m,
            p,
        ) < merge_y_first(n, m, p) {
            merge_x_first(n, m, p)
        } else {
            merge_y_first(n, m, p)
        })
    }
}

/// The number that names the canvas after the corner at `p` was filled, if
/// `id` named it before.
pub open spec fn corner_next_id(p: Point, id: nat) -> nat {
    if p.x == 0 && p.y == 0 {
        id
    } else if p.x == 0 || p.y == 0 {
        id + 1
    } else {
        id + 3
    }
}

/// The operations that fill the rectangle between `p` and the top-right
/// corner with `color`, on a canvas that is the one region named by the
/// number `id`.
pub open spec fn corner_ops(n: int, m: int, p: Point, id: nat, color: Color) -> Seq<OpView> {
    let main = decimal(id);
    if p.x == 0 && p.y == 0 {
        seq![OpView::Color(main, color)]
    } else if p.x == 0 {
        seq![
            OpView::CutY(main, p.y),
            OpView::Color(sub_key(main, 1), color),
            OpView::Merge(sub_key(main, 0), sub_key(main, 1)),
        ]
    } else if p.y == 0 {
        seq![
            OpView::CutX(main, p.x),
            OpView::Color(sub_key(main, 1), color),
            OpView::Merge(sub_key(main, 0), sub_key(main, 1)),
        ]
    } else if merge_x_first(n, m, p) < merge_y_first(n, m, p) {
        seq![
            OpView::CutPoint(main, p),
            OpView::Color(sub_key(main, 2), color),
            OpView::Merge(sub_key(main, 0), sub_key(main, 1)),
            OpView::Merge(sub_key(main, 3), sub_key(main, 2)),
            OpView::Merge(decimal(id + 1), decimal(id + 2)),
        ]
    } else {
        seq![
            OpView::CutPoint(main, p),
            OpView::Color(sub_key(main, 2), color),
            OpView::Merge(sub_key(main, 2), sub_key(main, 1)),
            OpView::Merge(sub_key(main, 3), sub_key(main, 0)),
            OpView::Merge(decimal(id + 1), decimal(id + 2)),
        ]
    }
}

/// The four quadrants around a pixel `p` hold between them the pixels of
/// the canvas, and each part that a cut at `p` makes holds at least one.
pub proof fn lemma_quadrants(n: int, m: int, p: Point)
    requires
        1 <= n <= MAX_SIDE,
        1 <= m <= MAX_SIDE,
        point_inside(p, n, m),
    ensures
        area0(n, m, p) + area1(n, m, p) + area2(n, m, p) + area3(n, m, p) == n * m,
        n * m <= 65535 * 65535,
        area0(n, m, p) >= 0,
        area1(n, m, p) >= 0,
        area2(n, m, p) >= 1,
        area3(n, m, p) >= 0,
        p.x > 0 && p.y > 0 ==> area0(n, m, p) >= 1,
        p.y > 0 ==> area1(n, m, p) >= 1,
        p.x > 0 ==> area3(n, m, p) >= 1,
        area0(n, m, p) + area1(n, m, p) == n * p.y,
        area2(n, m, p) + area3(n, m, p) == n * (m - p.y),
        area0(n, m, p) + area3(n, m, p) == p.x * m,
        area1(n, m, p) + area2(n, m, p) == (n - p.x) * m,
{
    let x = p.x as int;
    let y = p.y as int;
    assert(x * y + (n - x) * y + (n - x) * (m - y) + x * (m - y) == n * m) by (nonlinear_arith);
    assert(n * m <= 65535 * 65535) by (nonlinear_arith)
        requires
            1 <= n <= 65535,
            1 <= m <= 65535,
    ;
    assert(x * y >= 0 && (n - x) * y >= 0 && x * (m - y) >= 0 && (n - x) * (m - y) >= 1)
        by (nonlinear_arith)
        requires
            0 <= x < n,
            0 <= y < m,
    ;
    assert(x > 0 && y > 0 ==> x * y >= 1) by (nonlinear_arith);
    assert(y > 0 ==> (n - x) * y >= 1) by (nonlinear_arith)
        requires
            x < n,
    ;
    assert(x > 0 ==> x * (m - y) >= 1) by (nonlinear_arith)
        requires
            y < m,
    ;
    assert(x * y + (n - x) * y == n * y) by (nonlinear_arith);
    assert((n - x) * (m - y) + x * (m - y) == n * (m - y)) by (nonlinear_arith);
    assert(x * y + x * (m - y) == x * m) by (nonlinear_arith);
    assert((n - x) * y + (n - x) * (m - y) == (n - x) * m) by (nonlinear_arith);
}

/// For a point on the left or on the bottom edge, off the origin, the two
/// quadrants on the far side of the edge hold no pixel, and the cost is
/// what is left of the cost for a point off the edges when these quadrants
/// vanish: the colour term, and the last merge of the order that joins the
/// quadrants across the edge first, with a line cut in place of the point
/// cut.
pub proof fn lemma_edge_cost_is_limit(n: int, m: int, p: Point, test_id: usize)
    requires
        point_inside(p, n, m),
        (p.x == 0) != (p.y == 0),
    ensures
        p.x == 0 ==> area0(n, m, p) == 0 && area3(n, m, p) == 0 && corner_cost(n, m, p, test_id)
            == TestCase::line_cut_cost_of(test_id) + corner_color_cost(n, m, p) + merge_cost_of(
            n,
            m,
            area0(n, m, p) + area1(n, m, p),
            area2(n, m, p) + area3(n, m, p),
        ),
        p.y == 0 ==> area0(n, m, p) == 0 && area1(n, m, p) == 0 && corner_cost(n, m, p, test_id)
            == TestCase::line_cut_cost_of(test_id) + corner_color_cost(n, m, p) + merge_cost_of(
            n,
            m,
            area0(n, m, p) + area3(n, m, p),
            area1(n, m, p) + area2(n, m, p),
        ),
{
    let x = p.x as int;
    let y = p.y as int;
    if x == 0 {
        assert(x * y == 0 && x * (m - y) == 0) by (nonlinear_arith)
            requires
                x == 0,
        ;
    } else {
        assert(x * y == 0 && (n - x) * y == 0) by (nonlinear_arith)
            requires
                y == 0,
        ;
    }
}

/// No corner costs more than `MAX_CORNER_COST` to fill.
pub proof fn lemma_corner_cost_bound(n: int, m: int, p: Point, test_id: usize)
    requires
        1 <= n <= MAX_SIDE,
        1 <= m <= MAX_SIDE,
        point_inside(p, n, m),
    ensures
        corner_cost(n, m, p, test_id) <= MAX_CORNER_COST,
{
    lemma_quadrants(n, m, p);
    let a0 = area0(n, m, p);
    let a1 = area1(n, m, p);
    let a2 = area2(n, m, p);
    let a3 = area3(n, m, p);
    crate::interpreter::lemma_op_cost_bound(COLOR_COST as nat, n, m, a2);
    crate::interpreter::lemma_op_cost_bound(MERGE_COST as nat, n, m, max_int(a1, a2));
    crate::interpreter::lemma_op_cost_bound(MERGE_COST as nat, n, m, max_int(a3, a2));
    crate::interpreter::lemma_op_cost_bound(MERGE_COST as nat, n, m, max_int(a2, a3));
    if p.x > 0 && p.y > 0 {
        crate::interpreter::lemma_op_cost_bound(MERGE_COST as nat, n, m, max_int(a0, a3));
        crate::interpreter::lemma_op_cost_bound(MERGE_COST as nat, n, m, max_int(a0, a1));
        crate::interpreter::lemma_op_cost_bound(
            MERGE_COST as nat,
            n,
            m,
            max_int(a0 + a3, a1 + a2),
        );
        crate::interpreter::lemma_op_cost_bound(
            MERGE_COST as nat,
            n,
            m,
            max_int(a0 + a1, a2 + a3),
        );
    }
    assert(5 * (n * m) <= 5 * (65535 * 65535) && 1 * (n * m) <= 65535 * 65535)
        by (nonlinear_arith)
        requires
            n * m <= 65535 * 65535,
    ;
}

/// Computes the operations that fill the rectangle between `p` and the
/// top-right corner of a canvas of `n` columns and `m` rows with `color`,
/// and what they cost.  The canvas is one region, named by the number
/// `cur_whole_id`, before and after; the result holds its number after.
pub fn color_corner(
    n: usize,
    m: usize,
    p: Point,
    cur_whole_id: usize,
    color: Color,
    test_case: &TestCase,
) -> (r: ColorToCorner)
    requires
        1 <= n <= MAX_SIDE,
        1 <= m <= MAX_SIDE,
        point_inside(p, n as int, m as int),
        cur_whole_id + 3 <= usize::MAX,
    ensures
        r.cost == corner_cost(n as int, m as int, p, test_case.test_id),
        r.cost <= MAX_CORNER_COST,
        ops_view(r.ops@) == corner_ops(n as int, m as int, p, cur_whole_id as nat, color),
        r.cur_whole_id == corner_next_id(p, cur_whole_id as nat),
{
    proof {
        lemma_quadrants(n as int, m as int, p);
        lemma_corner_cost_bound(n as int, m as int, p, test_case.test_id);
    }
    let main_id = rect_id_from_usize(cur_whole_id);
    let x_right: i128 = n as i128 - p.x as i128;
    let y_up: i128 = m as i128 - p.y as i128;
    let x_left: i128 = p.x as i128;
    let y_bottom: i128 = p.y as i128;
    assert(x_left * y_bottom == area0(n as int, m as int, p));
    assert(x_right * y_bottom == area1(n as int, m as int, p));
    assert(x_right * y_up == area2(n as int, m as int, p));
    assert(x_left * y_up == area3(n as int, m as int, p));
    let s0: i128 = x_left * y_bottom;
    let s1: i128 = x_right * y_bottom;
    let s2: i128 = x_right * y_up;
    let s3: i128 = x_left * y_up;
    let mut ops: Vec<Op> = Vec::new();
    if p.x == 0 || p.y == 0 {
        if p.x == 0 && p.y == 0 {
            ops.push(Op::Color(main_id, color));
            assert(ops_view(ops@) =~= corner_ops(
                n as int,
                m as int,
                p,
                cur_whole_id as nat,
                color,
            ));
            return ColorToCorner { cost: COLOR_COST, ops, cur_whole_id };
        }
        let color_cost = scaled_cost(COLOR_COST, n, m, s2);
        if p.x == 0 {
            let merge_cost = scaled_cost(MERGE_COST, n, m, larger(s1, s2));
            ops.push(Op::CutY(main_id.clone(), p.y));
            ops.push(Op::Color(rect_id_sub_key(&main_id, 1), color));
            ops.push(Op::Merge(rect_id_sub_key(&main_id, 0), rect_id_sub_key(&main_id, 1)));
            assert(ops_view(ops@) =~= corner_ops(
                n as int,
                m as int,
                p,
                cur_whole_id as nat,
                color,
            ));
            return ColorToCorner {
                cost: test_case.get_line_cut_cost() + color_cost + merge_cost,
                ops,
                cur_whole_id: cur_whole_id + 1,
            };
        }
        let merge_cost = scaled_cost(MERGE_COST, n, m, larger(s3, s2));
        ops.push(Op::CutX(main_id.clone(), p.x));
        ops.push(Op::Color(rect_id_sub_key(&main_id, 1), color));
        ops.push(Op::Merge(rect_id_sub_key(&main_id, 0), rect_id_sub_key(&main_id, 1)));
        assert(ops_view(ops@) =~= corner_ops(n as int, m as int, p, cur_whole_id as nat, color));
        return ColorToCorner {
            cost: test_case.get_line_cut_cost() + color_cost + merge_cost,
            ops,
            cur_whole_id: cur_whole_id + 1,
        };
    }
    let color_cost = scaled_cost(COLOR_COST, n, m, s2);
    ops.push(Op::CutPoint(main_id.clone(), p));
    ops.push(Op::Color(rect_id_sub_key(&main_id, 2), color));
    let y_first = scaled_cost(MERGE_COST, n, m, larger(s0, s3)) + scaled_cost(
        MERGE_COST,
        n,
        m,
        larger(s1, s2),
    ) + scaled_cost(MERGE_COST, n, m, larger(s0 + s3, s1 + s2));
    let x_first = scaled_cost(MERGE_COST, n, m, larger(s0, s1)) + scaled_cost(
        MERGE_COST,
        n,
        m,
        larger(s2, s3),
    ) + scaled_cost(MERGE_COST, n, m, larger(s0 + s1, s2 + s3));
    if x_first < y_first {
        ops.push(Op::Merge(rect_id_sub_key(&main_id, 0), rect_id_sub_key(&main_id, 1)));
        ops.push(Op::Merge(rect_id_sub_key(&main_id, 3), rect_id_sub_key(&main_id, 2)));
    } else {
        ops.push(Op::Merge(rect_id_sub_key(&main_id, 2), rect_id_sub_key(&main_id, 1)));
        ops.push(Op::Merge(rect_id_sub_key(&main_id, 3), rect_id_sub_key(&main_id, 0)));
    }
    ops.push(
        Op::Merge(rect_id_from_usize(cur_whole_id + 1), rect_id_from_usize(cur_whole_id + 2)),
    );
    assert(ops_view(ops@) =~= corner_ops(n as int, m as int, p, cur_whole_id as nat, color));
    let merge_back = if y_first <= x_first {
        y_first
    } else {
        x_first
    };
    ColorToCorner {
        cost: test_case.get_point_cut_cost() + color_cost + merge_back,
        ops,
        cur_whole_id: cur_whole_id + 3,
    }
}

/// The larger of two numbers.
fn larger(a: i128, b: i128) -> (r: i128)
    ensures
        r == max_int(a as int, b as int),
{
    if a >= b {
        a
    } else {
        b
    }
}

} // verus!
