//! The regions of a canvas divide it: at every moment of a replay each
//! pixel lies in one region.

use crate::interpreter::{
    bounding_box, disjoint, step, step_cut_point, step_cut_x, step_cut_y, step_merge, CanvasState,
    OpError,
};
use crate::op::OpView;
use crate::rect_id::{decimal, sub_key};
use crate::test_case::{Rect, TestCase};
use crate::utils::Point;
use vstd::prelude::*;

verus! {

/// The regions of the table divide a canvas of `n` columns and `m` rows:
/// each holds a pixel and lies on the canvas, no two share a pixel, and
/// every pixel lies in one.
pub open spec fn divides(rects: Map<Seq<u8>, Rect>, n: int, m: int) -> bool {
    &&& forall|k: Seq<u8>| #[trigger] rects.contains_key(k) ==> rects[k].inside(n, m)
    &&& forall|a: Seq<u8>, b: Seq<u8>|
        #![trigger rects.contains_key(a), rects.contains_key(b)]
        rects.contains_key(a) && rects.contains_key(b) && a != b ==> disjoint(rects[a], rects[b])
    &&& forall|x: int, y: int| 0 <= x < n && 0 <= y < m ==> #[trigger] in_some(rects, x, y)
}

/// The pixel `(x, y)` lies in a region of the table.
pub open spec fn in_some(rects: Map<Seq<u8>, Rect>, x: int, y: int) -> bool {
    exists|k: Seq<u8>| rects.contains_key(k) && (#[trigger] rects[k]).covers(x, y)
}

/// The names that the operation gives to new regions are in use for none
/// of the regions of the state.
pub open spec fn names_fresh(s: CanvasState, op: OpView) -> bool {
    match op {
        OpView::CutPoint(id, _) => !s.rects.contains_key(sub_key(id, 0)) && !s.rects.contains_key(
            sub_key(id, 1),
        ) && !s.rects.contains_key(sub_key(id, 2)) && !s.rects.contains_key(sub_key(id, 3)),
        OpView::CutY(id, _) => !s.rects.contains_key(sub_key(id, 0)) && !s.rects.contains_key(
            sub_key(id, 1),
        ),
        OpView::CutX(id, _) => !s.rects.contains_key(sub_key(id, 0)) && !s.rects.contains_key(
            sub_key(id, 1),
        ),
        OpView::Merge(_, _) => !s.rects.contains_key(decimal(s.last_rect_id + 1)),
        _ => true,
    }
}

/// Rectangles that hold a pixel share one exactly if neither lies wholly
/// to one side of the other.
pub proof fn lemma_disjoint_pixels(a: Rect, b: Rect)
    requires
        a.from.x < a.to.x,
        a.from.y < a.to.y,
        b.from.x < b.to.x,
        b.from.y < b.to.y,
    ensures
        disjoint(a, b) <==> forall|x: int, y: int| !(a.covers(x, y) && b.covers(x, y)),
{
    if !disjoint(a, b) {
        let x = if a.from.x >= b.from.x {
            a.from.x as int
        } else {
            b.from.x as int
        };
        let y = if a.from.y >= b.from.y {
            a.from.y as int
        } else {
            b.from.y as int
        };
        assert(a.covers(x, y) && b.covers(x, y));
    }
}

/// Two rectangles that share no pixel and have together as many pixels as
/// the box around them lie side by side along a whole edge: the box holds
/// the pixels of the two and no others.
pub proof fn lemma_merged_is_union(a: Rect, b: Rect)
    requires
        a.from.x < a.to.x,
        a.from.y < a.to.y,
        b.from.x < b.to.x,
        b.from.y < b.to.y,
        disjoint(a, b),
        bounding_box(a, b).area() == a.area() + b.area(),
    ensures
        forall|x: int, y: int|
            bounding_box(a, b).covers(x, y) <==> a.covers(x, y) || b.covers(x, y),
{
    let bb = bounding_box(a, b);
    let w1 = a.to.x - a.from.x;
    let h1 = a.to.y - a.from.y;
    let w2 = b.to.x - b.from.x;
    let h2 = b.to.y - b.from.y;
    let w = bb.to.x - bb.from.x;
    let h = bb.to.y - bb.from.y;
    assert(w * h == w1 * h1 + w2 * h2);
    if a.to.x <= b.from.x || b.to.x <= a.from.x {
        // side by side along x
        assert(w >= w1 + w2);
        assert(h >= h1 && h >= h2);
        assert(w == w1 + w2 && h == h1 && h == h2) by (nonlinear_arith)
            requires
                w * h == w1 * h1 + w2 * h2,
                w >= w1 + w2,
                h >= h1,
                h >= h2,
                w1 >= 1,
                w2 >= 1,
                h1 >= 1,
                h2 >= 1,
        ;
    } else {
        // one above the other
        assert(h >= h1 + h2);
        assert(w >= w1 && w >= w2);
        assert(h == h1 + h2 && w == w1 && w == w2) by (nonlinear_arith)
            requires
                w * h == w1 * h1 + w2 * h2,
                h >= h1 + h2,
                w >= w1,
                w >= w2,
                w1 >= 1,
                w2 >= 1,
                h1 >= 1,
                h2 >= 1,
        ;
    }
}

/// A rectangle that shares no pixel with either of two rectangles shares
/// none with a box that holds the pixels of the two and no others.
pub proof fn lemma_disjoint_from_union(o: Rect, a: Rect, b: Rect, u: Rect)
    requires
        o.from.x < o.to.x,
        o.from.y < o.to.y,
        a.from.x < a.to.x,
        a.from.y < a.to.y,
        b.from.x < b.to.x,
        b.from.y < b.to.y,
        u.from.x < u.to.x,
        u.from.y < u.to.y,
        disjoint(o, a),
        disjoint(o, b),
        forall|x: int, y: int| u.covers(x, y) <==> a.covers(x, y) || b.covers(x, y),
    ensures
        disjoint(o, u),
{
    lemma_disjoint_pixels(o, a);
    lemma_disjoint_pixels(o, b);
    lemma_disjoint_pixels(o, u);
    assert forall|x: int, y: int| !(o.covers(x, y) && u.covers(x, y)) by {
        if o.covers(x, y) && u.covers(x, y) {
            assert(a.covers(x, y) || b.covers(x, y));
        }
    }
}

/// A cut at a point keeps the canvas divided.
proof fn lemma_cut_point_divides(s: CanvasState, id: Seq<u8>, p: Point, n: int, m: int, base: nat)
    requires
        divides(s.rects, n, m),
        names_fresh(s, OpView::CutPoint(id, p)),
        step_cut_point(s, id, p, n, m, base) is Ok,
    ensures
        divides(step_cut_point(s, id, p, n, m, base)->Ok_0.rects, n, m),
{
    let t = step_cut_point(s, id, p, n, m, base)->Ok_0.rects;
    let r = s.rects[id];
    let k0 = sub_key(id, 0);
    let k1 = sub_key(id, 1);
    let k2 = sub_key(id, 2);
    let k3 = sub_key(id, 3);
    crate::rect_id::lemma_sub_key_distinct(id, 0, 1, 0);
    crate::rect_id::lemma_sub_key_distinct(id, 0, 2, 0);
    crate::rect_id::lemma_sub_key_distinct(id, 0, 3, 0);
    crate::rect_id::lemma_sub_key_distinct(id, 1, 2, 0);
    crate::rect_id::lemma_sub_key_distinct(id, 1, 3, 0);
    crate::rect_id::lemma_sub_key_distinct(id, 2, 3, 0);
    assert(s.rects.contains_key(id) && r.inside(n, m));
    assert(!s.rects.contains_key(k0) && !s.rects.contains_key(k1) && !s.rects.contains_key(k2)
        && !s.rects.contains_key(k3));
    assert forall|k: Seq<u8>| #[trigger] t.contains_key(k) implies t[k].inside(n, m) && (k == k0
        || k == k1 || k == k2 || k == k3 || (s.rects.contains_key(k) && k != id && t[k]
        == s.rects[k])) && (k == k0 || k == k1 || k == k2 || k == k3 ==> r.from.x <= t[k].from.x
        && t[k].to.x <= r.to.x && r.from.y <= t[k].from.y && t[k].to.y <= r.to.y) by {
        if !(k == k0 || k == k1 || k == k2 || k == k3) {
            assert(s.rects.contains_key(k));
        }
    }
    assert forall|a: Seq<u8>, b: Seq<u8>|
        #![trigger t.contains_key(a), t.contains_key(b)]
        t.contains_key(a) && t.contains_key(b) && a != b implies disjoint(t[a], t[b]) by {
        let fresh_a = a == k0 || a == k1 || a == k2 || a == k3;
        let fresh_b = b == k0 || b == k1 || b == k2 || b == k3;
        if fresh_a && !fresh_b {
            assert(s.rects.contains_key(b) && s.rects.contains_key(id));
            assert(disjoint(s.rects[b], r));
        } else if !fresh_a && fresh_b {
            assert(s.rects.contains_key(a) && s.rects.contains_key(id));
            assert(disjoint(s.rects[a], r));
        } else if !fresh_a && !fresh_b {
            assert(s.rects.contains_key(a) && s.rects.contains_key(b));
        }
    }
    assert forall|x: int, y: int| 0 <= x < n && 0 <= y < m implies #[trigger] in_some(t, x, y) by {
        assert(in_some(s.rects, x, y));
        let k = choose|k: Seq<u8>| s.rects.contains_key(k) && (#[trigger] s.rects[k]).covers(x, y);
        if k == id {
            if x < p.x && y < p.y {
                assert(t.contains_key(k0) && t[k0].covers(x, y));
            } else if y < p.y {
                assert(t.contains_key(k1) && t[k1].covers(x, y));
            } else if x >= p.x {
                assert(t.contains_key(k2) && t[k2].covers(x, y));
            } else {
                assert(t.contains_key(k3) && t[k3].covers(x, y));
            }
        } else {
            assert(t.contains_key(k) && t[k].covers(x, y));
        }
    }
}

/// A cut along a line keeps the canvas divided.
proof fn lemma_cut_line_divides(
    s: CanvasState,
    id: Seq<u8>,
    v: i32,
    n: int,
    m: int,
    base: nat,
    along_y: bool,
)
    requires
        divides(s.rects, n, m),
        !s.rects.contains_key(sub_key(id, 0)),
        !s.rects.contains_key(sub_key(id, 1)),
        if along_y {
            step_cut_y(s, id, v, n, m, base) is Ok
        } else {
            step_cut_x(s, id, v, n, m, base) is Ok
        },
    ensures
        divides(
            (if along_y {
                step_cut_y(s, id, v, n, m, base)
            } else {
                step_cut_x(s, id, v, n, m, base)
            })->Ok_0.rects,
            n,
            m,
        ),
{
    let t = (if along_y {
        step_cut_y(s, id, v, n, m, base)
    } else {
        step_cut_x(s, id, v, n, m, base)
    })->Ok_0.rects;
    let r = s.rects[id];
    let k0 = sub_key(id, 0);
    let k1 = sub_key(id, 1);
    crate::rect_id::lemma_sub_key_distinct(id, 0, 1, 0);
    assert(s.rects.contains_key(id) && r.inside(n, m));
    assert forall|k: Seq<u8>| #[trigger] t.contains_key(k) implies t[k].inside(n, m) && (k == k0
        || k == k1 || (s.rects.contains_key(k) && k != id && t[k] == s.rects[k])) && (k == k0 || k
        == k1 ==> r.from.x <= t[k].from.x && t[k].to.x <= r.to.x && r.from.y <= t[k].from.y
        && t[k].to.y <= r.to.y) by {
        if !(k == k0 || k == k1) {
            assert(s.rects.contains_key(k));
        }
    }
    assert forall|a: Seq<u8>, b: Seq<u8>|
        #![trigger t.contains_key(a), t.contains_key(b)]
        t.contains_key(a) && t.contains_key(b) && a != b implies disjoint(t[a], t[b]) by {
        let fresh_a = a == k0 || a == k1;
        let fresh_b = b == k0 || b == k1;
        if fresh_a && !fresh_b {
            assert(s.rects.contains_key(b) && s.rects.contains_key(id));
            assert(disjoint(s.rects[b], r));
        } else if !fresh_a && fresh_b {
            assert(s.rects.contains_key(a) && s.rects.contains_key(id));
            assert(disjoint(s.rects[a], r));
        } else if !fresh_a && !fresh_b {
            assert(s.rects.contains_key(a) && s.rects.contains_key(b));
        }
    }
    assert forall|x: int, y: int| 0 <= x < n && 0 <= y < m implies #[trigger] in_some(t, x, y) by {
        assert(in_some(s.rects, x, y));
        let k = choose|k: Seq<u8>| s.rects.contains_key(k) && (#[trigger] s.rects[k]).covers(x, y);
        if k == id {
            if (along_y && y < v) || (!along_y && x < v) {
                assert(t.contains_key(k0) && t[k0].covers(x, y));
            } else {
                assert(t.contains_key(k1) && t[k1].covers(x, y));
            }
        } else {
            assert(t.contains_key(k) && t[k].covers(x, y));
        }
    }
}

/// A merge keeps the canvas divided.
proof fn lemma_merge_divides(s: CanvasState, id1: Seq<u8>, id2: Seq<u8>, n: int, m: int)
    requires
        divides(s.rects, n, m),
        !s.rects.contains_key(decimal(s.last_rect_id + 1)),
        step_merge(s, id1, id2, n, m) is Ok,
    ensures
        divides(step_merge(s, id1, id2, n, m)->Ok_0.rects, n, m),
{
    let t = step_merge(s, id1, id2, n, m)->Ok_0.rects;
    let r1 = s.rects[id1];
    let r2 = s.rects[id2];
    let u = bounding_box(r1, r2);
    let fresh = decimal(s.last_rect_id + 1);
    assert(s.rects.contains_key(id1) && s.rects.contains_key(id2));
    assert(r1.inside(n, m) && r2.inside(n, m));
    if id1 == id2 {
        // the box around one region has the pixels of the region, not twice as many
        assert(u == r1);
        let w = r1.to.x - r1.from.x;
        let h = r1.to.y - r1.from.y;
        assert(w * h >= 1) by (nonlinear_arith)
            requires
                w >= 1,
                h >= 1,
        ;
        assert(false);
    }
    assert(disjoint(r1, r2));
    lemma_merged_is_union(r1, r2);
    assert(fresh != id1 && fresh != id2);
    assert forall|k: Seq<u8>| #[trigger] t.contains_key(k) implies t[k].inside(n, m) && ((k == fresh
        && t[k] == u) || (k != fresh && s.rects.contains_key(k) && k != id1 && k != id2 && t[k]
        == s.rects[k])) by {
        if k != fresh {
            assert(s.rects.contains_key(k));
        }
    }
    assert forall|a: Seq<u8>, b: Seq<u8>|
        #![trigger t.contains_key(a), t.contains_key(b)]
        t.contains_key(a) && t.contains_key(b) && a != b implies disjoint(t[a], t[b]) by {
        if a == fresh {
            assert(s.rects.contains_key(b));
            assert(disjoint(s.rects[b], r1) && disjoint(s.rects[b], r2));
            lemma_disjoint_from_union(s.rects[b], r1, r2, u);
        } else if b == fresh {
            assert(s.rects.contains_key(a));
            assert(disjoint(s.rects[a], r1) && disjoint(s.rects[a], r2));
            lemma_disjoint_from_union(s.rects[a], r1, r2, u);
        } else {
            assert(s.rects.contains_key(a) && s.rects.contains_key(b));
        }
    }
    assert forall|x: int, y: int| 0 <= x < n && 0 <= y < m implies #[trigger] in_some(t, x, y) by {
        assert(in_some(s.rects, x, y));
        let k = choose|k: Seq<u8>| s.rects.contains_key(k) && (#[trigger] s.rects[k]).covers(x, y);
        if k == id1 || k == id2 {
            assert(u.covers(x, y));
            assert(t.contains_key(fresh) && t[fresh].covers(x, y));
        } else {
            assert(t.contains_key(k) && t[k].covers(x, y));
        }
    }
}

/// The regions divide the canvas at every moment of a replay: an operation
/// that can be done on a canvas which its regions divide, and that takes no
/// name which is in use for its new regions, leaves a canvas which its
/// regions divide.
pub proof fn lemma_step_keeps_division(s: CanvasState, op: OpView, n: int, m: int, test_id: usize)
    requires
        divides(s.rects, n, m),
        names_fresh(s, op),
        step(s, op, n, m, test_id) is Ok,
    ensures
        divides(step(s, op, n, m, test_id)->Ok_0.rects, n, m),
{
    match op {
        OpView::CutPoint(id, p) => {
            lemma_cut_point_divides(s, id, p, n, m, TestCase::point_cut_cost_of(test_id));
        },
        OpView::CutY(id, y) => {
            assert(!s.rects.contains_key(sub_key(id, 0)));
            assert(!s.rects.contains_key(sub_key(id, 1)));
            lemma_cut_line_divides(s, id, y, n, m, TestCase::line_cut_cost_of(test_id), true);
        },
        OpView::CutX(id, x) => {
            assert(!s.rects.contains_key(sub_key(id, 0)));
            assert(!s.rects.contains_key(sub_key(id, 1)));
            lemma_cut_line_divides(s, id, x, n, m, TestCase::line_cut_cost_of(test_id), false);
        },
        OpView::Merge(id1, id2) => {
            lemma_merge_divides(s, id1, id2, n, m);
        },
        OpView::Color(_, _) => {},
        OpView::Swap(_, _) => {},
    }
}

/// A canvas that is one region is divided by its regions.
pub proof fn lemma_whole_canvas_divides(n: int, m: int, id: nat)
    requires
        1 <= n <= i32::MAX,
        1 <= m <= i32::MAX,
    ensures
        divides(crate::corner_replay::whole_canvas(n, m, id), n, m),
{
    let t = crate::corner_replay::whole_canvas(n, m, id);
    assert forall|x: int, y: int| 0 <= x < n && 0 <= y < m implies #[trigger] in_some(t, x, y) by {
        assert(t.contains_key(decimal(id)) && t[decimal(id)].covers(x, y));
    }
}

} // verus!
