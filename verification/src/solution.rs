//! Stacks of corner-anchored rectangles and the pictures they paint.
//!
//! A rectangle of a stack is anchored at its `from` corner and reaches to
//! the top-right corner of the canvas; a later rectangle paints over an
//! earlier one.  A pixel is owned by the last rectangle whose anchor lies
//! to its left and below it, or on it.

use crate::color::Color;
use crate::corner_replay::corner_rect;
use crate::picture::{filled, is_picture};
use crate::test_case::Rect;
use crate::utils::{is_point_inside, point_inside, Point};
use vstd::prelude::*;

verus! {

/// A rectangle of one colour.
#[derive(Clone, Copy, Debug)]
pub struct SolutionRect {
    pub from: Point,
    pub to: Point,
    pub color: Color,
}

/// The anchor of `r` lies to the left of and below the pixel `(x, y)`, or
/// on it.
pub open spec fn reaches(r: SolutionRect, x: int, y: int) -> bool {
    r.from.x <= x && r.from.y <= y
}

/// The index of the rectangle that owns the pixel `(x, y)`, or `-1` if
/// none does.
pub open spec fn owner(rects: Seq<SolutionRect>, x: int, y: int) -> int
    decreases rects.len(),
{
    if rects.len() == 0 {
        -1
    } else if reaches(rects.last(), x, y) {
        rects.len() - 1
    } else {
        owner(rects.drop_last(), x, y)
    }
}

/// The index of the last rectangle anchored at the pixel `(x, y)`, or `-1`
/// if none is.
pub open spec fn anchored(rects: Seq<SolutionRect>, x: int, y: int) -> int
    decreases rects.len(),
{
    if rects.len() == 0 {
        -1
    } else if rects.last().from.x == x && rects.last().from.y == y {
        rects.len() - 1
    } else {
        anchored(rects.drop_last(), x, y)
    }
}

/// Every rectangle is anchored at a pixel of the canvas.
pub open spec fn anchors_inside(rects: Seq<SolutionRect>, n: int, m: int) -> bool {
    forall|i: int| 0 <= i < rects.len() ==> point_inside((#[trigger] rects[i]).from, n, m)
}

/// Tells whether every rectangle is anchored at a pixel of the canvas.
pub fn are_anchors_inside(rects: &[SolutionRect], n: usize, m: usize) -> (r: bool)
    ensures
        r == anchors_inside(rects@, n as int, m as int),
{
    let mut i: usize = 0;
    while i < rects.len()
        invariant
            i <= rects@.len(),
            forall|k: int|
                0 <= k < i ==> point_inside((#[trigger] rects@[k]).from, n as int, m as int),
        decreases rects@.len() - i,
    {
        if !is_point_inside(rects[i].from, n, m) {
            return false;
        }
        i = i + 1;
    }
    true
}

/// The picture that the stack `rects` paints over `start`.
pub open spec fn rendered(start: Seq<Seq<Color>>, rects: Seq<SolutionRect>) -> Seq<Seq<Color>> {
    Seq::new(
        start.len(),
        |x: int|
            Seq::new(
                start[x].len(),
                |y: int|
                    if owner(rects, x, y) >= 0 {
                        rects[owner(rects, x, y)].color
                    } else {
                        start[x][y]
                    },
            ),
    )
}

/// The picture after each rectangle of `rects`, in order, was filled from
/// its anchor to the top-right corner of the canvas.
pub open spec fn painted_corners(
    start: Seq<Seq<Color>>,
    rects: Seq<SolutionRect>,
    n: int,
    m: int,
) -> Seq<Seq<Color>>
    decreases rects.len(),
{
    if rects.len() == 0 {
        start
    } else {
        filled(
            painted_corners(start, rects.drop_last(), n, m),
            corner_rect(rects.last().from, n, m),
            rects.last().color,
        )
    }
}

/// The picture after each rectangle of `rects`, in order, was filled from
/// its `from` corner to its `to` corner.
pub open spec fn painted_boxes(start: Seq<Seq<Color>>, rects: Seq<SolutionRect>) -> Seq<
    Seq<Color>,
>
    decreases rects.len(),
{
    if rects.len() == 0 {
        start
    } else {
        filled(
            painted_boxes(start, rects.drop_last()),
            Rect { from: rects.last().from, to: rects.last().to },
            rects.last().color,
        )
    }
}

/// The owner of a pixel is the last rectangle that reaches it.
pub proof fn lemma_owner(rects: Seq<SolutionRect>, x: int, y: int)
    ensures
        -1 <= owner(rects, x, y) < rects.len(),
        owner(rects, x, y) >= 0 ==> reaches(rects[owner(rects, x, y)], x, y),
        forall|i: int| owner(rects, x, y) < i < rects.len() ==> !reaches(#[trigger] rects[i], x, y),
    decreases rects.len(),
{
    if rects.len() > 0 {
        lemma_owner(rects.drop_last(), x, y);
        if !reaches(rects.last(), x, y) {
            assert forall|i: int| owner(rects, x, y) < i < rects.len() implies !reaches(
                #[trigger] rects[i],
                x,
                y,
            ) by {
                if i < rects.len() - 1 {
                    assert(rects[i] == rects.drop_last()[i]);
                }
            }
            if owner(rects, x, y) >= 0 {
                assert(rects[owner(rects, x, y)] == rects.drop_last()[owner(rects, x, y)]);
            }
        }
    }
}

/// The last rectangle that reaches a pixel is its owner.
pub proof fn lemma_owner_unique(rects: Seq<SolutionRect>, x: int, y: int, o: int)
    requires
        -1 <= o < rects.len(),
        o >= 0 ==> reaches(rects[o], x, y),
        forall|i: int| o < i < rects.len() ==> !reaches(#[trigger] rects[i], x, y),
    ensures
        owner(rects, x, y) == o,
{
    lemma_owner(rects, x, y);
    let w = owner(rects, x, y);
    if w < o {
        assert(!reaches(rects[o], x, y));
    }
    if o < w {
        assert(!reaches(rects[w], x, y));
    }
}

/// The rectangle anchored last at a pixel is anchored there, and none after
/// it is.
pub proof fn lemma_anchored(rects: Seq<SolutionRect>, x: int, y: int)
    ensures
        -1 <= anchored(rects, x, y) < rects.len(),
        anchored(rects, x, y) >= 0 ==> rects[anchored(rects, x, y)].from.x == x
            && rects[anchored(rects, x, y)].from.y == y,
        forall|i: int|
            anchored(rects, x, y) < i < rects.len() ==> !((#[trigger] rects[i]).from.x == x
                && rects[i].from.y == y),
    decreases rects.len(),
{
    if rects.len() > 0 {
        lemma_anchored(rects.drop_last(), x, y);
        if !(rects.last().from.x == x && rects.last().from.y == y) {
            assert forall|i: int| anchored(rects, x, y) < i < rects.len() implies !((
            #[trigger] rects[i]).from.x == x && rects[i].from.y == y) by {
                if i < rects.len() - 1 {
                    assert(rects[i] == rects.drop_last()[i]);
                }
            }
            if anchored(rects, x, y) >= 0 {
                assert(rects[anchored(rects, x, y)] == rects.drop_last()[anchored(rects, x, y)]);
            }
        }
    }
}

/// The larger of two numbers.
pub open spec fn max2(a: int, b: int) -> int {
    if a >= b {
        a
    } else {
        b
    }
}

/// The owner of a pixel is the last of the rectangle anchored at it, the
/// owner of its left neighbour and the owner of its lower neighbour.
pub proof fn lemma_owner_step(rects: Seq<SolutionRect>, x: int, y: int)
    ensures
        owner(rects, x, y) == max2(
            anchored(rects, x, y),
            max2(owner(rects, x - 1, y), owner(rects, x, y - 1)),
        ),
{
    lemma_owner(rects, x - 1, y);
    lemma_owner(rects, x, y - 1);
    lemma_anchored(rects, x, y);
    let a = anchored(rects, x, y);
    let l = owner(rects, x - 1, y);
    let d = owner(rects, x, y - 1);
    let o = max2(a, max2(l, d));
    assert forall|i: int| o < i < rects.len() implies !reaches(#[trigger] rects[i], x, y) by {
        if reaches(rects[i], x, y) {
            if rects[i].from.x < x {
                assert(reaches(rects[i], x - 1, y));
            } else if rects[i].from.y < y {
                assert(reaches(rects[i], x, y - 1));
            }
        }
    }
    lemma_owner_unique(rects, x, y, o);
}

/// Ownership depends on the anchors alone.
pub proof fn lemma_owner_same_anchors(
    a: Seq<SolutionRect>,
    b: Seq<SolutionRect>,
    x: int,
    y: int,
)
    requires
        a.len() == b.len(),
        forall|i: int| 0 <= i < a.len() ==> (#[trigger] a[i]).from == b[i].from,
    ensures
        owner(a, x, y) == owner(b, x, y),
    decreases a.len(),
{
    if a.len() > 0 {
        assert(a.last().from == b.last().from);
        assert forall|i: int| 0 <= i < a.drop_last().len() implies (
        #[trigger] a.drop_last()[i]).from == b.drop_last()[i].from by {
            assert(a[i].from == b[i].from);
        }
        lemma_owner_same_anchors(a.drop_last(), b.drop_last(), x, y);
    }
}

/// Painting the rectangles from their anchors to the corner, in order,
/// gives every pixel the colour of its owner.
pub proof fn lemma_rendered_is_painted(
    start: Seq<Seq<Color>>,
    rects: Seq<SolutionRect>,
    n: int,
    m: int,
)
    requires
        is_picture(start, n, m),
        n <= i32::MAX,
        m <= i32::MAX,
    ensures
        rendered(start, rects) == painted_corners(start, rects, n, m),
        is_picture(rendered(start, rects), n, m),
    decreases rects.len(),
{
    let r = rendered(start, rects);
    assert(is_picture(r, n, m)) by {
        assert forall|x: int| 0 <= x < n implies (#[trigger] r[x]).len() == m by {
            assert(start[x].len() == m);
        }
    }
    if rects.len() == 0 {
        assert forall|x: int| 0 <= x < n implies #[trigger] r[x] =~= start[x] by {
            assert(start[x].len() == m);
        }
        assert(r =~= start);
    } else {
        let prev = rects.drop_last();
        lemma_rendered_is_painted(start, prev, n, m);
        let q = rendered(start, prev);
        let last = rects.last();
        let f = filled(q, corner_rect(last.from, n, m), last.color);
        assert(r.len() == f.len());
        assert forall|x: int| 0 <= x < n implies #[trigger] r[x] =~= f[x] by {
            assert(start[x].len() == m);
            assert(q[x].len() == m);
            assert forall|y: int| 0 <= y < m implies r[x][y] == f[x][y] by {
                if reaches(last, x, y) {
                    assert(corner_rect(last.from, n, m).covers(x, y));
                } else {
                    assert(!corner_rect(last.from, n, m).covers(x, y));
                    let o = owner(prev, x, y);
                    lemma_owner(prev, x, y);
                    if o >= 0 {
                        assert(prev[o] == rects[o]);
                    }
                }
            }
        }
        assert(r =~= f);
    }
}

/// The pixel `(x, y)` lies in the box of `r`.
pub open spec fn holds(r: SolutionRect, x: int, y: int) -> bool {
    r.from.x <= x < r.to.x && r.from.y <= y < r.to.y
}

/// A rectangle after position `i` holds the pixel `(x, y)` in its box.
pub open spec fn held_later(rects: Seq<SolutionRect>, i: int, x: int, y: int) -> bool {
    exists|j: int| i < j < rects.len() && holds(#[trigger] rects[j], x, y)
}

/// Every pixel of the canvas that a rectangle reaches from its anchor, but
/// does not hold in its box, lies in the box of a later rectangle.
pub open spec fn tiled_in_order(rects: Seq<SolutionRect>, n: int, m: int) -> bool {
    forall|i: int, x: int, y: int|
        0 <= i < rects.len() && 0 <= x < n && 0 <= y < m && reaches(rects[i], x, y) && !holds(
            rects[i],
            x,
            y,
        ) ==> #[trigger] held_later(rects, i, x, y)
}

/// The index of the last rectangle that holds the pixel `(x, y)` in its
/// box, or `-1` if none does.
pub open spec fn box_owner(rects: Seq<SolutionRect>, x: int, y: int) -> int
    decreases rects.len(),
{
    if rects.len() == 0 {
        -1
    } else if holds(rects.last(), x, y) {
        rects.len() - 1
    } else {
        box_owner(rects.drop_last(), x, y)
    }
}

/// The last rectangle that holds a pixel holds it, and none after it does.
pub proof fn lemma_box_owner(rects: Seq<SolutionRect>, x: int, y: int)
    ensures
        -1 <= box_owner(rects, x, y) < rects.len(),
        box_owner(rects, x, y) >= 0 ==> holds(rects[box_owner(rects, x, y)], x, y),
        forall|i: int|
            box_owner(rects, x, y) < i < rects.len() ==> !holds(#[trigger] rects[i], x, y),
    decreases rects.len(),
{
    if rects.len() > 0 {
        lemma_box_owner(rects.drop_last(), x, y);
        if !holds(rects.last(), x, y) {
            assert forall|i: int| box_owner(rects, x, y) < i < rects.len() implies !holds(
                #[trigger] rects[i],
                x,
                y,
            ) by {
                if i < rects.len() - 1 {
                    assert(rects[i] == rects.drop_last()[i]);
                }
            }
            if box_owner(rects, x, y) >= 0 {
                assert(rects[box_owner(rects, x, y)] == rects.drop_last()[box_owner(rects, x, y)]);
            }
        }
    }
}

/// Painting the boxes in order gives every pixel the colour of the last
/// rectangle that holds it.
pub proof fn lemma_painted_boxes(start: Seq<Seq<Color>>, rects: Seq<SolutionRect>, n: int, m: int)
    requires
        is_picture(start, n, m),
    ensures
        is_picture(painted_boxes(start, rects), n, m),
        forall|x: int, y: int|
            0 <= x < n && 0 <= y < m ==> (#[trigger] painted_boxes(start, rects)[x][y]) == (
            if box_owner(rects, x, y) >= 0 {
                rects[box_owner(rects, x, y)].color
            } else {
                start[x][y]
            }),
    decreases rects.len(),
{
    if rects.len() > 0 {
        let prev = rects.drop_last();
        lemma_painted_boxes(start, prev, n, m);
        let q = painted_boxes(start, prev);
        let last = rects.last();
        let f = painted_boxes(start, rects);
        assert forall|x: int| 0 <= x < n implies (#[trigger] f[x]).len() == m by {
            assert(q[x].len() == m);
        }
        assert forall|x: int, y: int| 0 <= x < n && 0 <= y < m implies (#[trigger] f[x][y]) == (
        if box_owner(rects, x, y) >= 0 {
            rects[box_owner(rects, x, y)].color
        } else {
            start[x][y]
        }) by {
            assert(q[x].len() == m);
            if !holds(last, x, y) {
                let o = box_owner(prev, x, y);
                lemma_box_owner(prev, x, y);
                assert(f[x][y] == q[x][y]);
                if o >= 0 {
                    assert(prev[o] == rects[o]);
                }
            }
        }
    }
}

/// In a stack that is tiled in order, the last rectangle that holds a
/// pixel of the canvas in its box is the owner of the pixel.
pub proof fn lemma_box_owner_is_owner(rects: Seq<SolutionRect>, n: int, m: int, x: int, y: int)
    requires
        tiled_in_order(rects, n, m),
        0 <= x < n,
        0 <= y < m,
    ensures
        box_owner(rects, x, y) == owner(rects, x, y),
{
    lemma_owner(rects, x, y);
    lemma_box_owner(rects, x, y);
    let o = owner(rects, x, y);
    let b = box_owner(rects, x, y);
    if b >= 0 {
        assert(reaches(rects[b], x, y));
    }
    if o >= 0 && b < o {
        assert(!holds(rects[o], x, y));
        assert(held_later(rects, o, x, y));
        let j = choose|j: int| o < j < rects.len() && holds(#[trigger] rects[j], x, y);
        assert(reaches(rects[j], x, y));
    }
}

/// A stack that is tiled in order paints the same picture box by box as it
/// does corner by corner.
pub proof fn lemma_boxes_are_corners(
    start: Seq<Seq<Color>>,
    rects: Seq<SolutionRect>,
    n: int,
    m: int,
)
    requires
        is_picture(start, n, m),
        n <= i32::MAX,
        m <= i32::MAX,
        tiled_in_order(rects, n, m),
    ensures
        painted_boxes(start, rects) == painted_corners(start, rects, n, m),
        painted_boxes(start, rects) == rendered(start, rects),
{
    lemma_rendered_is_painted(start, rects, n, m);
    lemma_painted_boxes(start, rects, n, m);
    let a = painted_boxes(start, rects);
    let b = rendered(start, rects);
    assert forall|x: int| 0 <= x < n implies #[trigger] a[x] =~= b[x] by {
        assert(start[x].len() == m);
        assert forall|y: int| 0 <= y < m implies a[x][y] == b[x][y] by {
            lemma_box_owner_is_owner(rects, n, m, x, y);
        }
    }
    assert(a =~= b);
}

} // verus!
