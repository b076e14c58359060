//! Frames of an animation of a program: the outlines of the regions that
//! are alive.

use crate::interpreter::{
    initial_state, lemma_run_fails, lemma_run_next, replay, run, Canvas, CanvasState, OpError,
    MAX_OP_COST,
};
use crate::op::{ops_view, Op, OpView};
use crate::test_case::{Rect, TestCase};
use vstd::prelude::*;

verus! {

/// Side of a frame, in pixels.
pub const WIDTH: usize = 401;

/// The regions that are alive at one moment of a replay.
#[derive(Debug)]
pub struct Frame {
    pub rects: Vec<Rect>,
}

/// The pixel `(x, y)` lies on the outline of the rectangle `r`, whose `to`
/// corner counts as part of it: on one of its two sides along `x`, or on
/// one of its two sides along `y`.
pub open spec fn on_outline(r: Rect, x: int, y: int) -> bool {
    (r.from.x <= x <= r.to.x && (y == r.from.y || y == r.to.y)) || (r.from.y <= y <= r.to.y && (x
        == r.from.x || x == r.to.x))
}

/// The pixel `(x, y)` lies on the outline of one of the first `k`
/// rectangles of `rects`.
pub open spec fn outlined(rects: Seq<Rect>, k: int, x: int, y: int) -> bool {
    exists|i: int| 0 <= i < k && on_outline(#[trigger] rects[i], x, y)
}

/// The pixel `(x, y)` lies on a side of the rectangle `r` that runs along
/// `x`, before the column `upto`.
pub open spec fn on_rows(r: Rect, x: int, y: int, upto: int) -> bool {
    r.from.x <= x < upto && x <= r.to.x && (y == r.from.y || y == r.to.y)
}

/// The pixel `(x, y)` lies on a side of the rectangle `r` that runs along
/// `y`, before the row `upto`.
pub open spec fn on_columns(r: Rect, x: int, y: int, upto: int) -> bool {
    r.from.y <= y < upto && y <= r.to.y && (x == r.from.x || x == r.to.x)
}

/// The place of the pixel `(x, y)` in the picture of a frame.
pub open spec fn pixel_index(x: int, y: int) -> int {
    x * 401 + y
}

/// Different pixels have different places.
pub proof fn lemma_pixel_index(u: int, v: int, x: int, y: int)
    requires
        0 <= u < WIDTH,
        0 <= v < WIDTH,
        0 <= x < WIDTH,
        0 <= y < WIDTH,
    ensures
        0 <= pixel_index(u, v) < WIDTH * WIDTH,
        pixel_index(u, v) == pixel_index(x, y) <==> u == x && v == y,
{
}

/// The place of the pixel `(x, y)` in the picture of a frame.
fn id(x: usize, y: usize) -> (r: usize)
    requires
        x < WIDTH,
        y < WIDTH,
    ensures
        r == pixel_index(x as int, y as int),
        r < WIDTH * WIDTH,
{
    x * WIDTH + y
}

/// The picture of a frame: a byte for each pixel, column by column, that
/// is one on the outlines of the regions and zero elsewhere.
pub fn gen_picture_by_frame(frame: &Frame) -> (res: Vec<u8>)
    requires
        forall|i: int|
            0 <= i < frame.rects@.len() ==> 0 <= (#[trigger] frame.rects@[i]).from.x < WIDTH && 0
                <= frame.rects@[i].from.y < WIDTH && 0 <= frame.rects@[i].to.x < WIDTH && 0
                <= frame.rects@[i].to.y < WIDTH,
    ensures
        res@.len() == WIDTH * WIDTH,
        forall|x: int, y: int|
            0 <= x < WIDTH && 0 <= y < WIDTH ==> (#[trigger] res@[pixel_index(x, y)]) == (if outlined(
                frame.rects@,
                frame.rects@.len() as int,
                x,
                y,
            ) {
                1u8
            } else {
                0u8
            }),
{
    let mut res: Vec<u8> = Vec::new();
    let mut i: usize = 0;
    while i < WIDTH * WIDTH
        invariant
            i <= WIDTH * WIDTH,
            res@.len() == i,
            forall|k: int| 0 <= k < i ==> res@[k] == 0,
        decreases WIDTH * WIDTH - i,
    {
        res.push(0);
        i = i + 1;
    }
    let ghost rects = frame.rects@;
    let mut k: usize = 0;
    while k < frame.rects.len()
        invariant
            k <= rects.len(),
            rects == frame.rects@,
            res@.len() == WIDTH * WIDTH,
            forall|i: int|
                0 <= i < rects.len() ==> 0 <= (#[trigger] rects[i]).from.x < WIDTH && 0
                    <= rects[i].from.y < WIDTH && 0 <= rects[i].to.x < WIDTH && 0 <= rects[i].to.y
                    < WIDTH,
            forall|x: int, y: int|
                0 <= x < WIDTH && 0 <= y < WIDTH ==> (#[trigger] res@[pixel_index(x, y)]) == (
                if outlined(rects, k as int, x, y) {
                    1u8
                } else {
                    0u8
                }),
        decreases rects.len() - k,
    {
        let rect = frame.rects[k];
        assert(rect == rects[k as int]);
        let x1 = rect.from.x as usize;
        let y1 = rect.from.y as usize;
        let x2 = rect.to.x as usize;
        let y2 = rect.to.y as usize;
        let mut x: usize = x1;
        while x <= x2
            invariant
                x1 <= x,
                x <= x2 + 1 || x == x1,
                x1 < WIDTH,
                y1 < WIDTH,
                x2 < WIDTH,
                y2 < WIDTH,
                x1 == rect.from.x,
                y1 == rect.from.y,
                x2 == rect.to.x,
                y2 == rect.to.y,
                res@.len() == WIDTH * WIDTH,
                forall|u: int, v: int|
                    0 <= u < WIDTH && 0 <= v < WIDTH ==> (#[trigger] res@[pixel_index(u, v)]) == (
                    if outlined(rects, k as int, u, v) || on_rows(rect, u, v, x as int) {
                        1u8
                    } else {
                        0u8
                    }),
            decreases x2 + 1 - x,
        {
            let ghost before = res@;
            res[id(x, y1)] = 1;
            let ghost middle = res@;
            res[id(x, y2)] = 1;
            proof {
                assert forall|u: int, v: int| 0 <= u < WIDTH && 0 <= v < WIDTH implies (
                #[trigger] res@[pixel_index(u, v)]) == (if outlined(rects, k as int, u, v)
                    || on_rows(rect, u, v, x + 1) {
                    1u8
                } else {
                    0u8
                }) by {
                    lemma_pixel_index(u, v, x as int, y1 as int);
                    lemma_pixel_index(u, v, x as int, y2 as int);
                    assert(before[pixel_index(u, v)] == (if outlined(rects, k as int, u, v)
                        || on_rows(rect, u, v, x as int) {
                        1u8
                    } else {
                        0u8
                    }));
                }
            }
            x = x + 1;
        }
        let mut y: usize = y1;
        while y <= y2
            invariant
                y1 <= y,
                y <= y2 + 1 || y == y1,
                x1 < WIDTH,
                y1 < WIDTH,
                x2 < WIDTH,
                y2 < WIDTH,
                x1 == rect.from.x,
                y1 == rect.from.y,
                x2 == rect.to.x,
                y2 == rect.to.y,
                res@.len() == WIDTH * WIDTH,
                forall|u: int, v: int|
                    0 <= u < WIDTH && 0 <= v < WIDTH ==> (#[trigger] res@[pixel_index(u, v)]) == (
                    if outlined(rects, k as int, u, v) || on_rows(rect, u, v, x2 + 1)
                        || on_columns(rect, u, v, y as int) {
                        1u8
                    } else {
                        0u8
                    }),
            decreases y2 + 1 - y,
        {
            let ghost before = res@;
            res[id(x1, y)] = 1;
            res[id(x2, y)] = 1;
            proof {
                assert forall|u: int, v: int| 0 <= u < WIDTH && 0 <= v < WIDTH implies (
                #[trigger] res@[pixel_index(u, v)]) == (if outlined(rects, k as int, u, v)
                    || on_rows(rect, u, v, x2 + 1) || on_columns(rect, u, v, y + 1) {
                    1u8
                } else {
                    0u8
                }) by {
                    lemma_pixel_index(u, v, x1 as int, y as int);
                    lemma_pixel_index(u, v, x2 as int, y as int);
                    assert(before[pixel_index(u, v)] == (if outlined(rects, k as int, u, v)
                        || on_rows(rect, u, v, x2 + 1) || on_columns(rect, u, v, y as int) {
                        1u8
                    } else {
                        0u8
                    }));
                }
            }
            y = y + 1;
        }
        proof {
            assert forall|u: int, v: int| 0 <= u < WIDTH && 0 <= v < WIDTH implies (
            #[trigger] res@[pixel_index(u, v)]) == (if outlined(rects, k + 1, u, v) {
                1u8
            } else {
                0u8
            }) by {
                if outlined(rects, k + 1, u, v) {
                    let i = choose|i: int| 0 <= i < k + 1 && on_outline(#[trigger] rects[i], u, v);
                    if i < k {
                        assert(outlined(rects, k as int, u, v));
                    }
                } else {
                    assert(!on_outline(rects[k as int], u, v));
                    if outlined(rects, k as int, u, v) {
                        let i = choose|i: int|
                            0 <= i < k && on_outline(#[trigger] rects[i], u, v);
                        assert(on_outline(rects[i], u, v));
                    }
                }
            }
        }
        k = k + 1;
    }
    res
}

/// The frame holds the rectangles of the regions that are alive in the
/// state `s`, all of them and no others.
pub open spec fn shows_regions(frame: Frame, s: CanvasState) -> bool {
    &&& forall|i: int| 0 <= i < frame.rects@.len() ==> s.rects.values().contains(#[trigger] frame.rects@[i])
    &&& forall|k: Seq<u8>| s.rects.contains_key(k) ==> frame.rects@.contains(#[trigger] s.rects[k])
}

/// The frame holds the regions that are alive after the first `i`
/// operations of the program `ops` on the canvas of `tc`.
pub open spec fn frame_after(tc: TestCase, ops: Seq<OpView>, i: int, frame: Frame) -> bool {
    match run(initial_state(tc), ops.take(i), tc.n(), tc.m(), tc.test_id) {
        Ok(s) => shows_regions(frame, s),
        Err(_) => false,
    }
}

/// Every rectangle of the frame lies inside a canvas of `n` columns and
/// `m` rows.
pub open spec fn frame_inside(frame: Frame, n: int, m: int) -> bool {
    forall|i: int| 0 <= i < frame.rects@.len() ==> (#[trigger] frame.rects@[i]).inside(n, m)
}

/// The frames of the replay of the program `ops` on the canvas of
/// `test_case`: one of the canvas as it starts, and one after each
/// operation.  Where the replay fails there are no frames, but the reason
/// why it fails.
pub fn gen_frames(ops: &[Op], test_case: &TestCase) -> (res: Result<Vec<Frame>, OpError>)
    requires
        test_case.wf(),
        test_case.regions@.len() + ops@.len() <= usize::MAX,
    ensures
        match replay(*test_case, ops@) {
            Ok(_) => res is Ok && res->Ok_0@.len() == ops@.len() + 1 && forall|i: int|
                0 <= i <= ops@.len() ==> frame_after(
                    *test_case,
                    ops_view(ops@),
                    i,
                    #[trigger] res->Ok_0@[i],
                ) && frame_inside(res->Ok_0@[i], test_case.n(), test_case.m()),
            Err(e) => res is Err && res->Err_0 == e,
        },
{
    let mut canvas = Canvas::new(test_case);
    let ghost init = initial_state(*test_case);
    let ghost all = ops_view(ops@);
    let ghost n = test_case.n();
    let ghost m = test_case.m();
    let mut frames: Vec<Frame> = Vec::new();
    let mut i: usize = 0;
    assert(all.take(0) =~= Seq::<OpView>::empty());
    while i < ops.len()
        invariant
            i <= ops@.len(),
            all == ops_view(ops@),
            all.len() == ops@.len(),
            init == initial_state(*test_case),
            n == test_case.n(),
            m == test_case.m(),
            test_case.regions@.len() + ops@.len() <= usize::MAX,
            test_case.regions@.len() >= 1,
            canvas.wf(),
            canvas.n == n,
            canvas.m == m,
            canvas.test_id == test_case.test_id,
            canvas.cost <= i * MAX_OP_COST,
            canvas.last_rect_id <= test_case.regions@.len() - 1 + i,
            run(init, all.take(i as int), n, m, test_case.test_id) == Ok::<CanvasState, OpError>(
                canvas@,
            ),
            frames@.len() == i,
            forall|k: int|
                0 <= k < i ==> frame_after(*test_case, all, k, #[trigger] frames@[k])
                    && frame_inside(frames@[k], n, m),
        decreases ops@.len() - i,
    {
        proof {
            assert(i * MAX_OP_COST + MAX_OP_COST <= u128::MAX) by (nonlinear_arith)
                requires
                    i <= usize::MAX,
                    MAX_OP_COST == 42_948_362_250,
            ;
            lemma_run_next(init, all, i as int, n, m, test_case.test_id);
            assert(all[i as int] == ops@[i as int]@);
            assert((i + 1) * MAX_OP_COST == i * MAX_OP_COST + MAX_OP_COST) by (nonlinear_arith);
        }
        let frame = frame_of(&canvas);
        frames.push(frame);
        match canvas.apply(&ops[i]) {
            Ok(()) => {},
            Err(e) => {
                proof {
                    lemma_run_fails(init, all, i + 1, n, m, test_case.test_id);
                }
                return Err(e);
            },
        }
        i = i + 1;
    }
    let frame = frame_of(&canvas);
    frames.push(frame);
    proof {
        assert(all.take(i as int) =~= all);
    }
    Ok(frames)
}

/// The regions that are alive on the canvas.
fn frame_of(canvas: &Canvas) -> (frame: Frame)
    requires
        canvas.wf(),
    ensures
        shows_regions(frame, canvas@),
        frame_inside(frame, canvas.n as int, canvas.m as int),
{
    let frame = Frame { rects: canvas.rects.rects() };
    proof {
        assert forall|i: int| 0 <= i < frame.rects@.len() implies (#[trigger] frame.rects@[i]).inside(
            canvas.n as int,
            canvas.m as int,
        ) by {
            assert(canvas@.rects.values().contains(frame.rects@[i]));
            let k = choose|k: Seq<u8>|
                canvas@.rects.contains_key(k) && #[trigger] canvas@.rects[k] == frame.rects@[i];
            assert(canvas@.rects.contains_key(k));
        }
    }
    frame
}

/// An animation of `frames` shows the first `k` of them: those up to the
/// first that holds one region only, with that one, or all of them if
/// there is none.
pub open spec fn shows_first(frames: Seq<Frame>, k: int) -> bool {
    &&& 0 <= k <= frames.len()
    &&& frames.len() >= 1 ==> k >= 1
    &&& forall|i: int| 0 <= i < k - 1 ==> (#[trigger] frames[i]).rects@.len() != 1
    &&& k < frames.len() ==> frames[k - 1].rects@.len() == 1
}

/// Number of frames that an animation shows.
pub fn frames_shown(frames: &Vec<Frame>) -> (k: usize)
    ensures
        shows_first(frames@, k as int),
{
    let mut i: usize = 0;
    while i < frames.len()
        invariant
            i <= frames@.len(),
            forall|j: int| 0 <= j < i ==> (#[trigger] frames@[j]).rects@.len() != 1,
        decreases frames@.len() - i,
    {
        if frames[i].rects.len() == 1 {
            return i + 1;
        }
        i = i + 1;
    }
    i
}

} // verus!
