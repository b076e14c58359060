//! Turning an instance and its program by quarter turns, until the program
//! fills rectangles at the top-right corner only.

use crate::color::Color;
use crate::consts::{MAX_SIDE, SCORE_SCALE};
use crate::interpreter::{lemma_replay_error, replay, try_apply_ops, OpError, MAX_OP_COST};
use crate::op::{ops_view, Op, OpView};
use crate::picture::{cells, new_picture};
use crate::pixel_dist::{get_pixel_distance, pixel_distance};
use crate::rect_id::{is_dotted, part_values, parts, rect_id_from_vec, rect_id_parts, dotted};
use crate::solve::{is_solved, solve_fails, SolutionRes};
use crate::test_case::{is_grid, Rect, Region, TestCase};
use crate::utils::Point;
use vstd::prelude::*;

verus! {

/// The kind of the cut that a program made last.
#[derive(Clone, Copy, Debug, PartialEq, Eq, Structural)]
pub enum LastCut {
    NoCut,
    AtPoint,
    AlongY,
    AlongX,
}

/// An instance and a program that were turned `rotated` quarter turns
/// clockwise.
pub struct Rotator {
    pub test_case: TestCase,
    pub ops: Vec<Op>,
    pub rotated: i32,
}

/// The index that part `i` of a region cut at a point has after a quarter
/// turn.
pub open spec fn turned_index(i: usize) -> usize {
    if i == 0 {
        3
    } else {
        (i - 1) as usize
    }
}

/// The numbers `v` with the last one replaced by `last`.
pub open spec fn with_last(v: Seq<usize>, last: usize) -> Seq<usize> {
    v.update(v.len() - 1, last)
}

/// The name `id` as it reads after a quarter turn, if the last cut was of
/// kind `cut`: the index of a part of a point cut is turned, and the two
/// parts of a vertical cut change places.
pub open spec fn turned_color_id(id: Seq<u8>, cut: LastCut) -> Seq<u8> {
    let v = part_values(parts(id));
    match cut {
        LastCut::AtPoint => dotted(with_last(v, turned_index(v.last()))),
        LastCut::AlongX => dotted(with_last(v, v.last() ^ 1)),
        _ => dotted(v),
    }
}

/// The operation `op` as it reads after a quarter turn clockwise of a
/// canvas of side `n`, if the last cut before it was of kind `cut`.
#[verifier::opaque]
pub open spec fn turned_op(op: OpView, cut: LastCut, n: i32) -> OpView {
    match op {
        OpView::CutPoint(id, p) => OpView::CutPoint(
            id,
            Point { x: p.y, y: (n - p.x) as i32 },
        ),
        OpView::Color(id, color) => OpView::Color(turned_color_id(id, cut), color),
        OpView::CutY(id, y) => OpView::CutX(id, y),
        OpView::CutX(id, x) => OpView::CutY(id, (n - x) as i32),
        OpView::Merge(a, b) => if cut == LastCut::AtPoint && parts(a).len() != 1 {
            OpView::Merge(
                dotted(
                    with_last(
                        part_values(parts(a)),
                        turned_index(part_values(parts(a)).last()),
                    ),
                ),
                dotted(
                    with_last(
                        part_values(parts(b)),
                        turned_index(part_values(parts(b)).last()),
                    ),
                ),
            )
        } else {
            OpView::Merge(a, b)
        },
        OpView::Swap(a, b) => OpView::Swap(a, b),
    }
}

/// The kind of the last cut after the operation `op`, if it was `cut`
/// before.
pub open spec fn cut_after(op: OpView, cut: LastCut) -> LastCut {
    match op {
        OpView::CutPoint(_, _) => LastCut::AtPoint,
        OpView::CutY(_, _) => LastCut::AlongY,
        OpView::CutX(_, _) => LastCut::AlongX,
        _ => cut,
    }
}

/// The kind of the last cut of the program `ops`.
pub open spec fn last_cut(ops: Seq<OpView>) -> LastCut
    decreases ops.len(),
{
    if ops.len() == 0 {
        LastCut::NoCut
    } else {
        cut_after(ops.last(), last_cut(ops.drop_last()))
    }
}

/// The names that a turn rewrites in the operation `op` are made of
/// numbers joined by dots, and the turned coordinates fit.
#[verifier::opaque]
pub open spec fn can_turn(op: OpView, cut: LastCut, n: i32) -> bool {
    match op {
        OpView::CutPoint(_, p) => i32::MIN <= n - p.x <= i32::MAX,
        OpView::Color(id, _) => is_dotted(id),
        OpView::CutX(_, x) => i32::MIN <= n - x <= i32::MAX,
        OpView::Merge(a, b) => is_dotted(a) && is_dotted(b),
        _ => true,
    }
}

/// The program `ops` as it reads after a quarter turn clockwise of a
/// canvas of side `n`.
pub open spec fn turned_ops(ops: Seq<OpView>, n: i32) -> Seq<OpView>
    decreases ops.len(),
{
    if ops.len() == 0 {
        Seq::empty()
    } else {
        turned_ops(ops.drop_last(), n).push(
            turned_op(ops.last(), last_cut(ops.drop_last()), n),
        )
    }
}

/// Every operation of the program `ops` can be turned.
pub open spec fn all_can_turn(ops: Seq<OpView>, n: i32) -> bool {
    forall|i: int| 0 <= i < ops.len() ==> can_turn(#[trigger] ops[i], last_cut(ops.take(i)), n)
}

/// The name made of the numbers `v`, the last one replaced by its turned
/// index if `turn` is set, or by the index of the other part of a cut in
/// two.
fn rewrite_last(v: &mut Vec<usize>, turn: bool)
    requires
        old(v)@.len() >= 1,
    ensures
        final(v)@ == with_last(
            old(v)@,
            if turn {
                turned_index(old(v)@.last())
            } else {
                old(v)@.last() ^ 1
            },
        ),
{
    let sz = v.len() - 1;
    let last = v[sz];
    if turn {
        if last == 0 {
            v[sz] = 3;
        } else {
            v[sz] = last - 1;
        }
    } else {
        v[sz] = last ^ 1;
    }
}

/// A name has at least one part.
pub proof fn lemma_parts_nonempty(s: Seq<u8>, cur: Seq<u8>)
    ensures
        crate::rect_id::parts_after(s, cur).len() >= 1,
    decreases s.len(),
{
    if s.len() > 0 {
        if s[0] == crate::rect_id::DOT {
            lemma_parts_nonempty(s.drop_first(), Seq::empty());
        } else {
            lemma_parts_nonempty(s.drop_first(), cur.push(s[0]));
        }
    }
}

/// The operation `op` as it reads after a quarter turn clockwise of a
/// canvas of side `side`, if the last cut before it was of kind `cut`.
pub fn rotate_op(op: &Op, cut: LastCut, side: i32) -> (res: Result<Op, OpError>)
    ensures
        match res {
            Ok(o) => can_turn(op@, cut, side) && o@ == turned_op(op@, cut, side),
            Err(e) => !can_turn(op@, cut, side) && (e == OpError::BadId || e == OpError::TooLarge),
        },
{
    reveal(turned_op);
    reveal(can_turn);
    match op {
        Op::CutPoint(id, p) => {
            let y: i64 = side as i64 - p.x as i64;
            if y < i32::MIN as i64 || y > i32::MAX as i64 {
                return Err(OpError::TooLarge);
            }
            Ok(Op::CutPoint(id.clone(), Point::new(p.y, y as i32)))
        },
        Op::Color(id, color) => {
            let mut id_vec = match rect_id_parts(id) {
                Some(v) => v,
                None => {
                    return Err(OpError::BadId);
                },
            };
            proof {
                lemma_parts_nonempty(id@, Seq::empty());
            }
            match cut {
                LastCut::AtPoint => {
                    rewrite_last(&mut id_vec, true);
                },
                LastCut::AlongX => {
                    rewrite_last(&mut id_vec, false);
                },
                _ => {},
            }
            Ok(Op::Color(rect_id_from_vec(id_vec.as_slice()), *color))
        },
        Op::CutY(id, y_pos) => Ok(Op::CutX(id.clone(), *y_pos)),
        Op::CutX(id, x_pos) => {
            let y: i64 = side as i64 - *x_pos as i64;
            if y < i32::MIN as i64 || y > i32::MAX as i64 {
                return Err(OpError::TooLarge);
            }
            Ok(Op::CutY(id.clone(), y as i32))
        },
        Op::Merge(id1, id2) => {
            let mut id1_vec = match rect_id_parts(id1) {
                Some(v) => v,
                None => {
                    return Err(OpError::BadId);
                },
            };
            let mut id2_vec = match rect_id_parts(id2) {
                Some(v) => v,
                None => {
                    return Err(OpError::BadId);
                },
            };
            proof {
                lemma_parts_nonempty(id1@, Seq::empty());
                lemma_parts_nonempty(id2@, Seq::empty());
            }
            if cut == LastCut::AtPoint && id1_vec.len() != 1 {
                rewrite_last(&mut id1_vec, true);
                rewrite_last(&mut id2_vec, true);
                Ok(
                    Op::Merge(
                        rect_id_from_vec(id1_vec.as_slice()),
                        rect_id_from_vec(id2_vec.as_slice()),
                    ),
                )
            } else {
                Ok(Op::Merge(id1.clone(), id2.clone()))
            }
        },
        Op::Swap(id1, id2) => Ok(Op::Swap(id1.clone(), id2.clone())),
    }
}

/// The kind of the last cut after the operation `op`, if it was `cut`
/// before.
pub fn next_cut(op: &Op, cut: LastCut) -> (r: LastCut)
    ensures
        r == cut_after(op@, cut),
{
    match op {
        Op::CutPoint(_, _) => LastCut::AtPoint,
        Op::CutY(_, _) => LastCut::AlongY,
        Op::CutX(_, _) => LastCut::AlongX,
        _ => cut,
    }
}

/// Turning one more operation of a program continues the turned program.
proof fn lemma_turned_next(all: Seq<OpView>, i: int, side: i32)
    requires
        0 <= i < all.len(),
    ensures
        turned_ops(all.take(i + 1), side) == turned_ops(all.take(i), side).push(
            turned_op(all[i], last_cut(all.take(i)), side),
        ),
        last_cut(all.take(i + 1)) == cut_after(all[i], last_cut(all.take(i))),
{
    assert(all.take(i + 1).drop_last() =~= all.take(i));
    assert(all.take(i + 1).last() == all[i]);
}

/// The program `ops` as it reads after a quarter turn clockwise of a
/// canvas of side `n`, or why an operation cannot be turned: `BadId` if a
/// name that the turn rewrites is not made of numbers joined by dots.
pub fn rotate_ops_cw(ops: &[Op], n: usize) -> (res: Result<Vec<Op>, OpError>)
    requires
        n <= MAX_SIDE,
    ensures
        match res {
            Ok(v) => all_can_turn(ops_view(ops@), n as i32) && ops_view(v@) == turned_ops(
                ops_view(ops@),
                n as i32,
            ),
            Err(e) => !all_can_turn(ops_view(ops@), n as i32) && (e == OpError::BadId || e
                == OpError::TooLarge),
        },
{
    let side = n as i32;
    let ghost all = ops_view(ops@);
    let mut cut = LastCut::NoCut;
    let mut new_ops: Vec<Op> = Vec::new();
    let mut i: usize = 0;
    assert(all.take(0) =~= Seq::<OpView>::empty());
    assert(ops_view(new_ops@) =~= Seq::<OpView>::empty());
    while i < ops.len()
        invariant
            i <= ops@.len(),
            all == ops_view(ops@),
            side == n as i32,
            cut == last_cut(all.take(i as int)),
            ops_view(new_ops@) == turned_ops(all.take(i as int), side),
            forall|k: int| 0 <= k < i ==> can_turn(#[trigger] all[k], last_cut(all.take(k)), side),
        decreases ops@.len() - i,
    {
        proof {
            lemma_turned_next(all, i as int, side);
            assert(all[i as int] == ops@[i as int]@);
        }
        let ghost before = ops_view(new_ops@);
        let converted = match rotate_op(&ops[i], cut, side) {
            Ok(o) => o,
            Err(e) => {
                return Err(e);
            },
        };
        cut = next_cut(&ops[i], cut);
        new_ops.push(converted);
        proof {
            assert(ops_view(new_ops@) =~= before.push(converted@));
        }
        i = i + 1;
    }
    proof {
        assert(all.take(i as int) =~= all);
    }
    Ok(new_ops)
}

/// The picture `a` of a square canvas after a quarter turn clockwise.
pub fn rotate_field_cw(a: &Vec<Vec<Color>>, n: usize) -> (res: Vec<Vec<Color>>)
    requires
        is_grid(a@, n as int, n as int),
    ensures
        is_grid(res@, n as int, n as int),
        forall|x: int, y: int|
            0 <= x < n && 0 <= y < n ==> res@[y]@[n - 1 - x] == #[trigger] a@[x]@[y],
{
    let mut res = new_picture(Color([0, 0, 0, 0]), n, n);
    let mut x: usize = 0;
    while x < n
        invariant
            x <= n,
            is_grid(a@, n as int, n as int),
            is_grid(res@, n as int, n as int),
            forall|u: int, v: int|
                0 <= u < x && 0 <= v < n ==> res@[v]@[n - 1 - u] == #[trigger] a@[u]@[v],
        decreases n - x,
    {
        let mut y: usize = 0;
        while y < n
            invariant
                x < n,
                y <= n,
                is_grid(a@, n as int, n as int),
                is_grid(res@, n as int, n as int),
                forall|u: int, v: int|
                    0 <= u < n && 0 <= v < n && (u < x || (u == x && v < y)) ==> res@[v]@[n - 1
                        - u] == #[trigger] a@[u]@[v],
            decreases n - y,
        {
            assert(a@[x as int].len() == n);
            assert(res@[y as int].len() == n);
            let ghost prev = res@;
            let c = a[x][y];
            res[y][n - 1 - x] = c;
            proof {
                assert forall|u: int| 0 <= u < n implies (#[trigger] res@[u]).len() == n by {
                    assert(prev[u].len() == n);
                }
                assert forall|u: int, v: int|
                    0 <= u < n && 0 <= v < n && (u < x || (u == x && v < y + 1)) implies res@[v]@[n
                    - 1 - u] == #[trigger] a@[u]@[v] by {
                    assert(prev[v].len() == n);
                    if u == x && v == y {
                    } else {
                        assert(prev[v]@[n - 1 - u] == a@[u]@[v]);
                    }
                }
            }
            y = y + 1;
        }
        x = x + 1;
    }
    res
}

/// The rectangle `r` of a square canvas of side `n` after a quarter turn
/// clockwise.
pub open spec fn turned_rect(r: Rect, n: int) -> Rect {
    Rect {
        from: Point { x: r.from.y, y: (n - r.to.x) as i32 },
        to: Point { x: r.to.y, y: (n - r.from.x) as i32 },
    }
}

/// `after` is the instance `before`, whose canvas is square, after a
/// quarter turn clockwise: the pixel `(x, y)` of each picture shows at
/// `(y, n - 1 - x)`, and every seed region keeps its name and its colour and
/// has its rectangle turned.
pub open spec fn is_quarter_turn(before: TestCase, after: TestCase) -> bool {
    &&& after.wf()
    &&& after.n() == before.n()
    &&& after.m() == before.m()
    &&& after.test_id == before.test_id
    &&& forall|x: int, y: int|
        0 <= x < before.n() && 0 <= y < before.n() ==> after.expected@[y]@[before.n() - 1 - x]
            == #[trigger] before.expected@[x]@[y]
    &&& forall|x: int, y: int|
        0 <= x < before.n() && 0 <= y < before.n() ==> after.start_field@[y]@[before.n() - 1 - x]
            == #[trigger] before.start_field@[x]@[y]
    &&& after.regions@.len() == before.regions@.len()
    &&& forall|i: int|
        0 <= i < before.regions@.len() ==> (#[trigger] after.regions@[i]).name@
            == before.regions@[i].name@ && after.regions@[i].color == before.regions@[i].color
            && after.regions@[i].rect == turned_rect(before.regions@[i].rect, before.n())
}

/// `after` shows what the instance `before` shows.
pub open spec fn is_copy(before: TestCase, after: TestCase) -> bool {
    &&& after.wf()
    &&& after.n() == before.n()
    &&& after.m() == before.m()
    &&& after.test_id == before.test_id
    &&& cells(after.expected@) == cells(before.expected@)
    &&& cells(after.start_field@) == cells(before.start_field@)
    &&& after.regions@.len() == before.regions@.len()
    &&& forall|i: int|
        0 <= i < before.regions@.len() ==> (#[trigger] after.regions@[i]).name@
            == before.regions@[i].name@ && after.regions@[i].color == before.regions@[i].color
            && after.regions@[i].rect == before.regions@[i].rect
}

/// `after` is the instance `before` after `k` quarter turns clockwise.
pub open spec fn is_turn(before: TestCase, after: TestCase, k: nat) -> bool
    decreases k,
{
    if k == 0 {
        is_copy(before, after)
    } else {
        exists|mid: TestCase|
            #![trigger is_quarter_turn(mid, after)]
            is_turn(before, mid, (k - 1) as nat) && is_quarter_turn(mid, after)
    }
}

/// The program `ops` after `k` quarter turns clockwise of a canvas of side
/// `n`.
pub open spec fn turned_times(ops: Seq<OpView>, n: i32, k: nat) -> Seq<OpView>
    decreases k,
{
    if k == 0 {
        ops
    } else {
        turned_ops(turned_times(ops, n, (k - 1) as nat), n)
    }
}

/// The program `ops` can be turned `k` quarter turns, one after the other.
pub open spec fn turns_possible(ops: Seq<OpView>, n: i32, k: nat) -> bool {
    forall|j: nat| j < k ==> all_can_turn(#[trigger] turned_times(ops, n, j), n)
}

/// The instance `test_case`, whose canvas is square, after a quarter turn
/// clockwise.
pub fn rotate_tc_cw(test_case: &TestCase) -> (res: TestCase)
    requires
        test_case.wf(),
        test_case.n() == test_case.m(),
    ensures
        is_quarter_turn(*test_case, res),
{
    let (n, m) = test_case.get_size();
    let new_expected = rotate_field_cw(&test_case.expected, n);
    let new_start = rotate_field_cw(&test_case.start_field, n);
    let mut new_regions: Vec<Region> = Vec::new();
    let mut i: usize = 0;
    while i < test_case.regions.len()
        invariant
            i <= test_case.regions@.len(),
            test_case.wf(),
            n == test_case.n(),
            n == test_case.m(),
            new_regions@.len() == i,
            forall|k: int|
                0 <= k < i ==> (#[trigger] new_regions@[k]).name@ == test_case.regions@[k].name@
                    && new_regions@[k].color == test_case.regions@[k].color
                    && new_regions@[k].rect == turned_rect(test_case.regions@[k].rect, n as int)
                    && new_regions@[k].rect.inside(n as int, n as int),
        decreases test_case.regions@.len() - i,
    {
        let r = &test_case.regions[i];
        assert(test_case.regions@[i as int].rect.inside(n as int, n as int));
        let fr = r.rect.from;
        let to = r.rect.to;
        let side = n as i32;
        let new_rect = Rect::new(Point::new(fr.y, side - to.x), Point::new(to.y, side - fr.x));
        new_regions.push(Region { name: r.name.clone(), color: r.color, rect: new_rect });
        i = i + 1;
    }
    assert(new_expected@[0].len() == n);
    TestCase {
        expected: new_expected,
        start_field: new_start,
        regions: new_regions,
        test_id: test_case.test_id,
    }
}

/// The replay of the program of `r` on the canvas of `tc` succeeds and
/// paints the picture of `r`; the score of `r` is the cost of the program,
/// in score units, and the pixel distance of the picture from the picture
/// that `tc` asks for.
pub open spec fn res_replays(tc: TestCase, r: SolutionRes) -> bool {
    &&& is_grid(r.a@, tc.n(), tc.m())
    &&& match replay(tc, r.ops@) {
        Ok(s) => {
            &&& s.picture == cells(r.a@)
            &&& r.expected_score == s.cost * SCORE_SCALE + pixel_distance(
                cells(r.a@),
                cells(tc.expected@),
                tc.n(),
                tc.m(),
            )
            &&& r.last_block_id@ == crate::rect_id::decimal(s.last_rect_id)
        },
        Err(_) => false,
    }
}

impl SolutionRes {
    /// The program `ops`, the picture that it paints on the canvas of
    /// `test_case`, and its score.
    pub fn new_from_ops(test_case: &TestCase, ops: Vec<Op>) -> (res: Result<SolutionRes, OpError>)
        requires
            test_case.wf(),
        ensures
            match res {
                Ok(r) => res_replays(*test_case, r) && r.ops@ == ops@,
                Err(e) => if test_case.regions@.len() + ops@.len() <= usize::MAX {
                    replay(*test_case, ops@) == Err::<crate::interpreter::CanvasState, OpError>(e)
                } else {
                    e == OpError::TooLarge
                },
            },
    {
        if ops.len() > usize::MAX - test_case.regions.len() {
            return Err(OpError::TooLarge);
        }
        let count = ops.len();
        let done = match try_apply_ops(ops.as_slice(), test_case) {
            Ok(d) => d,
            Err(e) => {
                return Err(e);
            },
        };
        let dist = get_pixel_distance(&done.picture, &test_case.expected);
        proof {
            assert(done.only_ops_cost * SCORE_SCALE <= 0xffff_ffff_ffff_ffff * 42_948_362_250
                * 200_000_000) by (nonlinear_arith)
                requires
                    done.only_ops_cost <= count * MAX_OP_COST,
                    count <= 0xffff_ffff_ffff_ffff,
                    MAX_OP_COST == 42_948_362_250,
                    SCORE_SCALE == 200_000_000,
            ;
        }
        Ok(
            SolutionRes {
                a: done.picture,
                expected_score: done.only_ops_cost * SCORE_SCALE + dist,
                ops,
                last_block_id: done.last_block_id,
            },
        )
    }
}

/// The program `ops`, turned `j` quarter turns, replays on the instance
/// `tc`, turned as often, and `corner` tells whether it fills only regions
/// that reach the top-right corner.
pub open spec fn turn_replays(tc: TestCase, ops: Seq<OpView>, j: nat, corner: bool) -> bool {
    exists|at: TestCase|
        #![trigger is_turn(tc, at, j)]
        is_turn(tc, at, j) && (match crate::interpreter::run(
            crate::interpreter::initial_state(at),
            turned_times(ops, tc.n() as i32, j),
            at.n(),
            at.m(),
            at.test_id,
        ) {
            Ok(s) => s.only_colored_top_right == corner,
            Err(_) => false,
        })
}

/// The replay of the program `ops`, turned `j` quarter turns, on the
/// instance `tc`, turned as often, fails with `e`.
pub open spec fn turn_fails_with(tc: TestCase, ops: Seq<OpView>, j: nat, e: OpError) -> bool {
    exists|at: TestCase|
        #![trigger is_turn(tc, at, j)]
        is_turn(tc, at, j) && crate::interpreter::run(
            crate::interpreter::initial_state(at),
            turned_times(ops, tc.n() as i32, j),
            at.n(),
            at.m(),
            at.test_id,
        ) == Err::<crate::interpreter::CanvasState, OpError>(e)
}

/// After each of the first `j` numbers of quarter turns the program
/// replays, and fills a region that does not reach the top-right corner.
pub open spec fn none_before(tc: TestCase, ops: Seq<OpView>, j: nat) -> bool {
    forall|i: nat| i < j ==> #[trigger] turn_replays(tc, ops, i, false)
}

/// The search for a turn stops with `e` after `j` quarter turns: all four
/// turns were tried (`NoRotation`); or the program and the seed regions are
/// too many to be counted (`TooLarge`); or the replay of the program,
/// turned so far, fails with `e`; or the program cannot be turned on
/// (`BadId`, `TooLarge`).
pub open spec fn fails_at(tc: TestCase, ops: Seq<Op>, j: nat, e: OpError) -> bool {
    let view = ops_view(ops);
    let n = tc.n() as i32;
    &&& j <= 4
    &&& none_before(tc, view, j)
    &&& turns_possible(view, n, j)
    &&& if j == 4 {
        e == OpError::NoRotation
    } else {
        ||| tc.regions@.len() + ops.len() > usize::MAX && e == OpError::TooLarge
        ||| turn_fails_with(tc, view, j, e) && crate::interpreter::is_replay_error(e)
        ||| turn_replays(tc, view, j, false) && !all_can_turn(turned_times(view, n, j), n) && (e
            == OpError::BadId || e == OpError::TooLarge)
    }
}

/// No turn of the program `ops` on the instance `tc` is found, and `e`
/// says why.
pub open spec fn rotation_fails(tc: TestCase, ops: Seq<Op>, e: OpError) -> bool {
    exists|j: nat| #[trigger] fails_at(tc, ops, j, e)
}

/// `r` is the program `ops`, turned on from the instance `tc`, which was
/// turned `rotated` quarter turns, until the instance stands as it was
/// given: the turned program replays on the instance turned back, paints
/// the picture of `r` and has its score.
pub open spec fn is_turned_back(tc: TestCase, rotated: i32, ops: Seq<Op>, r: SolutionRes) -> bool {
    let k = ((4 - rotated) % 4) as nat;
    ops_view(r.ops@) == turned_times(ops_view(ops), tc.n() as i32, k) && exists|back: TestCase|
        #![trigger res_replays(back, r)]
        is_turn(tc, back, k) && res_replays(back, r)
}

/// The program `ops` cannot be turned back from the instance `tc`, which
/// was turned `rotated` quarter turns, and `e` says why: a name that a turn
/// rewrites is not made of numbers joined by dots (`BadId`) or a turned
/// coordinate does not fit (`TooLarge`); or the program and the seed regions
/// are too many to be counted (`TooLarge`); or the replay of the turned
/// program on the instance turned back fails with `e`.
pub open spec fn turn_back_fails(tc: TestCase, rotated: i32, ops: Seq<Op>, e: OpError) -> bool {
    let k = ((4 - rotated) % 4) as nat;
    let n = tc.n() as i32;
    if !turns_possible(ops_view(ops), n, k) {
        e == OpError::BadId || e == OpError::TooLarge
    } else if tc.regions@.len() + ops.len() > usize::MAX {
        e == OpError::TooLarge
    } else {
        exists|back: TestCase|
            #![trigger is_turn(tc, back, k)]
            is_turn(tc, back, k) && crate::interpreter::run(
                crate::interpreter::initial_state(back),
                turned_times(ops_view(ops), n, k),
                back.n(),
                back.m(),
                back.test_id,
            ) == Err::<crate::interpreter::CanvasState, OpError>(e)
    }
}

impl Rotator {
    /// The instance turned `rotations` quarter turns clockwise, without a
    /// program.
    pub fn new_fixed_rotations(test_case: &TestCase, rotations: i32) -> (res: Rotator)
        requires
            test_case.wf(),
            test_case.n() == test_case.m(),
            0 <= rotations < 4,
        ensures
            is_turn(*test_case, res.test_case, rotations as nat),
            res.test_case.wf(),
            res.test_case.n() == test_case.n(),
            res.test_case.m() == test_case.m(),
            res.rotated == rotations,
            res.ops@.len() == 0,
    {
        let mut tc = rotate_none(test_case);
        let mut k: i32 = 0;
        while k < rotations
            invariant
                0 <= k <= rotations,
                tc.wf(),
                tc.n() == test_case.n(),
                tc.m() == test_case.m(),
                tc.n() == tc.m(),
                is_turn(*test_case, tc, k as nat),
            decreases rotations - k,
        {
            let ghost mid = tc;
            tc = rotate_tc_cw(&tc);
            assert(is_quarter_turn(mid, tc));
            k = k + 1;
        }
        Rotator { test_case: tc, ops: Vec::new(), rotated: rotations }
    }

    /// Turns the instance and the program by quarter turns clockwise until
    /// the program fills only regions that reach the top-right corner: the
    /// result holds the first such turn.  Fails with `NoRotation` if none
    /// of the four turns is one, with the error of the replay if the
    /// program, turned so far, cannot be replayed, and with `BadId` or
    /// `TooLarge` if it cannot be turned on or counted.
    pub fn new(test_case: &TestCase, ops: &[Op]) -> (res: Result<Rotator, OpError>)
        requires
            test_case.wf(),
            test_case.n() == test_case.m(),
        ensures
            match res {
                Ok(r) => r.test_case.wf() && r.test_case.n() == test_case.n() && r.test_case.m()
                    == test_case.m() && 0 <= r.rotated < 4 && is_turn(
                    *test_case,
                    r.test_case,
                    r.rotated as nat,
                ) && ops_view(r.ops@) == turned_times(
                    ops_view(ops@),
                    test_case.n() as i32,
                    r.rotated as nat,
                ) && (match replay(r.test_case, r.ops@) {
                    Ok(s) => s.only_colored_top_right,
                    Err(_) => false,
                }) && none_before(*test_case, ops_view(ops@), r.rotated as nat),
                Err(e) => rotation_fails(*test_case, ops@, e),
            },
            res is Err && res->Err_0 == OpError::NoRotation ==> none_before(
                *test_case,
                ops_view(ops@),
                4,
            ),
            test_case.regions@.len() + ops@.len() <= usize::MAX ==> (match replay(
                *test_case,
                ops@,
            ) {
                Ok(s) => if s.only_colored_top_right {
                    res is Ok && res->Ok_0.rotated == 0
                } else {
                    res is Ok ==> res->Ok_0.rotated > 0
                },
                Err(e) => res is Err && res->Err_0 == e,
            }),
    {
        let (n, m) = test_case.get_size();
        let mut tc = rotate_none(test_case);
        let mut cur = crate::op::copy_ops(ops);
        let ghost view = ops_view(ops@);
        proof {
            lemma_copy_replays(*test_case, tc, ops_view(ops@));
            assert(replay(tc, cur@) == replay(*test_case, ops@));
        }
        let mut rotated: i32 = 0;
        while rotated < 4
            invariant
                0 <= rotated <= 4,
                tc.wf(),
                n == test_case.n(),
                n == test_case.m(),
                tc.n() == n,
                tc.m() == n,
                view == ops_view(ops@),
                is_turn(*test_case, tc, rotated as nat),
                ops_view(cur@) == turned_times(view, n as i32, rotated as nat),
                cur@.len() == ops@.len(),
                tc.regions@.len() == test_case.regions@.len(),
                none_before(*test_case, view, rotated as nat),
                turns_possible(view, n as i32, rotated as nat),
                rotated == 0 ==> replay(tc, cur@) == replay(*test_case, ops@),
                rotated > 0 ==> test_case.regions@.len() + ops@.len() <= usize::MAX ==> (
                match replay(*test_case, ops@) {
                    Ok(s) => !s.only_colored_top_right,
                    Err(e) => false,
                }),
            decreases 4 - rotated,
        {
            let ghost j = rotated as nat;
            if cur.len() > usize::MAX - tc.regions.len() {
                proof {
                    assert(fails_at(*test_case, ops@, j, OpError::TooLarge));
                }
                return Err(OpError::TooLarge);
            }
            let done = match try_apply_ops(cur.as_slice(), &tc) {
                Ok(d) => d,
                Err(e) => {
                    proof {
                        lemma_replay_error(
                            crate::interpreter::initial_state(tc),
                            ops_view(cur@),
                            tc.n(),
                            tc.m(),
                            tc.test_id,
                        );
                        assert(turn_fails_with(*test_case, view, j, e));
                        assert(fails_at(*test_case, ops@, j, e));
                    }
                    return Err(e);
                },
            };
            if done.only_colored_top_right {
                return Ok(Rotator { test_case: tc, ops: cur, rotated });
            }
            proof {
                assert(turn_replays(*test_case, view, j, false));
            }
            cur = match rotate_ops_cw(cur.as_slice(), n) {
                Ok(v) => v,
                Err(e) => {
                    proof {
                        assert(fails_at(*test_case, ops@, j, e));
                    }
                    return Err(e);
                },
            };
            proof {
                lemma_turned_len(turned_times(view, n as i32, j), n as i32);
                assert(ops_view(cur@).len() == cur@.len());
                assert forall|i: nat| i < j + 1 implies all_can_turn(
                    #[trigger] turned_times(view, n as i32, i),
                    n as i32,
                ) by {
                    if i < j {
                    }
                }
            }
            let ghost mid = tc;
            tc = rotate_tc_cw(&tc);
            assert(is_quarter_turn(mid, tc));
            rotated = rotated + 1;
        }
        proof {
            assert(fails_at(*test_case, ops@, 4, OpError::NoRotation));
        }
        Err(OpError::NoRotation)
    }

    /// Number of quarter turns clockwise that turn a solution of the turned
    /// instance into one of the instance as it was given.
    pub fn rotations_to_answer(&self) -> (r: i32)
        requires
            0 <= self.rotated < 4,
        ensures
            r == (4 - self.rotated) % 4,
    {
        (4 - self.rotated) % 4
    }

    /// The program of the solution `before_rotation` of the turned
    /// instance, turned on until the instance stands as it was given, with
    /// its picture and its score there.
    pub fn rotate_sol(&self, before_rotation: SolutionRes) -> (res: Result<SolutionRes, OpError>)
        requires
            self.test_case.wf(),
            self.test_case.n() == self.test_case.m(),
            0 <= self.rotated < 4,
        ensures
            match res {
                Ok(r) => is_turned_back(self.test_case, self.rotated, before_rotation.ops@, r),
                Err(e) => turn_back_fails(self.test_case, self.rotated, before_rotation.ops@, e),
            },
    {
        let more_rotations = self.rotations_to_answer();
        let ghost start = ops_view(before_rotation.ops@);
        let mut ops = before_rotation.ops;
        let mut tc = rotate_none(&self.test_case);
        let n = self.test_case.get_size().0;
        let mut k: i32 = 0;
        while k < more_rotations
            invariant
                0 <= k <= more_rotations <= 4,
                tc.wf(),
                tc.n() == n,
                tc.m() == n,
                n <= MAX_SIDE,
                n == self.test_case.n(),
                start == ops_view(before_rotation.ops@),
                more_rotations == (4 - self.rotated) % 4,
                is_turn(self.test_case, tc, k as nat),
                ops_view(ops@) == turned_times(start, n as i32, k as nat),
                ops@.len() == before_rotation.ops@.len(),
                tc.regions@.len() == self.test_case.regions@.len(),
                turns_possible(start, n as i32, k as nat),
            decreases more_rotations - k,
        {
            ops = match rotate_ops_cw(ops.as_slice(), n) {
                Ok(v) => v,
                Err(e) => {
                    proof {
                        assert(!all_can_turn(turned_times(start, n as i32, k as nat), n as i32));
                    }
                    return Err(e);
                },
            };
            proof {
                assert(ops_view(ops@).len() == ops@.len());
                lemma_turned_len(turned_times(start, n as i32, k as nat), n as i32);
                assert forall|j: nat| j < k + 1 implies all_can_turn(
                    #[trigger] turned_times(start, n as i32, j),
                    n as i32,
                ) by {
                    if j < k {
                    }
                }
            }
            let ghost mid = tc;
            tc = rotate_tc_cw(&tc);
            assert(is_quarter_turn(mid, tc));
            k = k + 1;
        }
        let res = SolutionRes::new_from_ops(&tc, ops);
        proof {
            if res is Ok {
                assert(res_replays(tc, res->Ok_0));
            }
        }
        res
    }
}

/// A turned program has as many operations as the program.
pub proof fn lemma_turned_len(ops: Seq<OpView>, n: i32)
    ensures
        turned_ops(ops, n).len() == ops.len(),
    decreases ops.len(),
{
    if ops.len() > 0 {
        lemma_turned_len(ops.drop_last(), n);
    }
}

/// The seed regions of an instance and of its copy make the same table.
pub proof fn lemma_copy_seeds(a: Seq<Region>, b: Seq<Region>)
    requires
        a.len() == b.len(),
        forall|i: int|
            0 <= i < a.len() ==> (#[trigger] b[i]).name@ == a[i].name@ && b[i].rect == a[i].rect,
    ensures
        crate::interpreter::seed_rects(a) == crate::interpreter::seed_rects(b),
    decreases a.len(),
{
    if a.len() > 0 {
        assert(b.last().name@ == a.last().name@ && b.last().rect == a.last().rect);
        assert forall|i: int| 0 <= i < a.drop_last().len() implies (
        #[trigger] b.drop_last()[i]).name@ == a.drop_last()[i].name@ && b.drop_last()[i].rect
            == a.drop_last()[i].rect by {
            assert(b[i].name@ == a[i].name@ && b[i].rect == a[i].rect);
        }
        lemma_copy_seeds(a.drop_last(), b.drop_last());
    }
}

/// A program replays on the copy of an instance as on the instance.
pub proof fn lemma_copy_replays(a: TestCase, b: TestCase, ops: Seq<OpView>)
    requires
        is_copy(a, b),
    ensures
        crate::interpreter::run(crate::interpreter::initial_state(a), ops, a.n(), a.m(), a.test_id)
            == crate::interpreter::run(
            crate::interpreter::initial_state(b),
            ops,
            b.n(),
            b.m(),
            b.test_id,
        ),
{
    lemma_copy_seeds(a.regions@, b.regions@);
}

/// A copy of the instance.
pub fn rotate_none(test_case: &TestCase) -> (res: TestCase)
    requires
        test_case.wf(),
    ensures
        is_copy(*test_case, res),
{
    let (n, m) = test_case.get_size();
    let expected = crate::picture::copy_picture(&test_case.expected);
    let start_field = crate::picture::copy_picture(&test_case.start_field);
    let mut regions: Vec<Region> = Vec::new();
    let mut i: usize = 0;
    while i < test_case.regions.len()
        invariant
            i <= test_case.regions@.len(),
            test_case.wf(),
            regions@.len() == i,
            forall|k: int|
                0 <= k < i ==> (#[trigger] regions@[k]).name@ == test_case.regions@[k].name@
                    && regions@[k].color == test_case.regions@[k].color && regions@[k].rect
                    == test_case.regions@[k].rect,
        decreases test_case.regions@.len() - i,
    {
        let r = &test_case.regions[i];
        regions.push(Region { name: r.name.clone(), color: r.color, rect: r.rect });
        i = i + 1;
    }
    proof {
        assert(cells(expected@)[0] == cells(test_case.expected@)[0]);
        assert(cells(expected@).len() == cells(test_case.expected@).len());
        assert(is_grid(test_case.expected@, n as int, m as int));
        assert(is_grid(test_case.start_field@, n as int, m as int));
        assert forall|k: int| 0 <= k < regions@.len() implies (#[trigger] regions@[k]).rect.inside(
            n as int,
            m as int,
        ) by {
            assert(test_case.regions@[k].rect.inside(n as int, m as int));
        }
    }
    TestCase { expected, start_field, regions, test_id: test_case.test_id }
}

/// `r` is what solving the instance `tc` after `rotations` quarter turns
/// gives: the program of a solution of the turned instance, turned on
/// until the instance stands as it was given.
pub open spec fn is_solved_turned(
    tc: TestCase,
    block_size: usize,
    third: bool,
    rotations: i32,
    r: SolutionRes,
) -> bool {
    exists|turned: TestCase, inner: SolutionRes|
        #![trigger is_solved(turned, block_size, third, inner)]
        is_turn(tc, turned, rotations as nat) && is_solved(turned, block_size, third, inner)
            && is_turned_back(turned, rotations, inner.ops@, r)
}

/// Solving the instance `tc` after `rotations` quarter turns fails, and
/// `e` says why: the turned instance is not solved, or its solution cannot
/// be turned back.
pub open spec fn solve_turned_fails(
    tc: TestCase,
    block_size: usize,
    third: bool,
    rotations: i32,
    e: OpError,
) -> bool {
    exists|turned: TestCase|
        #![trigger is_turn(tc, turned, rotations as nat)]
        is_turn(tc, turned, rotations as nat) && (solve_fails(turned, block_size, third, e)
            || exists|inner: SolutionRes|
            #![trigger is_solved(turned, block_size, third, inner)]
            is_solved(turned, block_size, third, inner) && turn_back_fails(
                turned,
                rotations,
                inner.ops@,
                e,
            ))
}

/// Solves the instance `test_case`, whose canvas is square, as it stands
/// after `rotations` quarter turns clockwise, and turns the solution back:
/// the program of the result is the program of the solution of the turned
/// instance, turned on; it replays on the canvas of `test_case` itself,
/// paints the picture of the result and has its score.
pub fn solve_case(test_case: &TestCase, block_size: usize, use_third_layer: bool, rotations: i32)
    -> (res: Result<SolutionRes, OpError>)
    requires
        test_case.wf(),
        test_case.n() == test_case.m(),
        block_size >= 1,
        0 <= rotations < 4,
    ensures
        match res {
            Ok(r) => res_replays(*test_case, r) && is_solved_turned(
                *test_case,
                block_size,
                use_third_layer,
                rotations,
                r,
            ),
            Err(e) => solve_turned_fails(*test_case, block_size, use_third_layer, rotations, e),
        },
        rotations == 0 && crate::merger::starts_whole(*test_case) && 5 * (test_case.n()
            * test_case.m()) < usize::MAX ==> res is Ok,
{
    let rotator = Rotator::new_fixed_rotations(test_case, rotations);
    let ghost turned = rotator.test_case;
    let solution = match crate::solve::solve_one(&rotator.test_case, block_size, use_third_layer) {
        Ok(s) => s,
        Err(e) => {
            proof {
                assert(is_turn(*test_case, turned, rotations as nat) && solve_fails(
                    turned,
                    block_size,
                    use_third_layer,
                    e,
                ));
            }
            return Err(e);
        },
    };
    let ghost found = solution;
    let res = rotator.rotate_sol(solution);
    proof {
        assert(is_turn(*test_case, turned, rotations as nat));
        assert(is_solved(turned, block_size, use_third_layer, found));
        crate::solve::lemma_solved_consistent(turned, block_size, use_third_layer, found);
        if rotations == 0 && crate::merger::starts_whole(*test_case) && 5 * (test_case.n()
            * test_case.m()) < usize::MAX && res is Err {
            let e = res->Err_0;
            let back = choose|tc: TestCase|
                #![trigger is_turn(rotator.test_case, tc, 0)]
                is_turn(rotator.test_case, tc, 0) && crate::interpreter::run(
                    crate::interpreter::initial_state(tc),
                    turned_times(ops_view(found.ops@), test_case.n() as i32, 0),
                    tc.n(),
                    tc.m(),
                    tc.test_id,
                ) == Err::<crate::interpreter::CanvasState, OpError>(e);
            lemma_copy_replays(rotator.test_case, back, ops_view(found.ops@));
            assert(false);
        }
        if res is Ok {
            let r = res->Ok_0;
            let back = choose|tc: TestCase|
                #![trigger res_replays(tc, r)]
                is_turn(rotator.test_case, tc, ((4 - rotations) % 4) as nat) && res_replays(tc, r);
            assert(is_turn(rotator.test_case, back, ((4 - rotations) % 4) as nat));
            crate::full_turn::lemma_turned_back(
                *test_case,
                rotator.test_case,
                back,
                rotations as nat,
            );
            crate::full_turn::lemma_copy_solved(*test_case, back, r);
            assert(is_turned_back(turned, rotations, found.ops@, r));
        } else {
            assert(turn_back_fails(turned, rotations, found.ops@, res->Err_0));
        }
    }
    res
}

} // verus!
