//! Replays a program on a canvas: keeps the regions that are alive, paints
//! the picture and adds up what the operations cost.

use crate::arith::{lemma_round_div_le, round_div, rounded_quotient};
use crate::color::Color;
use crate::consts::{COLOR_COST, MAX_SIDE, MERGE_COST, SWAP_COST};
use crate::op::{ops_view, Op, OpView};
use crate::picture::{cells, copy_picture, fill, filled, is_picture, lemma_cells_shape, swapped};
use crate::rect_id::{decimal, rect_id_from_usize, rect_id_sub_key, sub_key, RectId};
use crate::registry::Registry;
use crate::test_case::{is_grid, Rect, Region, TestCase};
use crate::utils::Point;
use vstd::prelude::*;

verus! {

/// Why a program cannot be replayed.
#[derive(Clone, Copy, Debug, PartialEq, Eq, Structural)]
pub enum OpError {
    /// An operation names a region that is not alive.
    UnknownId,
    /// A cut does not pass through the inside of its region.
    BadCut,
    /// The box around two merged regions holds more than the two regions.
    AreaMismatch,
    /// Two swapped regions differ in shape, or overlap without being one
    /// and the same.
    BadSwap,
    /// The seed regions are no grid of equal square blocks.
    BadSeeds,
    /// The program does not leave the canvas as one region.
    NotOneRegion,
    /// The program would name more regions than can be counted.
    TooLarge,
    /// A program does not paint what its stack of rectangles paints.
    PictureMismatch,
    /// A name is not made of numbers joined by dots.
    BadId,
    /// No quarter turn makes the program fill corner rectangles only.
    NoRotation,
}

/// No operation costs more than this.
pub const MAX_OP_COST: u128 = 42_948_362_250;

/// What a replay keeps track of.
pub struct CanvasState {
    /// The regions that are alive.
    pub rects: Map<Seq<u8>, Rect>,
    /// The picture painted so far.
    pub picture: Seq<Seq<Color>>,
    /// Cost of the operations replayed so far.
    pub cost: nat,
    /// The number that named the region created last by a merge.
    pub last_rect_id: nat,
    /// Every colour operation so far filled a region that reaches the
    /// top-right corner of the canvas.
    pub only_colored_top_right: bool,
}

/// The result of replaying a program.
#[derive(Debug)]
pub struct ApplyOpsResult {
    pub picture: Vec<Vec<Color>>,
    pub only_ops_cost: u128,
    pub only_colored_top_right: bool,
    pub last_block_id: RectId,
}

/// Cost of an operation of base cost `base` on a region of `area` pixels of
/// a canvas of `n` columns and `m` rows.
pub open spec fn op_cost(base: nat, n: int, m: int, area: int) -> nat {
    round_div((base * (n * m)) as nat, area as nat)
}

/// The smaller of two numbers.
pub open spec fn min_i32(a: i32, b: i32) -> i32 {
    if a <= b {
        a
    } else {
        b
    }
}

/// The larger of two numbers.
pub open spec fn max_i32(a: i32, b: i32) -> i32 {
    if a >= b {
        a
    } else {
        b
    }
}

/// The larger of two numbers.
pub open spec fn max_int(a: int, b: int) -> int {
    if a >= b {
        a
    } else {
        b
    }
}

/// The smallest rectangle that holds both `r1` and `r2`.
pub open spec fn bounding_box(r1: Rect, r2: Rect) -> Rect {
    Rect {
        from: Point { x: min_i32(r1.from.x, r2.from.x), y: min_i32(r1.from.y, r2.from.y) },
        to: Point { x: max_i32(r1.to.x, r2.to.x), y: max_i32(r1.to.y, r2.to.y) },
    }
}

/// Both rectangles are as wide and as high as each other.
pub open spec fn same_shape(r1: Rect, r2: Rect) -> bool {
    r1.to.x - r1.from.x == r2.to.x - r2.from.x && r1.to.y - r1.from.y == r2.to.y - r2.from.y
}

/// The rectangles share no pixel.
pub open spec fn disjoint(r1: Rect, r2: Rect) -> bool {
    r1.to.x <= r2.from.x || r2.to.x <= r1.from.x || r1.to.y <= r2.from.y || r2.to.y <= r1.from.y
}

/// The state after a point cut of region `id` at `p`.
pub open spec fn step_cut_point(s: CanvasState, id: Seq<u8>, p: Point, n: int, m: int, base: nat)
    -> Result<CanvasState, OpError> {
    if !s.rects.contains_key(id) {
        Err(OpError::UnknownId)
    } else {
        let r = s.rects[id];
        if !(r.from.x < p.x < r.to.x && r.from.y < p.y < r.to.y) {
            Err(OpError::BadCut)
        } else {
            Ok(
                CanvasState {
                    rects: s.rects.insert(sub_key(id, 0), Rect { from: r.from, to: p }).insert(
                        sub_key(id, 1),
                        Rect { from: Point { x: p.x, y: r.from.y }, to: Point { x: r.to.x, y: p.y } },
                    ).insert(sub_key(id, 2), Rect { from: p, to: r.to }).insert(
                        sub_key(id, 3),
                        Rect { from: Point { x: r.from.x, y: p.y }, to: Point { x: p.x, y: r.to.y } },
                    ).remove(id),
                    picture: s.picture,
                    cost: s.cost + op_cost(base, n, m, r.area()),
                    last_rect_id: s.last_rect_id,
                    only_colored_top_right: s.only_colored_top_right,
                },
            )
        }
    }
}

/// The state after region `id` was cut along the horizontal line `y`.
pub open spec fn step_cut_y(s: CanvasState, id: Seq<u8>, y: i32, n: int, m: int, base: nat)
    -> Result<CanvasState, OpError> {
    if !s.rects.contains_key(id) {
        Err(OpError::UnknownId)
    } else {
        let r = s.rects[id];
        if !(r.from.y < y < r.to.y) {
            Err(OpError::BadCut)
        } else {
            Ok(
                CanvasState {
                    rects: s.rects.insert(
                        sub_key(id, 0),
                        Rect { from: r.from, to: Point { x: r.to.x, y } },
                    ).insert(sub_key(id, 1), Rect { from: Point { x: r.from.x, y }, to: r.to })
                        .remove(id),
                    picture: s.picture,
                    cost: s.cost + op_cost(base, n, m, r.area()),
                    last_rect_id: s.last_rect_id,
                    only_colored_top_right: s.only_colored_top_right,
                },
            )
        }
    }
}

/// The state after region `id` was cut along the vertical line `x`.
pub open spec fn step_cut_x(s: CanvasState, id: Seq<u8>, x: i32, n: int, m: int, base: nat)
    -> Result<CanvasState, OpError> {
    if !s.rects.contains_key(id) {
        Err(OpError::UnknownId)
    } else {
        let r = s.rects[id];
        if !(r.from.x < x < r.to.x) {
            Err(OpError::BadCut)
        } else {
            Ok(
                CanvasState {
                    rects: s.rects.insert(
                        sub_key(id, 0),
                        Rect { from: r.from, to: Point { x, y: r.to.y } },
                    ).insert(sub_key(id, 1), Rect { from: Point { x, y: r.from.y }, to: r.to })
                        .remove(id),
                    picture: s.picture,
                    cost: s.cost + op_cost(base, n, m, r.area()),
                    last_rect_id: s.last_rect_id,
                    only_colored_top_right: s.only_colored_top_right,
                },
            )
        }
    }
}

/// The state after region `id` was filled with `c`.
pub open spec fn step_color(s: CanvasState, id: Seq<u8>, c: Color, n: int, m: int) -> Result<
    CanvasState,
    OpError,
> {
    if !s.rects.contains_key(id) {
        Err(OpError::UnknownId)
    } else {
        let r = s.rects[id];
        Ok(
            CanvasState {
                rects: s.rects,
                picture: filled(s.picture, r, c),
                cost: s.cost + op_cost(COLOR_COST as nat, n, m, r.area()),
                last_rect_id: s.last_rect_id,
                only_colored_top_right: s.only_colored_top_right && r.to.x == n && r.to.y == m,
            },
        )
    }
}

/// The state after regions `id1` and `id2` were merged.
pub open spec fn step_merge(s: CanvasState, id1: Seq<u8>, id2: Seq<u8>, n: int, m: int) -> Result<
    CanvasState,
    OpError,
> {
    if !s.rects.contains_key(id1) || !s.rects.contains_key(id2) {
        Err(OpError::UnknownId)
    } else {
        let r1 = s.rects[id1];
        let r2 = s.rects[id2];
        let merged = bounding_box(r1, r2);
        if merged.area() != r1.area() + r2.area() {
            Err(OpError::AreaMismatch)
        } else {
            Ok(
                CanvasState {
                    rects: s.rects.insert(decimal(s.last_rect_id + 1), merged).remove(id1).remove(
                        id2,
                    ),
                    picture: s.picture,
                    cost: s.cost + op_cost(
                        MERGE_COST as nat,
                        n,
                        m,
                        max_int(r1.area(), r2.area()),
                    ),
                    last_rect_id: s.last_rect_id + 1,
                    only_colored_top_right: s.only_colored_top_right,
                },
            )
        }
    }
}

/// The state after the pixels of regions `id1` and `id2` were exchanged.
pub open spec fn step_swap(s: CanvasState, id1: Seq<u8>, id2: Seq<u8>, n: int, m: int) -> Result<
    CanvasState,
    OpError,
> {
    if !s.rects.contains_key(id1) || !s.rects.contains_key(id2) {
        Err(OpError::UnknownId)
    } else {
        let r1 = s.rects[id1];
        let r2 = s.rects[id2];
        if !same_shape(r1, r2) || (r1 != r2 && !disjoint(r1, r2)) {
            Err(OpError::BadSwap)
        } else {
            Ok(
                CanvasState {
                    rects: s.rects,
                    picture: swapped(s.picture, r1, r2),
                    cost: s.cost + op_cost(SWAP_COST as nat, n, m, r1.area()),
                    last_rect_id: s.last_rect_id,
                    only_colored_top_right: s.only_colored_top_right,
                },
            )
        }
    }
}

/// The state after one operation on a canvas of `n` columns and `m` rows of
/// the instance `test_id`, or the reason why the operation cannot be done.
pub open spec fn step(s: CanvasState, op: OpView, n: int, m: int, test_id: usize) -> Result<
    CanvasState,
    OpError,
> {
    match op {
        OpView::CutPoint(id, p) => step_cut_point(
            s,
            id,
            p,
            n,
            m,
            TestCase::point_cut_cost_of(test_id),
        ),
        OpView::Color(id, c) => step_color(s, id, c, n, m),
        OpView::CutY(id, y) => step_cut_y(s, id, y, n, m, TestCase::line_cut_cost_of(test_id)),
        OpView::CutX(id, x) => step_cut_x(s, id, x, n, m, TestCase::line_cut_cost_of(test_id)),
        OpView::Merge(id1, id2) => step_merge(s, id1, id2, n, m),
        OpView::Swap(id1, id2) => step_swap(s, id1, id2, n, m),
    }
}

/// The state after the operations `ops`, done in order, or the reason why
/// the first operation that cannot be done fails.
pub open spec fn run(s: CanvasState, ops: Seq<OpView>, n: int, m: int, test_id: usize) -> Result<
    CanvasState,
    OpError,
>
    decreases ops.len(),
{
    if ops.len() == 0 {
        Ok(s)
    } else {
        match run(s, ops.drop_last(), n, m, test_id) {
            Ok(t) => step(t, ops.last(), n, m, test_id),
            Err(e) => Err(e),
        }
    }
}

/// The table of the seed regions, a later region taking the name of an
/// earlier one that has the same.
pub open spec fn seed_rects(regions: Seq<Region>) -> Map<Seq<u8>, Rect>
    decreases regions.len(),
{
    if regions.len() == 0 {
        Map::empty()
    } else {
        seed_rects(regions.drop_last()).insert(regions.last().name@, regions.last().rect)
    }
}

/// The state in which the replay of a program for `tc` starts.
pub open spec fn initial_state(tc: TestCase) -> CanvasState {
    CanvasState {
        rects: seed_rects(tc.regions@),
        picture: cells(tc.start_field@),
        cost: 0,
        last_rect_id: (tc.regions@.len() - 1) as nat,
        only_colored_top_right: true,
    }
}

/// Every region of the state holds a pixel and lies inside the canvas, and
/// the picture has the size of the canvas.
pub open spec fn state_inside(s: CanvasState, n: int, m: int) -> bool {
    &&& is_picture(s.picture, n, m)
    &&& forall|k: Seq<u8>| #[trigger]
        s.rects.contains_key(k) ==> s.rects[k].inside(n, m)
}

/// `e` is one of the reasons for which an operation cannot be done.
pub open spec fn is_replay_error(e: OpError) -> bool {
    e == OpError::UnknownId || e == OpError::BadCut || e == OpError::AreaMismatch || e
        == OpError::BadSwap
}

/// A replay fails only for a reason for which an operation cannot be done.
pub proof fn lemma_replay_error(s: CanvasState, ops: Seq<OpView>, n: int, m: int, test_id: usize)
    ensures
        match run(s, ops, n, m, test_id) {
            Ok(_) => true,
            Err(e) => is_replay_error(e),
        },
    decreases ops.len(),
{
    if ops.len() > 0 {
        lemma_replay_error(s, ops.drop_last(), n, m, test_id);
    }
}

/// Replaying one more operation continues from the state reached before.
pub proof fn lemma_run_next(s: CanvasState, ops: Seq<OpView>, i: int, n: int, m: int, test_id: usize)
    requires
        0 <= i < ops.len(),
    ensures
        run(s, ops.take(i + 1), n, m, test_id) == (match run(s, ops.take(i), n, m, test_id) {
            Ok(t) => step(t, ops[i], n, m, test_id),
            Err(e) => Err(e),
        }),
{
    assert(ops.take(i + 1).drop_last() =~= ops.take(i));
}

/// A replay that fails on a prefix of a program fails likewise on the
/// program.
pub proof fn lemma_run_fails(
    s: CanvasState,
    ops: Seq<OpView>,
    i: int,
    n: int,
    m: int,
    test_id: usize,
)
    requires
        0 <= i <= ops.len(),
        run(s, ops.take(i), n, m, test_id) is Err,
    ensures
        run(s, ops, n, m, test_id) == run(s, ops.take(i), n, m, test_id),
    decreases ops.len() - i,
{
    if i == ops.len() {
        assert(ops.take(i) =~= ops);
    } else {
        lemma_run_next(s, ops, i, n, m, test_id);
        lemma_run_fails(s, ops, i + 1, n, m, test_id);
    }
}

/// Replaying two programs one after the other is replaying the second from
/// where the first one ends.
pub proof fn lemma_run_concat(
    s: CanvasState,
    a: Seq<OpView>,
    b: Seq<OpView>,
    n: int,
    m: int,
    test_id: usize,
)
    ensures
        run(s, a + b, n, m, test_id) == (match run(s, a, n, m, test_id) {
            Ok(t) => run(t, b, n, m, test_id),
            Err(e) => Err(e),
        }),
    decreases b.len(),
{
    if b.len() == 0 {
        assert(a + b =~= a);
    } else {
        lemma_run_concat(s, a, b.drop_last(), n, m, test_id);
        assert((a + b).drop_last() =~= a + b.drop_last());
        assert((a + b).last() == b.last());
    }
}

/// An operation on a region of at least one pixel costs no more than
/// `MAX_OP_COST`.
pub proof fn lemma_op_cost_bound(base: nat, n: int, m: int, area: int)
    requires
        base <= 10,
        1 <= n <= MAX_SIDE,
        1 <= m <= MAX_SIDE,
        area >= 1,
    ensures
        op_cost(base, n, m, area) <= base * (n * m) <= MAX_OP_COST,
        n * m <= 65535 * 65535,
{
    assert(0 <= n * m <= 65535 * 65535) by (nonlinear_arith)
        requires
            1 <= n <= 65535,
            1 <= m <= 65535,
    ;
    assert(0 <= base * (n * m) <= 10 * (65535 * 65535)) by (nonlinear_arith)
        requires
            0 <= base <= 10,
            0 <= n * m <= 65535 * 65535,
    ;
    lemma_round_div_le((base * (n * m)) as nat, area as nat);
}

/// A rectangle inside the canvas has at least one and at most `n * m`
/// pixels.
pub proof fn lemma_area_bound(r: Rect, n: int, m: int)
    requires
        r.inside(n, m),
        n <= MAX_SIDE,
        m <= MAX_SIDE,
    ensures
        1 <= r.area() <= n * m <= 65535 * 65535,
{
    let w = r.to.x - r.from.x;
    let h = r.to.y - r.from.y;
    assert(1 <= w * h <= n * m <= 65535 * 65535) by (nonlinear_arith)
        requires
            1 <= w <= n <= 65535,
            1 <= h <= m <= 65535,
    ;
}

/// A canvas in the course of a replay.
pub struct Canvas {
    pub rects: Registry,
    pub picture: Vec<Vec<Color>>,
    pub cost: u128,
    pub last_rect_id: usize,
    pub only_colored_top_right: bool,
    pub n: usize,
    pub m: usize,
    pub test_id: usize,
}

impl View for Canvas {
    type V = CanvasState;

    open spec fn view(&self) -> CanvasState {
        CanvasState {
            rects: self.rects@,
            picture: cells(self.picture@),
            cost: self.cost as nat,
            last_rect_id: self.last_rect_id as nat,
            only_colored_top_right: self.only_colored_top_right,
        }
    }
}

/// Computes the cost of an operation of base cost `base` on a region of
/// `area` pixels of a canvas of `n` columns and `m` rows.
pub fn scaled_cost(base: u128, n: usize, m: usize, area: i128) -> (r: u128)
    requires
        base <= 10,
        1 <= n <= MAX_SIDE,
        1 <= m <= MAX_SIDE,
        1 <= area <= 65535 * 65535,
    ensures
        r == op_cost(base as nat, n as int, m as int, area as int),
        r <= MAX_OP_COST,
        r <= base * (n * m),
{
    proof {
        lemma_op_cost_bound(base as nat, n as int, m as int, area as int);
    }
    let canvas: u128 = (n as u128) * (m as u128);
    rounded_quotient(base * canvas, area as u128)
}

impl Canvas {
    /// The table and the picture fit together, and every region holds a
    /// pixel and lies inside the canvas.
    pub open spec fn wf(&self) -> bool {
        &&& self.rects.wf()
        &&& 1 <= self.n <= MAX_SIDE
        &&& 1 <= self.m <= MAX_SIDE
        &&& is_grid(self.picture@, self.n as int, self.m as int)
        &&& state_inside(self@, self.n as int, self.m as int)
    }

    /// The canvas on which the replay of a program for `test_case` starts.
    pub fn new(test_case: &TestCase) -> (c: Canvas)
        requires
            test_case.wf(),
        ensures
            c.wf(),
            c@ == initial_state(*test_case),
            c.n == test_case.n(),
            c.m == test_case.m(),
            c.test_id == test_case.test_id,
    {
        let (n, m) = test_case.get_size();
        let picture = copy_picture(&test_case.start_field);
        let mut rects = Registry::new();
        let mut i: usize = 0;
        assert(test_case.regions@.take(0) =~= Seq::<Region>::empty());
        while i < test_case.regions.len()
            invariant
                i <= test_case.regions@.len(),
                test_case.wf(),
                n == test_case.n(),
                m == test_case.m(),
                rects.wf(),
                rects@ == seed_rects(test_case.regions@.take(i as int)),
                forall|k: Seq<u8>| #[trigger]
                    rects@.contains_key(k) ==> rects@[k].inside(n as int, m as int),
            decreases test_case.regions@.len() - i,
        {
            proof {
                assert(test_case.regions@.take(i + 1).drop_last() =~= test_case.regions@.take(
                    i as int,
                ));
                assert(test_case.regions@[i as int].rect.inside(n as int, m as int));
            }
            rects.insert(test_case.regions[i].name.clone(), test_case.regions[i].rect);
            i = i + 1;
        }
        proof {
            assert(test_case.regions@.take(i as int) =~= test_case.regions@);
            lemma_cells_shape(picture@, n as int, m as int);
        }
        Canvas {
            rects,
            picture,
            cost: 0,
            last_rect_id: test_case.regions.len() - 1,
            only_colored_top_right: true,
            n,
            m,
            test_id: test_case.test_id,
        }
    }

    /// Does one operation, or says why it cannot be done and leaves the
    /// canvas as it was.
    pub fn apply(&mut self, op: &Op) -> (res: Result<(), OpError>)
        requires
            old(self).wf(),
            old(self).cost + MAX_OP_COST <= u128::MAX,
            old(self).last_rect_id < usize::MAX,
        ensures
            final(self).wf(),
            final(self).n == old(self).n,
            final(self).m == old(self).m,
            final(self).test_id == old(self).test_id,
            final(self).cost <= old(self).cost + MAX_OP_COST,
            final(self).last_rect_id <= old(self).last_rect_id + 1,
            match step(old(self)@, op@, old(self).n as int, old(self).m as int, old(self).test_id) {
                Ok(s) => res is Ok && final(self)@ == s,
                Err(e) => res == Err::<(), OpError>(e) && final(self)@ == old(self)@,
            },
    {
        let n = self.n;
        let m = self.m;
        match op {
            Op::CutPoint(id, p) => {
                let found = self.rects.get(id);
                if found.is_none() {
                    return Err(OpError::UnknownId);
                }
                let r = found.unwrap();
                if !(r.from.x < p.x && p.x < r.to.x && r.from.y < p.y && p.y < r.to.y) {
                    return Err(OpError::BadCut);
                }
                proof {
                    lemma_area_bound(r, n as int, m as int);
                }
                let base = point_cut_base(self.test_id);
                let c = scaled_cost(base, n, m, r.size());
                self.rects.insert(rect_id_sub_key(id, 0), Rect::new(r.from, *p));
                self.rects.insert(
                    rect_id_sub_key(id, 1),
                    Rect::new(Point::new(p.x, r.from.y), Point::new(r.to.x, p.y)),
                );
                self.rects.insert(rect_id_sub_key(id, 2), Rect::new(*p, r.to));
                self.rects.insert(
                    rect_id_sub_key(id, 3),
                    Rect::new(Point::new(r.from.x, p.y), Point::new(p.x, r.to.y)),
                );
                self.rects.remove(id);
                self.cost = self.cost + c;
                Ok(())
            },
            Op::Color(id, color) => {
                let found = self.rects.get(id);
                if found.is_none() {
                    return Err(OpError::UnknownId);
                }
                let r = found.unwrap();
                proof {
                    lemma_area_bound(r, n as int, m as int);
                }
                let c = scaled_cost(COLOR_COST, n, m, r.size());
                fill(&mut self.picture, r, *color, n, m);
                if !(r.to.x as i64 == n as i64 && r.to.y as i64 == m as i64) {
                    self.only_colored_top_right = false;
                }
                self.cost = self.cost + c;
                proof {
                    lemma_cells_shape(self.picture@, n as int, m as int);
                }
                Ok(())
            },
            Op::CutY(id, y) => {
                let found = self.rects.get(id);
                if found.is_none() {
                    return Err(OpError::UnknownId);
                }
                let r = found.unwrap();
                if !(r.from.y < *y && *y < r.to.y) {
                    return Err(OpError::BadCut);
                }
                proof {
                    lemma_area_bound(r, n as int, m as int);
                }
                let base = line_cut_base(self.test_id);
                let c = scaled_cost(base, n, m, r.size());
                self.rects.insert(rect_id_sub_key(id, 0), Rect::new(r.from, Point::new(r.to.x, *y)));
                self.rects.insert(
                    rect_id_sub_key(id, 1),
                    Rect::new(Point::new(r.from.x, *y), r.to),
                );
                self.rects.remove(id);
                self.cost = self.cost + c;
                Ok(())
            },
            Op::CutX(id, x) => {
                let found = self.rects.get(id);
                if found.is_none() {
                    return Err(OpError::UnknownId);
                }
                let r = found.unwrap();
                if !(r.from.x < *x && *x < r.to.x) {
                    return Err(OpError::BadCut);
                }
                proof {
                    lemma_area_bound(r, n as int, m as int);
                }
                let base = line_cut_base(self.test_id);
                let c = scaled_cost(base, n, m, r.size());
                self.rects.insert(rect_id_sub_key(id, 0), Rect::new(r.from, Point::new(*x, r.to.y)));
                self.rects.insert(
                    rect_id_sub_key(id, 1),
                    Rect::new(Point::new(*x, r.from.y), r.to),
                );
                self.rects.remove(id);
                self.cost = self.cost + c;
                Ok(())
            },
            Op::Merge(id1, id2) => {
                let found1 = self.rects.get(id1);
                let found2 = self.rects.get(id2);
                if found1.is_none() || found2.is_none() {
                    return Err(OpError::UnknownId);
                }
                let r1 = found1.unwrap();
                let r2 = found2.unwrap();
                let fr = Point::new(
                    if r1.from.x <= r2.from.x {
                        r1.from.x
                    } else {
                        r2.from.x
                    },
                    if r1.from.y <= r2.from.y {
                        r1.from.y
                    } else {
                        r2.from.y
                    },
                );
                let to = Point::new(
                    if r1.to.x >= r2.to.x {
                        r1.to.x
                    } else {
                        r2.to.x
                    },
                    if r1.to.y >= r2.to.y {
                        r1.to.y
                    } else {
                        r2.to.y
                    },
                );
                let merged = Rect::new(fr, to);
                proof {
                    lemma_area_bound(r1, n as int, m as int);
                    lemma_area_bound(r2, n as int, m as int);
                }
                let s1 = r1.size();
                let s2 = r2.size();
                if merged.size() != s1 + s2 {
                    return Err(OpError::AreaMismatch);
                }
                let c = scaled_cost(
                    MERGE_COST,
                    n,
                    m,
                    if s1 >= s2 {
                        s1
                    } else {
                        s2
                    },
                );
                self.last_rect_id = self.last_rect_id + 1;
                self.rects.insert(rect_id_from_usize(self.last_rect_id), merged);
                self.rects.remove(id1);
                self.rects.remove(id2);
                self.cost = self.cost + c;
                Ok(())
            },
            Op::Swap(id1, id2) => {
                let found1 = self.rects.get(id1);
                let found2 = self.rects.get(id2);
                if found1.is_none() || found2.is_none() {
                    return Err(OpError::UnknownId);
                }
                let r1 = found1.unwrap();
                let r2 = found2.unwrap();
                let alike = r1.to.x - r1.from.x == r2.to.x - r2.from.x && r1.to.y - r1.from.y
                    == r2.to.y - r2.from.y;
                let apart = r1.to.x <= r2.from.x || r2.to.x <= r1.from.x || r1.to.y <= r2.from.y
                    || r2.to.y <= r1.from.y;
                let one = r1 == r2;
                if !alike || (!one && !apart) {
                    return Err(OpError::BadSwap);
                }
                proof {
                    lemma_area_bound(r1, n as int, m as int);
                }
                let c = scaled_cost(SWAP_COST, n, m, r1.size());
                if !one {
                    swap_pixels(&mut self.picture, r1, r2, n, m);
                } else {
                    proof {
                        lemma_swapped_same(cells(self.picture@), r1, n as int, m as int);
                        lemma_cells_shape(self.picture@, n as int, m as int);
                    }
                }
                self.cost = self.cost + c;
                proof {
                    lemma_cells_shape(self.picture@, n as int, m as int);
                }
                Ok(())
            },
        }
    }
}

/// Exchanging a rectangle with itself changes nothing.
pub proof fn lemma_swapped_same(p: Seq<Seq<Color>>, r: Rect, n: int, m: int)
    requires
        is_picture(p, n, m),
    ensures
        swapped(p, r, r) == p,
{
    let q = swapped(p, r, r);
    assert forall|x: int| 0 <= x < n implies #[trigger] q[x] =~= p[x] by {}
    assert(q =~= p);
}

/// Base cost of a point cut.
fn point_cut_base(test_id: usize) -> (r: u128)
    ensures
        r == TestCase::point_cut_cost_of(test_id),
{
    if test_id <= 35 || test_id > 40 {
        10
    } else {
        3
    }
}

/// Base cost of a line cut.
fn line_cut_base(test_id: usize) -> (r: u128)
    ensures
        r == TestCase::line_cut_cost_of(test_id),
{
    if test_id <= 35 || test_id > 40 {
        7
    } else {
        2
    }
}

/// Exchanges the pixels of two rectangles of the same shape that share no
/// pixel.
fn swap_pixels(a: &mut Vec<Vec<Color>>, r1: Rect, r2: Rect, n: usize, m: usize)
    requires
        is_grid(old(a)@, n as int, m as int),
        r1.inside(n as int, m as int),
        r2.inside(n as int, m as int),
        same_shape(r1, r2),
        disjoint(r1, r2),
    ensures
        is_grid(final(a)@, n as int, m as int),
        cells(final(a)@) == swapped(cells(old(a)@), r1, r2),
{
    let x0: usize = r1.from.x as usize;
    let x1: usize = r1.to.x as usize;
    let y0: usize = r1.from.y as usize;
    let y1: usize = r1.to.y as usize;
    let u0: usize = r2.from.x as usize;
    let v0: usize = r2.from.y as usize;
    let mut x: usize = x0;
    while x < x1
        invariant
            x0 <= x <= x1 <= n,
            y0 <= y1 <= m,
            x0 == r1.from.x,
            x1 == r1.to.x,
            y0 == r1.from.y,
            y1 == r1.to.y,
            u0 == r2.from.x,
            v0 == r2.from.y,
            r1.inside(n as int, m as int),
            r2.inside(n as int, m as int),
            same_shape(r1, r2),
            disjoint(r1, r2),
            is_grid(a@, n as int, m as int),
            is_grid(old(a)@, n as int, m as int),
            forall|i: int, j: int|
                0 <= i < n && 0 <= j < m ==> (#[trigger] a@[i]@[j]) == (if x0 <= i < x && y0 <= j
                    < y1 {
                    old(a)@[i + u0 - x0]@[j + v0 - y0]
                } else if u0 <= i < u0 + (x - x0) && r2.covers(i, j) {
                    old(a)@[i + x0 - u0]@[j + y0 - v0]
                } else {
                    old(a)@[i]@[j]
                }),
        decreases x1 - x,
    {
        let mut y: usize = y0;
        while y < y1
            invariant
                x0 <= x < x1 <= n,
                y0 <= y <= y1 <= m,
                x0 == r1.from.x,
                x1 == r1.to.x,
                y0 == r1.from.y,
                y1 == r1.to.y,
                u0 == r2.from.x,
                v0 == r2.from.y,
                r1.inside(n as int, m as int),
                r2.inside(n as int, m as int),
                same_shape(r1, r2),
                disjoint(r1, r2),
                is_grid(a@, n as int, m as int),
                is_grid(old(a)@, n as int, m as int),
                forall|i: int, j: int|
                    0 <= i < n && 0 <= j < m ==> (#[trigger] a@[i]@[j]) == (if (x0 <= i < x && y0
                        <= j < y1) || (i == x && y0 <= j < y) {
                        old(a)@[i + u0 - x0]@[j + v0 - y0]
                    } else if (u0 <= i < u0 + (x - x0) && r2.covers(i, j)) || (i == u0 + (x - x0)
                        && v0 <= j < v0 + (y - y0)) {
                        old(a)@[i + x0 - u0]@[j + y0 - v0]
                    } else {
                        old(a)@[i]@[j]
                    }),
            decreases y1 - y,
        {
            let x2: usize = x - x0 + u0;
            let y2: usize = y - y0 + v0;
            let ghost prev = a@;
            assert(a@[x as int].len() == m);
            assert(a@[x2 as int].len() == m);
            let tmp = a[x][y];
            let other = a[x2][y2];
            a[x][y] = other;
            let ghost mid = a@;
            assert(a@[x2 as int].len() == m) by {
                if x2 != x {
                    assert(a@[x2 as int] == prev[x2 as int]);
                }
            }
            a[x2][y2] = tmp;
            proof {
                assert forall|i: int| 0 <= i < n implies (#[trigger] a@[i]).len() == m by {
                    assert(prev[i].len() == m);
                    if i != x && i != x2 {
                        assert(mid[i] == prev[i]);
                        assert(a@[i] == mid[i]);
                    }
                }
            }
            y = y + 1;
        }
        x = x + 1;
    }
    proof {
        let p = cells(old(a)@);
        let q = swapped(p, r1, r2);
        assert(cells(a@).len() == q.len());
        assert forall|i: int| 0 <= i < n implies #[trigger] cells(a@)[i] =~= q[i] by {
            assert(a@[i].len() == m);
            assert(old(a)@[i].len() == m);
            assert forall|j: int| 0 <= j < m implies cells(a@)[i][j] == q[i][j] by {
                let t = a@[i]@[j];
                if r1.covers(i, j) {
                    assert(old(a)@[i + u0 - x0].len() == m);
                } else if r2.covers(i, j) {
                    assert(old(a)@[i + x0 - u0].len() == m);
                }
            }
        }
        assert(cells(a@) =~= q);
    }
}

/// The picture with which the canvas of `test_case` starts.
pub fn gen_start_field(test_case: &TestCase) -> (a: Vec<Vec<Color>>)
    ensures
        cells(a@) == cells(test_case.start_field@),
        forall|n: int, m: int| is_grid(test_case.start_field@, n, m) ==> is_grid(a@, n, m),
{
    copy_picture(&test_case.start_field)
}

/// The outcome of a replay of `ops` on the canvas of `tc`.
pub open spec fn replay(tc: TestCase, ops: Seq<Op>) -> Result<CanvasState, OpError> {
    run(initial_state(tc), ops_view(ops), tc.n(), tc.m(), tc.test_id)
}

/// Replays the program `ops`, which can be replayed, on the canvas of
/// `test_case`.  Gives the picture, the cost of the operations and the name
/// of the region that was merged last.  A caller that does not know
/// whether the program can be replayed uses `try_apply_ops`.
pub fn apply_ops(ops: &[Op], test_case: &TestCase) -> (res: ApplyOpsResult)
    requires
        test_case.wf(),
        test_case.regions@.len() + ops@.len() <= usize::MAX,
        replay(*test_case, ops@) is Ok,
    ensures
        is_replayed(*test_case, ops@, res),
{
    try_apply_ops(ops, test_case).unwrap()
}

/// `res` holds what the replay of `ops` on the canvas of `tc` leaves: the
/// picture, the cost of the operations, whether every colour operation
/// filled a region that reaches the top-right corner, and the name of the
/// region that was merged last.
pub open spec fn is_replayed(tc: TestCase, ops: Seq<Op>, res: ApplyOpsResult) -> bool {
    match replay(tc, ops) {
        Ok(s) => cells(res.picture@) == s.picture && is_grid(res.picture@, tc.n(), tc.m())
            && res.only_ops_cost == s.cost && res.only_colored_top_right
            == s.only_colored_top_right && res.last_block_id@ == decimal(s.last_rect_id)
            && s.cost <= ops.len() * MAX_OP_COST,
        Err(_) => false,
    }
}

/// Replays the program `ops` on the canvas of `test_case`.  Gives the
/// picture, the cost of the operations and the name of the region that was
/// merged last, or the reason why the first operation that cannot be done
/// fails.
pub fn try_apply_ops(ops: &[Op], test_case: &TestCase) -> (res: Result<ApplyOpsResult, OpError>)
    requires
        test_case.wf(),
        test_case.regions@.len() + ops@.len() <= usize::MAX,
    ensures
        match replay(*test_case, ops@) {
            Ok(s) => res is Ok && cells(res->Ok_0.picture@) == s.picture && is_grid(
                res->Ok_0.picture@,
                test_case.n(),
                test_case.m(),
            ) && res->Ok_0.only_ops_cost == s.cost && res->Ok_0.only_colored_top_right
                == s.only_colored_top_right && res->Ok_0.last_block_id@ == decimal(s.last_rect_id)
                && s.cost <= ops@.len() * MAX_OP_COST,
            Err(e) => res is Err && res->Err_0 == e,
        },
{
    let mut canvas = Canvas::new(test_case);
    let ghost init = initial_state(*test_case);
    let ghost all = ops_view(ops@);
    let ghost n = test_case.n();
    let ghost m = test_case.m();
    let mut i: usize = 0;
    assert(all.take(0) =~= Seq::<OpView>::empty());
    while i < ops.len()
        invariant
            i <= ops@.len(),
            all == ops_view(ops@),
            all.len() == ops@.len(),
            init == initial_state(*test_case),
            n == test_case.n(),
            m == test_case.m(),
            test_case.regions@.len() + ops@.len() <= usize::MAX,
            test_case.regions@.len() >= 1,
            canvas.wf(),
            canvas.n == n,
            canvas.m == m,
            canvas.test_id == test_case.test_id,
            canvas.cost <= i * MAX_OP_COST,
            canvas.last_rect_id <= test_case.regions@.len() - 1 + i,
            run(init, all.take(i as int), n, m, test_case.test_id) == Ok::<CanvasState, OpError>(
                canvas@,
            ),
        decreases ops@.len() - i,
    {
        proof {
            assert(i * MAX_OP_COST + MAX_OP_COST <= u128::MAX) by (nonlinear_arith)
                requires
                    i <= usize::MAX,
                    MAX_OP_COST == 42_948_362_250,
            ;
            lemma_run_next(init, all, i as int, n, m, test_case.test_id);
            assert(all[i as int] == ops@[i as int]@);
            assert((i + 1) * MAX_OP_COST == i * MAX_OP_COST + MAX_OP_COST) by (nonlinear_arith);
        }
        match canvas.apply(&ops[i]) {
            Ok(()) => {},
            Err(e) => {
                proof {
                    lemma_run_fails(init, all, i + 1, n, m, test_case.test_id);
                }
                return Err(e);
            },
        }
        i = i + 1;
    }
    proof {
        assert(all.take(i as int) =~= all);
    }
    Ok(
        ApplyOpsResult {
            picture: canvas.picture,
            only_ops_cost: canvas.cost,
            only_colored_top_right: canvas.only_colored_top_right,
            last_block_id: rect_id_from_usize(canvas.last_rect_id),
        },
    )
}

} // verus!
