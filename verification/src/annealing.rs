//! The search over stacks of rectangles: moves that change a stack, their
//! acceptance by score, and the search itself.

use crate::color::Color;
use crate::color_picker::{climb, estimate_best_color, find_best_color, list_average};
use crate::consts::{MAX_MERGE_COST, MAX_SIDE};
use crate::interpreter::{OpError, MAX_OP_COST};
use crate::local_optimizations::{
    colored_by_rect, column_run, counts_fit, covered_of, covered_pixels, finish,
    get_covered_pixels_if_add_new_rect, is_recolored, is_shrunk, optimize_colors, owner_id,
    score_by_rects, shrink_rects, total_score,
};
use crate::merger::{merge, merge_error, merges_into_one, starts_whole, MergeResult};
use crate::op::ops_view;
use crate::ops_by_rects::stack_ops;
use crate::picture::cells;
use crate::rand::{next_state, output_between, Random};
use crate::solution::{anchors_inside, lemma_owner, owner, SolutionRect};
use crate::solve::{res_consistent, SolutionRes};
use crate::test_case::TestCase;
use crate::utils::{is_point_inside, p, point_inside, Point};
use vstd::prelude::*;

verus! {

/// A change of a stack of rectangles.
#[derive(Clone, Copy, Debug)]
pub enum Move {
    /// Takes the rectangle at a position out.
    Remove(usize),
    /// Moves the anchor of the rectangle at a position by an offset.
    Shift(usize, i32, i32),
    /// Puts a rectangle in at a position.
    Insert(usize, SolutionRect),
    /// Exchanges the rectangles at a position and at the next.
    SwapOrder(usize),
}

/// Number of moves in a row that may be rejected before the search stops.
pub const MAX_NOT_CHANGED: usize = 1000;

/// Number of positions after the owner of a pixel among which a new
/// rectangle anchored at the pixel is put.
pub const INSERT_WINDOW: usize = 10;

/// The move can be made on the stack, and leaves every anchor on a canvas of
/// `n` columns and `m` rows.
pub open spec fn move_fits(rects: Seq<SolutionRect>, mv: Move, n: int, m: int) -> bool {
    match mv {
        Move::Remove(i) => i < rects.len(),
        Move::Shift(i, dx, dy) => i < rects.len() && 0 <= rects[i as int].from.x + dx < n && 0
            <= rects[i as int].from.y + dy < m,
        Move::Insert(i, r) => i <= rects.len() && rects.len() < usize::MAX && point_inside(
            r.from,
            n,
            m,
        ),
        Move::SwapOrder(pos) => pos + 1 < rects.len(),
    }
}

/// The stack after the move.
pub open spec fn moved(rects: Seq<SolutionRect>, mv: Move) -> Seq<SolutionRect> {
    match mv {
        Move::Remove(i) => rects.remove(i as int),
        Move::Shift(i, dx, dy) => rects.update(
            i as int,
            SolutionRect {
                from: Point {
                    x: (rects[i as int].from.x + dx) as i32,
                    y: (rects[i as int].from.y + dy) as i32,
                },
                to: rects[i as int].to,
                color: rects[i as int].color,
            },
        ),
        Move::Insert(i, r) => rects.insert(i as int, r),
        Move::SwapOrder(pos) => rects.update(pos as int, rects[pos + 1]).update(
            pos + 1,
            rects[pos as int],
        ),
    }
}

/// A move that fits makes the stack longer by one rectangle at most.
pub proof fn lemma_moved_len(rects: Seq<SolutionRect>, mv: Move, n: int, m: int)
    requires
        move_fits(rects, mv, n, m),
    ensures
        moved(rects, mv).len() <= rects.len() + 1,
{
}

/// A move that fits leaves every anchor on the canvas.
pub proof fn lemma_moved_inside(rects: Seq<SolutionRect>, mv: Move, n: int, m: int)
    requires
        n <= MAX_SIDE,
        m <= MAX_SIDE,
        anchors_inside(rects, n, m),
        move_fits(rects, mv, n, m),
    ensures
        anchors_inside(moved(rects, mv), n, m),
{
    let after = moved(rects, mv);
    assert forall|i: int| 0 <= i < after.len() implies point_inside(
        (#[trigger] after[i]).from,
        n,
        m,
    ) by {
        match mv {
            Move::Remove(k) => {
                if i < k {
                    assert(after[i] == rects[i]);
                } else {
                    assert(after[i] == rects[i + 1]);
                }
            },
            Move::Shift(k, dx, dy) => {
                if i != k {
                    assert(after[i] == rects[i]);
                }
            },
            Move::Insert(k, r) => {
                if i < k {
                    assert(after[i] == rects[i]);
                } else if i > k {
                    assert(after[i] == rects[i - 1]);
                }
            },
            Move::SwapOrder(pos) => {
                if i == pos {
                    assert(after[i] == rects[pos + 1]);
                } else if i == pos + 1 {
                    assert(after[i] == rects[pos as int]);
                } else {
                    assert(after[i] == rects[i]);
                }
            },
        }
    }
}

/// Makes the move on the stack.
pub fn apply_move(rects: &mut Vec<SolutionRect>, mv: Move, n: usize, m: usize)
    requires
        n <= MAX_SIDE,
        m <= MAX_SIDE,
        anchors_inside(old(rects)@, n as int, m as int),
        move_fits(old(rects)@, mv, n as int, m as int),
    ensures
        final(rects)@ == moved(old(rects)@, mv),
{
    match mv {
        Move::Remove(i) => {
            rects.remove(i);
        },
        Move::Shift(i, dx, dy) => {
            let mut r = rects[i];
            assert(point_inside(rects@[i as int].from, n as int, m as int));
            r.from = Point::new(r.from.x + dx, r.from.y + dy);
            rects[i] = r;
        },
        Move::Insert(i, r) => {
            rects.insert(i, r);
        },
        Move::SwapOrder(pos) => {
            let count = rects.len();
            assert(pos + 1 < count);
            let first = rects[pos];
            let second = rects[pos + 1];
            rects[pos] = second;
            rects[pos + 1] = first;
        },
    }
}

/// Makes the move on the stack and keeps it if the score of the new stack
/// is less than the score before and `slack` together; else puts the stack
/// back as it was.  `my_score` holds the score of the stack before and
/// after.
pub fn try_move(
    rects: &mut Vec<SolutionRect>,
    my_score: &mut u128,
    mv: Move,
    slack: u128,
    test_case: &TestCase,
    merge_cost: u128,
) -> (accepted: bool)
    requires
        test_case.wf(),
        merge_cost <= MAX_MERGE_COST,
        anchors_inside(old(rects)@, test_case.n(), test_case.m()),
        move_fits(old(rects)@, mv, test_case.n(), test_case.m()),
        *old(my_score) == total_score(*test_case, old(rects)@, merge_cost),
    ensures
        anchors_inside(final(rects)@, test_case.n(), test_case.m()),
        *final(my_score) == total_score(*test_case, final(rects)@, merge_cost),
        accepted ==> final(rects)@ == moved(old(rects)@, mv),
        accepted == (total_score(*test_case, moved(old(rects)@, mv), merge_cost) < *old(my_score)
            + slack),
        !accepted ==> final(rects)@ == old(rects)@ && *final(my_score) == *old(my_score),
{
    let ghost before = rects@;
    let mut trial: Vec<SolutionRect> = Vec::new();
    let mut i: usize = 0;
    while i < rects.len()
        invariant
            i <= rects@.len(),
            rects@ == before,
            trial@ == before.take(i as int),
        decreases rects@.len() - i,
    {
        trial.push(rects[i]);
        assert(before.take(i + 1) =~= before.take(i as int).push(before[i as int]));
        i = i + 1;
    }
    assert(before.take(i as int) =~= before);
    let (n, m) = test_case.get_size();
    apply_move(&mut trial, mv, n, m);
    proof {
        lemma_moved_inside(before, mv, test_case.n(), test_case.m());
    }
    let new_score = score_by_rects(trial.as_slice(), test_case, merge_cost);
    let limit: u128 = if slack > u128::MAX - *my_score {
        u128::MAX
    } else {
        *my_score + slack
    };
    if new_score < limit || (new_score == u128::MAX && slack > u128::MAX - *my_score) {
        *rects = trial;
        *my_score = new_score;
        true
    } else {
        false
    }
}

/// The offset of the neighbour in direction `k`: up, down, right, left.
pub open spec fn shift_offsets(k: int) -> (i32, i32) {
    if k == 0 {
        (0i32, 1i32)
    } else if k == 1 {
        (0i32, -1i32)
    } else if k == 2 {
        (1i32, 0i32)
    } else {
        (-1i32, 0i32)
    }
}

/// The smaller of two numbers.
pub open spec fn min2(a: int, b: int) -> int {
    if a < b {
        a
    } else {
        b
    }
}

/// The rectangle that is put into the stack `rects` at position `idx` when
/// it is anchored at `(x, y)`: it reaches to the corner of the canvas, and
/// its colour is the one that a climb from the average colour of the
/// pixels of `tc` that it would cover reaches.
pub open spec fn new_rect(tc: TestCase, rects: Seq<SolutionRect>, idx: usize, x: int, y: int)
    -> SolutionRect {
    let covered = covered_of(rects, cells(tc.expected@), x, y, tc.n(), tc.m(), idx);
    SolutionRect {
        from: Point { x: x as i32, y: y as i32 },
        to: Point { x: tc.n() as i32, y: tc.m() as i32 },
        color: climb(covered, list_average(covered)),
    }
}

/// The move that the generator picks on the stack `rects` from state `s0`
/// on, if it picks one, and the state in which it leaves the generator.
/// The generator draws a rectangle and one of four kinds of move.  Of
/// the first kind is the move that takes the rectangle out.  For the second
/// it draws a direction: the move shifts the anchor of the rectangle to its
/// neighbour in that direction, if that is a pixel of the canvas.  For the
/// third it draws a coin, and on one side of it a pixel; if a rectangle
/// owns the pixel, it draws one of the positions after the owner, at most
/// `INSERT_WINDOW - 1` of them, and the move puts a new rectangle anchored
/// at the pixel into that position.  For the fourth, if the stack holds
/// two rectangles or more, it draws one but the last: the move exchanges it
/// with the next.
pub open spec fn picked(tc: TestCase, rects: Seq<SolutionRect>, s0: u64) -> (Option<Move>, u64) {
    let n = tc.n();
    let m = tc.m();
    let count = rects.len() as int;
    let s1 = next_state(s0);
    let s2 = next_state(s1);
    let s3 = next_state(s2);
    let s4 = next_state(s3);
    let s5 = next_state(s4);
    let s6 = next_state(s5);
    let rect_id = output_between(s1, 0, count);
    let kind = output_between(s2, 0, 4);
    if count == 0 {
        (None, s0)
    } else if kind == 0 {
        (Some(Move::Remove(rect_id as usize)), s2)
    } else if kind == 1 {
        let d = shift_offsets(output_between(s3, 0, 4));
        if 0 <= rects[rect_id].from.x + d.0 < n && 0 <= rects[rect_id].from.y + d.1 < m {
            (Some(Move::Shift(rect_id as usize, d.0, d.1)), s3)
        } else {
            (None, s3)
        }
    } else if kind == 2 {
        if output_between(s3, 0, 2) != 0 || count >= usize::MAX - INSERT_WINDOW {
            (None, s3)
        } else {
            let x = output_between(s4, 0, n);
            let y = output_between(s5, 0, m);
            let o = owner(rects, x, y);
            if o < 0 {
                (None, s5)
            } else {
                let idx = output_between(s6, o + 1, min2(count + 1, o + INSERT_WINDOW));
                (Some(Move::Insert(idx as usize, new_rect(tc, rects, idx as usize, x, y))), s6)
            }
        }
    } else {
        if count > 1 {
            (Some(Move::SwapOrder(output_between(s3, 0, count - 1) as usize)), s3)
        } else {
            (None, s2)
        }
    }
}

/// A search in progress.
pub struct SearchState {
    /// The stack that the search has reached.
    pub rects: Seq<SolutionRect>,
    /// The score of the stack.
    pub score: nat,
    /// The state of the generator.
    pub state: u64,
    /// Number of moves in a row that were not kept, the next one counted.
    pub not_changed: nat,
    /// The search has stopped early.
    pub stopped: bool,
}

/// The search after one more move, which may make the score worse by less
/// than `slack`: it stops if `MAX_NOT_CHANGED` moves in a row, this one
/// counted, were not kept before; else the generator picks a move, and the
/// move is kept if its score is less than the score of the stack and
/// `slack` together.
#[verifier::opaque]
pub open spec fn search_step(tc: TestCase, merge_cost: u128, st: SearchState, slack: u128)
    -> SearchState {
    if st.stopped {
        st
    } else if st.not_changed + 1 == MAX_NOT_CHANGED {
        SearchState { stopped: true, ..st }
    } else {
        let pick = picked(tc, st.rects, st.state);
        match pick.0 {
            Some(mv) => {
                let after = moved(st.rects, mv);
                let score = total_score(tc, after, merge_cost);
                if score < st.score + slack {
                    SearchState {
                        rects: after,
                        score,
                        state: pick.1,
                        not_changed: 0,
                        stopped: false,
                    }
                } else {
                    SearchState { state: pick.1, not_changed: st.not_changed + 1, ..st }
                }
            },
            None => SearchState { state: pick.1, not_changed: st.not_changed + 1, ..st },
        }
    }
}

/// The search from the stack `rects` and the state `s0` of the generator
/// on after a move for each of the first `i` entries of `slacks`.
pub open spec fn searched(
    tc: TestCase,
    merge_cost: u128,
    rects: Seq<SolutionRect>,
    s0: u64,
    slacks: Seq<u128>,
    i: int,
) -> SearchState
    decreases i,
{
    if i <= 0 {
        SearchState {
            rects,
            score: total_score(tc, rects, merge_cost),
            state: s0,
            not_changed: 0,
            stopped: false,
        }
    } else {
        search_step(tc, merge_cost, searched(tc, merge_cost, rects, s0, slacks, i - 1), slacks[i - 1])
    }
}

/// The search after one more move is a step on from the search before.
pub proof fn lemma_searched_next(
    tc: TestCase,
    merge_cost: u128,
    rects: Seq<SolutionRect>,
    s0: u64,
    slacks: Seq<u128>,
    i: int,
)
    requires
        0 <= i,
    ensures
        searched(tc, merge_cost, rects, s0, slacks, i + 1) == search_step(
            tc,
            merge_cost,
            searched(tc, merge_cost, rects, s0, slacks, i),
            slacks[i],
        ),
{
}

/// A search stops at the move before which `MAX_NOT_CHANGED` moves in a
/// row, that one counted, were not kept.
pub proof fn lemma_step_stops(tc: TestCase, merge_cost: u128, st: SearchState, slack: u128)
    requires
        !st.stopped,
        st.not_changed + 1 == MAX_NOT_CHANGED,
    ensures
        search_step(tc, merge_cost, st, slack) == (SearchState { stopped: true, ..st }),
{
    reveal(search_step);
}

/// A search that has stopped stays as it is.
pub proof fn lemma_search_stopped(
    tc: TestCase,
    merge_cost: u128,
    rects: Seq<SolutionRect>,
    s0: u64,
    slacks: Seq<u128>,
    i: int,
    j: int,
)
    requires
        0 <= i <= j,
        searched(tc, merge_cost, rects, s0, slacks, i).stopped,
    ensures
        searched(tc, merge_cost, rects, s0, slacks, j) == searched(
            tc,
            merge_cost,
            rects,
            s0,
            slacks,
            i,
        ),
    decreases j - i,
{
    reveal(search_step);
    if j > i {
        lemma_search_stopped(tc, merge_cost, rects, s0, slacks, i, j - 1);
    }
}

/// The offset of the neighbour in direction `k`: up, down, right, left.
pub fn shift_of(k: usize) -> (d: (i32, i32))
    requires
        k < 4,
    ensures
        d == shift_offsets(k as int),
{
    if k == 0 {
        (0, 1)
    } else if k == 1 {
        (0, -1)
    } else if k == 2 {
        (1, 0)
    } else {
        (-1, 0)
    }
}

/// Lets `rnd` pick a move on the stack: a rectangle to take out, a
/// rectangle and a neighbour of its anchor to move it to, a pixel at which
/// to anchor a new rectangle, or two neighbours in the stack to exchange.
/// A move that would leave the canvas, a pixel without an owner, and every
/// other draw for a new rectangle gives no move.  A new rectangle is put
/// among the positions after the owner of its pixel, in the best colour
/// for the pixels that it would cover.
pub fn pick_move(rects: &Vec<SolutionRect>, rnd: &mut Random, test_case: &TestCase) -> (res: Option<
    Move,
>)
    requires
        test_case.wf(),
        anchors_inside(rects@, test_case.n(), test_case.m()),
    ensures
        res == picked(*test_case, rects@, old(rnd).state).0,
        final(rnd).state == picked(*test_case, rects@, old(rnd).state).1,
        match res {
            Some(mv) => move_fits(rects@, mv, test_case.n(), test_case.m()),
            None => true,
        },
{
    let (n, m) = test_case.get_size();
    let count = rects.len();
    if count == 0 {
        return None;
    }
    let rect_id = rnd.gen(0, count);
    let change_type = rnd.gen(0, 4);
    if change_type == 0 {
        Some(Move::Remove(rect_id))
    } else if change_type == 1 {
        let (dx, dy) = shift_of(rnd.gen(0, 4));
        let from = rects[rect_id].from;
        assert(point_inside(rects@[rect_id as int].from, n as int, m as int));
        let new_from = Point::new(from.x + dx, from.y + dy);
        if is_point_inside(new_from, n, m) {
            Some(Move::Shift(rect_id, dx, dy))
        } else {
            None
        }
    } else if change_type == 2 {
        if rnd.gen(0, 2) == 0 && count < usize::MAX - INSERT_WINDOW {
            let x = rnd.gen(0, n);
            let y = rnd.gen(0, m);
            let new_from = p(x, y);
            let old_colored_by_rect = colored_by_rect(rects.as_slice(), n, m);
            assert(old_colored_by_rect@[x as int].len() == m);
            let old_id = old_colored_by_rect[x][y];
            proof {
                lemma_owner(rects@, x as int, y as int);
                assert(old_colored_by_rect@[x as int]@[y as int] == owner_id(
                    owner(rects@, x as int, y as int),
                ));
            }
            if old_id == usize::MAX {
                return None;
            }
            let upper = if count + 1 < old_id + INSERT_WINDOW {
                count + 1
            } else {
                old_id + INSERT_WINDOW
            };
            let idx = rnd.gen(old_id + 1, upper);
            let covered_pixels_list = get_covered_pixels_if_add_new_rect(
                &old_colored_by_rect,
                x,
                y,
                &test_case.expected,
                idx,
            );
            proof {
                let g = old_colored_by_rect@;
                let e = cells(test_case.expected@);
                assert(g[x as int]@[y as int] < idx);
                let run = column_run(g, e, x as int, y as int, m as int, idx);
                assert(run.len() >= 1);
                assert(covered_pixels(g, e, x as int, y as int, n as int, m as int, idx).len()
                    >= 1);
            }
            let average = estimate_best_color(covered_pixels_list.as_slice());
            let best_color = find_best_color(covered_pixels_list.as_slice(), average);
            let r = SolutionRect { from: new_from, to: p(n, m), color: best_color };
            proof {
                crate::local_optimizations::lemma_covered_of_table(
                    old_colored_by_rect@,
                    rects@,
                    cells(test_case.expected@),
                    x as int,
                    y as int,
                    n as int,
                    m as int,
                    idx,
                );
                assert(r.from == new_rect(*test_case, rects@, idx, x as int, y as int).from);
                assert(r.to == new_rect(*test_case, rects@, idx, x as int, y as int).to);
                assert(r == new_rect(*test_case, rects@, idx, x as int, y as int));
            }
            Some(Move::Insert(idx, r))
        } else {
            None
        }
    } else {
        if count > 1 {
            let pos = rnd.gen(0, count - 1);
            Some(Move::SwapOrder(pos))
        } else {
            None
        }
    }
}

/// `r` is what a search that has reached the stack `reached` gives out, if
/// `mr` is the program that merges the seed regions: the program of `mr`
/// and then the program of the stack `reached`, with its boxes shrunk, its
/// colours stepped towards the pixels that the rectangles own, and its
/// boxes shrunk once more.
pub open spec fn is_search_result(
    tc: TestCase,
    mr: MergeResult,
    reached: Seq<SolutionRect>,
    r: SolutionRes,
) -> bool {
    exists|first: Seq<SolutionRect>, colored: Seq<SolutionRect>, last: Seq<SolutionRect>|
        #![trigger is_recolored(first, colored, cells(tc.expected@), tc.n(), tc.m()), is_shrunk(colored, last, tc.n(), tc.m())]
        is_shrunk(reached, first, tc.n(), tc.m()) && is_recolored(
            first,
            colored,
            cells(tc.expected@),
            tc.n(),
            tc.m(),
        ) && is_shrunk(colored, last, tc.n(), tc.m()) && ops_view(r.ops@) == ops_view(mr.ops@)
            + stack_ops(last, tc.n(), tc.m(), mr.last_block_id as nat)
}

/// Makes the moves of a search from the stack `rects` on, one that `rnd`
/// picks for each entry of `slacks`, and gives the stack that the search
/// reaches.
fn search(
    rects: &[SolutionRect],
    rnd: &mut Random,
    test_case: &TestCase,
    slacks: &[u128],
    merge_cost: u128,
) -> (res: Vec<SolutionRect>)
    requires
        test_case.wf(),
        anchors_inside(rects@, test_case.n(), test_case.m()),
        merge_cost <= MAX_MERGE_COST,
    ensures
        res@ == searched(
            *test_case,
            merge_cost,
            rects@,
            old(rnd).state,
            slacks@,
            slacks@.len() as int,
        ).rects,
        final(rnd).state == searched(
            *test_case,
            merge_cost,
            rects@,
            old(rnd).state,
            slacks@,
            slacks@.len() as int,
        ).state,
        anchors_inside(res@, test_case.n(), test_case.m()),
        res@.len() <= rects@.len() + slacks@.len(),
{
    let (n, m) = test_case.get_size();
    let ghost start = rects@;
    let ghost s0 = rnd.state;
    let mut rects = copy_rects(rects);
    let mut my_score = score_by_rects(rects.as_slice(), test_case, merge_cost);
    let mut not_changed_it: usize = 0;
    let mut it: usize = 0;
    while it < slacks.len()
        invariant_except_break
            not_changed_it < MAX_NOT_CHANGED,
            searched(*test_case, merge_cost, start, s0, slacks@, it as int) == (SearchState {
                rects: rects@,
                score: my_score as nat,
                state: rnd.state,
                not_changed: not_changed_it as nat,
                stopped: false,
            }),
        invariant
            it <= slacks@.len(),
            test_case.wf(),
            n == test_case.n(),
            m == test_case.m(),
            merge_cost <= MAX_MERGE_COST,
            anchors_inside(rects@, n as int, m as int),
            my_score == total_score(*test_case, rects@, merge_cost),
            rects@.len() <= start.len() + it,
        ensures
            searched(*test_case, merge_cost, start, s0, slacks@, slacks@.len() as int).rects
                == rects@,
            searched(*test_case, merge_cost, start, s0, slacks@, slacks@.len() as int).state
                == rnd.state,
        decreases slacks@.len() - it,
    {
        let ghost before = searched(*test_case, merge_cost, start, s0, slacks@, it as int);
        not_changed_it = not_changed_it + 1;
        if not_changed_it == MAX_NOT_CHANGED {
            proof {
                lemma_searched_next(*test_case, merge_cost, start, s0, slacks@, it as int);
                lemma_step_stops(*test_case, merge_cost, before, slacks@[it as int]);
                lemma_search_stopped(
                    *test_case,
                    merge_cost,
                    start,
                    s0,
                    slacks@,
                    it + 1,
                    slacks@.len() as int,
                );
            }
            break;
        }
        let kept = one_move(&mut rects, &mut my_score, rnd, test_case, slacks[it], merge_cost);
        if kept {
            not_changed_it = 0;
        }
        proof {
            lemma_searched_next(*test_case, merge_cost, start, s0, slacks@, it as int);
            lemma_step_of_move(
                *test_case,
                merge_cost,
                before,
                slacks@[it as int],
                kept,
                rects@,
                my_score,
                rnd.state,
            );
        }
        it = it + 1;
    }
    rects
}

/// What one move of a search leaves: `kept` tells whether the move that
/// the generator picked in the state `st.state` for the stack `st.rects`
/// was kept with the slack `slack`, and `rects`, `score` and `state` are
/// the stack, its score and the state of the generator after it.
pub open spec fn is_move_made(
    tc: TestCase,
    merge_cost: u128,
    st: SearchState,
    slack: u128,
    kept: bool,
    rects: Seq<SolutionRect>,
    score: u128,
    state: u64,
) -> bool {
    let pick = picked(tc, st.rects, st.state);
    &&& state == pick.1
    &&& score == total_score(tc, rects, merge_cost)
    &&& match pick.0 {
        Some(mv) => kept == (total_score(tc, moved(st.rects, mv), merge_cost) < st.score + slack)
            && rects == (if kept {
            moved(st.rects, mv)
        } else {
            st.rects
        }),
        None => !kept && rects == st.rects,
    }
}

/// A move that was made is a step of the search.
proof fn lemma_step_of_move(
    tc: TestCase,
    merge_cost: u128,
    st: SearchState,
    slack: u128,
    kept: bool,
    rects: Seq<SolutionRect>,
    score: u128,
    state: u64,
)
    requires
        !st.stopped,
        st.not_changed + 1 != MAX_NOT_CHANGED,
        st.score == total_score(tc, st.rects, merge_cost),
        is_move_made(tc, merge_cost, st, slack, kept, rects, score, state),
    ensures
        search_step(tc, merge_cost, st, slack) == (SearchState {
            rects,
            score: score as nat,
            state,
            not_changed: if kept {
                0
            } else {
                st.not_changed + 1
            },
            stopped: false,
        }),
{
    reveal(search_step);
}

/// Makes one move of a search: lets the generator pick a move, makes it on
/// the stack, and keeps it if the score of the new stack is less than the
/// score before and `slack` together.  Tells whether a move was kept.
fn one_move(
    rects: &mut Vec<SolutionRect>,
    my_score: &mut u128,
    rnd: &mut Random,
    test_case: &TestCase,
    slack: u128,
    merge_cost: u128,
) -> (kept: bool)
    requires
        test_case.wf(),
        merge_cost <= MAX_MERGE_COST,
        anchors_inside(old(rects)@, test_case.n(), test_case.m()),
        *old(my_score) == total_score(*test_case, old(rects)@, merge_cost),
    ensures
        anchors_inside(final(rects)@, test_case.n(), test_case.m()),
        final(rects)@.len() <= old(rects)@.len() + 1,
        is_move_made(
            *test_case,
            merge_cost,
            SearchState {
                rects: old(rects)@,
                score: *old(my_score) as nat,
                state: old(rnd).state,
                not_changed: 0,
                stopped: false,
            },
            slack,
            kept,
            final(rects)@,
            *final(my_score),
            final(rnd).state,
        ),
{
    let ghost held = rects@;
    match pick_move(rects, rnd, test_case) {
        Some(mv) => {
            proof {
                lemma_moved_len(held, mv, test_case.n(), test_case.m());
            }
            try_move(rects, my_score, mv, slack, test_case, merge_cost)
        },
        None => false,
    }
}

/// The solution that a search gives out when it has reached the stack
/// `rects`: shrinks the boxes, steps the colours towards the pixels that
/// the rectangles own, shrinks the boxes once more, and gives the program
/// of that stack, with the merges of `merge_result` before it, its picture
/// and its score.
fn give_out(rects: Vec<SolutionRect>, test_case: &TestCase, merge_result: &MergeResult) -> (res:
    Result<SolutionRes, OpError>)
    requires
        test_case.wf(),
        anchors_inside(rects@, test_case.n(), test_case.m()),
        merges_into_one(
            *test_case,
            merge_result.ops@,
            merge_result.last_block_id,
            merge_result.expected_score,
        ),
    ensures
        match res {
            Ok(r) => res_consistent(*test_case, r) && is_search_result(
                *test_case,
                *merge_result,
                rects@,
                r,
            ) && counts_fit(*test_case, *merge_result, rects@.len()),
            Err(e) => e == OpError::TooLarge && !counts_fit(
                *test_case,
                *merge_result,
                rects@.len(),
            ),
        },
{
    let (n, m) = test_case.get_size();
    let ghost reached = rects@;
    let mut rects = rects;
    shrink_rects(&mut rects, n, m);
    let ghost first = rects@;
    let r = match finish(&rects, test_case, merge_result) {
        Ok(r) => r,
        Err(e) => {
            return Err(e);
        },
    };
    let res = optimize_colors(rects.as_slice(), r.ops.as_slice(), test_case, merge_result);
    proof {
        if res is Ok {
            let out = res->Ok_0;
            let pair = choose|colored: Seq<SolutionRect>, shrunk: Seq<SolutionRect>|
                #![trigger is_shrunk(colored, shrunk, test_case.n(), test_case.m())]
                is_recolored(
                    first,
                    colored,
                    cells(test_case.expected@),
                    test_case.n(),
                    test_case.m(),
                ) && is_shrunk(colored, shrunk, test_case.n(), test_case.m()) && ops_view(out.ops@)
                    == ops_view(merge_result.ops@) + stack_ops(
                    shrunk,
                    test_case.n(),
                    test_case.m(),
                    merge_result.last_block_id as nat,
                );
            assert(is_shrunk(reached, first, test_case.n(), test_case.m()));
            assert(is_recolored(
                first,
                pair.0,
                cells(test_case.expected@),
                test_case.n(),
                test_case.m(),
            ) && is_shrunk(pair.0, pair.1, test_case.n(), test_case.m()));
            assert(is_search_result(*test_case, *merge_result, reached, out));
        }
    }
    res
}

/// A search from the stack `rects` on the instance `tc` gives nothing
/// out, and `e` says why: the seed regions cannot be merged; or the stack
/// that the search reaches, the merges or the seed regions are too many to
/// be counted (`TooLarge`).
pub open spec fn search_fails(
    tc: TestCase,
    rects: Seq<SolutionRect>,
    seed: u64,
    slacks: Seq<u128>,
    e: OpError,
) -> bool {
    merge_error(tc) == Some(e) || (merge_error(tc) is None && e == OpError::TooLarge
        && exists|mr: MergeResult|
        #![trigger merges_into_one(tc, mr.ops@, mr.last_block_id, mr.expected_score)]
        merges_into_one(tc, mr.ops@, mr.last_block_id, mr.expected_score) && !counts_fit(
            tc,
            mr,
            searched(tc, mr.expected_score, rects, seed, slacks, slacks.len() as int).rects.len(),
        ))
}

/// Searches for a better stack of rectangles from `rects` on, one move
/// that `rnd` picks for each entry of `slacks`: a move is kept if it makes
/// the score worse by less than its entry, which is how far the search may
/// climb at that step.  The search stops early after `MAX_NOT_CHANGED`
/// moves in a row that were not kept.  The boxes of the stack that is
/// reached are shrunk, its colours stepped towards the pixels that the
/// rectangles own, and its program, picture and score are given out.  The
/// search fails if the seed regions cannot be merged, or with `TooLarge`
/// if the stack that it reaches or the program of the merges is too long
/// to be counted.
pub fn optimize_positions(
    rects: &[SolutionRect],
    rnd: &mut Random,
    test_case: &TestCase,
    slacks: &[u128],
) -> (res: Result<SolutionRes, OpError>)
    requires
        test_case.wf(),
        anchors_inside(rects@, test_case.n(), test_case.m()),
    ensures
        match res {
            Ok(r) => res_consistent(*test_case, r) && exists|mr: MergeResult|
                #![trigger merges_into_one(*test_case, mr.ops@, mr.last_block_id, mr.expected_score)]
                merges_into_one(*test_case, mr.ops@, mr.last_block_id, mr.expected_score)
                    && final(rnd).state == searched(
                    *test_case,
                    mr.expected_score,
                    rects@,
                    old(rnd).state,
                    slacks@,
                    slacks@.len() as int,
                ).state && is_search_result(
                    *test_case,
                    mr,
                    searched(
                        *test_case,
                        mr.expected_score,
                        rects@,
                        old(rnd).state,
                        slacks@,
                        slacks@.len() as int,
                    ).rects,
                    r,
                ),
            Err(e) => search_fails(*test_case, rects@, old(rnd).state, slacks@, e),
        },
        merge_error(*test_case) is Some ==> res is Err,
        starts_whole(*test_case) && rects@.len() + slacks@.len() <= usize::MAX / 8 - 1 ==> res is Ok,
{
    let merge_result = match merge(test_case) {
        Ok(r) => r,
        Err(e) => {
            return Err(e);
        },
    };
    let merge_cost = merge_result.expected_score;
    let merge_len = merge_result.ops.len();
    proof {
        assert(merge_cost <= MAX_MERGE_COST) by (nonlinear_arith)
            requires
                merge_cost <= merge_len * MAX_OP_COST,
                merge_len <= 0xffff_ffff_ffff_ffff,
                MAX_OP_COST == 42_948_362_250,
                MAX_MERGE_COST == 792_257_446_810_718_524_046_092_533_750,
        ;
    }
    let reached = search(rects, rnd, test_case, slacks, merge_cost);
    let res = give_out(reached, test_case, &merge_result);
    proof {
        assert(merges_into_one(
            *test_case,
            merge_result.ops@,
            merge_result.last_block_id,
            merge_result.expected_score,
        ));
        if starts_whole(*test_case) {
            assert(merge_result.ops@.len() == 0);
            assert(ops_view(merge_result.ops@) =~= Seq::empty());
            assert(merge_result.last_block_id == 0);
        }
    }
    res
}

/// A copy of a stack of rectangles.
pub fn copy_rects(rects: &[SolutionRect]) -> (res: Vec<SolutionRect>)
    ensures
        res@ == rects@,
{
    let mut res: Vec<SolutionRect> = Vec::new();
    let mut i: usize = 0;
    while i < rects.len()
        invariant
            i <= rects@.len(),
            res@ == rects@.take(i as int),
        decreases rects@.len() - i,
    {
        res.push(rects[i]);
        assert(rects@.take(i + 1) =~= rects@.take(i as int).push(rects@[i as int]));
        i = i + 1;
    }
    assert(rects@.take(i as int) =~= rects@);
    res
}

} // verus!
