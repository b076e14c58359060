//! Solving one instance: the coordinate grids, their tables from the finest
//! to the coarsest, the rectangles of the whole canvas and their program.

use crate::color::Color;
use crate::color_picker::ColorPicker;
use crate::consts::SCORE_SCALE;
use crate::coords::{add_more_coords, coords_ok, gen_coords, more_coords};
use crate::corner_replay::whole_canvas;
use crate::interpreter::{initial_state, lemma_run_concat, replay, run, OpError, MAX_OP_COST};
use crate::merger::{merge_error, starts_whole, merge, merges_into_one, MergeResult};
use crate::op::{ops_view, Op};
use crate::ops_by_rects::{
    gen_ops_by_solution_rects, lemma_ops_view_concat, lemma_stack_replay, stack_cost,
    stack_next_id, stack_ops,
};
use crate::partition::{
    lemma_tiles_canvas, lemma_tiling_hides_start, lemma_tiling_shows, lemma_window_score,
    lemma_window_count, lemma_window_tiles, tiles, window_rects,
};
use crate::picture::{
    cells, fill, is_picture, lemma_cells_shape, new_picture, uniform,
};
use crate::pixel_dist::pixel_distance;
use crate::rand::Random;
use crate::rect_id::{decimal, rect_id_from_usize, RectId};
use crate::solution::{lemma_boxes_are_corners, painted_boxes, SolutionRect};
use crate::solver::{env_of, find_solution, lemma_block_shape, Solution, MAX_NEXT_BLOCKS};
use crate::test_case::{is_grid, Rect, TestCase};
use vstd::prelude::*;

verus! {

/// A program, the picture that it paints, its score in score units, and
/// the name of the canvas after it.
#[derive(Debug)]
pub struct SolutionRes {
    pub a: Vec<Vec<Color>>,
    pub expected_score: u128,
    pub ops: Vec<Op>,
    pub last_block_id: RectId,
}

/// Seed of the generator that picks the lines of the finer grids and the
/// samples of the estimates.
pub const SOLVER_SEED: u64 = 7877881;

/// The replay of the program of `r` on the canvas of `tc` succeeds and
/// paints the picture of `r`; the score of `r` is the cost of the program,
/// in score units, and the pixel distance of the picture from the picture
/// that `tc` asks for; and the canvas ends as one region with the name that
/// `r` gives.
pub open spec fn res_consistent(tc: TestCase, r: SolutionRes) -> bool {
    &&& is_grid(r.a@, tc.n(), tc.m())
    &&& match replay(tc, r.ops@) {
        Ok(s) => {
            &&& s.picture == cells(r.a@)
            &&& r.expected_score == s.cost * SCORE_SCALE + pixel_distance(
                cells(r.a@),
                cells(tc.expected@),
                tc.n(),
                tc.m(),
            )
            &&& r.last_block_id@ == decimal(s.last_rect_id)
            &&& s.rects == whole_canvas(tc.n(), tc.m(), s.last_rect_id)
        },
        Err(_) => false,
    }
}

/// Paints the boxes of `rects`, in order, on a canvas of `n` columns and
/// `m` rows that starts white.
pub fn paint_boxes(rects: &Vec<SolutionRect>, n: usize, m: usize) -> (a: Vec<Vec<Color>>)
    requires
        forall|i: int|
            0 <= i < rects@.len() ==> 0 <= (#[trigger] rects@[i]).from.x <= rects@[i].to.x <= n
                && 0 <= rects@[i].from.y <= rects@[i].to.y <= m,
    ensures
        is_grid(a@, n as int, m as int),
        cells(a@) == painted_boxes(
            uniform(crate::color::start_color(), n as int, m as int),
            rects@,
        ),
{
    let mut a = new_picture(Color::start(), n, m);
    let ghost start = cells(a@);
    let mut i: usize = 0;
    assert(rects@.take(0) =~= Seq::<SolutionRect>::empty());
    while i < rects.len()
        invariant
            i <= rects@.len(),
            is_grid(a@, n as int, m as int),
            start == uniform(crate::color::start_color(), n as int, m as int),
            forall|i: int|
                0 <= i < rects@.len() ==> 0 <= (#[trigger] rects@[i]).from.x <= rects@[i].to.x <= n
                    && 0 <= rects@[i].from.y <= rects@[i].to.y <= m,
            cells(a@) == painted_boxes(start, rects@.take(i as int)),
        decreases rects@.len() - i,
    {
        let r = rects[i];
        proof {
            assert(rects@.take(i + 1).drop_last() =~= rects@.take(i as int));
        }
        fill(&mut a, Rect::new(r.from, r.to), r.color, n, m);
        i = i + 1;
    }
    assert(rects@.take(i as int) =~= rects@);
    a
}

/// `v` is the grid with a line every `block_size` from zero on and a last
/// line at `max_value`.
pub open spec fn is_even_grid(v: Seq<usize>, block_size: usize, max_value: usize) -> bool {
    &&& coords_ok(v, max_value as int)
    &&& v.last() == max_value
    &&& forall|i: int| 0 <= i < v.len() - 1 ==> (#[trigger] v[i]) == i * block_size
    &&& (v.len() - 1) * block_size >= max_value
}

/// `sol` holds the tables of the instance `tc` for the grid with a line
/// every `block_size`, which spans `bn` by `bm` intervals, and for two finer
/// grids, the finest only if `third` is set: its tables are filled in, the
/// coarsest one for windows of any span and the finer ones for windows of
/// up to `MAX_NEXT_BLOCKS` intervals a side; and each finer grid is the
/// grid after it with the lines put between that the generator picks, which
/// starts from `SOLVER_SEED` and serves first the two grids in the middle,
/// `x` before `y`, and then the finest two.
pub open spec fn is_solution_of(
    tc: TestCase,
    block_size: usize,
    third: bool,
    sol: Solution,
    bn: int,
    bm: int,
) -> bool {
    let levels = sol.levels@;
    let top = levels.last();
    let mid = levels[levels.len() - 2];
    let mx = more_coords(top.xs@, SOLVER_SEED, bn);
    let my = more_coords(top.ys@, mx.1, bm);
    let mx2 = more_coords(mx.0, my.1, mx.0.len() - 1);
    let my2 = more_coords(my.0, mx2.1, my.0.len() - 1);
    &&& sol.wf()
    &&& sol.env@ == env_of(tc.expected@, tc.test_id)
    &&& levels.len() == (if third {
        3int
    } else {
        2int
    })
    &&& is_even_grid(top.xs@, block_size, tc.n() as usize)
    &&& is_even_grid(top.ys@, block_size, tc.m() as usize)
    &&& bn == top.xs@.len() - 1
    &&& bm == top.ys@.len() - 1
    &&& top.max_next_x_blocks == bn
    &&& top.max_next_y_blocks == bm
    &&& mid.xs@ == mx.0
    &&& mid.ys@ == my.0
    &&& mid.max_next_x_blocks == MAX_NEXT_BLOCKS
    &&& mid.max_next_y_blocks == MAX_NEXT_BLOCKS
    &&& third ==> levels[0].xs@ == mx2.0 && levels[0].ys@ == my2.0 && levels[0].max_next_x_blocks
        == MAX_NEXT_BLOCKS && levels[0].max_next_y_blocks == MAX_NEXT_BLOCKS
}

/// The tables of the instance `test_case` for the grid with a line every
/// `block_size` and two finer grids, the finest only if `use_third_layer`
/// says so, and the number of intervals of the coarsest grid in `x` and in
/// `y`.
fn build_tables(test_case: &TestCase, block_size: usize, use_third_layer: bool) -> (res: (
    Solution,
    usize,
    usize,
))
    requires
        test_case.wf(),
        block_size >= 1,
    ensures
        res.0.wf(),
        res.0.env@ == env_of(test_case.expected@, test_case.test_id),
        res.0.levels@.len() >= 1,
        res.0.levels@.last().window(0, 0, res.1 as int, res.2 as int),
        res.0.levels@.last().xs@[0] == 0,
        res.0.levels@.last().ys@[0] == 0,
        res.0.levels@.last().xs@[res.1 as int] == test_case.n(),
        res.0.levels@.last().ys@[res.2 as int] == test_case.m(),
        is_solution_of(*test_case, block_size, use_third_layer, res.0, res.1 as int, res.2 as int),
{
    let expected = &test_case.expected;
    let color_picker = ColorPicker::new(expected);
    let n = expected.len();
    let m = expected[0].len();
    let xs = gen_coords(block_size, n);
    let ys = gen_coords(block_size, m);
    let blocks_n = xs.len() - 1;
    let blocks_m = ys.len() - 1;
    let mut rnd = Random::new(SOLVER_SEED);
    let more_xs = add_more_coords(xs.as_slice(), &mut rnd);
    let more_ys = add_more_coords(ys.as_slice(), &mut rnd);
    let more_xs_2 = add_more_coords(more_xs.as_slice(), &mut rnd);
    let more_ys_2 = add_more_coords(more_ys.as_slice(), &mut rnd);
    let mut solution = Solution::new(expected, test_case);
    if use_third_layer {
        find_solution(
            expected,
            more_xs_2.as_slice(),
            more_ys_2.as_slice(),
            &color_picker,
            MAX_NEXT_BLOCKS,
            MAX_NEXT_BLOCKS,
            &mut solution,
            &mut rnd,
            test_case,
        );
    }
    find_solution(
        expected,
        more_xs.as_slice(),
        more_ys.as_slice(),
        &color_picker,
        MAX_NEXT_BLOCKS,
        MAX_NEXT_BLOCKS,
        &mut solution,
        &mut rnd,
        test_case,
    );
    find_solution(
        expected,
        xs.as_slice(),
        ys.as_slice(),
        &color_picker,
        blocks_n,
        blocks_m,
        &mut solution,
        &mut rnd,
        test_case,
    );
    proof {
        assert(0 * block_size == 0) by (nonlinear_arith);
        assert(xs@[0] == 0 && ys@[0] == 0);
    }
    (solution, blocks_n, blocks_m)
}

/// The rectangles of the whole canvas, in the order in which they are
/// painted.
fn canvas_rects(solution: &Solution, blocks_n: usize, blocks_m: usize) -> (rects: Vec<SolutionRect>)
    requires
        solution.wf(),
        solution.levels@.len() >= 1,
        solution.levels@.last().window(0, 0, blocks_n as int, blocks_m as int),
        solution.levels@.last().xs@[0] == 0,
        solution.levels@.last().ys@[0] == 0,
        solution.levels@.last().xs@[blocks_n as int] == solution.env@.n,
        solution.levels@.last().ys@[blocks_m as int] == solution.env@.m,
    ensures
        rects@ == window_rects(
            solution.levels@,
            solution.levels@.len() - 1,
            0,
            0,
            blocks_n as int,
            blocks_m as int,
        ),
        tiles(rects@, 0, solution.env@.n, 0, solution.env@.m),
        rects@.len() <= solution.env@.n * solution.env@.m,
{
    let mut rects: Vec<SolutionRect> = Vec::new();
    solution.iter_rects(0, 0, blocks_n, blocks_m, &mut rects);
    proof {
        let levels = solution.levels@;
        let top = levels.len() - 1;
        assert(rects@ =~= window_rects(levels, top, 0, 0, blocks_n as int, blocks_m as int));
        lemma_window_tiles(solution.env@, levels, top, 0, 0, blocks_n as int, blocks_m as int);
        lemma_window_count(solution.env@, levels, top, 0, 0, blocks_n as int, blocks_m as int);
    }
    rects
}

/// For the rectangles of the whole canvas that the tables of the solver
/// stand for: the program that merges the seed regions into one and then
/// fills the rectangles corner by corner can be replayed, and its replay
/// paints the picture that the rectangles paint when they are painted box
/// by box in order.  The score in the coarsest table, with the cost of the
/// merges, is the cost of the program, in score units, and the pixel
/// distance of that picture.
pub proof fn lemma_partition_replays(
    tc: TestCase,
    solution: Solution,
    blocks_n: int,
    blocks_m: int,
    rects: Seq<SolutionRect>,
    merge_ops: Seq<Op>,
    first_id: usize,
    merge_cost: u128,
    all_ops: Seq<Op>,
    a: Seq<Vec<Color>>,
)
    requires
        tc.wf(),
        solution.wf(),
        solution.env@ == env_of(tc.expected@, tc.test_id),
        solution.levels@.len() >= 1,
        solution.levels@.last().window(0, 0, blocks_n, blocks_m),
        rects == window_rects(solution.levels@, solution.levels@.len() - 1, 0, 0, blocks_n, blocks_m),
        tiles(rects, 0, tc.n(), 0, tc.m()),
        solution.levels@.last().xs@[0] == 0,
        solution.levels@.last().ys@[0] == 0,
        solution.levels@.last().xs@[blocks_n] == tc.n(),
        solution.levels@.last().ys@[blocks_m] == tc.m(),
        merges_into_one(tc, merge_ops, first_id, merge_cost),
        ops_view(all_ops) == ops_view(merge_ops) + stack_ops(rects, tc.n(), tc.m(), first_id as nat),
        is_grid(a, tc.n(), tc.m()),
        cells(a) == painted_boxes(uniform(crate::color::start_color(), tc.n(), tc.m()), rects),
    ensures
        match replay(tc, all_ops) {
            Ok(s) => {
                &&& s.picture == cells(a)
                &&& solution.levels@.last().cell(0, 0, blocks_n, blocks_m).cost + merge_cost
                    * SCORE_SCALE == s.cost * SCORE_SCALE + pixel_distance(
                    cells(a),
                    cells(tc.expected@),
                    tc.n(),
                    tc.m(),
                )
                &&& s.last_rect_id == stack_next_id(rects, first_id as nat)
                &&& s.rects == whole_canvas(tc.n(), tc.m(), s.last_rect_id)
            },
            Err(_) => false,
        },
{
    let env = solution.env@;
    let levels = solution.levels@;
    let top = levels.len() - 1;
    let n = tc.n();
    let m = tc.m();
    lemma_tiles_canvas(rects, n, m);
    let init = initial_state(tc);
    let s1 = run(init, ops_view(merge_ops), n, m, tc.test_id)->Ok_0;
    lemma_cells_shape(tc.start_field@, n, m);
    lemma_stack_replay(s1, rects, n, m, first_id as nat, tc.test_id);
    lemma_run_concat(
        init,
        ops_view(merge_ops),
        stack_ops(rects, n, m, first_id as nat),
        n,
        m,
        tc.test_id,
    );
    lemma_boxes_are_corners(s1.picture, rects, n, m);
    let white = uniform(crate::color::start_color(), n, m);
    assert(is_picture(white, n, m));
    lemma_tiling_hides_start(white, s1.picture, rects, n, m);
    let pic = painted_boxes(white, rects);
    lemma_tiling_shows(white, rects, n, m);
    lemma_window_score(env, levels, top, 0, 0, blocks_n, blocks_m, pic);
    let sc = stack_cost(rects, n, m, tc.test_id);
    assert((merge_cost + sc) * SCORE_SCALE == merge_cost * SCORE_SCALE + sc * SCORE_SCALE)
        by (nonlinear_arith);
}

/// `r` is the solution of the instance `tc` for the grid with a line
/// every `block_size`: its program merges the seed regions and then fills
/// the rectangles of the whole canvas that the tables of the solver stand
/// for; the program replays on the canvas of `tc` and paints the picture of
/// `r`; and the score of `r` is the score in the coarsest table, with the
/// cost of the merges added, which is the cost of the program and the pixel
/// distance of the picture.
#[verifier::opaque]
pub open spec fn is_solved(tc: TestCase, block_size: usize, third: bool, r: SolutionRes) -> bool {
    res_consistent(tc, r) && exists|sol: Solution, mr: MergeResult, bn: int, bm: int|
        #![trigger is_solution_of(tc, block_size, third, sol, bn, bm), merges_into_one(tc, mr.ops@, mr.last_block_id, mr.expected_score)]
        is_solution_of(tc, block_size, third, sol, bn, bm) && merges_into_one(
            tc,
            mr.ops@,
            mr.last_block_id,
            mr.expected_score,
        ) && ops_view(r.ops@) == ops_view(mr.ops@) + stack_ops(
            window_rects(sol.levels@, sol.levels@.len() - 1, 0, 0, bn, bm),
            tc.n(),
            tc.m(),
            mr.last_block_id as nat,
        ) && r.expected_score == sol.levels@.last().cell(0, 0, bn, bm).cost + mr.expected_score
            * SCORE_SCALE
}

/// The instance `tc` is not solved, and `e` says why: the seed regions
/// cannot be merged, or the rectangles of the canvas or the merges are too
/// many to be counted (`TooLarge`).
#[verifier::opaque]
pub open spec fn solve_fails(tc: TestCase, block_size: usize, third: bool, e: OpError) -> bool {
    merge_error(tc) == Some(e) || (merge_error(tc) is None && e == OpError::TooLarge
        && exists|sol: Solution, mr: MergeResult, bn: int, bm: int|
        #![trigger is_solution_of(tc, block_size, third, sol, bn, bm), merges_into_one(tc, mr.ops@, mr.last_block_id, mr.expected_score)]
        is_solution_of(tc, block_size, third, sol, bn, bm) && merges_into_one(
            tc,
            mr.ops@,
            mr.last_block_id,
            mr.expected_score,
        ) && (mr.last_block_id > usize::MAX / 4 || window_rects(
            sol.levels@,
            sol.levels@.len() - 1,
            0,
            0,
            bn,
            bm,
        ).len() > usize::MAX / 4 - 1))
}

/// The program of a solution replays on the canvas of its instance, paints
/// the picture of the solution and has its score.
pub proof fn lemma_solved_consistent(tc: TestCase, block_size: usize, third: bool, r: SolutionRes)
    requires
        is_solved(tc, block_size, third, r),
    ensures
        res_consistent(tc, r),
{
    reveal(is_solved);
}

/// Solves the instance `test_case`: builds the grid with a line every
/// `block_size` and two finer grids, the finest only if `use_third_layer`
/// says so, fills in their tables from the finest on, and reads the
/// rectangles of the whole canvas off the coarsest.  The result holds the
/// program that first merges the seed regions and then fills the
/// rectangles, the picture that the rectangles paint, and the score that
/// the coarsest table gives, with the cost of the merges added.
pub fn solve_one(test_case: &TestCase, block_size: usize, use_third_layer: bool) -> (res: Result<
    SolutionRes,
    OpError,
>)
    requires
        test_case.wf(),
        block_size >= 1,
    ensures
        match res {
            Ok(r) => is_solved(*test_case, block_size, use_third_layer, r),
            Err(e) => solve_fails(*test_case, block_size, use_third_layer, e),
        },
        merge_error(*test_case) is Some ==> res is Err,
        starts_whole(*test_case) ==> res is Ok || res == Err::<SolutionRes, OpError>(
            OpError::TooLarge,
        ),
        starts_whole(*test_case) && test_case.n() * test_case.m() <= usize::MAX / 4 - 1 ==> res is Ok,
        starts_whole(*test_case) && res is Ok ==> res->Ok_0.ops@.len() <= 5 * (test_case.n()
            * test_case.m()),
{
    reveal(is_solved);
    reveal(solve_fails);
    let (n, m) = test_case.get_size();
    let (solution, blocks_n, blocks_m) = build_tables(test_case, block_size, use_third_layer);
    let rects = canvas_rects(&solution, blocks_n, blocks_m);
    let merge_result = match merge(test_case) {
        Ok(r) => r,
        Err(e) => {
            return Err(e);
        },
    };
    let first_id = merge_result.last_block_id;
    proof {
        if starts_whole(*test_case) {
            assert(merge_result.ops@.len() == 0);
            assert(ops_view(merge_result.ops@) =~= Seq::empty());
            assert(first_id == 0);
        }
    }
    if first_id > usize::MAX / 4 || rects.len() > usize::MAX / 4 - 1 {
        proof {
            assert(is_solution_of(
                *test_case,
                block_size,
                use_third_layer,
                solution,
                blocks_n as int,
                blocks_m as int,
            ));
            assert(merges_into_one(
                *test_case,
                merge_result.ops@,
                merge_result.last_block_id,
                merge_result.expected_score,
            ));
        }
        return Err(OpError::TooLarge);
    }
    proof {
        lemma_tiles_canvas(rects@, n as int, m as int);
    }
    let mut rect_ops = gen_ops_by_solution_rects(rects.as_slice(), n, m, first_id, test_case);
    let merge_cost: u128 = merge_result.expected_score;
    let merge_len = merge_result.ops.len();
    let ghost merge_ops = merge_result.ops@;
    let ghost mr = merge_result;
    let mut all_ops = merge_result.ops;
    let ghost added = rect_ops@;
    proof {
        crate::ops_by_rects::lemma_stack_ops_len(rects@, n as int, m as int, first_id as nat);
        assert(ops_view(added).len() == added.len());
    }
    all_ops.append(&mut rect_ops);
    let my_picture = paint_boxes(&rects, n, m);
    let last_id: usize = next_whole_id(&rects, first_id);
    let top = solution.levels.len() - 1;
    proof {
        lemma_block_shape(solution.levels@[top as int], 0, 0, n as int, m as int);
        lemma_ops_view_concat(merge_ops, added);
        lemma_partition_replays(
            *test_case,
            solution,
            blocks_n as int,
            blocks_m as int,
            rects@,
            merge_ops,
            first_id,
            merge_cost,
            all_ops@,
            my_picture@,
        );
        assert(merge_cost * SCORE_SCALE <= 0xffff_ffff_ffff_ffff * 42_948_362_250 * 200_000_000)
            by (nonlinear_arith)
            requires
                merge_cost <= merge_len * MAX_OP_COST,
                merge_len <= 0xffff_ffff_ffff_ffff,
                MAX_OP_COST == 42_948_362_250,
                SCORE_SCALE == 200_000_000,
        ;
    }
    let score_without_merge: u128 = solution.levels[top].table[0][0][blocks_n][blocks_m].cost;
    let res = SolutionRes {
        a: my_picture,
        expected_score: score_without_merge + merge_cost * SCORE_SCALE,
        ops: all_ops,
        last_block_id: rect_id_from_usize(last_id),
    };
    proof {
        assert(is_solution_of(
            *test_case,
            block_size,
            use_third_layer,
            solution,
            blocks_n as int,
            blocks_m as int,
        ));
        assert(merges_into_one(*test_case, mr.ops@, mr.last_block_id, mr.expected_score));
    }
    Ok(res)
}

/// The number that names the canvas after the rectangles of the stack were
/// filled in order, if `cur_whole_id` named it before.
pub fn next_whole_id(rects: &Vec<SolutionRect>, cur_whole_id: usize) -> (id: usize)
    requires
        cur_whole_id + 3 * rects@.len() <= usize::MAX,
    ensures
        id == stack_next_id(rects@, cur_whole_id as nat),
{
    let mut id = cur_whole_id;
    let mut i: usize = 0;
    assert(rects@.take(0) =~= Seq::<SolutionRect>::empty());
    while i < rects.len()
        invariant
            i <= rects@.len(),
            cur_whole_id + 3 * rects@.len() <= usize::MAX,
            id == stack_next_id(rects@.take(i as int), cur_whole_id as nat),
            id <= cur_whole_id + 3 * i,
        decreases rects@.len() - i,
    {
        let r = rects[i];
        proof {
            assert(rects@.take(i + 1).drop_last() =~= rects@.take(i as int));
        }
        if r.from.x == 0 && r.from.y == 0 {
        } else if r.from.x == 0 || r.from.y == 0 {
            id = id + 1;
        } else {
            id = id + 3;
        }
        i = i + 1;
    }
    assert(rects@.take(i as int) =~= rects@);
    id
}

} // verus!
