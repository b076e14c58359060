//! Merging the seed regions of a canvas into one region.

use crate::corner_replay::{canvas_rect, whole_canvas};
use crate::interpreter::{
    lemma_run_fails, lemma_run_next, run, Canvas, CanvasState, OpError, MAX_OP_COST,
};
use crate::op::{ops_view, Op, OpView};
use crate::rect_id::{rect_id_from_usize, rect_id_sub_key, RectId};
use crate::test_case::{Rect, Region, TestCase};
use crate::utils::Point;
use crate::interpreter::initial_state;
use crate::merge_program::{
    block_side, chain_merges, column_id, column_names, columns, corner_le, corner_order,
    cut_rows, exchanged_at, grid_fits, least_at, selected, is_corner_order,
    lemma_grid_program_joins, merge_onto_rows, merge_program, rows_fit, sorted_blocks,
};
use crate::placement::rows;
use crate::rect_id::decimal;
use vstd::prelude::*;

verus! {

/// A program that merges the seed regions into one region, the number that
/// names the region, and what the program costs.
#[derive(Debug)]
pub struct MergeResult {
    pub ops: Vec<Op>,
    pub last_block_id: usize,
    pub expected_score: u128,
}

/// The replay of `ops` on the canvas of `tc` succeeds, costs `cost` and
/// leaves the canvas as one region named by the number `id`.
pub open spec fn merges_into_one(tc: TestCase, ops: Seq<Op>, id: usize, cost: u128) -> bool {
    match run(initial_state(tc), ops_view(ops), tc.n(), tc.m(), tc.test_id) {
        Ok(s) => s.rects == whole_canvas(tc.n(), tc.m(), id as nat) && s.last_rect_id == id
            && s.cost == cost && s.picture == initial_state(tc).picture
            && s.only_colored_top_right && cost <= ops.len() * MAX_OP_COST,
        Err(_) => false,
    }
}

/// The canvas of `tc` starts as one region, named by the number zero.
pub open spec fn starts_whole(tc: TestCase) -> bool {
    tc.regions@.len() == 1 && tc.regions@[0].name@ == crate::rect_id::decimal(0)
        && tc.regions@[0].rect == canvas_rect(tc.n(), tc.m())
}

/// No operation of the program fills or swaps regions.
pub open spec fn paints_nothing(ops: Seq<OpView>) -> bool {
    forall|i: int| 0 <= i < ops.len() ==> !((#[trigger] ops[i]) is Color) && !(ops[i] is Swap)
}

/// The replay of `ops` on the canvas of `tc` succeeds and leaves the canvas
/// as one region, named by the number of the region merged last.
pub open spec fn leaves_one_region(tc: TestCase, ops: Seq<Op>) -> bool {
    match run(initial_state(tc), ops_view(ops), tc.n(), tc.m(), tc.test_id) {
        Ok(s) => s.rects == whole_canvas(tc.n(), tc.m(), s.last_rect_id),
        Err(_) => false,
    }
}

/// Replays `ops` on the canvas of `test_case`, and tells what they cost and
/// which number names the canvas after them, if they leave the canvas as
/// one region and paint nothing.
pub fn replay_merge(test_case: &TestCase, ops: &Vec<Op>) -> (res: Result<(usize, u128), OpError>)
    requires
        test_case.wf(),
        test_case.regions@.len() + ops@.len() <= usize::MAX,
    ensures
        match res {
            Ok((id, cost)) => merges_into_one(*test_case, ops@, id, cost),
            Err(e) => !paints_nothing(ops_view(ops@)) || !leaves_one_region(*test_case, ops@),
        },
{
    let mut canvas = Canvas::new(test_case);
    let ghost init = initial_state(*test_case);
    let ghost all = ops_view(ops@);
    let ghost n = test_case.n();
    let ghost m = test_case.m();
    let mut i: usize = 0;
    assert(all.take(0) =~= Seq::<OpView>::empty());
    while i < ops.len()
        invariant
            i <= ops@.len(),
            all == ops_view(ops@),
            init == initial_state(*test_case),
            n == test_case.n(),
            m == test_case.m(),
            test_case.regions@.len() + ops@.len() <= usize::MAX,
            test_case.regions@.len() >= 1,
            canvas.wf(),
            canvas.n == n,
            canvas.m == m,
            canvas.test_id == test_case.test_id,
            canvas.cost <= i * MAX_OP_COST,
            canvas.last_rect_id <= test_case.regions@.len() - 1 + i,
            canvas@.picture == init.picture,
            canvas@.only_colored_top_right,
            run(init, all.take(i as int), n, m, test_case.test_id) == Ok::<CanvasState, OpError>(
                canvas@,
            ),
        decreases ops@.len() - i,
    {
        proof {
            assert(i * MAX_OP_COST + MAX_OP_COST <= u128::MAX) by (nonlinear_arith)
                requires
                    i <= usize::MAX,
                    MAX_OP_COST == 42_948_362_250,
            ;
            lemma_run_next(init, all, i as int, n, m, test_case.test_id);
            assert(all[i as int] == ops@[i as int]@);
            assert((i + 1) * MAX_OP_COST == i * MAX_OP_COST + MAX_OP_COST) by (nonlinear_arith);
        }
        match &ops[i] {
            Op::Color(_, _) => {
                assert(all[i as int] is Color);
                return Err(OpError::NotOneRegion);
            },
            Op::Swap(_, _) => {
                assert(all[i as int] is Swap);
                return Err(OpError::NotOneRegion);
            },
            _ => {},
        }
        match canvas.apply(&ops[i]) {
            Ok(()) => {},
            Err(e) => {
                proof {
                    lemma_run_fails(init, all, i + 1, n, m, test_case.test_id);
                }
                return Err(e);
            },
        }
        i = i + 1;
    }
    proof {
        assert(all.take(i as int) =~= all);
    }
    let whole = Rect::new(
        Point::new(0, 0),
        Point::new(canvas.n as i32, canvas.m as i32),
    );
    let name = rect_id_from_usize(canvas.last_rect_id);
    if canvas.rects.is_only(&name, whole) {
        Ok((canvas.last_rect_id, canvas.cost))
    } else {
        Err(OpError::NotOneRegion)
    }
}

/// The seed regions in the order of their lower left corners, by `x` and
/// then by `y`: the positions in `regions`.
fn sorted_order(regions: &Vec<Region>) -> (order: Vec<usize>)
    ensures
        order@ == corner_order(regions@),
        is_corner_order(regions@, order@),
{
    let mut order: Vec<usize> = Vec::new();
    let mut i: usize = 0;
    while i < regions.len()
        invariant
            i <= regions@.len(),
            order@.len() == i,
            forall|k: int| 0 <= k < i ==> (#[trigger] order@[k]) == k,
        decreases regions@.len() - i,
    {
        order.push(i);
        i = i + 1;
    }
    proof {
        assert forall|v: usize| v < regions@.len() implies #[trigger] order@.contains(v) by {
            assert(order@[v as int] == v);
        }
        assert(order@ =~= selected(regions@, 0));
    }
    let mut done: usize = 0;
    while done < order.len()
        invariant
            done <= order@.len(),
            order@.len() == regions@.len(),
            order@ == selected(regions@, done as int),
            forall|k: int| 0 <= k < order@.len() ==> (#[trigger] order@[k]) < regions@.len(),
            forall|v: usize| v < regions@.len() ==> #[trigger] order@.contains(v),
            forall|a: int, b: int|
                0 <= a < done && a < b < order@.len() ==> #[trigger] le_at(regions@, order@, a, b),
        decreases order@.len() - done,
    {
        let mut least = done;
        let mut j = done + 1;
        while j < order.len()
            invariant
                done <= least < order@.len(),
                done < j <= order@.len(),
                order@.len() == regions@.len(),
                forall|k: int| 0 <= k < order@.len() ==> (#[trigger] order@[k]) < regions@.len(),
                forall|t: int| done <= t < j ==> #[trigger] le_at(regions@, order@, least as int, t),
                least == least_at(regions@, order@, done as int, j as int),
            decreases order@.len() - j,
        {
            let a = regions[order[j]].rect.from;
            let b = regions[order[least]].rect.from;
            if a.x < b.x || (a.x == b.x && a.y < b.y) {
                proof {
                    assert forall|t: int| done <= t < j + 1 implies #[trigger] le_at(
                        regions@,
                        order@,
                        j as int,
                        t,
                    ) by {
                        if t < j {
                            assert(le_at(regions@, order@, least as int, t));
                        }
                    }
                }
                least = j;
            } else {
                assert(le_at(regions@, order@, least as int, j as int));
            }
            j = j + 1;
        }
        let ghost before = order@;
        let tmp = order[done];
        let other = order[least];
        order[done] = other;
        order[least] = tmp;
        proof {
            let now = order@;
            assert(now =~= exchanged_at(before, done as int, least as int));
            assert(now == selected(regions@, done + 1));
            assert forall|v: usize| v < regions@.len() implies #[trigger] now.contains(v) by {
                assert(before.contains(v));
                let k = choose|k: int| 0 <= k < before.len() && before[k] == v;
                if k == done {
                    assert(now[least as int] == v);
                } else if k == least {
                    assert(now[done as int] == v);
                } else {
                    assert(now[k] == v);
                }
            }
            assert forall|a: int, b: int| 0 <= a < done + 1 && a < b < now.len() implies #[trigger] le_at(
                regions@,
                now,
                a,
                b,
            ) by {
                let b0 = if b == done {
                    least as int
                } else if b == least {
                    done as int
                } else {
                    b
                };
                assert(now[b] == before[b0]);
                if a < done {
                    assert(now[a] == before[a]);
                    assert(le_at(regions@, before, a, b0));
                } else {
                    assert(now[a] == before[least as int]);
                    assert(le_at(regions@, before, least as int, b0));
                }
            }
        }
        done = done + 1;
    }
    proof {
        assert forall|i: int, j: int| 0 <= i < j < order@.len() implies corner_le(
            regions@[(#[trigger] order@[i]) as int],
            regions@[(#[trigger] order@[j]) as int],
        ) by {
            assert(le_at(regions@, order@, i, j));
        }
    }
    order
}

/// The region at the place `i` of `order` has its corner before the corner
/// of the region at the place `j`, or the same.
pub open spec fn le_at(regions: Seq<Region>, order: Seq<usize>, i: int, j: int) -> bool {
    corner_le(regions[order[i] as int], regions[order[j] as int])
}

/// The replay of the program on the canvas of `tc` succeeds and leaves the
/// canvas as one region, named by the number of the region merged last.
pub open spec fn leaves_whole(tc: TestCase, program: Seq<OpView>) -> bool {
    match run(initial_state(tc), program, tc.n(), tc.m(), tc.test_id) {
        Ok(s) => s.rects == whole_canvas(tc.n(), tc.m(), s.last_rect_id),
        Err(_) => false,
    }
}

/// `res` is what the seed regions of `tc`, taken in the order `order`, are
/// merged by if the first `first_lines` columns of blocks are merged
/// first: the program for such a grid, with the name that it leaves and
/// what it costs, if the regions can be such a grid and the program leaves
/// the canvas as one region; and else nothing.
pub open spec fn is_grid_merge(
    tc: TestCase,
    order: Seq<usize>,
    first_lines: usize,
    res: Option<MergeResult>,
) -> bool {
    let program = merge_program(tc, order, first_lines as int);
    match res {
        Some(r) => grid_fits(tc, order, first_lines as int) && ops_view(r.ops@) == program
            && merges_into_one(tc, r.ops@, r.last_block_id, r.expected_score),
        None => !grid_fits(tc, order, first_lines as int) || !leaves_whole(tc, program),
    }
}

/// The program that merges the seed regions of a canvas divided into
/// square blocks: the first `first_lines` columns of blocks block by block
/// and then with each other, the rest row by row onto the rows of what is
/// merged, and last the rows.  Gives nothing if the seed regions are no
/// such grid or the program cannot be replayed.
fn gen_ops(test_case: &TestCase, first_lines: usize) -> (res: Option<MergeResult>)
    requires
        test_case.wf(),
        first_lines >= 1,
    ensures
        is_grid_merge(*test_case, corner_order(test_case.regions@), first_lines, res),
{
    let regions = &test_case.regions;
    let n_regions = regions.len();
    let (n, m) = test_case.get_size();
    let order = sorted_order(regions);
    let first = regions[order[0]].rect;
    assert(test_case.regions@[order@[0] as int].rect.inside(n as int, m as int));
    let block_size: usize = (first.to.x - first.from.x) as usize;
    let tot_blocks: usize = n / block_size;
    let ghost fl = first_lines as int;
    let ghost tot = tot_blocks as int;
    assert(block_size == block_side(*test_case, order@));
    if tot_blocks == 0 || first_lines > tot_blocks {
        return None;
    }
    assert(tot_blocks * tot_blocks <= 65535 * 65535) by (nonlinear_arith)
        requires
            tot_blocks <= 65535,
    ;
    if n_regions != tot_blocks * tot_blocks || n_regions > usize::MAX / 4 - 1 {
        return None;
    }
    if tot_blocks == 1 {
        return None;
    }
    proof {
        assert(tot <= tot * tot) by (nonlinear_arith)
            requires
                tot >= 1,
        ;
        assert(fl * tot <= tot * tot) by (nonlinear_arith)
            requires
                0 <= fl <= tot,
        ;
        assert(fl * (tot - 1) + fl == fl * tot) by (nonlinear_arith);
        assert forall|i: int| 0 <= i < regions@.len() implies (#[trigger] regions@[i]).rect.from.y
            >= 0 by {
            assert(test_case.regions@[i].rect.inside(n as int, m as int));
        }
    }
    let (names, rows_of) = sorted_blocks(regions, &order, block_size);
    let ghost all = rows(names@);
    let ghost base = (n_regions - 1) as nat;
    let mut last_block_id: usize = n_regions - 1;
    let mut ops: Vec<Op> = Vec::new();
    let mut col_names: Vec<RectId> = Vec::new();
    let mut line: usize = 0;
    proof {
        assert(ops_view(ops@) =~= columns(all, tot, base, 0));
    }
    while line < first_lines
        invariant
            line <= first_lines <= tot_blocks,
            2 <= tot_blocks <= 65535,
            tot == tot_blocks,
            fl == first_lines,
            n_regions == tot_blocks * tot_blocks,
            n_regions == names@.len(),
            base == n_regions - 1,
            all == rows(names@),
            fl * tot <= n_regions,
            fl * (tot - 1) + fl == fl * tot,
            4 * n_regions + 4 <= usize::MAX,
            col_names@.len() == line,
            last_block_id == base + line * (tot - 1),
            ops@.len() == line * (tot - 1),
            ops_view(ops@) == columns(all, tot, base, line as int),
            forall|c: int|
                0 <= c < line ==> (#[trigger] col_names@[c])@ == decimal(column_id(tot, base, c)),
        decreases first_lines - line,
    {
        proof {
            assert(line * tot + tot <= fl * tot) by (nonlinear_arith)
                requires
                    line < fl,
                    tot >= 1,
            ;
            assert((line + 1) * tot == line * tot + tot) by (nonlinear_arith);
            assert((line + 1) * (tot - 1) == line * (tot - 1) + (tot - 1)) by (nonlinear_arith);
            assert(line * (tot - 1) + (tot - 1) <= fl * (tot - 1)) by (nonlinear_arith)
                requires
                    line < fl,
                    tot >= 1,
            ;
        }
        let start = line * tot_blocks;
        let made = chain_merges(
            &mut ops,
            names[start].clone(),
            &names,
            start + 1,
            start + tot_blocks,
            last_block_id,
        );
        last_block_id = last_block_id + (tot_blocks - 1);
        col_names.push(made);
        proof {
            assert(all[start as int] == names@[start as int]@);
        }
        line = line + 1;
    }
    let ghost cols = column_names(tot, base, fl);
    proof {
        assert(rows(col_names@) =~= cols);
    }
    let joined = chain_merges(
        &mut ops,
        col_names[0].clone(),
        &col_names,
        1,
        first_lines,
        last_block_id,
    );
    last_block_id = last_block_id + (first_lines - 1);
    proof {
        assert(rows(col_names@).subrange(1, fl) == cols.subrange(1, fl));
        assert(tot * block_size <= n) by {
            vstd::arithmetic::div_mod::lemma_fundamental_div_mod(n as int, block_size as int);
            vstd::arithmetic::div_mod::lemma_mod_bound(n as int, block_size as int);
            assert(block_size * (n / block_size) == (n / block_size) * block_size)
                by (nonlinear_arith);
        }
    }
    let mut row_ids = cut_rows(&mut ops, joined, block_size, tot_blocks);
    let fits = merge_onto_rows(
        &mut ops,
        &mut row_ids,
        &names,
        &rows_of,
        first_lines * tot_blocks,
        last_block_id,
    );
    if !fits {
        proof {
            assert(!rows_fit(rows_of@, fl * tot, n_regions as int, tot));
            assert(!grid_fits(*test_case, order@, fl));
        }
        return None;
    }
    last_block_id = last_block_id + (n_regions - first_lines * tot_blocks);
    let lowest = row_ids[0].clone();
    let _ = chain_merges(&mut ops, lowest, &row_ids, 1, tot_blocks, last_block_id);
    proof {
        let program = merge_program(*test_case, order@, fl);
        assert(ops_view(ops@) =~= program);
        lemma_grid_program_joins(all, rows_of@, tot, block_size as int, fl);
        assert(paints_nothing(program));
        assert(grid_fits(*test_case, order@, fl));
    }
    match replay_merge(test_case, &ops) {
        Ok((id, cost)) => Some(MergeResult { ops, last_block_id: id, expected_score: cost }),
        Err(_) => None,
    }
}

/// What the program costs that merges the seed regions of `tc`, the first
/// `fl` columns of blocks first; nothing if the regions can be no such grid
/// or the program does not leave the canvas as one region.
#[verifier::opaque]
pub open spec fn merge_cost_of(tc: TestCase, fl: int) -> Option<nat> {
    let order = corner_order(tc.regions@);
    let program = merge_program(tc, order, fl);
    if grid_fits(tc, order, fl) && leaves_whole(tc, program) {
        Some(run(initial_state(tc), program, tc.n(), tc.m(), tc.test_id)->Ok_0.cost)
    } else {
        None
    }
}

/// What `gen_ops` gives for `fl` columns of blocks costs what
/// `merge_cost_of` says.
proof fn lemma_grid_merge_cost(tc: TestCase, fl: usize, found: Option<MergeResult>)
    requires
        is_grid_merge(tc, corner_order(tc.regions@), fl, found),
    ensures
        match found {
            Some(cur) => merge_cost_of(tc, fl as int) == Some(cur.expected_score as nat),
            None => merge_cost_of(tc, fl as int) is None,
        },
{
    reveal(merge_cost_of);
    if found is Some {
        assert(leaves_whole(tc, merge_program(tc, corner_order(tc.regions@), fl as int)));
    }
}

/// Of the numbers from one up to `limit`, `fl` is the first for which the
/// program that merges that many columns of blocks first is cheapest.
pub open spec fn is_cheapest(tc: TestCase, limit: int, fl: int) -> bool {
    &&& 1 <= fl <= limit
    &&& merge_cost_of(tc, fl) is Some
    &&& forall|other: int|
        1 <= other <= limit && (#[trigger] merge_cost_of(tc, other)) is Some ==> merge_cost_of(
            tc,
            fl,
        )->Some_0 <= merge_cost_of(tc, other)->Some_0 && (other < fl ==> merge_cost_of(
            tc,
            fl,
        )->Some_0 < merge_cost_of(tc, other)->Some_0)
}

/// The number of columns of blocks that are tried: as many as blocks of
/// the side of the first seed region fit in a row of the canvas.
pub open spec fn columns_tried(tc: TestCase) -> int {
    tc.n() / (tc.regions@[0].rect.to.x - tc.regions@[0].rect.from.x)
}

/// Why the seed regions of `tc` cannot be merged, if they cannot: one seed
/// region is not the whole canvas, named by the number zero
/// (`NotOneRegion`); or of several seed regions no number of columns of
/// blocks gives a program that leaves the canvas as one region
/// (`BadSeeds`).
pub open spec fn merge_error(tc: TestCase) -> Option<OpError> {
    if tc.regions@.len() == 1 {
        if starts_whole(tc) {
            None
        } else {
            Some(OpError::NotOneRegion)
        }
    } else if exists|fl: int|
        1 <= fl <= columns_tried(tc) && (#[trigger] merge_cost_of(tc, fl)) is Some {
        None
    } else {
        Some(OpError::BadSeeds)
    }
}

/// A program that merges the seed regions of the canvas into one region.
/// A canvas with one seed region needs none, and is refused with
/// `NotOneRegion` unless the region is the whole canvas, named by the
/// number zero.  For a canvas of square blocks the program is the cheapest
/// of those that merge the first one, two, and so on, columns of blocks
/// first, and of programs that are as cheap the one with the fewest; if
/// none of them leaves the canvas as one region, the seeds are refused with
/// `BadSeeds`.  The program leaves the canvas as one region, named by the
/// number in the result, and costs what the result says.
pub fn merge(test_case: &TestCase) -> (res: Result<MergeResult, OpError>)
    requires
        test_case.wf(),
    ensures
        match res {
            Ok(r) => merges_into_one(*test_case, r.ops@, r.last_block_id, r.expected_score)
                && (test_case.regions@.len() == 1 ==> r.ops@.len() == 0),
            Err(e) => e == OpError::BadSeeds || e == OpError::NotOneRegion,
        },
        starts_whole(*test_case) ==> res is Ok,
        match merge_error(*test_case) {
            Some(e) => res is Err && res->Err_0 == e,
            None => res is Ok,
        },
        test_case.regions@.len() == 1 ==> (match res {
            Ok(_) => starts_whole(*test_case),
            Err(e) => e == OpError::NotOneRegion && !starts_whole(*test_case),
        }),
        test_case.regions@.len() != 1 ==> (match res {
            Ok(r) => exists|fl: int|
                #![trigger merge_cost_of(*test_case, fl)]
                is_cheapest(*test_case, columns_tried(*test_case), fl) && ops_view(r.ops@)
                    == merge_program(*test_case, corner_order(test_case.regions@), fl)
                    && merge_cost_of(*test_case, fl) == Some(r.expected_score as nat),
            Err(e) => e == OpError::BadSeeds && forall|fl: int|
                1 <= fl <= columns_tried(*test_case) ==> (#[trigger] merge_cost_of(
                    *test_case,
                    fl,
                )) is None,
        }),
{
    let n_regions = test_case.regions.len();
    let (n, m) = test_case.get_size();
    if n_regions == 1 {
        let ops: Vec<Op> = Vec::new();
        proof {
            let tc = *test_case;
            assert(ops_view(ops@) =~= Seq::<OpView>::empty());
            assert(paints_nothing(ops_view(ops@)));
            assert(tc.regions@.drop_last() =~= Seq::<Region>::empty());
            assert(crate::interpreter::seed_rects(tc.regions@) =~= Map::<
                Seq<u8>,
                Rect,
            >::empty().insert(tc.regions@[0].name@, tc.regions@[0].rect)) by {
                assert(crate::interpreter::seed_rects(tc.regions@.drop_last()) =~= Map::<
                    Seq<u8>,
                    Rect,
                >::empty());
            }
        }
        let done = replay_merge(test_case, &ops);
        proof {
            let tc = *test_case;
            let seeds = crate::interpreter::seed_rects(tc.regions@);
            if done is Ok {
                let id = done->Ok_0.0;
                assert(seeds == whole_canvas(tc.n(), tc.m(), id as nat));
                assert(id == 0);
                let k = tc.regions@[0].name@;
                let whole = whole_canvas(tc.n(), tc.m(), 0);
                assert(seeds.contains_key(k));
                assert(whole.contains_key(k));
                assert(k == decimal(0));
                assert(seeds[k] == tc.regions@[0].rect);
                assert(whole[decimal(0)] == canvas_rect(tc.n(), tc.m()));
                assert(starts_whole(tc));
            } else {
                if starts_whole(tc) {
                    assert(seeds =~= whole_canvas(tc.n(), tc.m(), 0));
                    assert(leaves_one_region(tc, ops@));
                }
            }
        }
        return match done {
            Ok((id, cost)) => Ok(MergeResult { ops, last_block_id: id, expected_score: cost }),
            Err(_) => Err(OpError::NotOneRegion),
        };
    }
    let first = test_case.regions[0].rect;
    assert(test_case.regions@[0].rect.inside(n as int, m as int));
    let block_size: usize = (first.to.x - first.from.x) as usize;
    let tot_blocks: usize = n / block_size;
    let ghost tc = *test_case;
    let ghost order = corner_order(test_case.regions@);
    let ghost mut best_fl: int = 0;
    let mut best: Option<MergeResult> = None;
    let mut first_lines: usize = 1;
    while first_lines <= tot_blocks
        invariant
            1 <= first_lines <= tot_blocks + 1,
            tot_blocks <= 65535,
            test_case.wf(),
            tc == *test_case,
            order == corner_order(test_case.regions@),
            match best {
                Some(r) => merges_into_one(tc, r.ops@, r.last_block_id, r.expected_score)
                    && is_cheapest(tc, first_lines - 1, best_fl) && ops_view(r.ops@)
                    == merge_program(tc, order, best_fl) && merge_cost_of(tc, best_fl) == Some(
                    r.expected_score as nat,
                ),
                None => forall|fl: int|
                    1 <= fl < first_lines ==> (#[trigger] merge_cost_of(tc, fl)) is None,
            },
        decreases tot_blocks + 1 - first_lines,
    {
        let ghost fl = first_lines as int;
        let found = gen_ops(test_case, first_lines);
        proof {
            lemma_grid_merge_cost(tc, first_lines, found);
        }
        match found {
            Some(cur) => {
                let better = match &best {
                    Some(b) => cur.expected_score < b.expected_score,
                    None => true,
                };
                if better {
                    best = Some(cur);
                    proof {
                        best_fl = fl;
                    }
                }
            },
            None => {},
        }
        first_lines = first_lines + 1;
    }
    match best {
        Some(r) => Ok(r),
        None => Err(OpError::BadSeeds),
    }
}

} // verus!
