//! A search on an instance whose pictures had two stripes exchanged: what
//! it starts from, and what one round of it finds.

use crate::annealing::{is_search_result, optimize_positions, search_fails, searched};
use crate::color::Color;
use crate::interpreter::{
    initial_state, is_replay_error, lemma_replay_error, run, CanvasState, OpError,
};
use crate::local_optimizations::gen_field_by_rects;
use crate::merger::{merge_error, merges_into_one, starts_whole, MergeResult};
use crate::op::{extend_ops, ops_view, OpView};
use crate::ops_by_rects::{gen_rects_by_ops, rects_of_ops};
use crate::picture::cells;
use crate::rand::Random;
use crate::really_local_optimizations::{
    find_best_stripe, is_best_stripe, stripe_ops, stripe_swap_ops, StripeSwap,
};
use crate::restore::{is_whole_stack, restore_rects_by_field, restored_stack};
use crate::rotator::{
    is_turn, res_replays, rotate_none, turn_back_fails, turned_times, Rotator,
};
use crate::solution::{anchors_inside, rendered, SolutionRect};
use crate::solve::{res_consistent, SolutionRes};
use crate::test_case::TestCase;
use crate::utils::Point;
use vstd::prelude::*;

verus! {

/// What a search with exchanged stripes starts from: the exchange, what the
/// corners of the stack cost after it, the instance with the stripes of its
/// pictures exchanged, and a stack that paints what the given stack paints,
/// with the stripes exchanged, if one was found.
pub struct StripePlan {
    pub stripe: StripeSwap,
    pub cost: u128,
    pub test_case: TestCase,
    pub rects: Option<Vec<SolutionRect>>,
}

/// What a round of the search has found: the stack to go on from, its
/// score and its picture on the instance with exchanged stripes, and the
/// solution of the instance as it was given.
pub struct StripeRound {
    pub rects: Vec<SolutionRect>,
    pub score: u128,
    pub picture: Vec<Vec<Color>>,
    pub answer: SolutionRes,
}

/// The picture `after` is the picture `before` of `n` columns and `m` rows
/// with the stripes of `s` exchanged: every pixel shows in the place where
/// it goes.
pub open spec fn is_exchanged(
    before: Seq<Seq<Color>>,
    after: Seq<Seq<Color>>,
    s: StripeSwap,
    n: int,
    m: int,
) -> bool {
    forall|i: int, j: int|
        0 <= i < n && 0 <= j < m ==> after[s.moved(i, j).0][s.moved(i, j).1]
            == #[trigger] before[i][j]
}

/// `after` is the instance `before` with the stripes of `s` exchanged in
/// both of its pictures; the seed regions are those of `before`.
pub open spec fn is_swapped_case(before: TestCase, s: StripeSwap, after: TestCase) -> bool {
    &&& after.wf()
    &&& after.n() == before.n()
    &&& after.m() == before.m()
    &&& after.test_id == before.test_id
    &&& is_exchanged(cells(before.expected@), cells(after.expected@), s, before.n(), before.m())
    &&& is_exchanged(
        cells(before.start_field@),
        cells(after.start_field@),
        s,
        before.n(),
        before.m(),
    )
    &&& after.regions@.len() == before.regions@.len()
    &&& forall|i: int|
        0 <= i < before.regions@.len() ==> (#[trigger] after.regions@[i]).name@
            == before.regions@[i].name@ && after.regions@[i].color == before.regions@[i].color
            && after.regions@[i].rect == before.regions@[i].rect
}

/// The number of lines of a canvas of `n` columns and `m` rows across the
/// stripes of `s`.
pub open spec fn lines_across(s: StripeSwap, n: int, m: int) -> int {
    if s.by_x {
        n
    } else {
        m
    }
}

/// The instance `test_case` with the stripes of `stripe` exchanged in both
/// of its pictures.
pub fn swapped_case(test_case: &TestCase, stripe: &StripeSwap) -> (res: TestCase)
    requires
        test_case.wf(),
        stripe.fits(lines_across(*stripe, test_case.n(), test_case.m())),
    ensures
        is_swapped_case(*test_case, *stripe, res),
{
    let copy = rotate_none(test_case);
    let expected = stripe.apply_field(&test_case.expected);
    let start_field = stripe.apply_field(&test_case.start_field);
    let res = TestCase { expected, start_field, regions: copy.regions, test_id: copy.test_id };
    proof {
        let n = test_case.n();
        let m = test_case.m();
        assert(res.expected@[0].len() == m);
        assert forall|i: int, j: int| 0 <= i < n && 0 <= j < m implies cells(
            res.expected@,
        )[stripe.moved(i, j).0][stripe.moved(i, j).1] == #[trigger] cells(
            test_case.expected@,
        )[i][j] by {
            assert(res.expected@[stripe.moved(i, j).0]@[stripe.moved(i, j).1]
                == test_case.expected@[i]@[j]);
        }
        assert forall|i: int, j: int| 0 <= i < n && 0 <= j < m implies cells(
            res.start_field@,
        )[stripe.moved(i, j).0][stripe.moved(i, j).1] == #[trigger] cells(
            test_case.start_field@,
        )[i][j] by {
            assert(res.start_field@[stripe.moved(i, j).0]@[stripe.moved(i, j).1]
                == test_case.start_field@[i]@[j]);
        }
    }
    res
}

/// Tells whether the stripes of `stripe` lie apart on the canvas of
/// `test_case`, the first before the second.
pub fn stripe_fits(stripe: &StripeSwap, test_case: &TestCase) -> (r: bool)
    requires
        test_case.wf(),
    ensures
        r == stripe.fits(lines_across(*stripe, test_case.n(), test_case.m())),
{
    let (n, m) = test_case.get_size();
    let limit = if stripe.by_x {
        n
    } else {
        m
    };
    stripe.cnt_lines <= limit && stripe.first_line <= limit - stripe.cnt_lines
        && stripe.first_line + stripe.cnt_lines <= stripe.second_line && stripe.second_line
        <= limit - stripe.cnt_lines
}

/// Number of lines of each of the two stripes that are exchanged on the
/// canvas of instance 40.
pub const TASK40_LINES: usize = 129;

/// The line at which the second of those stripes starts; the first starts
/// at line zero.
pub const TASK40_SECOND: usize = 161;

/// The exchange of two stripes of rows of instance 40, as it is seen after
/// a quarter turn clockwise: an exchange of stripes of columns.
pub fn task40_stripe(test_case: &TestCase) -> (r: StripeSwap)
    requires
        test_case.wf(),
    ensures
        r == (StripeSwap {
            cnt_lines: TASK40_LINES,
            first_line: 0,
            second_line: TASK40_SECOND,
            by_x: true,
        }),
{
    let rows = StripeSwap {
        cnt_lines: TASK40_LINES,
        first_line: 0,
        second_line: TASK40_SECOND,
        by_x: false,
    };
    rows.rotate_cw(test_case)
}

/// `found` is the stack that is restored from the picture `target` on the
/// canvas of `tc`, if it holds every rectangle that was placed and paints
/// the picture; and else nothing.
pub open spec fn is_restored_from(
    tc: TestCase,
    target: Seq<Seq<Color>>,
    found: Option<Vec<SolutionRect>>,
) -> bool {
    match found {
        Some(stack) => stack@ == restored_stack(target, tc.n(), tc.m()) && is_whole_stack(
            target,
            tc.n(),
            tc.m(),
        ) && rendered(cells(tc.start_field@), stack@) == target,
        None => !is_whole_stack(target, tc.n(), tc.m()) || rendered(
            cells(tc.start_field@),
            restored_stack(target, tc.n(), tc.m()),
        ) != target,
    }
}

/// What the search with exchanged stripes starts from, for the stack
/// `rects` on the canvas of `test_case`: the exchange that makes the
/// corners of the stack cheapest, the instance with those stripes
/// exchanged, and a stack that paints the picture of `rects` with the
/// stripes exchanged.
pub fn plan_stripes(rects: &[SolutionRect], test_case: &TestCase) -> (plan: StripePlan)
    requires
        test_case.wf(),
        test_case.regions@.len() == 1,
        anchors_inside(rects@, test_case.n(), test_case.m()),
    ensures
        is_best_stripe(*test_case, rects@, plan.stripe, plan.cost),
        is_swapped_case(*test_case, plan.stripe, plan.test_case),
        plan.rects is Some ==> anchors_inside(
            plan.rects->Some_0@,
            test_case.n(),
            test_case.m(),
        ) && is_exchanged(
            rendered(cells(test_case.start_field@), rects@),
            rendered(cells(test_case.start_field@), plan.rects->Some_0@),
            plan.stripe,
            test_case.n(),
            test_case.m(),
        ),
        exists|target: Seq<Seq<Color>>|
            #![trigger restored_stack(target, test_case.n(), test_case.m())]
            is_exchanged(
                rendered(cells(test_case.start_field@), rects@),
                target,
                plan.stripe,
                test_case.n(),
                test_case.m(),
            ) && is_restored_from(*test_case, target, plan.rects),
{
    let (stripe, cost) = find_best_stripe(rects, test_case);
    let new_case = swapped_case(test_case, &stripe);
    let my_current = gen_field_by_rects(rects, test_case);
    assert(my_current@[0].len() == test_case.m());
    let target = stripe.apply_field(&my_current);
    let found = restore_rects_by_field(&target, test_case);
    proof {
        let n = test_case.n();
        let m = test_case.m();
        let before = rendered(cells(test_case.start_field@), rects@);
        assert forall|i: int, j: int| 0 <= i < n && 0 <= j < m implies cells(
            target@,
        )[stripe.moved(i, j).0][stripe.moved(i, j).1] == #[trigger] before[i][j] by {
            assert(target@[stripe.moved(i, j).0]@[stripe.moved(i, j).1] == my_current@[i]@[j]);
            assert(cells(my_current@)[i][j] == my_current@[i]@[j]);
        }
        assert(is_restored_from(*test_case, cells(target@), found));
    }
    proof {
        if found is Some {
            let n = test_case.n();
            let m = test_case.m();
            let before = rendered(cells(test_case.start_field@), rects@);
            let after = rendered(cells(test_case.start_field@), found->Some_0@);
            assert forall|i: int, j: int| 0 <= i < n && 0 <= j < m implies after[stripe.moved(
                i,
                j,
            ).0][stripe.moved(i, j).1] == #[trigger] before[i][j] by {
                assert(target@[stripe.moved(i, j).0]@[stripe.moved(i, j).1] == my_current@[i]@[j]);
                assert(cells(my_current@)[i][j] == my_current@[i]@[j]);
                assert(cells(target@)[stripe.moved(i, j).0][stripe.moved(i, j).1]
                    == target@[stripe.moved(i, j).0]@[stripe.moved(i, j).1]);
            }
        }
    }
    StripePlan { stripe, cost, test_case: new_case, rects: found }
}

/// The exchange `s` as it is seen after a canvas of `n` columns was turned
/// `k` quarter turns clockwise.
pub open spec fn turned_stripe(s: StripeSwap, n: int, k: nat) -> StripeSwap
    decreases k,
{
    if k == 0 {
        s
    } else {
        turned_stripe(s, n, (k - 1) as nat).turned(n)
    }
}

/// An exchange that fits a square canvas fits it after a quarter turn, with
/// as many lines in its stripes.
pub proof fn lemma_turned_fits(s: StripeSwap, n: int)
    requires
        s.fits(n),
        n <= usize::MAX,
    ensures
        s.turned(n).fits(n),
        s.turned(n).cnt_lines == s.cnt_lines,
{
}

/// The exchange `stripe` as it is seen after the canvas of `test_case`,
/// which is square, was turned `turns` quarter turns clockwise.
pub fn rotate_stripe(stripe: StripeSwap, test_case: &TestCase, turns: i32) -> (r: StripeSwap)
    requires
        test_case.wf(),
        0 <= turns,
        stripe.fits(test_case.n()),
    ensures
        r == turned_stripe(stripe, test_case.n(), turns as nat),
        r.fits(test_case.n()),
        r.cnt_lines == stripe.cnt_lines,
{
    let mut cur = stripe;
    let mut k: i32 = 0;
    while k < turns
        invariant
            0 <= k <= turns,
            test_case.wf(),
            cur == turned_stripe(stripe, test_case.n(), k as nat),
            cur.fits(test_case.n()),
            cur.cnt_lines == stripe.cnt_lines,
        decreases turns - k,
    {
        proof {
            lemma_turned_fits(cur, test_case.n());
        }
        cur = cur.rotate_cw(test_case);
        k = k + 1;
    }
    cur
}

/// The operations that exchange the stripes of `s` on a square canvas of
/// `n` columns that is one region named `id`; none if `s` has no stripes.
pub open spec fn exchange_ops(s: StripeSwap, id: Seq<u8>, n: int) -> Seq<OpView> {
    if s.cnt_lines >= 1 {
        stripe_ops(s, id, n)
    } else {
        Seq::empty()
    }
}

/// `found` is what a search from the stack `rects` gives out on the
/// instance `tc`, with a generator in state `seed` and the entries of
/// `slacks` for its moves, and `end` is the state in which it leaves the
/// generator.
pub open spec fn is_found(
    tc: TestCase,
    rects: Seq<SolutionRect>,
    seed: u64,
    slacks: Seq<u128>,
    found: SolutionRes,
    end: u64,
) -> bool {
    res_consistent(tc, found) && exists|mr: MergeResult|
        #![trigger merges_into_one(tc, mr.ops@, mr.last_block_id, mr.expected_score)]
        merges_into_one(tc, mr.ops@, mr.last_block_id, mr.expected_score) && end == searched(
            tc,
            mr.expected_score,
            rects,
            seed,
            slacks,
            slacks.len() as int,
        ).state && is_search_result(
            tc,
            mr,
            searched(tc, mr.expected_score, rects, seed, slacks, slacks.len() as int).rects,
            found,
        )
}

/// `round` is what follows from the solution `found` of the instance
/// `swapped`, whose pictures had the stripes of `stripe` exchanged: the
/// stack that the program of `found` fills, its score and its picture; and
/// as the answer a solution of the instance `given`, whose program is the
/// program of `found` turned back by `rotator` and then the exchange of the
/// stripes, as they are seen after those turns, on the canvas as the turned
/// program leaves it.
pub open spec fn is_round_of(
    swapped: TestCase,
    stripe: StripeSwap,
    rotator: Rotator,
    given: TestCase,
    found: SolutionRes,
    round: StripeRound,
) -> bool {
    let n = swapped.n();
    let k = ((4 - rotator.rotated) % 4) as nat;
    &&& round.score == found.expected_score
    &&& cells(round.picture@) == cells(found.a@)
    &&& round.rects@ == rects_of_ops(
        ops_view(found.ops@),
        Point { x: swapped.n() as i32, y: swapped.m() as i32 },
    )
    &&& res_replays(given, round.answer)
    &&& exists|back: TestCase, turned: SolutionRes|
        #![trigger res_replays(back, turned)]
        is_turn(rotator.test_case, back, k) && res_replays(back, turned) && ops_view(turned.ops@)
            == turned_times(ops_view(found.ops@), n as i32, k) && ops_view(round.answer.ops@)
            == ops_view(turned.ops@) + exchange_ops(
            turned_stripe(stripe, n, k),
            turned.last_block_id@,
            n,
        )
}

/// The program `program` gives no solution of the instance `given`, and
/// `e` says why: its replay fails with `e`, or the program and the seed
/// regions are too many to be counted (`TooLarge`).
pub open spec fn answer_fails(given: TestCase, program: Seq<OpView>, e: OpError) -> bool {
    if given.regions@.len() + program.len() <= usize::MAX {
        run(initial_state(given), program, given.n(), given.m(), given.test_id) == Err::<
            CanvasState,
            OpError,
        >(e)
    } else {
        e == OpError::TooLarge
    }
}

/// Nothing follows from the solution `found` of the instance `swapped`,
/// and `e` says why: the program of `found` cannot be turned back by
/// `rotator`; or that program, turned back and with the exchange of the
/// stripes after it, gives no solution of the instance `given`.
pub open spec fn round_fails(
    swapped: TestCase,
    stripe: StripeSwap,
    rotator: Rotator,
    given: TestCase,
    found: SolutionRes,
    e: OpError,
) -> bool {
    let n = swapped.n();
    let k = ((4 - rotator.rotated) % 4) as nat;
    let program = turned_times(ops_view(found.ops@), n as i32, k);
    ||| turn_back_fails(rotator.test_case, rotator.rotated, found.ops@, e)
    ||| exists|back: TestCase, turned: SolutionRes|
        #![trigger res_replays(back, turned)]
        is_turn(rotator.test_case, back, k) && res_replays(back, turned) && ops_view(turned.ops@)
            == program && answer_fails(
            given,
            program + exchange_ops(turned_stripe(stripe, n, k), turned.last_block_id@, n),
            e,
        )
}

/// What follows from a solution fails only because an operation cannot be
/// done, a name cannot be turned, or something is too large to be counted:
/// never for the seed regions.
pub proof fn lemma_round_error(
    swapped: TestCase,
    stripe: StripeSwap,
    rotator: Rotator,
    given: TestCase,
    found: SolutionRes,
    e: OpError,
)
    requires
        round_fails(swapped, stripe, rotator, given, found, e),
    ensures
        is_replay_error(e) || e == OpError::BadId || e == OpError::TooLarge,
{
    let n = swapped.n();
    let k = ((4 - rotator.rotated) % 4) as nat;
    let program = turned_times(ops_view(found.ops@), n as i32, k);
    if turn_back_fails(rotator.test_case, rotator.rotated, found.ops@, e) {
        if e != OpError::BadId && e != OpError::TooLarge {
            let back = choose|back: TestCase|
                #![trigger is_turn(rotator.test_case, back, k)]
                is_turn(rotator.test_case, back, k) && run(
                    initial_state(back),
                    turned_times(ops_view(found.ops@), rotator.test_case.n() as i32, k),
                    back.n(),
                    back.m(),
                    back.test_id,
                ) == Err::<CanvasState, OpError>(e);
            lemma_replay_error(
                initial_state(back),
                turned_times(ops_view(found.ops@), rotator.test_case.n() as i32, k),
                back.n(),
                back.m(),
                back.test_id,
            );
        }
    } else {
        let (back, turned) = choose|back: TestCase, turned: SolutionRes|
            #![trigger res_replays(back, turned)]
            is_turn(rotator.test_case, back, k) && res_replays(back, turned) && ops_view(
                turned.ops@,
            ) == program && answer_fails(
                given,
                program + exchange_ops(turned_stripe(stripe, n, k), turned.last_block_id@, n),
                e,
            );
        lemma_replay_error(
            initial_state(given),
            program + exchange_ops(turned_stripe(stripe, n, k), turned.last_block_id@, n),
            given.n(),
            given.m(),
            given.test_id,
        );
    }
}

/// One round of the search on the instance `swapped`, whose pictures had
/// the stripes of `stripe` exchanged: searches from the stack `rects` on,
/// with the entries of `slacks` for its moves.  If the score that the
/// search reaches is below `last_score`, the round gives the stack of the
/// solution found, and the solution of the instance `given` that follows
/// from it; else it gives nothing.  The round fails if the search fails,
/// and, where the search finds a better solution, if the program of that
/// solution cannot be turned back or what follows from it gives no
/// solution of the instance `given`.
pub fn stripe_round(
    rects: &[SolutionRect],
    rnd: &mut Random,
    swapped: &TestCase,
    stripe: StripeSwap,
    rotator: &Rotator,
    given: &TestCase,
    last_score: u128,
    slacks: &[u128],
) -> (res: Result<Option<StripeRound>, OpError>)
    requires
        swapped.wf(),
        swapped.n() == swapped.m(),
        anchors_inside(rects@, swapped.n(), swapped.m()),
        stripe.fits(swapped.n()),
        rotator.test_case.wf(),
        rotator.test_case.n() == swapped.n(),
        rotator.test_case.m() == swapped.n(),
        0 <= rotator.rotated < 4,
        given.wf(),
        given.n() == swapped.n(),
        given.m() == swapped.n(),
    ensures
        match res {
            Ok(None) => exists|found: SolutionRes|
                #![trigger res_consistent(*swapped, found)]
                is_found(*swapped, rects@, old(rnd).state, slacks@, found, final(rnd).state)
                    && found.expected_score >= last_score,
            Ok(Some(round)) => exists|found: SolutionRes|
                #![trigger res_consistent(*swapped, found)]
                is_found(*swapped, rects@, old(rnd).state, slacks@, found, final(rnd).state)
                    && found.expected_score < last_score && is_round_of(
                    *swapped,
                    stripe,
                    *rotator,
                    *given,
                    found,
                    round,
                ),
            Err(e) => search_fails(*swapped, rects@, old(rnd).state, slacks@, e)
                || exists|found: SolutionRes|
                #![trigger res_consistent(*swapped, found)]
                is_found(*swapped, rects@, old(rnd).state, slacks@, found, final(rnd).state)
                    && found.expected_score < last_score && round_fails(
                    *swapped,
                    stripe,
                    *rotator,
                    *given,
                    found,
                    e,
                ),
        },
        merge_error(*swapped) is Some ==> res is Err,
        res is Err && (res->Err_0 == OpError::BadSeeds || res->Err_0 == OpError::NotOneRegion)
            ==> merge_error(*swapped) == Some(res->Err_0),
        starts_whole(*swapped) && rects@.len() + slacks@.len() <= usize::MAX / 8 - 1
            ==> exists|found: SolutionRes|
            #![trigger res_consistent(*swapped, found)]
            is_found(*swapped, rects@, old(rnd).state, slacks@, found, final(rnd).state),
{
    let (n, m) = swapped.get_size();
    let found = match optimize_positions(rects, rnd, swapped, slacks) {
        Ok(r) => r,
        Err(e) => {
            return Err(e);
        },
    };
    assert(is_found(*swapped, rects@, old(rnd).state, slacks@, found, rnd.state));
    if found.expected_score >= last_score {
        return Ok(None);
    }
    let next = gen_rects_by_ops(found.ops.as_slice(), n, m);
    let score = found.expected_score;
    let picture = crate::picture::copy_picture(&found.a);
    let ghost shown = found;
    let turned = match rotator.rotate_sol(found) {
        Ok(r) => r,
        Err(e) => {
            proof {
                assert(res_consistent(*swapped, shown));
                assert(round_fails(*swapped, stripe, *rotator, *given, shown, e));
                lemma_round_error(*swapped, stripe, *rotator, *given, shown, e);
            }
            return Err(e);
        },
    };
    let turns = rotator.rotations_to_answer();
    let back_stripe = rotate_stripe(stripe, swapped, turns);
    let ghost first = ops_view(turned.ops@);
    let mut ops = crate::op::copy_ops(turned.ops.as_slice());
    if back_stripe.cnt_lines >= 1 {
        let more = stripe_swap_ops(&back_stripe, &turned.last_block_id, given);
        extend_ops(&mut ops, &more);
    }
    let ghost program = ops_view(ops@);
    proof {
        assert(program =~= first + exchange_ops(
            turned_stripe(stripe, n as int, ((4 - rotator.rotated) % 4) as nat),
            turned.last_block_id@,
            n as int,
        ));
    }
    let answer = match SolutionRes::new_from_ops(given, ops) {
        Ok(r) => r,
        Err(e) => {
            proof {
                let k = ((4 - rotator.rotated) % 4) as nat;
                let back = choose|tc: TestCase|
                    #![trigger res_replays(tc, turned)]
                    is_turn(rotator.test_case, tc, k) && res_replays(tc, turned);
                assert(res_replays(back, turned));
                assert(res_consistent(*swapped, shown));
                assert(program.len() == ops@.len());
                assert(answer_fails(*given, program, e));
                assert(round_fails(*swapped, stripe, *rotator, *given, shown, e));
                lemma_round_error(*swapped, stripe, *rotator, *given, shown, e);
            }
            return Err(e);
        },
    };
    let round = StripeRound { rects: next, score, picture, answer };
    proof {
        let k = ((4 - rotator.rotated) % 4) as nat;
        let back = choose|tc: TestCase|
            #![trigger res_replays(tc, turned)]
            is_turn(rotator.test_case, tc, k) && res_replays(tc, turned);
        assert(res_replays(back, turned));
        assert(ops_view(round.answer.ops@) =~= first + exchange_ops(
            turned_stripe(stripe, n as int, k),
            turned.last_block_id@,
            n as int,
        ));
        assert(is_round_of(*swapped, stripe, *rotator, *given, shown, round));
        assert(res_consistent(*swapped, shown));
    }
    Ok(Some(round))
}

} // verus!
