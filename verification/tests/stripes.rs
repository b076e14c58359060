use borys::color::Color;
use borys::consts::SCORE_SCALE;
use borys::gifs::{frames_shown, gen_frames};
use borys::interpreter::{apply_ops, OpError};
use borys::local_optimizations::gen_field_by_rects;
use borys::op::Op;
use borys::pixel_dist::get_pixel_distance;
use borys::annealing::optimize_positions;
use borys::rand::Random;
use borys::solve::solve_one;
use borys::really_local_optimizations::{find_best_stripe, StripeSwap};
use borys::rotator::{rotate_field_cw, rotate_tc_cw, solve_case, Rotator};
use borys::solution::{are_anchors_inside, SolutionRect};
use borys::stripe_search::{
    plan_stripes, rotate_stripe, stripe_fits, stripe_round, swapped_case, task40_stripe,
};
use borys::test_case::{has_size, Rect, Region, TestCase};
use borys::utils::Point;

fn shade(v: u8) -> Color {
    Color([v, v, v, 255])
}

fn whole(expected: Vec<Vec<Color>>) -> TestCase {
    let n = expected.len();
    let m = expected[0].len();
    TestCase {
        expected,
        start_field: vec![vec![Color::start(); m]; n],
        regions: vec![Region {
            name: b"0".to_vec(),
            rect: Rect::new(Point::new(0, 0), Point::new(n as i32, m as i32)),
            color: Color::start(),
        }],
        test_id: 1,
    }
}

fn corner(x: i32, y: i32, n: usize, m: usize, color: Color) -> SolutionRect {
    SolutionRect {
        from: Point::new(x, y),
        to: Point::new(n as i32, m as i32),
        color,
    }
}

fn counted(n: usize) -> Vec<Vec<Color>> {
    let mut a = vec![vec![shade(0); n]; n];
    for x in 0..n {
        for y in 0..n {
            a[x][y] = shade((10 * x + y) as u8);
        }
    }
    a
}

fn stripes(cnt_lines: usize, first_line: usize, second_line: usize, by_x: bool) -> StripeSwap {
    StripeSwap { cnt_lines, first_line, second_line, by_x }
}

#[test]
fn grids_are_told_by_their_size() {
    let a = vec![vec![shade(1); 3]; 2];
    assert!(has_size(&a, 2, 3));
    assert!(!has_size(&a, 3, 2));
    let mut ragged = a.clone();
    ragged[1].pop();
    assert!(!has_size(&ragged, 2, 3));
}

#[test]
fn well_formed_instances_are_told_apart() {
    let tc = whole(counted(3));
    assert!(tc.is_well_formed());

    let mut short_start = whole(counted(3));
    short_start.start_field.pop();
    assert!(!short_start.is_well_formed());

    let mut no_regions = whole(counted(3));
    no_regions.regions.clear();
    assert!(!no_regions.is_well_formed());

    let mut outside = whole(counted(3));
    outside.regions[0].rect = Rect::new(Point::new(0, 0), Point::new(4, 3));
    assert!(!outside.is_well_formed());

    let mut empty = whole(counted(3));
    empty.regions[0].rect = Rect::new(Point::new(1, 0), Point::new(1, 3));
    assert!(!empty.is_well_formed());

    let mut no_columns = whole(counted(3));
    no_columns.expected.clear();
    assert!(!no_columns.is_well_formed());
}

#[test]
fn anchors_off_the_canvas_are_found() {
    let white = Color::start();
    let good = vec![corner(0, 0, 3, 3, white), corner(2, 2, 3, 3, white)];
    assert!(are_anchors_inside(&good, 3, 3));
    let bad = vec![corner(0, 0, 3, 3, white), corner(3, 1, 3, 3, white)];
    assert!(!are_anchors_inside(&bad, 3, 3));
    let negative = vec![corner(-1, 0, 3, 3, white)];
    assert!(!are_anchors_inside(&negative, 3, 3));
    assert!(are_anchors_inside(&[], 3, 3));
}

#[test]
fn frames_follow_the_replay() {
    let tc = whole(counted(2));
    let ops = vec![
        Op::CutPoint(b"0".to_vec(), Point::new(1, 1)),
        Op::Merge(b"0.0".to_vec(), b"0.1".to_vec()),
    ];
    let frames = gen_frames(&ops, &tc).unwrap();
    assert_eq!(frames.len(), 3);
    assert_eq!(frames[0].rects, vec![Rect::new(Point::new(0, 0), Point::new(2, 2))]);
    assert_eq!(frames[1].rects.len(), 4);
    assert!(frames[1].rects.contains(&Rect::new(Point::new(1, 1), Point::new(2, 2))));
    assert!(frames[1].rects.contains(&Rect::new(Point::new(0, 1), Point::new(1, 2))));
    assert_eq!(frames[2].rects.len(), 3);
    assert!(frames[2].rects.contains(&Rect::new(Point::new(0, 0), Point::new(2, 1))));
    // the canvas starts as one region: only that frame is shown
    assert_eq!(frames_shown(&frames), 1);
}

#[test]
fn frames_are_shown_until_the_canvas_is_one_region() {
    let mut tc = whole(counted(2));
    tc.regions = vec![
        Region {
            name: b"0".to_vec(),
            rect: Rect::new(Point::new(0, 0), Point::new(1, 2)),
            color: Color::start(),
        },
        Region {
            name: b"1".to_vec(),
            rect: Rect::new(Point::new(1, 0), Point::new(2, 2)),
            color: Color::start(),
        },
    ];
    let ops = vec![
        Op::Merge(b"0".to_vec(), b"1".to_vec()),
        Op::Color(b"2".to_vec(), shade(7)),
    ];
    let frames = gen_frames(&ops, &tc).unwrap();
    assert_eq!(frames.len(), 3);
    assert_eq!(frames[0].rects.len(), 2);
    assert_eq!(frames[1].rects.len(), 1);
    assert_eq!(frames_shown(&frames), 2);

    let never_one = gen_frames(&[], &tc).unwrap();
    assert_eq!(never_one.len(), 1);
    assert_eq!(frames_shown(&never_one), 1);
    assert_eq!(frames_shown(&Vec::new()), 0);
}

#[test]
fn frames_of_a_program_that_fails() {
    let tc = whole(counted(2));
    let ops = vec![
        Op::CutX(b"0".to_vec(), 1),
        Op::Color(b"0".to_vec(), shade(3)),
    ];
    assert_eq!(gen_frames(&ops, &tc).unwrap_err(), OpError::UnknownId);
}

#[test]
fn stripes_that_fit_are_told_apart() {
    let tc = whole(vec![vec![shade(0); 6]; 4]);
    assert!(stripe_fits(&stripes(1, 0, 2, true), &tc));
    assert!(stripe_fits(&stripes(2, 0, 2, true), &tc));
    assert!(!stripe_fits(&stripes(2, 0, 3, true), &tc));
    assert!(stripe_fits(&stripes(2, 0, 3, false), &tc));
    assert!(!stripe_fits(&stripes(2, 1, 2, false), &tc));
    assert!(stripe_fits(&stripes(0, 0, 0, true), &tc));
    assert!(!stripe_fits(&stripes(usize::MAX, 1, 2, true), &tc));
}

#[test]
fn the_stripes_of_instance_40_are_columns_after_the_turn() {
    let tc = whole(vec![vec![shade(0); 400]; 400]);
    let s = task40_stripe(&tc);
    assert_eq!((s.cnt_lines, s.first_line, s.second_line, s.by_x), (129, 0, 161, true));
    assert!(stripe_fits(&s, &tc));
    assert!(!stripe_fits(&s, &whole(counted(4))));
}

#[test]
fn stripes_come_back_after_four_turns() {
    let tc = whole(counted(5));
    let s = stripes(1, 0, 3, true);
    let once = rotate_stripe(s, &tc, 1);
    assert_eq!(
        (once.cnt_lines, once.first_line, once.second_line, once.by_x),
        (1, 1, 4, false)
    );
    let twice = rotate_stripe(s, &tc, 2);
    assert_eq!(
        (twice.cnt_lines, twice.first_line, twice.second_line, twice.by_x),
        (1, 1, 4, true)
    );
    let back = rotate_stripe(s, &tc, 4);
    assert_eq!(
        (back.cnt_lines, back.first_line, back.second_line, back.by_x),
        (1, 0, 3, true)
    );
    let same = rotate_stripe(s, &tc, 0);
    assert_eq!((same.first_line, same.second_line, same.by_x), (0, 3, true));
}

#[test]
fn swapped_case_exchanges_both_pictures() {
    let mut tc = whole(counted(4));
    tc.start_field = counted(4);
    tc.start_field[0][0] = shade(200);
    let s = stripes(1, 0, 2, true);
    let swapped = swapped_case(&tc, &s);
    assert!(swapped.is_well_formed());
    for y in 0..4 {
        assert_eq!(swapped.expected[0][y], tc.expected[2][y]);
        assert_eq!(swapped.expected[2][y], tc.expected[0][y]);
        assert_eq!(swapped.expected[1][y], tc.expected[1][y]);
        assert_eq!(swapped.expected[3][y], tc.expected[3][y]);
    }
    assert_eq!(swapped.start_field[2][0], shade(200));
    assert_eq!(swapped.start_field[0][0], tc.start_field[2][0]);
    assert_eq!(swapped.regions.len(), 1);
    assert_eq!(swapped.regions[0].name, b"0".to_vec());
    assert_eq!(swapped.regions[0].rect, tc.regions[0].rect);
    assert_eq!(swapped.test_id, tc.test_id);

    let rows = swapped_case(&tc, &stripes(2, 0, 2, false));
    for x in 0..4 {
        assert_eq!(rows.expected[x][0], tc.expected[x][2]);
        assert_eq!(rows.expected[x][3], tc.expected[x][1]);
    }
}

#[test]
fn plan_takes_the_cheapest_stripes_and_restores_a_stack() {
    let n = 6;
    let tc = whole(vec![vec![shade(9); n]; n]);
    // corners near the origin are dear; rows 0 and 4 change places
    let rects = vec![
        corner(0, 0, n, n, shade(1)),
        corner(1, 1, n, n, shade(2)),
        corner(2, 1, n, n, shade(3)),
    ];
    let (best, cost) = find_best_stripe(&rects, &tc);
    let plan = plan_stripes(&rects, &tc);
    assert_eq!(
        (plan.stripe.cnt_lines, plan.stripe.first_line, plan.stripe.second_line, plan.stripe.by_x),
        (best.cnt_lines, best.first_line, best.second_line, best.by_x)
    );
    assert_eq!(plan.cost, cost);
    assert!(stripe_fits(&plan.stripe, &tc));
    let wanted = plan.stripe.apply_field(&tc.expected);
    assert_eq!(plan.test_case.expected, wanted);
    let painted = gen_field_by_rects(&rects, &tc);
    if let Some(found) = &plan.rects {
        assert!(are_anchors_inside(found, n, n));
        assert_eq!(gen_field_by_rects(found, &tc), plan.stripe.apply_field(&painted));
    }
}

#[test]
fn a_round_that_is_not_better_gives_nothing() {
    let given = whole(counted(4));
    let rotator = Rotator::new_fixed_rotations(&given, 0);
    let s = stripes(1, 0, 2, true);
    let swapped = swapped_case(&rotator.test_case, &s);
    let rects = vec![corner(0, 0, 4, 4, shade(20))];
    let mut rnd = Random::new(5);
    let slacks = vec![0u128; 30];
    let round = stripe_round(&rects, &mut rnd, &swapped, s, &rotator, &given, 0, &slacks).unwrap();
    assert!(round.is_none());
}

#[test]
fn a_round_gives_a_solution_of_the_instance_as_given() {
    let given = whole(counted(4));
    for rotated in 0..4 {
        let rotator = Rotator::new_fixed_rotations(&given, rotated);
        for s in [stripes(1, 0, 2, true), stripes(1, 1, 3, false), stripes(0, 0, 0, true)] {
            let swapped = swapped_case(&rotator.test_case, &s);
            let rects = vec![corner(0, 0, 4, 4, shade(20)), corner(2, 1, 4, 4, shade(30))];
            let mut rnd = Random::new(11);
            let slacks = vec![0u128; 40];
            let round =
                stripe_round(&rects, &mut rnd, &swapped, s, &rotator, &given, u128::MAX, &slacks)
                    .unwrap()
                    .unwrap();

            // what the round found, on the instance with exchanged stripes
            let found = gen_field_by_rects(&round.rects, &swapped);
            assert_eq!(found, round.picture);
            assert!(are_anchors_inside(&round.rects, 4, 4));

            // the answer replays on the instance as it was given
            let replayed = apply_ops(&round.answer.ops, &given);
            assert_eq!(replayed.picture, round.answer.a);
            assert_eq!(
                round.answer.expected_score,
                replayed.only_ops_cost * SCORE_SCALE
                    + get_pixel_distance(&replayed.picture, &given.expected)
            );

            // and paints the picture that was found, with the stripes
            // exchanged back and the canvas turned back
            let mut back = s.apply_field(&round.picture);
            for _ in 0..(4 - rotated) % 4 {
                back = rotate_field_cw(&back, 4);
            }
            assert_eq!(round.answer.a, back);
        }
    }
}

#[test]
fn four_quarter_turns_bring_an_instance_back() {
    let mut tc = whole(counted(5));
    tc.start_field = counted(5);
    tc.regions = vec![
        Region {
            name: b"0".to_vec(),
            rect: Rect::new(Point::new(0, 0), Point::new(2, 5)),
            color: shade(1),
        },
        Region {
            name: b"1".to_vec(),
            rect: Rect::new(Point::new(2, 0), Point::new(5, 5)),
            color: shade(2),
        },
    ];
    let mut turned = rotate_tc_cw(&tc);
    assert_ne!(turned.expected, tc.expected);
    for _ in 0..3 {
        turned = rotate_tc_cw(&turned);
    }
    assert_eq!(turned.expected, tc.expected);
    assert_eq!(turned.start_field, tc.start_field);
    assert_eq!(turned.regions.len(), 2);
    for i in 0..2 {
        assert_eq!(turned.regions[i].name, tc.regions[i].name);
        assert_eq!(turned.regions[i].rect, tc.regions[i].rect);
        assert_eq!(turned.regions[i].color, tc.regions[i].color);
    }
    assert_eq!(turned.test_id, tc.test_id);
}

#[test]
fn an_instance_solved_after_turns_is_solved_as_given() {
    let given = whole(counted(6));
    for rotations in 0..4 {
        let sol = solve_case(&given, 2, false, rotations).unwrap();
        let replayed = apply_ops(&sol.ops, &given);
        assert_eq!(replayed.picture, sol.a);
        assert_eq!(
            sol.expected_score,
            replayed.only_ops_cost * SCORE_SCALE
                + get_pixel_distance(&replayed.picture, &given.expected)
        );
        assert_eq!(sol.last_block_id, replayed.last_block_id);
    }
}

#[test]
fn a_whole_canvas_is_always_solved() {
    for n in 1..5usize {
        for block in 1..4usize {
            let tc = whole(vec![vec![shade(40); n + 1]; n]);
            let sol = solve_one(&tc, block, true).unwrap();
            assert!(sol.ops.len() <= 5 * n * (n + 1));
            let square = whole(counted(n));
            assert!(solve_case(&square, block, true, 0).is_ok());
        }
    }
}

#[test]
fn a_search_on_a_whole_canvas_gives_a_solution() {
    let tc = whole(counted(4));
    let empty: Vec<SolutionRect> = Vec::new();
    for seed in 0..5u64 {
        let mut rnd = Random::new(seed);
        let slacks = vec![SCORE_SCALE; 25];
        let start = vec![corner(0, 0, 4, 4, shade(10)), corner(1, 2, 4, 4, shade(25))];
        assert!(optimize_positions(&start, &mut rnd, &tc, &slacks).is_ok());
        assert!(optimize_positions(&empty, &mut rnd, &tc, &slacks).is_ok());
    }
}
