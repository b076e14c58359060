use borys::color::Color;
use borys::consts::SCORE_SCALE;
use borys::interpreter::{apply_ops, try_apply_ops, OpError};
use borys::local_optimizations::gen_field_by_rects;
use borys::op::Op;
use borys::ops_by_rects::gen_ops_by_solution_rects;
use borys::pixel_dist::get_pixel_distance;
use borys::really_local_optimizations::{
    corner_costs, find_best_stripe, stripe_swap_ops, StripeSwap,
};
use borys::restore::restore_rects_by_field;
use borys::rotator::{rotate_field_cw, rotate_ops_cw, rotate_tc_cw, solve_case, Rotator};
use borys::solution::SolutionRect;
use borys::solve::SolutionRes;
use borys::test_case::{Rect, Region, TestCase};
use borys::utils::Point;

fn gray(v: u8) -> Color {
    Color([v, v, v, 255])
}

fn case_of(expected: Vec<Vec<Color>>) -> TestCase {
    let n = expected.len();
    let m = expected[0].len();
    TestCase {
        expected,
        start_field: vec![vec![Color::start(); m]; n],
        regions: vec![Region {
            name: b"0".to_vec(),
            rect: Rect::new(Point::new(0, 0), Point::new(n as i32, m as i32)),
            color: Color::start(),
        }],
        test_id: 1,
    }
}

fn rect(x: i32, y: i32, n: usize, m: usize, color: Color) -> SolutionRect {
    SolutionRect {
        from: Point::new(x, y),
        to: Point::new(n as i32, m as i32),
        color,
    }
}

fn numbered(n: usize) -> Vec<Vec<Color>> {
    let mut a = vec![vec![gray(0); n]; n];
    for x in 0..n {
        for y in 0..n {
            a[x][y] = gray((10 * x + y) as u8);
        }
    }
    a
}

fn same_ops(a: &[Op], b: &[Op]) -> bool {
    a.len() == b.len() && a.iter().zip(b.iter()).all(|(x, y)| format!("{:?}", x) == format!("{:?}", y))
}

#[test]
fn quarter_turn_of_a_picture() {
    let a = numbered(3);
    let t = rotate_field_cw(&a, 3);
    for x in 0..3 {
        for y in 0..3 {
            assert_eq!(t[y][2 - x], a[x][y]);
        }
    }
    // the lower left corner goes to the upper left
    assert_eq!(t[0][2], a[0][0]);
    let mut back = t;
    for _ in 0..3 {
        back = rotate_field_cw(&back, 3);
    }
    assert_eq!(back, a);
}

#[test]
fn quarter_turn_of_an_instance() {
    let mut tc = case_of(numbered(4));
    tc.regions = vec![
        Region {
            name: b"0".to_vec(),
            rect: Rect::new(Point::new(0, 0), Point::new(1, 4)),
            color: gray(1),
        },
        Region {
            name: b"1".to_vec(),
            rect: Rect::new(Point::new(1, 0), Point::new(4, 4)),
            color: gray(2),
        },
    ];
    let t = rotate_tc_cw(&tc);
    assert_eq!(t.test_id, 1);
    assert_eq!(t.expected, rotate_field_cw(&tc.expected, 4));
    assert_eq!(t.regions[0].name, b"0".to_vec());
    assert_eq!(
        t.regions[0].rect,
        Rect::new(Point::new(0, 3), Point::new(4, 4))
    );
    assert_eq!(
        t.regions[1].rect,
        Rect::new(Point::new(0, 0), Point::new(4, 3))
    );
    assert_eq!(t.regions[1].color, gray(2));
}

#[test]
fn quarter_turn_of_a_program() {
    let ops = vec![
        Op::Color(b"0".to_vec(), gray(1)),
        Op::CutPoint(b"0".to_vec(), Point::new(1, 3)),
        Op::Color(b"0.2".to_vec(), gray(2)),
        Op::Color(b"0.0".to_vec(), gray(3)),
        Op::Merge(b"0.2".to_vec(), b"0.1".to_vec()),
        Op::Merge(b"0.3".to_vec(), b"0.0".to_vec()),
        Op::Merge(b"1".to_vec(), b"2".to_vec()),
        Op::CutY(b"3".to_vec(), 2),
        Op::Color(b"3.1".to_vec(), gray(4)),
        Op::Merge(b"3.0".to_vec(), b"3.1".to_vec()),
        Op::CutX(b"4".to_vec(), 1),
        Op::Color(b"4.1".to_vec(), gray(5)),
        Op::Swap(b"4.0".to_vec(), b"4.1".to_vec()),
    ];
    let want = vec![
        Op::Color(b"0".to_vec(), gray(1)),
        Op::CutPoint(b"0".to_vec(), Point::new(3, 3)),
        Op::Color(b"0.1".to_vec(), gray(2)),
        Op::Color(b"0.3".to_vec(), gray(3)),
        Op::Merge(b"0.1".to_vec(), b"0.0".to_vec()),
        Op::Merge(b"0.2".to_vec(), b"0.3".to_vec()),
        Op::Merge(b"1".to_vec(), b"2".to_vec()),
        Op::CutX(b"3".to_vec(), 2),
        Op::Color(b"3.1".to_vec(), gray(4)),
        Op::Merge(b"3.0".to_vec(), b"3.1".to_vec()),
        Op::CutY(b"4".to_vec(), 3),
        Op::Color(b"4.0".to_vec(), gray(5)),
        Op::Swap(b"4.0".to_vec(), b"4.1".to_vec()),
    ];
    assert!(same_ops(&rotate_ops_cw(&ops, 4).unwrap(), &want));
    assert_eq!(
        rotate_ops_cw(&[Op::Color(b"a".to_vec(), gray(1))], 4).err(),
        Some(OpError::BadId)
    );
    assert_eq!(
        rotate_ops_cw(&[Op::Merge(b"1".to_vec(), b"".to_vec())], 4).err(),
        Some(OpError::BadId)
    );
}

#[test]
fn turned_program_paints_the_turned_picture() {
    let tc = case_of(numbered(4));
    let ops = vec![
        Op::CutPoint(b"0".to_vec(), Point::new(1, 3)),
        Op::Color(b"0.2".to_vec(), gray(2)),
        Op::Color(b"0.0".to_vec(), gray(3)),
    ];
    let plain = apply_ops(&ops, &tc);
    let turned = apply_ops(&rotate_ops_cw(&ops, 4).unwrap(), &rotate_tc_cw(&tc));
    assert_eq!(turned.picture, rotate_field_cw(&plain.picture, 4));
    assert_eq!(turned.only_ops_cost, plain.only_ops_cost);
}

#[test]
fn rotator_turns_until_only_corners_are_filled() {
    let tc = case_of(numbered(4));
    // fills the lower left part: a quarter turn brings it to the top left,
    // another one to the top right
    let ops = vec![
        Op::CutPoint(b"0".to_vec(), Point::new(1, 3)),
        Op::Color(b"0.0".to_vec(), gray(3)),
    ];
    let r = Rotator::new(&tc, &ops).unwrap();
    assert_eq!(r.rotated, 2);
    assert_eq!(r.rotations_to_answer(), 2);
    let done = apply_ops(&r.ops, &r.test_case);
    assert!(done.only_colored_top_right);
    assert_eq!(
        r.test_case.expected,
        rotate_field_cw(&rotate_field_cw(&tc.expected, 4), 4)
    );
    let plain = vec![Op::Color(b"0".to_vec(), gray(3))];
    assert_eq!(Rotator::new(&tc, &plain).unwrap().rotated, 0);
    let stuck = vec![
        Op::CutPoint(b"0".to_vec(), Point::new(1, 3)),
        Op::Color(b"0.0".to_vec(), gray(3)),
        Op::Color(b"0.2".to_vec(), gray(3)),
    ];
    assert_eq!(Rotator::new(&tc, &stuck).err(), Some(OpError::NoRotation));
    let broken = vec![Op::Color(b"7".to_vec(), gray(3))];
    assert_eq!(Rotator::new(&tc, &broken).err(), Some(OpError::UnknownId));
}

#[test]
fn rotated_solution_is_turned_back() {
    let tc = case_of(numbered(4));
    let ops = vec![
        Op::CutPoint(b"0".to_vec(), Point::new(1, 3)),
        Op::Color(b"0.0".to_vec(), gray(3)),
    ];
    let r = Rotator::new(&tc, &ops).unwrap();
    let inner = SolutionRes::new_from_ops(&r.test_case, r.ops.clone()).unwrap();
    let out = r.rotate_sol(inner).unwrap();
    let direct = SolutionRes::new_from_ops(&tc, ops).unwrap();
    assert_eq!(out.a, direct.a);
    assert_eq!(out.expected_score, direct.expected_score);
    assert_eq!(
        direct.expected_score,
        (10 + 27) * SCORE_SCALE + get_pixel_distance(&direct.a, &tc.expected)
    );
}

#[test]
fn solution_of_a_program_that_fails() {
    let tc = case_of(numbered(4));
    let ops = vec![Op::CutY(b"0".to_vec(), 4)];
    assert_eq!(SolutionRes::new_from_ops(&tc, ops).err(), Some(OpError::BadCut));
}

#[test]
fn stripes_and_their_pixels() {
    let s = StripeSwap {
        cnt_lines: 2,
        first_line: 1,
        second_line: 5,
        by_x: true,
    };
    let kinds: Vec<usize> =
        [0, 1, 2, 3, 4, 5, 6, 7, 8].iter().map(|&x| s.get_pt_type(x, 99)).collect();
    assert_eq!(kinds, vec![0, 1, 1, 2, 2, 3, 3, 4, 4]);
    assert_eq!(s.apply_point(1, 9), (5, 9));
    assert_eq!(s.apply_point(2, 9), (6, 9));
    assert_eq!(s.apply_point(5, 9), (1, 9));
    assert_eq!(s.apply_point(6, 9), (2, 9));
    assert_eq!(s.apply_point(0, 9), (0, 9));
    assert_eq!(s.apply_point(3, 9), (3, 9));
    assert_eq!(s.apply_point(7, 9), (7, 9));
    assert_eq!(s.apply_point_for_real(Point::new(2, 3)), Point::new(6, 3));
    let t = StripeSwap { by_x: false, ..s };
    assert_eq!(t.get_pt_type(99, 5), 3);
    assert_eq!(t.apply_point(9, 6), (9, 2));
    assert_eq!(t.apply_point_for_real(Point::new(2, 3)), Point::new(2, 3));
}

#[test]
fn stripes_after_a_quarter_turn() {
    let tc = case_of(numbered(8));
    let s = StripeSwap {
        cnt_lines: 2,
        first_line: 1,
        second_line: 5,
        by_x: true,
    };
    let t = s.rotate_cw(&tc);
    assert!(!t.by_x);
    assert_eq!((t.first_line, t.second_line, t.cnt_lines), (1, 5, 2));
    let u = StripeSwap { first_line: 0, second_line: 3, ..s }.rotate_cw(&tc);
    assert_eq!((u.first_line, u.second_line, u.cnt_lines), (3, 6, 2));
    let back = t.rotate_cw(&tc);
    assert!(back.by_x);
    assert_eq!((back.first_line, back.second_line), (1, 5));
}

#[test]
fn stripes_of_a_picture_change_places() {
    let a = numbered(4);
    let s = StripeSwap {
        cnt_lines: 1,
        first_line: 0,
        second_line: 2,
        by_x: true,
    };
    let b = s.apply_field(&a);
    assert_eq!(b[0], a[2]);
    assert_eq!(b[2], a[0]);
    assert_eq!(b[1], a[1]);
    assert_eq!(b[3], a[3]);
    assert_eq!(s.apply_field(&b), a);
    let t = StripeSwap { by_x: false, cnt_lines: 2, first_line: 0, second_line: 2 };
    let c = t.apply_field(&a);
    for x in 0..4 {
        assert_eq!(c[x], vec![a[x][2], a[x][3], a[x][0], a[x][1]]);
    }
}

#[test]
fn corner_costs_of_a_small_canvas() {
    let tc = case_of(numbered(2));
    // (0,0): 5; (0,1): 7 + 10 + 2; (1,0): 7 + 10 + 2; (1,1): 10 + 20 + 4 + 4 + 2
    assert_eq!(corner_costs(&tc), vec![vec![5, 19], vec![19, 40]]);
}

#[test]
fn best_stripe_exchange_makes_corners_cheapest() {
    let tc = case_of(numbered(6));
    let costs = corner_costs(&tc);
    let total = |rects: &[SolutionRect], s: &StripeSwap| -> u128 {
        rects
            .iter()
            .map(|r| {
                let (x, y) = s.apply_point(r.from.x as usize, r.from.y as usize);
                costs[x][y]
            })
            .sum()
    };
    let rects = vec![rect(5, 5, 6, 6, gray(1)), rect(5, 4, 6, 6, gray(2)), rect(1, 1, 6, 6, gray(3))];
    let idle = StripeSwap { cnt_lines: 0, first_line: 0, second_line: 0, by_x: true };
    let (best, cost) = find_best_stripe(&rects, &tc);
    assert_eq!(cost, total(&rects, &best));
    assert!(cost < total(&rects, &idle));
    for by_x in [false, true] {
        for cnt_lines in 1..6 {
            for first_line in 0..6 {
                for second_line in first_line + cnt_lines..6 {
                    if second_line + cnt_lines <= 6 {
                        let s = StripeSwap { cnt_lines, first_line, second_line, by_x };
                        assert!(cost <= total(&rects, &s));
                    }
                }
            }
        }
    }
    // nothing is cheaper than a corner at the origin
    let (best, cost) = find_best_stripe(&[rect(0, 0, 6, 6, gray(1))], &tc);
    assert_eq!(cost, 5);
    assert_eq!(best.cnt_lines, 0);
}

#[test]
fn stack_is_restored_from_its_picture() {
    let tc = case_of(numbered(5));
    let rects = vec![
        rect(0, 0, 5, 5, gray(1)),
        rect(2, 0, 5, 5, gray(2)),
        rect(0, 3, 5, 5, gray(3)),
        rect(3, 2, 5, 5, gray(4)),
    ];
    let field = gen_field_by_rects(&rects, &tc);
    let back = restore_rects_by_field(&field, &tc).unwrap();
    assert_eq!(gen_field_by_rects(&back, &tc), field);
    assert!(back.len() <= 6);
    let ops = gen_ops_by_solution_rects(&back, 5, 5, 0, &tc);
    assert_eq!(apply_ops(&ops, &tc).picture, field);
    let flat = restore_rects_by_field(&vec![vec![gray(9); 5]; 5], &tc).unwrap();
    assert_eq!(flat.len(), 1);
    assert_eq!(flat[0].from, Point::new(0, 0));
    assert_eq!(flat[0].color, gray(9));
}

#[test]
fn stripe_exchange_as_operations() {
    let mut tc = case_of(numbered(6));
    tc.start_field = numbered(6);
    for (cnt_lines, first_line, second_line) in [(1, 0, 5), (2, 1, 3), (3, 0, 3), (1, 2, 4), (2, 0, 2)] {
        for by_x in [true, false] {
            let s = StripeSwap { cnt_lines, first_line, second_line, by_x };
            let ops = stripe_swap_ops(&s, &b"0".to_vec(), &tc);
            let done = apply_ops(&ops, &tc);
            assert_eq!(done.picture, s.apply_field(&tc.start_field));
        }
    }
    let s = StripeSwap { cnt_lines: 2, first_line: 1, second_line: 3, by_x: true };
    let ops = stripe_swap_ops(&s, &b"7".to_vec(), &tc);
    let want = vec![
        Op::CutX(b"7".to_vec(), 1),
        Op::CutX(b"7.1".to_vec(), 3),
        Op::CutX(b"7.1.1".to_vec(), 5),
        Op::Swap(b"7.1.0".to_vec(), b"7.1.1.0".to_vec()),
    ];
    assert!(same_ops(&ops, &want));
    // cuts 7 * 36 / 36, round(7 * 36 / 30), round(7 * 36 / 18), swap round(3 * 36 / 12)
    let mut named = case_of(numbered(6));
    named.regions[0].name = b"7".to_vec();
    assert_eq!(apply_ops(&ops, &named).only_ops_cost, 7 + 8 + 14 + 9);
    assert_eq!(try_apply_ops(&ops, &tc).err(), Some(OpError::UnknownId));
}

#[test]
fn instance_is_solved_turned_and_turned_back() {
    let mut a = vec![vec![gray(200); 8]; 8];
    for x in 0..3 {
        for y in 0..3 {
            // the lower left corner is dark
            a[x][y] = gray(20);
        }
    }
    let tc = case_of(a);
    for rotations in 0..4 {
        let res = solve_case(&tc, 2, true, rotations).unwrap();
        let done = apply_ops(&res.ops, &tc);
        assert!(done.picture == res.a, "picture after {} turns", rotations);
        assert_eq!(
            res.expected_score,
            done.only_ops_cost * SCORE_SCALE + get_pixel_distance(&res.a, &tc.expected)
        );
    }
}

#[test]
fn fixed_number_of_turns() {
    let tc = case_of(numbered(3));
    let r = Rotator::new_fixed_rotations(&tc, 3);
    assert_eq!(r.rotated, 3);
    assert!(r.ops.is_empty());
    let mut want = tc.expected.clone();
    for _ in 0..3 {
        want = rotate_field_cw(&want, 3);
    }
    assert_eq!(r.test_case.expected, want);
    assert_eq!(Rotator::new_fixed_rotations(&tc, 0).test_case.expected, tc.expected);
}

#[test]
fn turned_coordinates_must_fit() {
    assert_eq!(
        rotate_ops_cw(&[Op::CutX(b"0".to_vec(), i32::MIN)], 4).err(),
        Some(OpError::TooLarge)
    );
    assert_eq!(
        rotate_ops_cw(&[Op::CutPoint(b"0".to_vec(), Point::new(-2147483647, 0))], 4).err(),
        Some(OpError::TooLarge)
    );
}
