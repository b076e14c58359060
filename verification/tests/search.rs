use borys::annealing::{apply_move, optimize_positions, pick_move, try_move, Move};
use borys::color::Color;
use borys::coords::add_more_coords;
use borys::consts::SCORE_SCALE;
use borys::interpreter::{apply_ops, OpError};
use borys::local_optimizations::{
    colored_by_rect, finish, gen_field_by_rects, get_covered_pixels_if_add_new_rect,
    optimize_colors, recolor, score_by_rects, shrink_rects, try_optimize_colors,
};
use borys::merger::{merge, MergeResult};
use borys::op::Op;
use borys::ops_by_rects::{gen_ops_by_solution_rects, gen_rects_by_ops};
use borys::pixel_dist::get_pixel_distance;
use borys::rand::Random;
use borys::solution::SolutionRect;
use borys::solve::{paint_boxes, solve_one};
use borys::test_case::{Rect, Region, TestCase};
use borys::utils::Point;

const NONE: usize = usize::MAX;

fn gray(v: u8) -> Color {
    Color([v, v, v, 255])
}

fn case_of(expected: Vec<Vec<Color>>) -> TestCase {
    let n = expected.len();
    let m = expected[0].len();
    TestCase {
        expected,
        start_field: vec![vec![Color::start(); m]; n],
        regions: vec![Region {
            name: b"0".to_vec(),
            rect: Rect::new(Point::new(0, 0), Point::new(n as i32, m as i32)),
            color: Color::start(),
        }],
        test_id: 1,
    }
}

fn rect(x: i32, y: i32, n: usize, m: usize, color: Color) -> SolutionRect {
    SolutionRect {
        from: Point::new(x, y),
        to: Point::new(n as i32, m as i32),
        color,
    }
}

fn same_rects(a: &[SolutionRect], b: &[SolutionRect]) -> bool {
    a.len() == b.len()
        && a.iter()
            .zip(b.iter())
            .all(|(x, y)| x.from == y.from && x.to == y.to && x.color == y.color)
}

fn no_merge() -> MergeResult {
    MergeResult {
        ops: vec![],
        last_block_id: 0,
        expected_score: 0,
    }
}

/// A picture of four quadrants in four grays.
fn quadrants(n: usize) -> Vec<Vec<Color>> {
    let mut a = vec![vec![gray(0); n]; n];
    for x in 0..n {
        for y in 0..n {
            a[x][y] = match (x < n / 2, y < n / 2) {
                (true, true) => gray(10),
                (false, true) => gray(80),
                (true, false) => gray(160),
                (false, false) => gray(240),
            };
        }
    }
    a
}

#[test]
fn later_rectangles_own_the_pixels_they_reach() {
    let rects = vec![
        rect(0, 0, 4, 3, gray(1)),
        rect(2, 1, 4, 3, gray(2)),
        rect(1, 2, 4, 3, gray(3)),
    ];
    let owners = colored_by_rect(&rects, 4, 3);
    assert_eq!(
        owners,
        vec![
            vec![0, 0, 0],
            vec![0, 0, 2],
            vec![0, 1, 2],
            vec![0, 1, 2],
        ]
    );
    let lone = vec![rect(1, 1, 3, 3, gray(1))];
    assert_eq!(
        colored_by_rect(&lone, 3, 3),
        vec![
            vec![NONE, NONE, NONE],
            vec![NONE, 0, 0],
            vec![NONE, 0, 0],
        ]
    );
    // of two rectangles at one anchor the later one owns
    let twice = vec![rect(0, 0, 2, 2, gray(1)), rect(0, 0, 2, 2, gray(2))];
    assert_eq!(colored_by_rect(&twice, 2, 2), vec![vec![1, 1], vec![1, 1]]);
}

#[test]
fn stack_paints_owner_colors_over_the_start() {
    let tc = case_of(vec![vec![gray(0); 3]; 3]);
    let lone = vec![rect(1, 1, 3, 3, gray(7)), rect(2, 0, 3, 3, gray(9))];
    let field = gen_field_by_rects(&lone, &tc);
    let w = Color::start();
    assert_eq!(
        field,
        vec![
            vec![w, w, w],
            vec![w, gray(7), gray(7)],
            vec![gray(9), gray(9), gray(9)],
        ]
    );
}

#[test]
fn shrinking_gives_tight_boxes_and_is_idempotent() {
    let mut rects = vec![
        rect(0, 0, 4, 3, gray(1)),
        rect(2, 1, 4, 3, gray(2)),
        rect(1, 2, 4, 3, gray(3)),
        rect(1, 2, 4, 3, gray(4)),
    ];
    shrink_rects(&mut rects, 4, 3);
    assert_eq!(rects[0].to, Point::new(4, 3));
    assert_eq!(rects[1].to, Point::new(4, 2));
    // owns nothing: the next rectangle has the same anchor
    assert_eq!(rects[2].to, Point::new(1, 2));
    assert_eq!(rects[3].to, Point::new(4, 3));
    assert_eq!(rects[0].from, Point::new(0, 0));
    assert_eq!(rects[3].color, gray(4));
    let once = rects.clone();
    shrink_rects(&mut rects, 4, 3);
    assert!(same_rects(&once, &rects));
}

#[test]
fn covered_pixels_stop_at_later_owners() {
    let rects = vec![rect(0, 0, 4, 3, gray(1)), rect(2, 1, 4, 3, gray(2))];
    let owners = colored_by_rect(&rects, 4, 3);
    let mut expected = vec![vec![gray(0); 3]; 4];
    for x in 0..4 {
        for y in 0..3 {
            expected[x][y] = gray((10 * x + y) as u8);
        }
    }
    // a new rectangle at position 1 anchored at (1, 0)
    let got = get_covered_pixels_if_add_new_rect(&owners, 1, 0, &expected, 1);
    assert_eq!(
        got,
        vec![gray(10), gray(11), gray(12), gray(20), gray(30)]
    );
    // at position 2 it covers the rest of the canvas
    let got = get_covered_pixels_if_add_new_rect(&owners, 1, 0, &expected, 2);
    assert_eq!(got.len(), 9);
    // at position 0 nothing is before it
    let got = get_covered_pixels_if_add_new_rect(&owners, 1, 0, &expected, 0);
    assert!(got.is_empty());
}

#[test]
fn score_adds_corner_costs_and_pixel_distance() {
    let tc = case_of(vec![vec![gray(0); 400]; 400]);
    let rects = vec![rect(0, 0, 400, 400, gray(0)), rect(200, 200, 400, 400, gray(1))];
    // corners cost 5 and 40; 40000 pixels are off by sqrt(3)
    let want = (5 + 40 + 3) * SCORE_SCALE + 40000 * 1_732_050;
    assert_eq!(score_by_rects(&rects, &tc, 3), want);
    assert_eq!(score_by_rects(&[], &tc, 0), 160000 * 441_672_955);
}

#[test]
fn program_of_a_stack_paints_what_the_stack_paints() {
    let tc = case_of(quadrants(6));
    let rects = vec![
        rect(0, 0, 6, 6, gray(10)),
        rect(3, 0, 6, 6, gray(80)),
        rect(0, 3, 6, 6, gray(160)),
        rect(3, 3, 6, 6, gray(240)),
        rect(5, 1, 6, 6, gray(99)),
    ];
    let ops = gen_ops_by_solution_rects(&rects, 6, 6, 0, &tc);
    let done = apply_ops(&ops, &tc);
    assert_eq!(done.picture, gen_field_by_rects(&rects, &tc));
    assert!(done.only_colored_top_right);
    // 0 + 1 + 1 + 3 + 3 merges
    assert_eq!(done.last_block_id, b"8".to_vec());
    let back = gen_rects_by_ops(&ops, 6, 6);
    assert!(same_rects(&back, &rects));
    let res = finish(&rects, &tc, &no_merge()).unwrap();
    assert_eq!(res.a, done.picture);
    assert_eq!(
        res.expected_score,
        done.only_ops_cost * SCORE_SCALE + get_pixel_distance(&done.picture, &tc.expected)
    );
    assert_eq!(res.expected_score, score_by_rects(&rects, &tc, 0));
}

#[test]
fn rectangles_of_a_program_start_at_the_last_cut() {
    let ops = vec![
        Op::Color(b"0".to_vec(), gray(1)),
        Op::CutY(b"0".to_vec(), 2),
        Op::Color(b"0.1".to_vec(), gray(2)),
        Op::Merge(b"0.0".to_vec(), b"0.1".to_vec()),
        Op::CutX(b"1".to_vec(), 3),
        Op::Color(b"1.1".to_vec(), gray(3)),
        Op::CutPoint(b"1.0".to_vec(), Point::new(1, 1)),
        Op::Color(b"1.0.2".to_vec(), gray(4)),
    ];
    let rects = gen_rects_by_ops(&ops, 5, 4);
    let want = vec![
        rect(0, 0, 5, 4, gray(1)),
        rect(0, 2, 5, 4, gray(2)),
        rect(3, 0, 5, 4, gray(3)),
        rect(1, 1, 5, 4, gray(4)),
    ];
    assert!(same_rects(&rects, &want));
}

#[test]
fn recoloring_steps_towards_the_owned_pixels() {
    let tc = case_of(quadrants(4));
    let rects = vec![
        rect(0, 0, 4, 4, gray(12)),
        rect(2, 0, 4, 4, gray(77)),
        rect(0, 2, 4, 4, gray(160)),
        rect(2, 2, 4, 4, gray(200)),
    ];
    // the first rectangle owns the lower left quadrant only; the others paint over it
    let got = recolor(&rects, &tc);
    assert_eq!(got[0].color, gray(10));
    assert_eq!(got[1].color, gray(80));
    assert_eq!(got[2].color, gray(160));
    assert_eq!(got[3].color, gray(240));
    assert_eq!(got[3].from, Point::new(2, 2));
}

#[test]
fn color_optimization_is_consistent_and_not_worse() {
    let tc = case_of(quadrants(4));
    let rects = vec![
        rect(0, 0, 4, 4, gray(12)),
        rect(2, 0, 4, 4, gray(77)),
        rect(0, 2, 4, 4, gray(160)),
        rect(2, 2, 4, 4, gray(200)),
    ];
    let before = finish(&rects, &tc, &no_merge()).unwrap();
    let after = optimize_colors(&rects, &before.ops, &tc, &no_merge()).unwrap();
    assert_eq!(after.a, tc.expected);
    assert!(after.expected_score < before.expected_score);
    let done = apply_ops(&after.ops, &tc);
    assert_eq!(done.picture, after.a);
    assert_eq!(after.expected_score, done.only_ops_cost * SCORE_SCALE);
    assert_eq!(after.last_block_id, done.last_block_id);
}

#[test]
fn color_optimization_rejects_a_program_that_paints_otherwise() {
    let tc = case_of(quadrants(4));
    let rects = vec![rect(0, 0, 4, 4, gray(12))];
    let other = vec![Op::Color(b"0".to_vec(), gray(13))];
    assert_eq!(
        try_optimize_colors(&rects, &other, &tc, &no_merge()).err(),
        Some(OpError::PictureMismatch)
    );
    let broken = vec![Op::Color(b"5".to_vec(), gray(12))];
    assert_eq!(
        try_optimize_colors(&rects, &broken, &tc, &no_merge()).err(),
        Some(OpError::UnknownId)
    );
}

#[test]
fn moves_change_the_stack() {
    let a = rect(0, 0, 4, 4, gray(1));
    let b = rect(1, 1, 4, 4, gray(2));
    let c = rect(2, 3, 4, 4, gray(3));
    let mut rects = vec![a, b, c];
    apply_move(&mut rects, Move::Remove(1), 4, 4);
    assert!(same_rects(&rects, &[a, c]));
    apply_move(&mut rects, Move::Insert(1, b), 4, 4);
    assert!(same_rects(&rects, &[a, b, c]));
    apply_move(&mut rects, Move::SwapOrder(1), 4, 4);
    assert!(same_rects(&rects, &[a, c, b]));
    apply_move(&mut rects, Move::Shift(1, 1, -1), 4, 4);
    assert_eq!(rects[1].from, Point::new(3, 2));
    assert_eq!(rects[1].color, gray(3));
}

#[test]
fn rejected_move_leaves_stack_and_score_as_they_were() {
    let tc = case_of(quadrants(40));
    let good = vec![
        rect(0, 0, 40, 40, gray(10)),
        rect(20, 0, 40, 40, gray(80)),
        rect(0, 20, 40, 40, gray(160)),
        rect(20, 20, 40, 40, gray(240)),
    ];
    let start_score = score_by_rects(&good, &tc, 0);
    assert_eq!(start_score, (5 + 19 + 19 + 40) * SCORE_SCALE);
    // each of these makes the picture worse, or leaves the score as it is
    let moves = [
        Move::Remove(2),
        Move::Shift(3, -1, 0),
        Move::SwapOrder(1),
        Move::Insert(2, rect(1, 1, 40, 40, gray(0))),
    ];
    for mv in moves {
        let mut rects = good.clone();
        let mut score = start_score;
        assert!(!try_move(&mut rects, &mut score, mv, 0, &tc, 0));
        assert!(same_rects(&rects, &good));
        assert_eq!(score, start_score);
        // with enough slack the move is kept
        let mut rects = good.clone();
        let mut score = start_score;
        assert!(try_move(&mut rects, &mut score, mv, u128::MAX, &tc, 0));
        assert!(!same_rects(&rects, &good));
        assert_eq!(score, score_by_rects(&rects, &tc, 0));
        assert!(score >= start_score);
    }
}

#[test]
fn improving_move_is_kept_without_slack() {
    let tc = case_of(quadrants(4));
    let mut rects = vec![
        rect(0, 0, 4, 4, gray(10)),
        rect(2, 0, 4, 4, gray(80)),
        rect(0, 2, 4, 4, gray(160)),
        rect(3, 2, 4, 4, gray(240)),
    ];
    let mut score = score_by_rects(&rects, &tc, 0);
    let before = score;
    assert!(try_move(&mut rects, &mut score, Move::Shift(3, -1, 0), 0, &tc, 0));
    assert_eq!(rects[3].from, Point::new(2, 2));
    assert!(score < before);
    assert_eq!(score, score_by_rects(&rects, &tc, 0));
}

#[test]
fn picked_moves_fit_the_stack() {
    let tc = case_of(quadrants(6));
    let rects = vec![
        rect(0, 0, 6, 6, gray(10)),
        rect(3, 0, 6, 6, gray(80)),
        rect(0, 3, 6, 6, gray(160)),
    ];
    let mut rnd = Random::new(11);
    let mut seen = [false; 4];
    for _ in 0..400 {
        match pick_move(&rects, &mut rnd, &tc) {
            Some(Move::Remove(i)) => {
                assert!(i < 3);
                seen[0] = true;
            }
            Some(Move::Shift(i, dx, dy)) => {
                assert!(i < 3);
                assert_eq!(dx.abs() + dy.abs(), 1);
                let x = rects[i].from.x + dx;
                let y = rects[i].from.y + dy;
                assert!((0..6).contains(&x) && (0..6).contains(&y));
                seen[1] = true;
            }
            Some(Move::Insert(i, r)) => {
                assert!((1..=3).contains(&i));
                assert_eq!(r.to, Point::new(6, 6));
                assert!((0..6).contains(&r.from.x) && (0..6).contains(&r.from.y));
                seen[2] = true;
            }
            Some(Move::SwapOrder(pos)) => {
                assert!(pos + 1 < 3);
                seen[3] = true;
            }
            None => {}
        }
    }
    assert_eq!(seen, [true; 4]);
    assert!(pick_move(&vec![], &mut rnd, &tc).is_none());
}

#[test]
fn search_gives_a_consistent_solution_that_is_not_worse() {
    let tc = case_of(quadrants(6));
    let start = vec![
        rect(0, 0, 6, 6, gray(10)),
        rect(2, 0, 6, 6, gray(80)),
        rect(0, 4, 6, 6, gray(160)),
        rect(3, 3, 6, 6, gray(240)),
    ];
    let start_score = score_by_rects(&start, &tc, 0);
    let mut rnd = Random::new(5);
    let slacks = vec![0u128; 600];
    let res = optimize_positions(&start, &mut rnd, &tc, &slacks).unwrap();
    let done = apply_ops(&res.ops, &tc);
    assert_eq!(done.picture, res.a);
    assert_eq!(
        res.expected_score,
        done.only_ops_cost * SCORE_SCALE + get_pixel_distance(&res.a, &tc.expected)
    );
    assert!(res.expected_score <= start_score);
    assert_eq!(res.last_block_id, done.last_block_id);
    // without a single move the stack is only shrunk and recoloured
    let mut rnd = Random::new(5);
    let res = optimize_positions(&start, &mut rnd, &tc, &[]).unwrap();
    assert!(res.expected_score <= start_score);
}

#[test]
fn solver_partition_is_consistent_with_its_program() {
    for (block, third) in [(2usize, false), (3, true), (1, false), (8, true)] {
        let tc = case_of(quadrants(6));
        let res = solve_one(&tc, block, third).unwrap();
        let done = apply_ops(&res.ops, &tc);
        assert_eq!(done.picture, res.a);
        assert_eq!(
            res.expected_score,
            done.only_ops_cost * SCORE_SCALE + get_pixel_distance(&res.a, &tc.expected)
        );
        assert_eq!(res.last_block_id, done.last_block_id);
        assert!(done.only_colored_top_right);
        // painting the rectangles of the program box by box gives the same picture
        let mut rects = gen_rects_by_ops(&res.ops, 6, 6);
        shrink_rects(&mut rects, 6, 6);
        assert_eq!(paint_boxes(&rects, 6, 6), res.a);
        // never worse than one colour for the whole canvas
        let flat = vec![rect(0, 0, 6, 6, gray(123))];
        assert!(res.expected_score <= score_by_rects(&flat, &tc, 0));
    }
}

#[test]
fn solver_finds_the_four_quadrants() {
    let tc = case_of(quadrants(40));
    let res = solve_one(&tc, 10, true).unwrap();
    assert_eq!(res.a, tc.expected);
    // corner costs 5, 7 + 10 + 2, 7 + 10 + 2 and 10 + 20 + 10
    assert_eq!(res.expected_score, (5 + 19 + 19 + 40) * SCORE_SCALE);
}

#[test]
fn solver_is_deterministic() {
    let mut a = quadrants(12);
    a[3][7] = Color([1, 2, 3, 4]);
    a[9][2] = Color([200, 2, 3, 4]);
    let tc = case_of(a);
    let one = solve_one(&tc, 4, true).unwrap();
    let two = solve_one(&tc, 4, true).unwrap();
    assert_eq!(one.expected_score, two.expected_score);
    assert_eq!(one.a, two.a);
    assert_eq!(one.ops.len(), two.ops.len());
}

#[test]
fn one_seed_region_needs_no_merge() {
    let tc = case_of(quadrants(4));
    let r = merge(&tc).unwrap();
    assert!(r.ops.is_empty());
    assert_eq!(r.last_block_id, 0);
    assert_eq!(r.expected_score, 0);
    let mut odd = case_of(quadrants(4));
    odd.regions[0].name = b"1".to_vec();
    assert_eq!(merge(&odd).err(), Some(OpError::NotOneRegion));
}

fn blocks_case(n: usize, block: usize) -> TestCase {
    let mut regions = vec![];
    let mut id = 0;
    let k = n / block;
    for by in 0..k {
        for bx in 0..k {
            regions.push(Region {
                name: format!("{}", id).into_bytes(),
                rect: Rect::new(
                    Point::new((bx * block) as i32, (by * block) as i32),
                    Point::new(((bx + 1) * block) as i32, ((by + 1) * block) as i32),
                ),
                color: Color::start(),
            });
            id += 1;
        }
    }
    TestCase {
        expected: quadrants(n),
        start_field: vec![vec![Color::start(); n]; n],
        regions,
        test_id: 30,
    }
}

#[test]
fn seed_blocks_are_merged_into_one_region() {
    for (n, block) in [(4usize, 2usize), (6, 2), (8, 2), (9, 3)] {
        let tc = blocks_case(n, block);
        let r = merge(&tc).unwrap();
        let done = apply_ops(&r.ops, &tc);
        assert_eq!(done.only_ops_cost, r.expected_score);
        assert_eq!(done.last_block_id, format!("{}", r.last_block_id).into_bytes());
        assert_eq!(done.picture, tc.start_field);
        // one colour operation on the merged canvas works
        let mut ops = r.ops;
        ops.push(Op::Color(done.last_block_id.clone(), gray(5)));
        let all = apply_ops(&ops, &tc);
        assert_eq!(all.picture, vec![vec![gray(5); n]; n]);
        assert_eq!(all.only_ops_cost, r.expected_score + 5);
    }
}

#[test]
fn solver_merges_seed_blocks_first() {
    let tc = blocks_case(8, 2);
    let res = solve_one(&tc, 2, false).unwrap();
    let done = apply_ops(&res.ops, &tc);
    assert_eq!(done.picture, res.a);
    assert_eq!(
        res.expected_score,
        done.only_ops_cost * SCORE_SCALE + get_pixel_distance(&res.a, &tc.expected)
    );
    assert!(res.ops.len() > merge(&tc).unwrap().ops.len());
}

#[test]
fn seeds_that_are_no_grid_of_blocks_are_refused() {
    let mut tc = blocks_case(4, 2);
    tc.regions.pop();
    assert_eq!(merge(&tc).err(), Some(OpError::BadSeeds));
}

#[test]
fn lines_between_are_fixed_by_the_generator() {
    let coarse = vec![0usize, 50, 100, 103, 104];
    let mut one = Random::new(9);
    let mut two = Random::new(9);
    let a = add_more_coords(&coarse, &mut one);
    let b = add_more_coords(&coarse, &mut two);
    assert_eq!(a, b);
    assert_eq!(one.state, two.state);
    // two draws for each of the two wide intervals
    let mut plain = Random::new(9);
    for _ in 0..4 {
        plain.gen_u64();
    }
    assert_eq!(one.state, plain.state);
    assert_eq!(a.len(), 5 + 2 + 2 + 2);
    assert_eq!(&a[6..], &[100, 101, 102, 103, 104]);
}
