use borys::color::Color;
use borys::color_corner::color_corner;
use borys::color_picker::{estimate_best_color, find_best_color, ColorPicker};
use borys::interpreter::apply_ops;
use borys::op::Op;
use borys::pixel_dist::{
    estimate_pixel_distance_range_one_color, get_pixel_distance, get_pixel_distance_range,
    get_pixel_distance_range_one_color, EstimateResult,
};
use borys::rand::Random;
use borys::test_case::{Rect, Region, TestCase};
use borys::utils::Point;

fn gray(v: u8) -> Color {
    Color([v, v, v, 255])
}

fn case_of(expected: Vec<Vec<Color>>, test_id: usize) -> TestCase {
    let n = expected.len();
    let m = expected[0].len();
    TestCase {
        expected,
        start_field: vec![vec![Color::start(); m]; n],
        regions: vec![Region {
            name: b"0".to_vec(),
            rect: Rect::new(Point::new(0, 0), Point::new(n as i32, m as i32)),
            color: Color::start(),
        }],
        test_id,
    }
}

fn list_dist(colors: &[Color], c: Color) -> u128 {
    colors.iter().map(|x| x.dist(&c) as u128).sum()
}

#[test]
fn corner_at_the_origin_is_one_color_operation() {
    let tc = case_of(vec![vec![gray(0); 400]; 400], 1);
    let r = color_corner(400, 400, Point::new(0, 0), 7, gray(9), &tc);
    assert_eq!(r.cost, 5);
    assert_eq!(r.cur_whole_id, 7);
    assert_eq!(r.ops.len(), 1);
    assert!(matches!(&r.ops[0], Op::Color(id, c) if id == &b"7".to_vec() && *c == gray(9)));
}

#[test]
fn corner_on_an_edge_is_cut_color_merge() {
    let tc = case_of(vec![vec![gray(0); 400]; 400], 1);
    let r = color_corner(400, 400, Point::new(0, 300), 0, gray(9), &tc);
    // line cut 7, colour round(5 * 160000 / 40000) = 20, merge round(160000 / 120000) = 1
    assert_eq!(r.cost, 7 + 20 + 1);
    assert_eq!(r.cur_whole_id, 1);
    assert_eq!(r.ops.len(), 3);
    assert!(matches!(&r.ops[0], Op::CutY(id, 300) if id == &b"0".to_vec()));
    assert!(matches!(&r.ops[1], Op::Color(id, _) if id == &b"0.1".to_vec()));
    assert!(
        matches!(&r.ops[2], Op::Merge(a, b) if a == &b"0.0".to_vec() && b == &b"0.1".to_vec())
    );
    let r = color_corner(400, 400, Point::new(100, 0), 4, gray(9), &tc);
    // line cut 7, colour round(5 * 160000 / 120000) = 7, merge round(160000 / 120000) = 1
    assert_eq!(r.cost, 7 + 7 + 1);
    assert_eq!(r.cur_whole_id, 5);
    assert!(matches!(&r.ops[0], Op::CutX(id, 100) if id == &b"4".to_vec()));
}

#[test]
fn corner_off_the_edges_picks_the_cheaper_merge_order() {
    let tc = case_of(vec![vec![gray(0); 400]; 400], 1);
    let r = color_corner(400, 400, Point::new(200, 200), 0, gray(9), &tc);
    // point cut 10, colour 20, merges 4 + 4 + 2 either way: columns first on a tie
    assert_eq!(r.cost, 10 + 20 + 10);
    assert_eq!(r.cur_whole_id, 3);
    assert_eq!(r.ops.len(), 5);
    assert!(
        matches!(&r.ops[2], Op::Merge(a, b) if a == &b"0.2".to_vec() && b == &b"0.1".to_vec())
    );
    assert!(
        matches!(&r.ops[3], Op::Merge(a, b) if a == &b"0.3".to_vec() && b == &b"0.0".to_vec())
    );
    assert!(matches!(&r.ops[4], Op::Merge(a, b) if a == &b"1".to_vec() && b == &b"2".to_vec()));
    // quadrants 100x300, 300x300 below; 100x100... with p = (100, 300):
    // s0 = 30000, s1 = 90000, s2 = 30000, s3 = 10000
    // columns first: round(16/3) + round(16/9) + round(160000/120000) = 5 + 2 + 1 = 8
    // rows first: round(16/9) + round(16/3) + round(160000/120000) = 2 + 5 + 1 = 8
    let r = color_corner(400, 400, Point::new(100, 300), 0, gray(9), &tc);
    assert_eq!(r.cost, 10 + 27 + 8);
    // s0 = 100*100, s1 = 300*100, s2 = 300*300, s3 = 100*300 with p = (100, 100)
    // columns first: round(160000/30000) + round(160000/90000) + round(160000/120000) = 5 + 2 + 1
    // rows first: round(160000/30000) + round(160000/90000) + round(160000/120000) = 5 + 2 + 1
    let r = color_corner(400, 400, Point::new(100, 100), 0, gray(9), &tc);
    assert_eq!(r.cost, 10 + 9 + 8);
    // an instance with cheap cuts
    let cheap = case_of(vec![vec![gray(0); 400]; 400], 38);
    let r = color_corner(400, 400, Point::new(200, 200), 0, gray(9), &cheap);
    assert_eq!(r.cost, 3 + 20 + 10);
    // rows first is cheaper on a wide canvas: 6 x 2 with p = (3, 1)
    // s0 = 3, s1 = 3, s2 = 3, s3 = 3 -> tie; use p = (1, 1) on 4 x 2:
    // s0 = 1, s1 = 3, s2 = 3, s3 = 1; columns: 8/1 + round(8/3) + round(8/6) = 8 + 3 + 1 = 12
    // rows: round(8/3) + round(8/3) + round(8/4) = 3 + 3 + 2 = 8
    let wide = case_of(vec![vec![gray(0); 2]; 4], 1);
    let r = color_corner(4, 2, Point::new(1, 1), 0, gray(9), &wide);
    assert_eq!(r.cost, 10 + 13 + 8);
    assert!(
        matches!(&r.ops[2], Op::Merge(a, b) if a == &b"0.0".to_vec() && b == &b"0.1".to_vec())
    );
    assert!(
        matches!(&r.ops[3], Op::Merge(a, b) if a == &b"0.3".to_vec() && b == &b"0.2".to_vec())
    );
}

#[test]
fn corner_cost_is_what_the_replay_costs() {
    for (n, m) in [(4usize, 2usize), (5, 5), (3, 7)] {
        let tc = case_of(vec![vec![gray(0); m]; n], 1);
        for x in 0..n {
            for y in 0..m {
                let r = color_corner(n, m, Point::new(x as i32, y as i32), 0, gray(9), &tc);
                let done = apply_ops(&r.ops, &tc);
                assert_eq!(done.only_ops_cost, r.cost);
                assert_eq!(done.last_block_id, format!("{}", r.cur_whole_id).into_bytes());
                assert!(done.only_colored_top_right);
                for i in 0..n {
                    for j in 0..m {
                        let want = if i >= x && j >= y { gray(9) } else { Color::start() };
                        assert_eq!(done.picture[i][j], want);
                    }
                }
            }
        }
    }
}

#[test]
fn pixel_distance_sums_color_distances() {
    let a = vec![vec![gray(0), gray(10)], vec![gray(20), gray(30)]];
    let b = vec![vec![gray(0), gray(13)], vec![gray(24), gray(30)]];
    // sqrt(27) and sqrt(48) in millionths, rounded down
    assert_eq!(get_pixel_distance(&a, &b), 5_196_152 + 6_928_203);
    assert_eq!(get_pixel_distance(&a, &a), 0);
    assert_eq!(get_pixel_distance_range(&a, &b, 0..1, 0..2), 5_196_152);
    assert_eq!(get_pixel_distance_range(&a, &b, 1..2, 0..1), 6_928_203);
    assert_eq!(get_pixel_distance_range(&a, &b, 1..1, 0..2), 0);
    assert_eq!(
        get_pixel_distance_range_one_color(gray(10), &a, 0..2, 0..2),
        2 * 17_320_508 + 34_641_016
    );
}

#[test]
fn small_areas_are_counted_in_full() {
    let a = vec![vec![gray(7); 7]; 7];
    let mut rnd = Random::new(3);
    let before = rnd.state;
    match estimate_pixel_distance_range_one_color(gray(8), &a, 0..7, 0..7, &mut rnd) {
        EstimateResult::RealResult(v) => assert_eq!(v, 49 * 1_732_050),
        EstimateResult::Estimation(_) => panic!("an area of 49 pixels is small"),
    }
    assert_eq!(rnd.state, before);
}

#[test]
fn large_areas_are_estimated_from_a_sample() {
    let a = vec![vec![gray(7); 10]; 5];
    let mut rnd = Random::new(3);
    let before = rnd.state;
    match estimate_pixel_distance_range_one_color(gray(8), &a, 0..5, 0..10, &mut rnd) {
        EstimateResult::RealResult(_) => panic!("an area of 50 pixels is large"),
        // every pixel is equally far, so the estimate is exact here
        EstimateResult::Estimation(v) => assert_eq!(v, 20 * 1_732_050 * 50 / 20),
    }
    assert_ne!(rnd.state, before);
}

#[test]
fn picked_color_is_the_rounded_average() {
    let mut a = vec![vec![Color([0, 0, 0, 0]); 3]; 2];
    a[0][0] = Color([1, 10, 100, 255]);
    a[0][1] = Color([2, 20, 101, 255]);
    a[1][0] = Color([4, 30, 102, 255]);
    a[1][1] = Color([4, 41, 103, 255]);
    a[0][2] = Color([9, 9, 9, 9]);
    a[1][2] = Color([200, 200, 200, 200]);
    let picker = ColorPicker::new(&a);
    // 11 / 4 = 2.75, 101 / 4 = 25.25, 406 / 4 = 101.5 rounds up
    assert_eq!(
        picker.pick_color(Point::new(0, 0), Point::new(2, 2)),
        Color([3, 25, 102, 255])
    );
    assert_eq!(picker.pick_color(Point::new(1, 1), Point::new(2, 2)), a[1][1]);
    // (9 + 200) / 2 = 104.5 rounds up
    assert_eq!(
        picker.pick_color(Point::new(0, 2), Point::new(2, 3)),
        Color([105, 105, 105, 105])
    );
    assert_eq!(
        picker.pick_color(Point::new(0, 0), Point::new(1, 3)),
        Color([4, 13, 70, 173])
    );
}

#[test]
fn estimated_color_is_the_rounded_average() {
    let colors = vec![
        Color([1, 10, 100, 255]),
        Color([2, 20, 101, 255]),
        Color([4, 30, 102, 255]),
        Color([4, 41, 103, 255]),
    ];
    assert_eq!(estimate_best_color(&colors), Color([3, 25, 102, 255]));
    assert_eq!(estimate_best_color(&colors[..1]), colors[0]);
}

#[test]
fn best_color_never_gets_further_away() {
    let colors = vec![
        Color([10, 200, 30, 255]),
        Color([12, 190, 35, 255]),
        Color([90, 10, 250, 0]),
        Color([11, 195, 33, 255]),
        Color([0, 255, 0, 255]),
    ];
    let starts = [
        Color([0, 0, 0, 0]),
        Color([255, 255, 255, 255]),
        Color([11, 195, 33, 255]),
        estimate_best_color(&colors),
    ];
    for start in starts {
        let best = find_best_color(&colors, start);
        let d = list_dist(&colors, best);
        assert!(d <= list_dist(&colors, start));
        for it in 0..4 {
            for delta in [-1i32, 1] {
                let v = best.0[it] as i32 + delta;
                if (0..=255).contains(&v) {
                    let mut other = best;
                    other.0[it] = v as u8;
                    assert!(list_dist(&colors, other) >= d);
                }
            }
        }
    }
}

#[test]
fn best_color_of_one_pixel_is_the_pixel() {
    let colors = vec![Color([10, 200, 30, 255])];
    assert_eq!(find_best_color(&colors, Color([14, 197, 30, 250])), colors[0]);
    assert_eq!(find_best_color(&[], Color([1, 2, 3, 4])), Color([1, 2, 3, 4]));
}
