use borys::color::Color;
use borys::interpreter::{apply_ops, try_apply_ops, Canvas, OpError};
use borys::op::Op;
use borys::pixel_dist::get_pixel_distance;
use borys::test_case::{Rect, Region, TestCase};
use borys::utils::Point;

fn white() -> Color {
    Color([255, 255, 255, 255])
}

fn red() -> Color {
    Color([255, 0, 0, 255])
}

fn plain_case(n: usize, m: usize, expected: Color) -> TestCase {
    TestCase {
        expected: vec![vec![expected; m]; n],
        start_field: vec![vec![white(); m]; n],
        regions: vec![Region {
            name: b"0".to_vec(),
            rect: Rect::new(Point::new(0, 0), Point::new(n as i32, m as i32)),
            color: white(),
        }],
        test_id: 1,
    }
}

#[test]
fn color_whole_canvas_red() {
    let tc = plain_case(2, 2, red());
    let ops = vec![Op::Color(b"0".to_vec(), red())];
    let res = apply_ops(&ops, &tc);
    assert_eq!(get_pixel_distance(&res.picture, &tc.expected), 0);
    assert_eq!(res.only_ops_cost, 5);
    assert!(res.only_colored_top_right);
    assert_eq!(res.last_block_id, b"0".to_vec());
    for x in 0..2 {
        for y in 0..2 {
            assert_eq!(res.picture[x][y], red());
        }
    }
}

#[test]
fn point_cut_makes_four_unit_regions() {
    let tc = plain_case(2, 2, red());
    let mut canvas = Canvas::new(&tc);
    canvas
        .apply(&Op::CutPoint(b"0".to_vec(), Point::new(1, 1)))
        .unwrap();
    assert_eq!(
        canvas.rects.get(&b"0.0".to_vec()),
        Some(Rect::new(Point::new(0, 0), Point::new(1, 1)))
    );
    assert_eq!(
        canvas.rects.get(&b"0.1".to_vec()),
        Some(Rect::new(Point::new(1, 0), Point::new(2, 1)))
    );
    assert_eq!(
        canvas.rects.get(&b"0.2".to_vec()),
        Some(Rect::new(Point::new(1, 1), Point::new(2, 2)))
    );
    assert_eq!(
        canvas.rects.get(&b"0.3".to_vec()),
        Some(Rect::new(Point::new(0, 1), Point::new(1, 2)))
    );
    assert_eq!(canvas.rects.get(&b"0".to_vec()), None);
    assert_eq!(canvas.rects.get(&b"0.4".to_vec()), None);
}

#[test]
fn cut_color_and_merge_back_changes_one_cell() {
    let tc = plain_case(2, 2, red());
    let ops = vec![
        Op::CutPoint(b"0".to_vec(), Point::new(1, 1)),
        Op::Color(b"0.2".to_vec(), red()),
        Op::Merge(b"0.0".to_vec(), b"0.1".to_vec()),
        Op::Merge(b"0.3".to_vec(), b"0.2".to_vec()),
        Op::Merge(b"1".to_vec(), b"2".to_vec()),
    ];
    let res = apply_ops(&ops, &tc);
    let mut changed = 0;
    for x in 0..2 {
        for y in 0..2 {
            if res.picture[x][y] != tc.start_field[x][y] {
                changed += 1;
                assert_eq!((x, y), (1, 1));
                assert_eq!(res.picture[x][y], red());
            }
        }
    }
    assert_eq!(changed, 1);
    // point cut 10, colour round(5 * 4 / 1) = 20, merges round(4 / 1) twice and round(4 / 2)
    assert_eq!(res.only_ops_cost, 10 + 20 + 4 + 4 + 2);
    assert_eq!(res.last_block_id, b"3".to_vec());
}

#[test]
fn merge_of_regions_that_do_not_touch_fails() {
    let regions = (0..3)
        .map(|i| Region {
            name: format!("{}", i).into_bytes(),
            rect: Rect::new(Point::new(i, 0), Point::new(i + 1, 2)),
            color: white(),
        })
        .collect();
    let tc = TestCase {
        expected: vec![vec![white(); 2]; 3],
        start_field: vec![vec![white(); 2]; 3],
        regions,
        test_id: 1,
    };
    let far = vec![Op::Merge(b"0".to_vec(), b"2".to_vec())];
    assert_eq!(try_apply_ops(&far, &tc).err(), Some(OpError::AreaMismatch));
    let near = vec![Op::Merge(b"0".to_vec(), b"1".to_vec())];
    let res = apply_ops(&near, &tc);
    // round(1 * 6 / 2)
    assert_eq!(res.only_ops_cost, 3);
    assert_eq!(res.last_block_id, b"3".to_vec());
}

#[test]
fn line_cuts_split_a_region_in_two() {
    let tc = plain_case(4, 2, red());
    let mut canvas = Canvas::new(&tc);
    canvas.apply(&Op::CutX(b"0".to_vec(), 1)).unwrap();
    assert_eq!(canvas.cost, 7);
    assert_eq!(
        canvas.rects.get(&b"0.0".to_vec()),
        Some(Rect::new(Point::new(0, 0), Point::new(1, 2)))
    );
    assert_eq!(
        canvas.rects.get(&b"0.1".to_vec()),
        Some(Rect::new(Point::new(1, 0), Point::new(4, 2)))
    );
    canvas.apply(&Op::CutY(b"0.1".to_vec(), 1)).unwrap();
    // round(7 * 8 / 6) = 9
    assert_eq!(canvas.cost, 7 + 9);
    assert_eq!(
        canvas.rects.get(&b"0.1.1".to_vec()),
        Some(Rect::new(Point::new(1, 1), Point::new(4, 2)))
    );
    assert_eq!(canvas.rects.get(&b"0.1".to_vec()), None);
    let mut all = canvas.rects.rects();
    all.sort_by_key(|r| (r.from.x, r.from.y));
    assert_eq!(
        all,
        vec![
            Rect::new(Point::new(0, 0), Point::new(1, 2)),
            Rect::new(Point::new(1, 0), Point::new(4, 1)),
            Rect::new(Point::new(1, 1), Point::new(4, 2)),
        ]
    );
}

#[test]
fn cheap_cuts_of_late_instances() {
    let mut tc = plain_case(4, 4, red());
    tc.test_id = 37;
    let ops = vec![
        Op::CutX(b"0".to_vec(), 2),
        Op::CutPoint(b"0.0".to_vec(), Point::new(1, 1)),
    ];
    // 2 * 16 / 16 and 3 * 16 / 8
    assert_eq!(apply_ops(&ops, &tc).only_ops_cost, 2 + 6);
}

#[test]
fn a_failing_operation_leaves_the_canvas_as_it_was() {
    let tc = plain_case(4, 4, red());
    let mut canvas = Canvas::new(&tc);
    canvas.apply(&Op::CutX(b"0".to_vec(), 2)).unwrap();
    let bad = vec![
        (Op::Color(b"0".to_vec(), red()), OpError::UnknownId),
        (Op::CutX(b"0.0".to_vec(), 2), OpError::BadCut),
        (Op::CutX(b"0.0".to_vec(), 0), OpError::BadCut),
        (Op::CutY(b"0.1".to_vec(), 4), OpError::BadCut),
        (Op::CutPoint(b"0.1".to_vec(), Point::new(2, 2)), OpError::BadCut),
        (Op::CutPoint(b"0.1".to_vec(), Point::new(3, 0)), OpError::BadCut),
        (Op::Merge(b"0.0".to_vec(), b"0.0".to_vec()), OpError::AreaMismatch),
        (Op::Merge(b"0.0".to_vec(), b"0.2".to_vec()), OpError::UnknownId),
        (Op::Swap(b"0.0".to_vec(), b"7".to_vec()), OpError::UnknownId),
    ];
    for (op, want) in bad {
        assert_eq!(canvas.apply(&op), Err(want));
        assert_eq!(canvas.cost, 7);
        assert_eq!(canvas.last_rect_id, 0);
        assert_eq!(canvas.rects.rects().len(), 2);
        assert_eq!(canvas.picture, tc.start_field);
    }
}

#[test]
fn swap_exchanges_the_pixels_of_two_regions() {
    let mut tc = plain_case(4, 2, red());
    for x in 0..4 {
        for y in 0..2 {
            tc.start_field[x][y] = Color([x as u8, y as u8, 0, 255]);
        }
    }
    let ops = vec![
        Op::CutX(b"0".to_vec(), 1),
        Op::CutX(b"0.1".to_vec(), 3),
        Op::Swap(b"0.0".to_vec(), b"0.1.1".to_vec()),
    ];
    let done = apply_ops(&ops, &tc);
    assert_eq!(done.picture[0], tc.start_field[3]);
    assert_eq!(done.picture[3], tc.start_field[0]);
    assert_eq!(done.picture[1], tc.start_field[1]);
    assert_eq!(done.picture[2], tc.start_field[2]);
    // cuts 7 and round(7 * 8 / 6), swap round(3 * 8 / 2)
    assert_eq!(done.only_ops_cost, 7 + 9 + 12);
    // a region swapped with itself stays as it is
    let own = vec![Op::Swap(b"0".to_vec(), b"0".to_vec())];
    let done = apply_ops(&own, &tc);
    assert_eq!(done.picture, tc.start_field);
    assert_eq!(done.only_ops_cost, 3);
    let uneven = vec![
        Op::CutX(b"0".to_vec(), 1),
        Op::Swap(b"0.0".to_vec(), b"0.1".to_vec()),
    ];
    assert_eq!(try_apply_ops(&uneven, &tc).err(), Some(OpError::BadSwap));
}

#[test]
fn replay_stops_at_the_first_failure() {
    let tc = plain_case(4, 4, red());
    let ops = vec![
        Op::CutX(b"0".to_vec(), 2),
        Op::CutX(b"0".to_vec(), 3),
        Op::CutX(b"0.0".to_vec(), 9),
    ];
    assert_eq!(try_apply_ops(&ops, &tc).err(), Some(OpError::UnknownId));
    assert!(apply_ops(&[], &tc).picture == tc.start_field);
}

#[test]
fn a_program_that_names_a_region_cut_away_is_not_replayed() {
    let tc = plain_case(2, 2, red());
    let ops = vec![
        Op::CutPoint(b"0".to_vec(), Point::new(1, 1)),
        Op::Color(b"0".to_vec(), red()),
    ];
    assert_eq!(try_apply_ops(&ops, &tc).err(), Some(OpError::UnknownId));
    // up to the cut the program is replayed
    assert_eq!(apply_ops(&ops[..1], &tc).only_ops_cost, 10);
}

#[test]
fn a_merge_of_regions_that_do_not_touch_is_not_replayed() {
    let tc = plain_case(3, 2, red());
    let ops = vec![
        Op::CutX(b"0".to_vec(), 1),
        Op::CutX(b"0.1".to_vec(), 2),
        Op::Merge(b"0.0".to_vec(), b"0.1.1".to_vec()),
    ];
    assert_eq!(try_apply_ops(&ops, &tc).err(), Some(OpError::AreaMismatch));
    // up to the merge the program is replayed: a cut of the canvas and a
    // cut of two thirds of it
    assert_eq!(apply_ops(&ops[..2], &tc).only_ops_cost, 7 + 11);
}
