use borys::color::Color;
use borys::interpreter::OpError;
use borys::merger::merge;
use borys::op::Op;
use borys::restore::restore_rects_by_field;
use borys::test_case::{Rect, Region, TestCase};
use borys::utils::Point;

fn tone(v: u8) -> Color {
    Color([v, v, v, 255])
}

fn block(name: &str, x: i32, y: i32, side: i32) -> Region {
    Region {
        name: name.as_bytes().to_vec(),
        rect: Rect::new(Point::new(x, y), Point::new(x + side, y + side)),
        color: Color::start(),
    }
}

fn four_blocks() -> TestCase {
    TestCase {
        expected: vec![vec![tone(3); 4]; 4],
        start_field: vec![vec![Color::start(); 4]; 4],
        regions: vec![
            block("0", 0, 0, 2),
            block("1", 2, 0, 2),
            block("2", 0, 2, 2),
            block("3", 2, 2, 2),
        ],
        test_id: 30,
    }
}

fn one_region(expected: Vec<Vec<Color>>) -> TestCase {
    let n = expected.len();
    let m = expected[0].len();
    TestCase {
        expected,
        start_field: vec![vec![Color::start(); m]; n],
        regions: vec![Region {
            name: b"0".to_vec(),
            rect: Rect::new(Point::new(0, 0), Point::new(n as i32, m as i32)),
            color: Color::start(),
        }],
        test_id: 1,
    }
}

fn shown(ops: &[Op]) -> Vec<String> {
    ops.iter().map(|op| format!("{:?}", op)).collect()
}

#[test]
fn four_blocks_are_merged_column_by_column() {
    let r = merge(&four_blocks()).unwrap();
    let want = vec![
        Op::Merge(b"0".to_vec(), b"2".to_vec()),
        Op::Merge(b"1".to_vec(), b"3".to_vec()),
        Op::Merge(b"4".to_vec(), b"5".to_vec()),
        Op::CutY(b"6".to_vec(), 2),
        Op::Merge(b"6.0".to_vec(), b"6.1".to_vec()),
    ];
    assert_eq!(shown(&r.ops), shown(&want));
    // two merges of blocks, one of columns, a cut of the canvas, one merge
    // of rows
    assert_eq!(r.expected_score, 4 + 4 + 2 + 7 + 2);
    assert_eq!(r.last_block_id, 7);
}

#[test]
fn blocks_are_taken_in_the_order_of_their_corners() {
    let mut tc = four_blocks();
    tc.regions.reverse();
    let r = merge(&tc).unwrap();
    assert_eq!(
        shown(&r.ops[..2]),
        shown(&[
            Op::Merge(b"0".to_vec(), b"2".to_vec()),
            Op::Merge(b"1".to_vec(), b"3".to_vec()),
        ])
    );
    assert_eq!(r.expected_score, 19);
}

#[test]
fn blocks_that_do_not_make_a_grid_are_not_merged() {
    // one block a side
    let mut alone = four_blocks();
    alone.regions = vec![block("0", 0, 0, 4), block("1", 0, 0, 4)];
    assert_eq!(merge(&alone).err(), Some(OpError::BadSeeds));
    // three blocks are no square of blocks
    let mut three = four_blocks();
    three.regions.pop();
    assert_eq!(merge(&three).err(), Some(OpError::BadSeeds));
    // two blocks with one name
    let mut twice = four_blocks();
    twice.regions[3] = block("2", 2, 2, 2);
    assert_eq!(merge(&twice).err(), Some(OpError::BadSeeds));
}

#[test]
fn two_columns_are_restored_as_two_rectangles() {
    let need = vec![vec![tone(10); 2], vec![tone(20); 2]];
    let tc = one_region(need.clone());
    let stack = restore_rects_by_field(&need, &tc).unwrap();
    assert_eq!(stack.len(), 2);
    assert_eq!((stack[0].from, stack[0].color), (Point::new(0, 0), tone(10)));
    assert_eq!((stack[1].from, stack[1].color), (Point::new(1, 0), tone(20)));
    assert_eq!(stack[0].to, Point::new(2, 2));
    assert_eq!(stack[1].to, Point::new(2, 2));
}

#[test]
fn a_pixel_that_differs_gets_a_rectangle_of_its_own() {
    // only the pixel (1, 1) differs: what lies above and to the right of
    // it is painted over it again
    let mut need = vec![vec![tone(10); 3]; 3];
    need[1][1] = tone(90);
    let tc = one_region(need.clone());
    match restore_rects_by_field(&need, &tc) {
        Some(stack) => {
            assert_eq!((stack[0].from, stack[0].color), (Point::new(0, 0), tone(10)));
            assert!(stack.iter().any(|r| r.from == Point::new(1, 1) && r.color == tone(90)));
            assert_eq!(borys::local_optimizations::gen_field_by_rects(&stack, &tc), need);
        }
        None => {}
    }
}

#[test]
fn a_chain_merges_each_name_onto_what_was_merged_before() {
    let names: Vec<Vec<u8>> = vec![b"a".to_vec(), b"b".to_vec(), b"c".to_vec(), b"d".to_vec()];
    let mut ops = vec![Op::CutX(b"0".to_vec(), 1)];
    let last = borys::merge_program::chain_merges(&mut ops, b"x".to_vec(), &names, 1, 4, 9);
    let want = vec![
        Op::CutX(b"0".to_vec(), 1),
        Op::Merge(b"x".to_vec(), b"b".to_vec()),
        Op::Merge(b"10".to_vec(), b"c".to_vec()),
        Op::Merge(b"11".to_vec(), b"d".to_vec()),
    ];
    assert_eq!(shown(&ops), shown(&want));
    assert_eq!(last, b"12".to_vec());
    // a chain of nothing leaves the first name
    let same = borys::merge_program::chain_merges(&mut ops, b"x".to_vec(), &names, 2, 2, 9);
    assert_eq!(same, b"x".to_vec());
    assert_eq!(ops.len(), 4);
}

#[test]
fn rows_are_cut_from_what_lies_above() {
    let mut ops = Vec::new();
    let rows = borys::merge_program::cut_rows(&mut ops, b"7".to_vec(), 5, 3);
    let want = vec![Op::CutY(b"7".to_vec(), 5), Op::CutY(b"7.1".to_vec(), 10)];
    assert_eq!(shown(&ops), shown(&want));
    assert_eq!(rows, vec![b"7.0".to_vec(), b"7.1.0".to_vec(), b"7.1.1".to_vec()]);
    let mut none = Vec::new();
    assert_eq!(borys::merge_program::cut_rows(&mut none, b"7".to_vec(), 5, 1), vec![b"7".to_vec()]);
    assert!(none.is_empty());
}

#[test]
fn blocks_are_merged_onto_their_rows() {
    let names: Vec<Vec<u8>> = vec![b"a".to_vec(), b"b".to_vec(), b"c".to_vec(), b"d".to_vec()];
    let rows_of = vec![0usize, 1, 1, 0];
    let mut row_ids = vec![b"r0".to_vec(), b"r1".to_vec()];
    let mut ops = Vec::new();
    assert!(borys::merge_program::merge_onto_rows(&mut ops, &mut row_ids, &names, &rows_of, 1, 20));
    let want = vec![
        Op::Merge(b"r1".to_vec(), b"b".to_vec()),
        Op::Merge(b"21".to_vec(), b"c".to_vec()),
        Op::Merge(b"r0".to_vec(), b"d".to_vec()),
    ];
    assert_eq!(shown(&ops), shown(&want));
    assert_eq!(row_ids, vec![b"23".to_vec(), b"22".to_vec()]);
    // a block in a row that there is not
    let mut short = vec![b"r0".to_vec()];
    let mut more = Vec::new();
    assert!(!borys::merge_program::merge_onto_rows(&mut more, &mut short, &names, &rows_of, 0, 20));
}
