use borys::color::Color;
use borys::gifs::{gen_picture_by_frame, Frame, WIDTH};
use borys::op::Op;
use borys::readings::{
    parse_case, parse_mid_int, parse_submit, read_id, remove_prefix, remove_suffix, split_tokens,
    ParseError,
};
use borys::savings::{image_buffer, render_op, render_ops, replaces_saved};
use borys::test_case::Rect;
use borys::utils::Point;

fn same_ops(a: &[Op], b: &[Op]) -> bool {
    a.len() == b.len() && a.iter().zip(b.iter()).all(|(x, y)| format!("{:?}", x) == format!("{:?}", y))
}

fn sample_program() -> Vec<Op> {
    vec![
        Op::CutPoint(b"0".to_vec(), Point::new(12, 345)),
        Op::Color(b"0.2".to_vec(), Color([255, 0, 17, 9])),
        Op::CutY(b"0.1".to_vec(), 7),
        Op::CutX(b"0.1.0".to_vec(), 0),
        Op::Merge(b"0.0".to_vec(), b"0.3".to_vec()),
        Op::Swap(b"1".to_vec(), b"0.2".to_vec()),
        Op::Merge(b"".to_vec(), b"[x]".to_vec()),
    ]
}

#[test]
fn operations_are_written_one_per_line() {
    let text = render_ops(&sample_program());
    let want = "cut [0] [12, 345]\n\
                color [0.2] [255, 0, 17, 9]\n\
                cut [0.1] [Y] [7]\n\
                cut [0.1.0] [X] [0]\n\
                merge [0.0] [0.3]\n\
                swap [1] [0.2]\n\
                merge [] [[x]]\n";
    assert_eq!(String::from_utf8(text).unwrap(), want);
    assert_eq!(
        render_op(&Op::CutY(b"5".to_vec(), -3)),
        b"cut [5] [Y] [-3]\n".to_vec()
    );
    assert_eq!(
        render_op(&Op::CutPoint(b"5".to_vec(), Point::new(i32::MIN, i32::MAX))),
        b"cut [5] [-2147483648, 2147483647]\n".to_vec()
    );
    assert!(render_ops(&[]).is_empty());
}

#[test]
fn written_program_reads_back() {
    let ops = sample_program();
    let back = parse_submit(&render_ops(&ops)).unwrap();
    assert!(same_ops(&back, &ops));
    assert!(parse_submit(b"").unwrap().is_empty());
    assert!(parse_submit(b" \n\t \r\n").unwrap().is_empty());
}

#[test]
fn program_text_may_be_spaced_freely() {
    let text = b"  cut [0]\n[3,\t4]  color [0.1] [1,\n2, 3,\r\n 4]\nmerge [a] [b]";
    let back = parse_submit(text).unwrap();
    let want = vec![
        Op::CutPoint(b"0".to_vec(), Point::new(3, 4)),
        Op::Color(b"0.1".to_vec(), Color([1, 2, 3, 4])),
        Op::Merge(b"a".to_vec(), b"b".to_vec()),
    ];
    assert!(same_ops(&back, &want));
    // a colour channel is cut down to a byte
    let back = parse_submit(b"color [0] [256, 257, 511, 0]").unwrap();
    assert!(same_ops(&back, &[Op::Color(b"0".to_vec(), Color([0, 1, 255, 0]))]));
}

#[test]
fn a_minus_sign_is_not_read() {
    let back = parse_submit(&render_op(&Op::CutY(b"5".to_vec(), -3))).unwrap();
    assert!(same_ops(&back, &[Op::CutY(b"5".to_vec(), 3)]));
}

#[test]
fn malformed_program_text_is_refused() {
    assert_eq!(parse_submit(b"paint [0]").err(), Some(ParseError::UnknownCommand));
    assert_eq!(parse_submit(b"cut [0] [1,").err(), Some(ParseError::UnexpectedEnd));
    assert_eq!(parse_submit(b"merge [0]").err(), Some(ParseError::UnexpectedEnd));
    assert_eq!(parse_submit(b"color [0] [1, 2, 3,").err(), Some(ParseError::UnexpectedEnd));
    assert_eq!(parse_submit(b"cut 0 [1, 2]").err(), Some(ParseError::BadId));
    assert_eq!(parse_submit(b"merge [0] 1]").err(), Some(ParseError::BadId));
    assert_eq!(parse_submit(b"swap [0 [1]").err(), Some(ParseError::BadId));
    assert_eq!(parse_submit(b"cut [0] [a, 2]").err(), Some(ParseError::BadNumber));
    assert_eq!(parse_submit(b"cut [0] [1, 2x3]").err(), Some(ParseError::BadNumber));
    assert_eq!(parse_submit(b"cut [0] [Y] [2147483648]").err(), Some(ParseError::BadNumber));
    assert_eq!(parse_submit(b"color [0] [1, 2, 3, z]").err(), Some(ParseError::BadNumber));
    assert!(same_ops(
        &parse_submit(b"cut [0] [X] [2147483647]").unwrap(),
        &[Op::CutX(b"0".to_vec(), i32::MAX)]
    ));
}

#[test]
fn words_and_numbers_of_a_text() {
    assert_eq!(
        split_tokens(b" ab  c\n\nd\t"),
        vec![b"ab".to_vec(), b"c".to_vec(), b"d".to_vec()]
    );
    assert!(split_tokens(b"").is_empty());
    assert_eq!(parse_mid_int(&b"[12,".to_vec()), Ok(12));
    assert_eq!(parse_mid_int(&b"007]".to_vec()), Ok(7));
    assert_eq!(parse_mid_int(&b"[]".to_vec()), Err(ParseError::BadNumber));
    assert_eq!(parse_mid_int(&b"".to_vec()), Err(ParseError::BadNumber));
    assert_eq!(read_id(&b"[0.1]".to_vec()), Ok(b"0.1".to_vec()));
    assert_eq!(read_id(&b"[]".to_vec()), Ok(b"".to_vec()));
    assert_eq!(read_id(&b"[".to_vec()), Err(ParseError::BadId));
    assert_eq!(remove_prefix(b"[ab".to_vec(), '['), b"ab".to_vec());
    assert_eq!(remove_suffix(b"ab]".to_vec(), ']'), b"ab".to_vec());
}

#[test]
fn instance_text_without_regions() {
    // two rows, three columns
    let text = b"2 3\n\
                 1 2 3 4  5 6 7 8  9 10 11 12\n\
                 13 14 15 16  17 18 19 20  21 22 23 300\n";
    let tc = parse_case(text, 9).unwrap();
    assert_eq!(tc.test_id, 9);
    assert_eq!(tc.get_size(), (3, 2));
    assert_eq!(tc.expected[0][0], Color([1, 2, 3, 4]));
    assert_eq!(tc.expected[1][0], Color([5, 6, 7, 8]));
    assert_eq!(tc.expected[2][0], Color([9, 10, 11, 12]));
    assert_eq!(tc.expected[0][1], Color([13, 14, 15, 16]));
    assert_eq!(tc.expected[2][1], Color([21, 22, 23, 44]));
    assert_eq!(tc.start_field, vec![vec![Color::start(); 2]; 3]);
    assert_eq!(tc.regions.len(), 1);
    assert_eq!(tc.regions[0].name, b"0".to_vec());
    assert_eq!(
        tc.regions[0].rect,
        Rect::new(Point::new(0, 0), Point::new(3, 2))
    );
}

#[test]
fn instance_text_with_regions() {
    let text = b"1 2  0 0 0 0  9 9 9 9  2  0 0 0 1 1 10 20 30 40  1 1 0 2 1 50 60 70 80";
    let tc = parse_case(text, 30).unwrap();
    assert_eq!(tc.get_size(), (2, 1));
    assert_eq!(tc.regions.len(), 2);
    assert_eq!(tc.regions[1].name, b"1".to_vec());
    assert_eq!(
        tc.regions[1].rect,
        Rect::new(Point::new(1, 0), Point::new(2, 1))
    );
    assert_eq!(tc.regions[1].color, Color([50, 60, 70, 80]));
    assert_eq!(
        tc.start_field,
        vec![vec![Color([10, 20, 30, 40])], vec![Color([50, 60, 70, 80])]]
    );
}

#[test]
fn malformed_instance_text_is_refused() {
    assert_eq!(parse_case(b"", 1).err(), Some(ParseError::UnexpectedEnd));
    assert_eq!(parse_case(b"1", 1).err(), Some(ParseError::UnexpectedEnd));
    assert_eq!(parse_case(b"1 1 0 0 0", 1).err(), Some(ParseError::UnexpectedEnd));
    assert_eq!(parse_case(b"1 x 0 0 0 0", 1).err(), Some(ParseError::BadNumber));
    assert_eq!(parse_case(b"0 1", 1).err(), Some(ParseError::BadCase));
    assert_eq!(parse_case(b"1 70000", 1).err(), Some(ParseError::BadCase));
    assert_eq!(
        parse_case(b"1 1 0 0 0 0 1 0 0 0 2 1 1 1 1 1", 1).err(),
        Some(ParseError::BadCase)
    );
    assert_eq!(
        parse_case(b"1 1 0 0 0 0 1 0 0 0 1 1 1 1 1", 1).err(),
        Some(ParseError::UnexpectedEnd)
    );
    assert_eq!(parse_case(b"1 1 0 0 0 0 0", 1).err(), Some(ParseError::BadCase));
}

#[test]
fn only_a_strictly_better_score_replaces_the_saved_one() {
    assert!(replaces_saved(None, 5));
    assert!(!replaces_saved(Some(5), 5));
    assert!(replaces_saved(Some(6), 5));
    assert!(!replaces_saved(Some(4), 5));
}

#[test]
fn image_bytes_go_row_by_row_from_the_top() {
    let a = vec![
        vec![Color([1, 2, 3, 4]), Color([5, 6, 7, 8])],
        vec![Color([9, 10, 11, 12]), Color([13, 14, 15, 16])],
    ];
    assert_eq!(
        image_buffer(&a),
        vec![5, 6, 7, 8, 13, 14, 15, 16, 1, 2, 3, 4, 9, 10, 11, 12]
    );
}

#[test]
fn frame_shows_the_outlines() {
    let frame = Frame {
        rects: vec![
            Rect::new(Point::new(0, 0), Point::new(2, 3)),
            Rect::new(Point::new(10, 10), Point::new(10, 10)),
            Rect::new(Point::new(400, 0), Point::new(400, 400)),
        ],
    };
    let pic = gen_picture_by_frame(&frame);
    assert_eq!(pic.len(), WIDTH * WIDTH);
    let at = |x: usize, y: usize| pic[x * WIDTH + y];
    for x in 0..=2 {
        for y in 0..=3 {
            let edge = x == 0 || x == 2 || y == 0 || y == 3;
            assert_eq!(at(x, y), edge as u8);
        }
    }
    assert_eq!(at(3, 0), 0);
    assert_eq!(at(10, 10), 1);
    assert_eq!(at(10, 11), 0);
    assert_eq!(at(400, 123), 1);
    assert_eq!(at(399, 123), 0);
    let ones: usize = pic.iter().map(|&b| b as usize).sum();
    assert_eq!(ones, 10 + 1 + 401);
    assert!(gen_picture_by_frame(&Frame { rects: vec![] }).iter().all(|&b| b == 0));
}
