use borys::arith::{isqrt, rounded_quotient};
use borys::color::Color;
use borys::coords::{add_more_coords, gen_coords, get_mapping};
use borys::rand::Random;
use borys::rect_id::{
    read_number, rect_id_from_usize, rect_id_from_vec, rect_id_get_start, rect_id_parts,
    rect_id_sub_key, rect_id_to_usize, rect_id_to_vec,
};
use borys::test_case::{Rect, TestCase};
use borys::utils::{is_point_inside, p, Point};

#[test]
fn rounded_quotient_rounds_halves_up() {
    assert_eq!(rounded_quotient(7, 2), 4);
    assert_eq!(rounded_quotient(5, 2), 3);
    assert_eq!(rounded_quotient(1, 3), 0);
    assert_eq!(rounded_quotient(2, 3), 1);
    assert_eq!(rounded_quotient(0, 9), 0);
    assert_eq!(rounded_quotient(5 * 160000, 40000), 20);
}

#[test]
fn isqrt_rounds_down() {
    assert_eq!(isqrt(0), 0);
    assert_eq!(isqrt(1), 1);
    assert_eq!(isqrt(3), 1);
    assert_eq!(isqrt(4), 2);
    assert_eq!(isqrt(99), 9);
    assert_eq!(isqrt(100), 10);
    assert_eq!(isqrt(u64::MAX), 4294967295);
}

#[test]
fn color_distance_is_fixed_point_euclidean() {
    let black = Color([0, 0, 0, 0]);
    assert_eq!(black.dist(&black), 0);
    assert_eq!(black.dist(&Color([3, 4, 0, 0])), 5_000_000);
    assert_eq!(Color([3, 4, 0, 0]).dist(&black), 5_000_000);
    assert_eq!(Color([255, 255, 255, 255]).dist(&black), 510_000_000);
    assert_eq!(Color([1, 0, 0, 0]).dist(&Color([0, 1, 0, 0])), 1_414_213);
    assert_eq!(
        Color([10, 20, 30, 40]).dist(&Color([11, 22, 33, 44])),
        5_477_225
    );
}

#[test]
fn start_color_is_opaque_white() {
    assert_eq!(Color::start(), Color([255, 255, 255, 255]));
    assert_ne!(Color::start(), Color([255, 255, 255, 254]));
}

#[test]
fn random_sequence_is_fixed_by_the_seed() {
    let mut rnd = Random::new(1);
    assert_eq!(rnd.gen_u64(), 908834774);
    assert_eq!(rnd.state, 7806831264735756412);
    assert_eq!(rnd.gen_u64(), 1093944153);
    assert_eq!(rnd.gen(10, 20), 10 + (1392341196 % 10) as usize);
    let mut again = Random::new(1);
    assert_eq!(again.gen(0, 1000), 774);
}

#[test]
fn random_colors_are_opaque() {
    let mut rnd = Random::new(42);
    for _ in 0..100 {
        let c = Color::new_rand(&mut rnd);
        assert_eq!(c.0[3], 255);
        assert!(c.0[0] < 255 && c.0[1] < 255 && c.0[2] < 255);
    }
}

#[test]
fn names_of_regions() {
    assert_eq!(rect_id_from_usize(0), b"0".to_vec());
    assert_eq!(rect_id_from_usize(9), b"9".to_vec());
    assert_eq!(rect_id_from_usize(10), b"10".to_vec());
    assert_eq!(rect_id_from_usize(12345), b"12345".to_vec());
    assert_eq!(rect_id_get_start(), b"0".to_vec());
    assert_eq!(rect_id_sub_key(&b"0".to_vec(), 3), b"0.3".to_vec());
    assert_eq!(rect_id_sub_key(&b"12.1".to_vec(), 0), b"12.1.0".to_vec());
    assert_eq!(rect_id_sub_key(&b"1".to_vec(), 10), b"1.:".to_vec());
    assert_eq!(rect_id_sub_key(&b"1".to_vec(), 256 + 9), b"1.9".to_vec());
    assert_eq!(rect_id_from_vec(&[1, 20, 3]), b"1.20.3".to_vec());
    assert_eq!(rect_id_from_vec(&[7]), b"7".to_vec());
    assert_eq!(rect_id_from_vec(&[]), b"".to_vec());
}

#[test]
fn names_of_regions_read_back() {
    assert_eq!(rect_id_to_usize(&b"12345".to_vec()), 12345);
    assert_eq!(rect_id_to_usize(&b"007".to_vec()), 7);
    assert_eq!(rect_id_to_usize(&rect_id_from_usize(987654321)), 987654321);
    assert_eq!(rect_id_to_vec(&b"1.20.3".to_vec()), vec![1, 20, 3]);
    assert_eq!(rect_id_parts(&b"0".to_vec()), Some(vec![0]));
    assert_eq!(rect_id_parts(&b"4.x".to_vec()), None);
    assert_eq!(rect_id_parts(&b"4..1".to_vec()), None);
    assert_eq!(rect_id_parts(&b"".to_vec()), None);
    assert_eq!(read_number(&b"18446744073709551615".to_vec()), Some(usize::MAX));
    assert_eq!(read_number(&b"18446744073709551616".to_vec()), None);
    assert_eq!(read_number(&b"-1".to_vec()), None);
}

#[test]
fn points_and_rectangles() {
    assert_eq!(p(3, 4), Point::new(3, 4));
    assert_eq!(Point::zero(), Point::new(0, 0));
    assert!(is_point_inside(Point::new(0, 0), 1, 1));
    assert!(!is_point_inside(Point::new(1, 0), 1, 1));
    assert!(!is_point_inside(Point::new(0, -1), 5, 5));
    assert!(is_point_inside(Point::new(4, 4), 5, 5));
    assert_eq!(Rect::new(Point::new(1, 2), Point::new(4, 6)).size(), 12);
    assert_eq!(Rect::new(Point::new(4, 2), Point::new(1, 6)).size(), -12);
}

#[test]
fn cut_costs_depend_on_the_instance() {
    let mut tc = TestCase {
        expected: vec![vec![Color::start(); 3]; 2],
        start_field: vec![vec![Color::start(); 3]; 2],
        regions: vec![],
        test_id: 35,
    };
    assert_eq!(tc.get_size(), (2, 3));
    assert_eq!(tc.get_line_cut_cost(), 7);
    assert_eq!(tc.get_point_cut_cost(), 10);
    tc.test_id = 36;
    assert_eq!(tc.get_line_cut_cost(), 2);
    assert_eq!(tc.get_point_cut_cost(), 3);
    tc.test_id = 40;
    assert_eq!(tc.get_line_cut_cost(), 2);
    tc.test_id = 41;
    assert_eq!(tc.get_line_cut_cost(), 7);
    assert_eq!(tc.get_point_cut_cost(), 10);
}

#[test]
fn coordinate_grids() {
    assert_eq!(gen_coords(5, 12), vec![0, 5, 10, 12]);
    assert_eq!(gen_coords(5, 10), vec![0, 5, 10]);
    assert_eq!(gen_coords(20, 7), vec![0, 7]);
    assert_eq!(gen_coords(1, 3), vec![0, 1, 2, 3]);
    assert_eq!(gen_coords(4, 0), vec![0, 0]);
    assert_eq!(add_more_coords(&[5], &mut Random::new(1)), vec![5]);
    let mut rnd = Random::new(7);
    assert_eq!(add_more_coords(&[0, 3, 4, 6], &mut rnd), vec![0, 1, 2, 3, 4, 5, 6]);
    let coarse = vec![0, 10, 20, 22];
    let fine = add_more_coords(&coarse, &mut rnd);
    assert_eq!(fine.len(), 4 + 2 + 2 + 1);
    for w in fine.windows(2) {
        assert!(w[0] < w[1]);
    }
    assert!(fine.contains(&21));
    let map = get_mapping(&coarse, &fine);
    for (i, &k) in map.iter().enumerate() {
        assert_eq!(fine[k], coarse[i]);
    }
    assert_eq!(get_mapping(&[2, 9], &[0, 2, 5, 9, 11]), vec![1, 3]);
}
