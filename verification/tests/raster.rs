use kafatopu::geometry::{Color, Point, Triangle};
use kafatopu::raster::{merge_by_y, scan_edge};
use kafatopu::rounding::round_div_exec;

fn pts(list: &[(i32, i32)]) -> Vec<Point> {
    list.iter().map(|&(x, y)| Point::new(x, y)).collect()
}

fn tri(p1: (i32, i32), p2: (i32, i32), p3: (i32, i32)) -> Triangle {
    Triangle {
        color: Color::rgb(255, 0, 0),
        p1: Point::new(p1.0, p1.1),
        p2: Point::new(p2.0, p2.1),
        p3: Point::new(p3.0, p3.1),
    }
}

#[test]
fn round_div_rounds_to_nearest() {
    assert_eq!(round_div_exec(7, 3), 2);
    assert_eq!(round_div_exec(8, 3), 3);
    assert_eq!(round_div_exec(-7, 3), -2);
    assert_eq!(round_div_exec(-8, 3), -3);
    assert_eq!(round_div_exec(0, 5), 0);
    assert_eq!(round_div_exec(12, 4), 3);
    assert_eq!(round_div_exec(-12, 4), -3);
}

#[test]
fn round_div_sends_halves_away_from_zero() {
    assert_eq!(round_div_exec(1, 2), 1);
    assert_eq!(round_div_exec(3, 2), 2);
    assert_eq!(round_div_exec(5, 2), 3);
    assert_eq!(round_div_exec(-1, 2), -1);
    assert_eq!(round_div_exec(-3, 2), -2);
    assert_eq!(round_div_exec(-5, 2), -3);
    assert_eq!(round_div_exec(5, 10), 1);
    assert_eq!(round_div_exec(-5, 10), -1);
}

#[test]
fn round_div_is_symmetric_and_monotonic() {
    for den in 1..12i128 {
        let mut before = round_div_exec(-200, den);
        for num in -200..=200i128 {
            let r = round_div_exec(num, den);
            assert_eq!(round_div_exec(-num, den), -r);
            assert!(before <= r);
            assert!((2 * (r * den - num)).abs() <= den);
            before = r;
        }
    }
}

#[test]
fn diagonal_edge_is_sampled_on_the_diagonal() {
    let got = scan_edge(Point::new(0, 0), Point::new(10, 10));
    let want = pts(&[(0, 0), (1, 1), (2, 2), (3, 3), (4, 4), (5, 5), (6, 6), (7, 7), (8, 8), (9, 9)]);
    assert_eq!(got, want);
}

#[test]
fn edge_is_scanned_from_its_upper_end_whichever_comes_first() {
    let down = scan_edge(Point::new(0, 0), Point::new(10, 10));
    let up = scan_edge(Point::new(10, 10), Point::new(0, 0));
    assert_eq!(down, up);
    assert_eq!(up[0], Point::new(0, 0));
    assert_eq!(up.len(), 10);
}

#[test]
fn flat_edge_has_no_samples() {
    assert!(scan_edge(Point::new(0, 0), Point::new(10, 0)).is_empty());
    assert!(scan_edge(Point::new(10, 7), Point::new(-3, 7)).is_empty());
    assert!(scan_edge(Point::new(4, 4), Point::new(4, 4)).is_empty());
}

#[test]
fn upright_edge_keeps_its_column() {
    let got = scan_edge(Point::new(7, -2), Point::new(7, 2));
    assert_eq!(got, pts(&[(7, -2), (7, -1), (7, 0), (7, 1)]));
}

#[test]
fn shallow_edge_rounds_each_sample() {
    let got = scan_edge(Point::new(0, 0), Point::new(10, 3));
    assert_eq!(got, pts(&[(0, 0), (3, 1), (7, 2)]));
    let got = scan_edge(Point::new(0, 0), Point::new(-10, 3));
    assert_eq!(got, pts(&[(0, 0), (-3, 1), (-7, 2)]));
}

#[test]
fn halfway_samples_go_away_from_zero() {
    assert_eq!(scan_edge(Point::new(0, 0), Point::new(1, 2)), pts(&[(0, 0), (1, 1)]));
    assert_eq!(scan_edge(Point::new(-1, 0), Point::new(-2, 2)), pts(&[(-1, 0), (-2, 1)]));
    assert_eq!(scan_edge(Point::new(-3, 0), Point::new(-2, 2)), pts(&[(-3, 0), (-3, 1)]));
    assert_eq!(scan_edge(Point::new(3, 0), Point::new(2, 2)), pts(&[(3, 0), (3, 1)]));
}

#[test]
fn edge_across_the_whole_range_of_a_coordinate() {
    let got = scan_edge(Point::new(i32::MIN, i32::MAX - 2), Point::new(i32::MAX, i32::MAX));
    assert_eq!(got.len(), 2);
    assert_eq!(got[0], Point::new(i32::MIN, i32::MAX - 2));
    assert_eq!(got[1], Point::new(-1, i32::MAX - 1));
}

#[test]
fn triangle_with_flat_edge_is_outlined_by_the_other_two() {
    let t = tri((0, 0), (10, 0), (5, 10));
    let want = pts(&[
        (10, 0), (0, 0), (10, 1), (1, 1), (9, 2), (1, 2), (9, 3), (2, 3), (8, 4), (2, 4),
        (8, 5), (3, 5), (7, 6), (3, 6), (7, 7), (4, 7), (6, 8), (4, 8), (6, 9), (5, 9),
    ]);
    assert_eq!(t.rasterize(), want);
    let right = scan_edge(t.p2, t.p3);
    let left = scan_edge(t.p3, t.p1);
    assert_eq!(t.rasterize(), merge_by_y(&right, &left));
}

#[test]
fn triangle_in_one_scanline_has_no_outline() {
    assert!(tri((0, 5), (10, 5), (-4, 5)).rasterize().is_empty());
    assert!(tri((3, 3), (3, 3), (3, 3)).rasterize().is_empty());
}

#[test]
fn outline_is_in_scanline_order_and_keeps_edge_order_within_a_scanline() {
    let t = tri((0, 0), (4, 4), (-4, 2));
    let out = t.rasterize();
    let first = scan_edge(t.p1, t.p2);
    let second = scan_edge(t.p2, t.p3);
    let third = scan_edge(t.p3, t.p1);
    assert_eq!(out.len(), first.len() + second.len() + third.len());
    for pair in out.windows(2) {
        assert!(pair[0].y <= pair[1].y);
    }
    let mut all = first.clone();
    all.extend(second.iter().copied());
    all.extend(third.iter().copied());
    for y in -1..6 {
        let got: Vec<Point> = out.iter().copied().filter(|p| p.y == y).collect();
        let want: Vec<Point> = all.iter().copied().filter(|p| p.y == y).collect();
        assert_eq!(got, want);
    }
    assert_eq!(out, pts(&[(0, 0), (0, 0), (1, 1), (-2, 1), (2, 2), (-4, 2), (3, 3), (0, 3)]));
}

#[test]
fn merge_takes_the_left_run_first_on_equal_scanlines() {
    let a = pts(&[(1, 0), (2, 0), (3, 2)]);
    let b = pts(&[(9, 0), (8, 1), (7, 2), (6, 5)]);
    let got = merge_by_y(&a, &b);
    assert_eq!(got, pts(&[(1, 0), (2, 0), (9, 0), (8, 1), (3, 2), (7, 2), (6, 5)]));
    assert_eq!(merge_by_y(&a, &Vec::new()), a);
    assert_eq!(merge_by_y(&Vec::new(), &b), b);
}

#[test]
fn rasterizing_twice_gives_the_same_points() {
    let t = tri((13, -7), (-20, 31), (5, 5));
    assert_eq!(t.rasterize(), t.rasterize());
}
