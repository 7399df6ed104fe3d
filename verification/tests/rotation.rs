use kafatopu::geometry::{Color, Point, Triangle};
use kafatopu::rotate::Rotation;
use kafatopu::trig::{cosine_of_degrees, reduce_degrees, sine_of_degrees, QUARTER_SINES, UNIT};

fn tri(p1: (i32, i32), p2: (i32, i32), p3: (i32, i32)) -> Triangle {
    Triangle {
        color: Color::rgba(1, 2, 3, 4),
        p1: Point::new(p1.0, p1.1),
        p2: Point::new(p2.0, p2.1),
        p3: Point::new(p3.0, p3.1),
    }
}

fn turned(t: Triangle, center: Point, angle: i32) -> Triangle {
    let mut copy = t;
    copy.rotate(center, angle);
    copy
}

fn apart(a: Point, b: Point) -> i32 {
    (a.x - b.x).abs().max((a.y - b.y).abs())
}

#[test]
fn unit_is_two_to_the_thirtieth() {
    assert_eq!(UNIT, 1 << 30);
}

#[test]
fn table_holds_the_rounded_sines() {
    assert_eq!(QUARTER_SINES.len(), 91);
    assert_eq!(QUARTER_SINES[0], 0);
    assert_eq!(QUARTER_SINES[30], UNIT / 2);
    assert_eq!(QUARTER_SINES[45], 759250125);
    assert_eq!(QUARTER_SINES[90], UNIT);
    for d in 0..=90usize {
        let exact = (d as f64).to_radians().sin() * UNIT as f64;
        assert!((QUARTER_SINES[d] as f64 - exact).abs() <= 0.5 + 1e-6, "{}", d);
    }
}

#[test]
fn sines_and_cosines_of_the_quarter_turns() {
    assert_eq!((cosine_of_degrees(0), sine_of_degrees(0)), (UNIT, 0));
    assert_eq!((cosine_of_degrees(90), sine_of_degrees(90)), (0, UNIT));
    assert_eq!((cosine_of_degrees(180), sine_of_degrees(180)), (-UNIT, 0));
    assert_eq!((cosine_of_degrees(270), sine_of_degrees(270)), (0, -UNIT));
    assert_eq!((cosine_of_degrees(360), sine_of_degrees(360)), (UNIT, 0));
    assert_eq!((cosine_of_degrees(60), sine_of_degrees(30)), (UNIT / 2, UNIT / 2));
    assert_eq!((cosine_of_degrees(120), sine_of_degrees(210)), (-UNIT / 2, -UNIT / 2));
}

#[test]
fn sines_and_cosines_follow_the_circle() {
    for deg in -720..=720 {
        let rad = (deg as f64).to_radians();
        assert!((sine_of_degrees(deg) as f64 - rad.sin() * UNIT as f64).abs() <= 0.51, "{}", deg);
        assert!((cosine_of_degrees(deg) as f64 - rad.cos() * UNIT as f64).abs() <= 0.51, "{}", deg);
        assert_eq!(sine_of_degrees(deg), sine_of_degrees(deg + 360));
        assert_eq!(sine_of_degrees(-deg), -sine_of_degrees(deg));
        assert_eq!(cosine_of_degrees(-deg), cosine_of_degrees(deg));
    }
}

#[test]
fn degrees_are_reduced_by_whole_turns() {
    assert_eq!(reduce_degrees(0), 0);
    assert_eq!(reduce_degrees(359), 359);
    assert_eq!(reduce_degrees(360), 0);
    assert_eq!(reduce_degrees(725), 5);
    assert_eq!(reduce_degrees(-1), 359);
    assert_eq!(reduce_degrees(-360), 0);
    assert_eq!(reduce_degrees(-361), 359);
    assert_eq!(reduce_degrees(i32::MAX), (i32::MAX % 360) as u32);
    assert_eq!(reduce_degrees(i32::MIN), (i32::MIN as i64).rem_euclid(360) as u32);
}

#[test]
fn rotation_by_zero_degrees_is_the_identity() {
    let t = tri((100, 100), (100, 130), (99, 130));
    assert_eq!(turned(t, Point::new(100, 100), 0), t);
    assert_eq!(turned(t, Point::new(-7, 12345), 0), t);
    let far = tri((i32::MAX, i32::MIN), (i32::MIN, i32::MAX), (0, -1));
    assert_eq!(turned(far, Point::new(i32::MIN, i32::MAX), 0), far);
    assert_eq!(Rotation::from_degrees(0), Rotation::identity());
}

#[test]
fn rotation_by_full_turns_is_the_identity() {
    let t = tri((3, 4), (-50, 17), (99, -130));
    let c = Point::new(10, -20);
    assert_eq!(turned(t, c, 360), t);
    assert_eq!(turned(t, c, -360), t);
    assert_eq!(turned(t, c, 720), t);
    for a in 0..360 {
        assert_eq!(turned(t, c, a + 360), turned(t, c, a));
        assert_eq!(turned(t, c, a - 360), turned(t, c, a));
    }
}

#[test]
fn quarter_turns_are_exact() {
    let t = tri((10, 0), (0, 10), (3, -4));
    let o = Point::new(0, 0);
    assert_eq!(turned(t, o, 90), tri((0, 10), (-10, 0), (4, 3)));
    assert_eq!(turned(t, o, 180), tri((-10, 0), (0, -10), (-3, 4)));
    assert_eq!(turned(t, o, 270), tri((0, -10), (10, 0), (-4, -3)));
    assert_eq!(turned(t, o, -90), tri((0, -10), (10, 0), (-4, -3)));
}

#[test]
fn rotation_turns_about_the_pivot() {
    let t = tri((100, 100), (100, 130), (99, 130));
    let c = Point::new(100, 100);
    assert_eq!(turned(t, c, 90), tri((100, 100), (70, 100), (70, 99)));
    assert_eq!(turned(t, c, 45), tri((100, 100), (79, 121), (78, 121)));
    assert_eq!(turned(t, c, 30), tri((100, 100), (85, 126), (84, 125)));
    for a in 0..360 {
        assert_eq!(turned(t, c, a).p1, c);
        assert_eq!(turned(t, c, a).color, t.color);
    }
}

#[test]
fn each_vertex_turns_by_its_own_position() {
    let c = Point::new(5, 5);
    for a in [1, 37, 90, 123, 200, 359] {
        let whole = turned(tri((9, 1), (-30, 44), (17, 80)), c, a);
        let other = turned(tri((0, 0), (-30, 44), (1, 1)), c, a);
        assert_eq!(whole.p2, other.p2);
        let swapped = turned(tri((-30, 44), (17, 80), (9, 1)), c, a);
        assert_eq!(swapped.p1, whole.p2);
        assert_eq!(swapped.p2, whole.p3);
        assert_eq!(swapped.p3, whole.p1);
    }
}

#[test]
fn rotation_rounds_to_the_nearest_pixel() {
    let c = Point::new(0, 0);
    for a in 0..360 {
        let rad = (a as f64).to_radians();
        let t = turned(tri((30, 0), (0, 30), (-17, 23)), c, a);
        for (p, (x, y)) in [(t.p1, (30.0, 0.0)), (t.p2, (0.0, 30.0)), (t.p3, (-17.0, 23.0))] {
            let ex: f64 = x * rad.cos() - y * rad.sin();
            let ey: f64 = x * rad.sin() + y * rad.cos();
            assert!((p.x as f64 - ex).abs() <= 0.5 + 1e-6);
            assert!((p.y as f64 - ey).abs() <= 0.5 + 1e-6);
        }
    }
}

#[test]
fn two_rotations_come_close_to_their_sum() {
    let t = tri((100, 100), (100, 130), (99, 130));
    let c = Point::new(100, 100);
    let mut worst = 0;
    for a in 0..360 {
        for b in 0..360 {
            let twice = turned(turned(t, c, a), c, b);
            let once = turned(t, c, (a + b) % 360);
            worst = worst.max(apart(twice.p1, once.p1));
            worst = worst.max(apart(twice.p2, once.p2));
            worst = worst.max(apart(twice.p3, once.p3));
        }
    }
    assert!(worst <= 2, "{}", worst);
    assert_eq!(turned(turned(t, c, 90), c, 90), turned(t, c, 180));
    assert_eq!(turned(turned(t, c, 270), c, 180), turned(t, c, 90));
}

#[test]
fn parts_of_two_rotations_come_close_to_those_of_their_sum() {
    let unit = UNIT as i128;
    for a in 0..360 {
        let (c1, s1) = (cosine_of_degrees(a) as i128, sine_of_degrees(a) as i128);
        for b in 0..360 {
            let (c2, s2) = (cosine_of_degrees(b) as i128, sine_of_degrees(b) as i128);
            let c3 = cosine_of_degrees(a + b) as i128;
            let s3 = sine_of_degrees(a + b) as i128;
            assert!((unit * c3 - (c2 * c1 - s2 * s1)).abs() <= 2 * unit);
            assert!((unit * s3 - (s2 * c1 + c2 * s1)).abs() <= 2 * unit);
        }
    }
}

#[test]
fn rotation_keeps_a_point_within_its_reach_of_the_pivot() {
    let c = Point::new(-40, 9);
    for a in 0..360 {
        let t = turned(tri((-40, 39), (-41, 39), (-10, -11)), c, a);
        assert!((t.p1.x - c.x).abs() <= 30 && (t.p1.y - c.y).abs() <= 30);
        assert!((t.p2.x - c.x).abs() <= 31 && (t.p2.y - c.y).abs() <= 31);
        assert!((t.p3.x - c.x).abs() <= 50 && (t.p3.y - c.y).abs() <= 50);
    }
}

#[test]
fn rotated_coordinates_stay_in_range() {
    let t = tri((i32::MAX, i32::MAX), (i32::MIN, i32::MIN), (i32::MAX, 0));
    let c = Point::new(0, 0);
    let got = turned(t, c, 45);
    assert_eq!(got.p1, Point::new(0, i32::MAX));
    assert_eq!(got.p2, Point::new(0, i32::MIN));
    let about_corner = turned(tri((0, 0), (0, 0), (0, 0)), Point::new(i32::MAX, i32::MAX), 180);
    assert_eq!(about_corner.p1, Point::new(i32::MAX, i32::MAX));
    let other_corner = turned(tri((0, 0), (0, 0), (0, 0)), Point::new(i32::MIN, i32::MIN), 180);
    assert_eq!(other_corner.p1, Point::new(i32::MIN, i32::MIN));
}

#[test]
fn rotation_takes_parts_within_one_only() {
    assert_eq!(Rotation::new(UNIT, 0), Some(Rotation::identity()));
    assert_eq!(Rotation::new(-UNIT, UNIT), Some(Rotation { cos: -UNIT, sin: UNIT }));
    assert_eq!(Rotation::new(UNIT + 1, 0), None);
    assert_eq!(Rotation::new(0, -UNIT - 1), None);
    assert_eq!(Rotation::new(i64::MIN, i64::MAX), None);
}

#[test]
fn rotation_by_given_parts() {
    let half = Rotation::new(UNIT / 2, UNIT / 2).unwrap();
    assert_eq!(half.apply(Point::new(3, 1), Point::new(0, 0)), Point::new(1, 2));
    assert_eq!(half.apply(Point::new(-3, -1), Point::new(0, 0)), Point::new(-1, -2));
    let mut t = tri((13, 11), (10, 10), (7, 9));
    t.rotate_by(Point::new(10, 10), half);
    assert_eq!(t, tri((11, 12), (10, 10), (9, 8)));
    let quarter = Rotation::from_degrees(90);
    assert_eq!(quarter.apply(Point::new(12, 10), Point::new(10, 10)), Point::new(10, 12));
}

#[test]
fn offset_is_the_difference_of_the_coordinates() {
    let d = Point::new(3, -4).offset_from(Point::new(10, 10));
    assert_eq!((d.dx, d.dy), (-7, -14));
    let wide = Point::new(i32::MAX, i32::MIN).offset_from(Point::new(i32::MIN, i32::MAX));
    assert_eq!((wide.dx, wide.dy), (4294967295, -4294967295));
}
