use kafatopu::disc::Circle;
use kafatopu::geometry::{Color, Point};
use std::collections::HashSet;

fn stroke(from: Point, to: Point, drawn: &mut HashSet<(i32, i32)>) {
    let dx = (to.x - from.x).abs();
    let dy = -(to.y - from.y).abs();
    let sx = if from.x < to.x { 1 } else { -1 };
    let sy = if from.y < to.y { 1 } else { -1 };
    let mut err = dx + dy;
    let (mut x, mut y) = (from.x, from.y);
    loop {
        drawn.insert((x, y));
        if x == to.x && y == to.y {
            break;
        }
        let e2 = 2 * err;
        if e2 >= dy {
            err += dy;
            x += sx;
        }
        if e2 <= dx {
            err += dx;
            y += sy;
        }
    }
}

fn pixels_of(disc: &Circle) -> HashSet<(i32, i32)> {
    let mut drawn = HashSet::new();
    for line in disc.outlines() {
        for pair in line.windows(2) {
            stroke(pair[0], pair[1], &mut drawn);
        }
    }
    drawn
}

#[test]
fn disc_of_radius_thirty_has_no_radial_gaps() {
    let disc = Circle { center: Point::new(100, 100), radius: 30, color: Color::rgb(0, 255, 0) };
    let drawn = pixels_of(&disc);
    let mut worst = 0;
    for deg in 0..360 {
        let rad = (deg as f64).to_radians();
        let mut gap = 0;
        for t in 0..30 {
            let x = 100 + (t as f64 * rad.cos()).round() as i32;
            let y = 100 + (t as f64 * rad.sin()).round() as i32;
            if drawn.contains(&(x, y)) {
                gap = 0;
            } else {
                gap += 1;
                worst = worst.max(gap);
            }
        }
    }
    assert!(worst <= 1, "worst gap {}", worst);
}

#[test]
fn disc_of_radius_thirty_reaches_its_rim_on_each_axis() {
    let disc = Circle { center: Point::new(100, 100), radius: 30, color: Color::rgb(0, 255, 0) };
    let drawn = pixels_of(&disc);
    let right = drawn.iter().filter(|p| p.1 == 100).map(|p| p.0 - 100).max().unwrap();
    let left = drawn.iter().filter(|p| p.1 == 100).map(|p| 100 - p.0).max().unwrap();
    let down = drawn.iter().filter(|p| p.0 == 100).map(|p| p.1 - 100).max().unwrap();
    let up = drawn.iter().filter(|p| p.0 == 100).map(|p| 100 - p.1).max().unwrap();
    for reach in [right, left, down, up] {
        assert!((reach - 30).abs() <= 1, "reach {}", reach);
    }
}
