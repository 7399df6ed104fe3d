//! The value types of the plane: points, offsets between points, colours and
//! triangles. All of them are plain copies; none refers to another.

use vstd::prelude::*;

verus! {

/// A pixel position.
#[derive(Clone, Copy, Debug, PartialEq, Eq, Structural)]
pub struct Point {
    pub x: i32,
    pub y: i32,
}

/// The difference of two points, axis by axis. Its range is twice that of a
/// coordinate, so that the difference of any two points is exact.
#[derive(Clone, Copy, Debug, PartialEq, Eq, Structural)]
pub struct Offset {
    pub dx: i64,
    pub dy: i64,
}

/// A colour with red, green, blue and alpha channels.
#[derive(Clone, Copy, Debug, PartialEq, Eq, Structural)]
pub struct Color {
    pub r: u8,
    pub g: u8,
    pub b: u8,
    pub a: u8,
}

/// Three vertices and one flat colour. The vertices may coincide or lie on
/// one line.
#[derive(Clone, Copy, Debug, PartialEq, Eq, Structural)]
pub struct Triangle {
    pub color: Color,
    pub p1: Point,
    pub p2: Point,
    pub p3: Point,
}

impl Point {
    pub fn new(x: i32, y: i32) -> (p: Point)
        ensures
            p == (Point { x, y }),
    {
        Point { x, y }
    }

    /// The difference `self - origin`, axis by axis: where `self` lies as
    /// seen from `origin`.
    pub fn offset_from(self, origin: Point) -> (d: Offset)
        ensures
            d.dx == self.x - origin.x,
            d.dy == self.y - origin.y,
    {
        Offset { dx: self.x as i64 - origin.x as i64, dy: self.y as i64 - origin.y as i64 }
    }
}

impl Color {
    /// An opaque colour.
    pub fn rgb(r: u8, g: u8, b: u8) -> (c: Color)
        ensures
            c == (Color { r, g, b, a: 255 }),
    {
        Color { r, g, b, a: 255 }
    }

    pub fn rgba(r: u8, g: u8, b: u8, a: u8) -> (c: Color)
        ensures
            c == (Color { r, g, b, a }),
    {
        Color { r, g, b, a }
    }
}

} // verus!
