//! A disc that moves about a field and turns back at its borders.

use vstd::prelude::*;
use crate::disc::Circle;
use crate::geometry::Point;

verus! {

/// The width of the field in pixels.
pub const W: u32 = 800;

/// The height of the field in pixels.
pub const H: u32 = 600;

/// A velocity in pixels per second, axis by axis.
#[derive(Clone, Copy, Debug, PartialEq, Eq, Structural)]
pub struct Vec2 {
    pub x: i32,
    pub y: i32,
}

/// A disc together with the velocity it moves at.
#[derive(Clone, Copy, Debug, PartialEq, Eq, Structural)]
pub struct Player {
    pub object: Circle,
    pub velocity: Vec2,
}

/// A disc of the given radius centered at `pos` on one axis reaches over a
/// border of a field that extends from zero to `extent`.
pub open spec fn crosses_border(pos: int, radius: int, extent: int) -> bool {
    pos > extent - radius || pos < radius
}

/// The position at which the disc touches the border it reached over, or
/// `pos` itself where it reached over none. The far border is looked at
/// first.
pub open spec fn held_inside(pos: int, radius: int, extent: int) -> int {
    if pos > extent - radius {
        extent - radius
    } else if pos < radius {
        radius
    } else {
        pos
    }
}

/// The speed after the borders were looked at: turned back where the disc
/// reached over one.
pub open spec fn turned_back(speed: int, pos: int, radius: int, extent: int) -> int {
    if crosses_border(pos, radius, extent) {
        -speed
    } else {
        speed
    }
}

/// Holds the disc inside the field on one axis and turns its speed back
/// where it had left.
fn bounce_axis(pos: i32, speed: i32, radius: u32, extent: u32) -> (r: (i32, i32))
    requires
        radius <= extent <= i32::MAX,
        crosses_border(pos as int, radius as int, extent as int) ==> speed > i32::MIN,
    ensures
        r.0 == held_inside(pos as int, radius as int, extent as int),
        r.1 == turned_back(speed as int, pos as int, radius as int, extent as int),
{
    let far: i32 = (extent - radius) as i32;
    let near: i32 = radius as i32;
    if pos > far {
        (far, -speed)
    } else if pos < near {
        (near, -speed)
    } else {
        (pos, speed)
    }
}

impl Player {
    /// The disc is no wider than the field, and a speed that `bounce` would
    /// turn back has an opposite.
    pub open spec fn can_bounce(self) -> bool {
        &&& self.object.radius <= H
        &&& crosses_border(self.object.center.y as int, self.object.radius as int, H as int)
            ==> self.velocity.y > i32::MIN
        &&& crosses_border(self.object.center.x as int, self.object.radius as int, W as int)
            ==> self.velocity.x > i32::MIN
    }

    /// The player after `bounce`.
    pub open spec fn bounced(self) -> Player {
        let c = self.object.center;
        let r = self.object.radius as int;
        Player {
            object: Circle {
                center: Point {
                    x: held_inside(c.x as int, r, W as int) as i32,
                    y: held_inside(c.y as int, r, H as int) as i32,
                },
                radius: self.object.radius,
                color: self.object.color,
            },
            velocity: Vec2 {
                x: turned_back(self.velocity.x as int, c.x as int, r, W as int) as i32,
                y: turned_back(self.velocity.y as int, c.y as int, r, H as int) as i32,
            },
        }
    }

    /// The player moved by `dx` to the right and `dy` down.
    pub open spec fn advanced(self, dx: int, dy: int) -> Player {
        Player {
            object: Circle {
                center: Point {
                    x: (self.object.center.x + dx) as i32,
                    y: (self.object.center.y + dy) as i32,
                },
                radius: self.object.radius,
                color: self.object.color,
            },
            velocity: self.velocity,
        }
    }

    /// Where the disc reaches over a border of the field, puts it back so
    /// that it touches that border and turns its speed on that axis back.
    pub fn bounce(&mut self)
        requires
            old(self).can_bounce(),
        ensures
            *final(self) == old(self).bounced(),
    {
        let radius = self.object.radius;
        let (y, vy) = bounce_axis(self.object.center.y, self.velocity.y, radius, H);
        let (x, vx) = bounce_axis(self.object.center.x, self.velocity.x, radius, W);
        self.object.center = Point { x, y };
        self.velocity = Vec2 { x: vx, y: vy };
    }

    /// Moves the disc by the way it made since the last step.
    pub fn advance(&mut self, dx: i32, dy: i32)
        requires
            i32::MIN <= old(self).object.center.x + dx <= i32::MAX,
            i32::MIN <= old(self).object.center.y + dy <= i32::MAX,
        ensures
            *final(self) == old(self).advanced(dx as int, dy as int),
    {
        let c = self.object.center;
        self.object.center = Point { x: c.x + dx, y: c.y + dy };
    }
}

/// After a bounce the disc lies inside the field on both axes, as long as
/// the field is wide enough to hold it.
pub proof fn lemma_bounced_lies_inside(p: Player)
    requires
        2 * p.object.radius <= H,
    ensures
        !crosses_border(
            p.bounced().object.center.x as int,
            p.object.radius as int,
            W as int,
        ),
        !crosses_border(
            p.bounced().object.center.y as int,
            p.object.radius as int,
            H as int,
        ),
{
}

} // verus!
