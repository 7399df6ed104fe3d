//! A filled disc, drawn as the outlines of a thin wedge swept through a full
//! turn about the disc's center.

use vstd::prelude::*;
use crate::geometry::{Color, Point, Triangle};
use crate::raster::{lemma_outline_determined, lemma_outline_within, sorted_stably_by_y, within};
use crate::rotate::{
    lemma_full_turns_change_nothing, lemma_turned_stays_near, magnitude, saturated, Rotation,
};

verus! {

/// The number of outlines in a sweep: one for each whole degree of a turn.
pub const STEPS: u32 = 360;

/// A disc to draw. A radius of zero is allowed and gives a single point.
#[derive(Clone, Copy, Debug, PartialEq, Eq, Structural)]
pub struct Circle {
    pub center: Point,
    pub radius: u32,
    pub color: Color,
}

impl Circle {
    /// The corners of the wedge are points: the lowest point of the disc and
    /// the column left of the center have coordinates.
    pub open spec fn fits(self) -> bool {
        &&& self.center.y + self.radius <= i32::MAX
        &&& self.center.x - 1 >= i32::MIN
    }

    /// The wedge before it is turned: a sliver one pixel wide that reaches
    /// from the center straight down to the rim.
    pub open spec fn wedge_spec(self) -> Triangle {
        Triangle {
            color: self.color,
            p1: self.center,
            p2: Point { x: self.center.x, y: (self.center.y + self.radius) as i32 },
            p3: Point { x: (self.center.x - 1) as i32, y: (self.center.y + self.radius) as i32 },
        }
    }

    /// The wedge turned about the center by `angle` degrees.
    pub open spec fn swept(self, angle: int) -> Triangle {
        self.wedge_spec().rotated(self.center, Rotation::of_degrees(angle))
    }

    /// `p` lies in the square about the center that reaches one pixel
    /// farther than the radius on each side.
    pub open spec fn covers(self, p: Point) -> bool {
        &&& magnitude(p.x - self.center.x) <= self.radius + 1
        &&& magnitude(p.y - self.center.y) <= self.radius + 1
    }

    /// Builds the wedge in its first position.
    pub fn wedge(&self) -> (t: Triangle)
        requires
            self.fits(),
        ensures
            t == self.wedge_spec(),
    {
        let rim: i32 = (self.center.y as i64 + self.radius as i64) as i32;
        Triangle {
            color: self.color,
            p1: self.center,
            p2: Point { x: self.center.x, y: rim },
            p3: Point { x: self.center.x - 1, y: rim },
        }
    }

    /// The outline of a fresh copy of the wedge turned by `angle` degrees.
    pub fn outline_at(&self, angle: i32) -> (out: Vec<Point>)
        requires
            self.fits(),
        ensures
            sorted_stably_by_y(out@, self.swept(angle as int).edge_samples()),
            forall|k: int| 0 <= k < out@.len() ==> self.covers(#[trigger] out@[k]),
    {
        let mut tri = self.wedge();
        tri.rotate(self.center, angle);
        let out = tri.rasterize();
        proof {
            lemma_sweep_stays_inside(*self, angle as int, out@);
        }
        out
    }

    /// The outlines of the whole sweep, each to be drawn in the disc's
    /// colour as one run of joined strokes. The first is that of the wedge
    /// where it was built; the one at index `a` is that of the wedge turned
    /// by `a` degrees, up to 359. The turn by 360 degrees would repeat the
    /// first and is left out.
    pub fn outlines(&self) -> (out: Vec<Vec<Point>>)
        requires
            self.fits(),
        ensures
            out@.len() == STEPS,
            forall|a: int|
                0 <= a < STEPS ==> sorted_stably_by_y(
                    (#[trigger] out@[a])@,
                    self.swept(a).edge_samples(),
                ),
            forall|a: int, k: int|
                0 <= a < STEPS && 0 <= k < out@[a]@.len() ==> self.covers(
                    #[trigger] out@[a]@[k],
                ),
    {
        let mut out: Vec<Vec<Point>> = Vec::new();
        let mut angle: i32 = 0;
        while angle < 360
            invariant
                self.fits(),
                0 <= angle <= 360,
                out@.len() == angle,
                forall|a: int|
                    0 <= a < angle ==> sorted_stably_by_y(
                        (#[trigger] out@[a])@,
                        self.swept(a).edge_samples(),
                    ),
                forall|a: int, k: int|
                    0 <= a < angle && 0 <= k < out@[a]@.len() ==> self.covers(
                        #[trigger] out@[a]@[k],
                    ),
            decreases 360 - angle,
        {
            let line = self.outline_at(angle);
            out.push(line);
            angle = angle + 1;
        }
        out
    }
}

/// The sweep begins with the wedge where it was built: turned by no
/// degrees, it is the wedge itself.
pub proof fn lemma_sweep_starts_at_wedge(disc: Circle)
    ensures
        disc.swept(0) == disc.wedge_spec(),
{
    lemma_full_turns_change_nothing(disc.wedge_spec(), disc.center, 0);
}

/// However far the wedge is turned, its outline stays in the square about
/// the center that reaches one pixel farther than the radius on each side.
pub proof fn lemma_sweep_stays_inside(disc: Circle, angle: int, out: Seq<Point>)
    requires
        disc.fits(),
        sorted_stably_by_y(out, disc.swept(angle).edge_samples()),
    ensures
        forall|k: int| 0 <= k < out.len() ==> disc.covers(#[trigger] out[k]),
{
    let c = disc.center;
    let reach = disc.radius + 1;
    let rot = Rotation::of_degrees(angle);
    let w = disc.wedge_spec();
    let t = disc.swept(angle);
    crate::trig::lemma_sine_range(angle);
    crate::trig::lemma_sine_range(angle + 90);
    lemma_turned_stays_near(rot, w.p1, c);
    lemma_turned_stays_near(rot, w.p2, c);
    lemma_turned_stays_near(rot, w.p3, c);
    let lo = Point { x: saturated(c.x - reach) as i32, y: saturated(c.y - reach) as i32 };
    let hi = Point { x: saturated(c.x + reach) as i32, y: saturated(c.y + reach) as i32 };
    assert(within(t.p1, lo, hi));
    assert(within(t.p2, lo, hi));
    assert(within(t.p3, lo, hi));
    lemma_outline_within(t, out, lo, hi);
}

/// Drawing a disc twice gives the same strokes: each outline of a sweep is
/// fixed by the disc and the angle.
pub proof fn lemma_sweep_determined(disc: Circle, angle: int, u: Seq<Point>, v: Seq<Point>)
    requires
        sorted_stably_by_y(u, disc.swept(angle).edge_samples()),
        sorted_stably_by_y(v, disc.swept(angle).edge_samples()),
    ensures
        u == v,
{
    lemma_outline_determined(disc.swept(angle), u, v);
}

} // verus!
