//! Turning points and triangles about a pivot.
//!
//! A rotation is held as a cosine and a sine in fixed point. A coordinate
//! that results is rounded to the nearest integer, halves away from zero on
//! both axes alike, and kept within the range of a coordinate.

use vstd::prelude::*;
use crate::geometry::{Point, Triangle};
use crate::rounding::{
    lemma_round_div_monotonic, lemma_round_div_multiple, round_div, round_div_exec,
};
use crate::trig::{
    cosine_of_degrees, cosine_units, lemma_sine_of_same_direction, sine_of_degrees, sine_units,
    turn_reduced, UNIT,
};

verus! {

/// The cosine and the sine of the angle to turn by, each in units of
/// `1 / UNIT`.
#[derive(Clone, Copy, Debug, PartialEq, Eq, Structural)]
pub struct Rotation {
    pub cos: i64,
    pub sin: i64,
}

/// The coordinate nearest to `v`.
pub open spec fn saturated(v: int) -> int {
    if v < i32::MIN {
        i32::MIN as int
    } else if v > i32::MAX {
        i32::MAX as int
    } else {
        v
    }
}

/// The coordinate nearest to `v`.
fn saturate(v: i128) -> (c: i32)
    ensures
        c == saturated(v as int),
{
    if v < i32::MIN as i128 {
        i32::MIN
    } else if v > i32::MAX as i128 {
        i32::MAX
    } else {
        v as i32
    }
}

impl Rotation {
    /// Neither part exceeds one in magnitude.
    pub open spec fn wf(self) -> bool {
        &&& -UNIT <= self.cos <= UNIT
        &&& -UNIT <= self.sin <= UNIT
    }

    /// The rotation by `deg` degrees.
    pub open spec fn of_degrees(deg: int) -> Rotation {
        Rotation { cos: cosine_units(deg) as i64, sin: sine_units(deg) as i64 }
    }

    /// How far right of the pivot a point ends up that stood `dx` to the
    /// right of it and `dy` below.
    pub open spec fn turned_dx(self, dx: int, dy: int) -> int {
        round_div(self.cos * dx - self.sin * dy, UNIT as int)
    }

    /// How far below the pivot a point ends up that stood `dx` to the right
    /// of it and `dy` below.
    pub open spec fn turned_dy(self, dx: int, dy: int) -> int {
        round_div(self.sin * dx + self.cos * dy, UNIT as int)
    }

    /// Where `p` ends up when the plane is turned about `pivot`.
    pub open spec fn turned(self, p: Point, pivot: Point) -> Point {
        let dx = p.x - pivot.x;
        let dy = p.y - pivot.y;
        Point {
            x: saturated(pivot.x + self.turned_dx(dx, dy)) as i32,
            y: saturated(pivot.y + self.turned_dy(dx, dy)) as i32,
        }
    }

    /// The rotation that leaves every point in place.
    pub fn identity() -> (rot: Rotation)
        ensures
            rot == (Rotation { cos: UNIT, sin: 0 }),
            rot.wf(),
    {
        Rotation { cos: UNIT, sin: 0 }
    }

    /// The rotation with the given cosine and sine, where both lie within
    /// one of zero.
    pub fn new(cos: i64, sin: i64) -> (rot: Option<Rotation>)
        ensures
            (Rotation { cos, sin }).wf() ==> rot == Some(Rotation { cos, sin }),
            !(Rotation { cos, sin }).wf() ==> rot.is_none(),
    {
        if -UNIT <= cos && cos <= UNIT && -UNIT <= sin && sin <= UNIT {
            Some(Rotation { cos, sin })
        } else {
            None
        }
    }

    /// The rotation by a whole number of degrees.
    pub fn from_degrees(deg: i32) -> (rot: Rotation)
        ensures
            rot == Rotation::of_degrees(deg as int),
            rot.wf(),
            rot.cos == cosine_units(deg as int),
            rot.sin == sine_units(deg as int),
    {
        Rotation { cos: cosine_of_degrees(deg), sin: sine_of_degrees(deg) }
    }

    /// Turns `p` about `pivot`.
    pub fn apply(&self, p: Point, pivot: Point) -> (q: Point)
        requires
            self.wf(),
        ensures
            q == self.turned(p, pivot),
    {
        let d = p.offset_from(pivot);
        let cos: i128 = self.cos as i128;
        let sin: i128 = self.sin as i128;
        let dx: i128 = d.dx as i128;
        let dy: i128 = d.dy as i128;
        proof {
            lemma_product_bound(cos as int, dx as int);
            lemma_product_bound(sin as int, dy as int);
            lemma_product_bound(sin as int, dx as int);
            lemma_product_bound(cos as int, dy as int);
        }
        let across: i128 = round_div_exec(cos * dx - sin * dy, UNIT as i128);
        let down: i128 = round_div_exec(sin * dx + cos * dy, UNIT as i128);
        proof {
            crate::rounding::lemma_round_div_nearest(cos * dx - sin * dy, UNIT as int);
            crate::rounding::lemma_round_div_nearest(sin * dx + cos * dy, UNIT as int);
        }
        Point { x: saturate(pivot.x as i128 + across), y: saturate(pivot.y as i128 + down) }
    }
}

/// The product of a fixed-point part and a coordinate difference stays far
/// inside the machine's range.
proof fn lemma_product_bound(part: int, d: int)
    requires
        -UNIT <= part <= UNIT,
        -0x1_0000_0000 <= d <= 0x1_0000_0000,
    ensures
        -0x4000_0000_0000_0000 <= part * d <= 0x4000_0000_0000_0000,
{
    assert(-0x4000_0000_0000_0000 <= part * d <= 0x4000_0000_0000_0000) by (nonlinear_arith)
        requires
            -0x4000_0000 <= part <= 0x4000_0000,
            -0x1_0000_0000 <= d <= 0x1_0000_0000,
    ;
}

impl Triangle {
    /// The triangle with each vertex turned about `center`, each by its own
    /// position alone.
    pub open spec fn rotated(self, center: Point, rot: Rotation) -> Triangle {
        Triangle {
            color: self.color,
            p1: rot.turned(self.p1, center),
            p2: rot.turned(self.p2, center),
            p3: rot.turned(self.p3, center),
        }
    }

    /// Turns the triangle about `center`.
    pub fn rotate_by(&mut self, center: Point, rot: Rotation)
        requires
            rot.wf(),
        ensures
            *final(self) == old(self).rotated(center, rot),
    {
        let p1 = rot.apply(self.p1, center);
        let p2 = rot.apply(self.p2, center);
        let p3 = rot.apply(self.p3, center);
        self.p1 = p1;
        self.p2 = p2;
        self.p3 = p3;
    }

    /// Turns the triangle about `center` by `angle` degrees. A turn by a
    /// whole number of full turns, none included, changes nothing.
    pub fn rotate(&mut self, center: Point, angle: i32)
        ensures
            *final(self) == old(self).rotated(center, Rotation::of_degrees(angle as int)),
            turn_reduced(angle as int) == 0 ==> *final(self) == *old(self),
    {
        proof {
            if turn_reduced(angle as int) == 0 {
                lemma_full_turns_change_nothing(*self, center, angle as int);
            }
        }
        self.rotate_by(center, Rotation::from_degrees(angle));
    }
}

/// The rotation with cosine one and sine zero leaves every point where it
/// is, whatever the pivot.
pub proof fn lemma_identity_keeps_points(p: Point, pivot: Point)
    ensures
        (Rotation { cos: UNIT, sin: 0 }).turned(p, pivot) == p,
{
    let rot = Rotation { cos: UNIT, sin: 0 };
    let dx = p.x - pivot.x;
    let dy = p.y - pivot.y;
    assert(rot.cos * dx - rot.sin * dy == dx * UNIT) by (nonlinear_arith)
        requires
            rot.cos == UNIT,
            rot.sin == 0,
    ;
    assert(rot.sin * dx + rot.cos * dy == dy * UNIT) by (nonlinear_arith)
        requires
            rot.cos == UNIT,
            rot.sin == 0,
    ;
    lemma_round_div_multiple(dx, UNIT as int);
    lemma_round_div_multiple(dy, UNIT as int);
}

/// The pivot itself stays in place under every rotation.
pub proof fn lemma_pivot_stays(rot: Rotation, pivot: Point)
    ensures
        rot.turned(pivot, pivot) == pivot,
{
    assert(rot.cos * 0 - rot.sin * 0 == 0 * UNIT) by (nonlinear_arith);
    assert(rot.sin * 0 + rot.cos * 0 == 0 * UNIT) by (nonlinear_arith);
    lemma_round_div_multiple(0, UNIT as int);
}

/// Turning by no degrees, by 360 or by any other whole number of full turns
/// gives back the triangle as it was, vertex for vertex.
pub proof fn lemma_full_turns_change_nothing(t: Triangle, center: Point, angle: int)
    requires
        turn_reduced(angle) == 0,
    ensures
        t.rotated(center, Rotation::of_degrees(angle)) == t,
{
    lemma_sine_of_same_direction(angle, 0);
    assert(Rotation::of_degrees(angle) == (Rotation { cos: UNIT, sin: 0 }));
    lemma_identity_keeps_points(t.p1, center);
    lemma_identity_keeps_points(t.p2, center);
    lemma_identity_keeps_points(t.p3, center);
}

/// A full turn more or less makes no difference to where a triangle ends
/// up.
pub proof fn lemma_rotation_periodic(t: Triangle, center: Point, angle: int)
    ensures
        t.rotated(center, Rotation::of_degrees(angle + 360)) == t.rotated(
            center,
            Rotation::of_degrees(angle),
        ),
{
    assert(turn_reduced(angle + 360) == turn_reduced(angle));
    lemma_sine_of_same_direction(angle + 360, angle);
    assert(Rotation::of_degrees(angle + 360) == Rotation::of_degrees(angle));
}

/// The distance of `v` from zero.
pub open spec fn magnitude(v: int) -> int {
    if v < 0 {
        -v
    } else {
        v
    }
}

/// A part of at most one times a length is at most the length.
proof fn lemma_part_of(part: int, d: int)
    requires
        -UNIT <= part <= UNIT,
    ensures
        -(magnitude(d) * UNIT) <= part * d <= magnitude(d) * UNIT,
{
    let m = magnitude(d);
    assert(-(m * UNIT) <= part * d <= m * UNIT) by (nonlinear_arith)
        requires
            -UNIT <= part <= UNIT,
            m >= 0,
            d == m || d == -m,
    ;
}

/// A turn moves a point no farther from the pivot, on either axis, than the
/// sum of its two distances from the pivot before.
pub proof fn lemma_turned_stays_near(rot: Rotation, p: Point, pivot: Point)
    requires
        rot.wf(),
    ensures
        ({
            let reach = magnitude(p.x - pivot.x) + magnitude(p.y - pivot.y);
            let q = rot.turned(p, pivot);
            &&& magnitude(q.x - pivot.x) <= reach
            &&& magnitude(q.y - pivot.y) <= reach
        }),
{
    let dx = p.x - pivot.x;
    let dy = p.y - pivot.y;
    let reach = magnitude(dx) + magnitude(dy);
    let u = UNIT as int;
    lemma_part_of(rot.cos as int, dx);
    lemma_part_of(rot.sin as int, dy);
    lemma_part_of(rot.sin as int, dx);
    lemma_part_of(rot.cos as int, dy);
    assert(reach * u == magnitude(dx) * u + magnitude(dy) * u) by (nonlinear_arith)
        requires
            reach == magnitude(dx) + magnitude(dy),
    ;
    assert((-reach) * u == -(reach * u)) by (nonlinear_arith);
    let across = rot.cos * dx - rot.sin * dy;
    let down = rot.sin * dx + rot.cos * dy;
    lemma_round_div_multiple(reach, u);
    lemma_round_div_multiple(-reach, u);
    lemma_round_div_monotonic((-reach) * u, across, u);
    lemma_round_div_monotonic(across, reach * u, u);
    lemma_round_div_monotonic((-reach) * u, down, u);
    lemma_round_div_monotonic(down, reach * u, u);
}

/// A factor of at most `u` in magnitude times an error of at most half of
/// `u` stays within half of `u * u`.
proof fn lemma_scaled_error(factor: int, err: int, u: int)
    requires
        u > 0,
        -u <= factor <= u,
        -u <= 2 * err <= u,
    ensures
        -(u * u) <= 2 * (factor * err) <= u * u,
{
    assert(-(u * u) <= 2 * (factor * err) <= u * u) by (nonlinear_arith)
        requires
            u > 0,
            -u <= factor <= u,
            -u <= 2 * err <= u,
    ;
}

/// With `a` and `b` the coordinates after a first turn by `(c1, s1)`, and
/// `x` the first coordinate after a second turn by `(c2, s2)`, each with an
/// error of its own: what the errors come to in `x`, in units of
/// `1 / (u * u)`.
proof fn lemma_carried_error(
    u: int,
    c2: int,
    s2: int,
    c1: int,
    s1: int,
    dx: int,
    dy: int,
    a: int,
    b: int,
    x: int,
)
    ensures
        u * u * x - ((c2 * c1 - s2 * s1) * dx - (s2 * c1 + c2 * s1) * dy) == c2 * (a * u - (c1
            * dx - s1 * dy)) - s2 * (b * u - (s1 * dx + c1 * dy)) + u * (x * u - (c2 * a - s2
            * b)),
{
    let ea = a * u - (c1 * dx - s1 * dy);
    let eb = b * u - (s1 * dx + c1 * dy);
    let ex = x * u - (c2 * a - s2 * b);
    let c1x = c1 * dx;
    let s1y = s1 * dy;
    let s1x = s1 * dx;
    let c1y = c1 * dy;
    let au = a * u;
    let bu = b * u;
    assert(c2 * ea == c2 * au - c2 * c1x + c2 * s1y) by (nonlinear_arith)
        requires
            ea == au - (c1x - s1y),
    ;
    assert(s2 * eb == s2 * bu - s2 * s1x - s2 * c1y) by (nonlinear_arith)
        requires
            eb == bu - (s1x + c1y),
    ;
    let c2a = c2 * a;
    let s2b = s2 * b;
    let xu = x * u;
    assert(u * ex == u * xu - u * c2a + u * s2b) by (nonlinear_arith)
        requires
            ex == xu - (c2a - s2b),
    ;
    assert(u * xu == u * u * x) by (nonlinear_arith)
        requires
            xu == x * u,
    ;
    assert(u * c2a == c2 * au) by (nonlinear_arith)
        requires
            c2a == c2 * a,
            au == a * u,
    ;
    assert(u * s2b == s2 * bu) by (nonlinear_arith)
        requires
            s2b == s2 * b,
            bu == b * u,
    ;
    assert(c2 * c1x == (c2 * c1) * dx) by (nonlinear_arith)
        requires
            c1x == c1 * dx,
    ;
    assert(c2 * s1y == (c2 * s1) * dy) by (nonlinear_arith)
        requires
            s1y == s1 * dy,
    ;
    assert(s2 * s1x == (s2 * s1) * dx) by (nonlinear_arith)
        requires
            s1x == s1 * dx,
    ;
    assert(s2 * c1y == (s2 * c1) * dy) by (nonlinear_arith)
        requires
            c1y == c1 * dy,
    ;
    let cc = c2 * c1;
    let ss = s2 * s1;
    let sc = s2 * c1;
    let cs = c2 * s1;
    assert((cc - ss) * dx == cc * dx - ss * dx) by (nonlinear_arith);
    assert((sc + cs) * dy == sc * dy + cs * dy) by (nonlinear_arith);
}

/// The cosine of the turn that `first` and then `second` make together, in
/// units of `1 / (UNIT * UNIT)`.
pub open spec fn joint_cos(first: Rotation, second: Rotation) -> int {
    second.cos * first.cos - second.sin * first.sin
}

/// The sine of the turn that `first` and then `second` make together, in
/// units of `1 / (UNIT * UNIT)`.
pub open spec fn joint_sin(first: Rotation, second: Rotation) -> int {
    second.sin * first.cos + second.cos * first.sin
}

/// Rounding twice costs little. A point `dx` right of the pivot and `dy`
/// below it, turned by `first` and the rounded result turned by `second`,
/// ends up on each axis no more than one and a half pixels from where the
/// two turns taken together, with no rounding at all, would put it. The
/// coordinates are taken before they are brought into range.
pub proof fn lemma_two_turns_stay_close(first: Rotation, second: Rotation, dx: int, dy: int)
    requires
        second.wf(),
    ensures
        ({
            let mid_dx = first.turned_dx(dx, dy);
            let mid_dy = first.turned_dy(dx, dy);
            let exact_dx = joint_cos(first, second) * dx - joint_sin(first, second) * dy;
            let exact_dy = joint_sin(first, second) * dx + joint_cos(first, second) * dy;
            let whole = UNIT * UNIT;
            &&& -(3 * whole) <= 2 * (whole * second.turned_dx(mid_dx, mid_dy) - exact_dx) <= 3
                * whole
            &&& -(3 * whole) <= 2 * (whole * second.turned_dy(mid_dx, mid_dy) - exact_dy) <= 3
                * whole
        }),
{
    let u = UNIT as int;
    let c1 = first.cos as int;
    let s1 = first.sin as int;
    let c2 = second.cos as int;
    let s2 = second.sin as int;
    let a = first.turned_dx(dx, dy);
    let b = first.turned_dy(dx, dy);
    let x = second.turned_dx(a, b);
    let y = second.turned_dy(a, b);
    crate::rounding::lemma_round_div_nearest(c1 * dx - s1 * dy, u);
    crate::rounding::lemma_round_div_nearest(s1 * dx + c1 * dy, u);
    crate::rounding::lemma_round_div_nearest(c2 * a - s2 * b, u);
    crate::rounding::lemma_round_div_nearest(s2 * a + c2 * b, u);
    let ea = a * u - (c1 * dx - s1 * dy);
    let eb = b * u - (s1 * dx + c1 * dy);
    let ex = x * u - (c2 * a - s2 * b);
    let ey = y * u - (s2 * a + c2 * b);
    let exact_dx = (c2 * c1 - s2 * s1) * dx - (s2 * c1 + c2 * s1) * dy;
    let exact_dy = (s2 * c1 + c2 * s1) * dx + (c2 * c1 - s2 * s1) * dy;
    lemma_carried_error(u, c2, s2, c1, s1, dx, dy, a, b, x);
    lemma_carried_error(u, c2, s2, c1, s1, dy, -dx, b, -a, y);
    assert(c1 * dy - s1 * (-dx) == s1 * dx + c1 * dy) by (nonlinear_arith);
    assert(s1 * dy + c1 * (-dx) == -(c1 * dx - s1 * dy)) by (nonlinear_arith);
    assert(c2 * b - s2 * (-a) == s2 * a + c2 * b) by (nonlinear_arith);
    assert((-a) * u == -(a * u)) by (nonlinear_arith);
    assert((c2 * c1 - s2 * s1) * dy - (s2 * c1 + c2 * s1) * (-dx) == exact_dy)
        by (nonlinear_arith)
        requires
            exact_dy == (s2 * c1 + c2 * s1) * dx + (c2 * c1 - s2 * s1) * dy,
    ;
    assert(u * u * x - exact_dx == c2 * ea - s2 * eb + u * ex);
    assert(u * u * y - exact_dy == c2 * eb - s2 * (-ea) + u * ey);
    lemma_scaled_error(s2, -ea, u);
    lemma_scaled_error(c2, ea, u);
    lemma_scaled_error(s2, eb, u);
    lemma_scaled_error(s2, ea, u);
    lemma_scaled_error(c2, eb, u);
    lemma_scaled_error(u, ex, u);
    lemma_scaled_error(u, ey, u);
}

/// A factor of at most `bound` in magnitude times `d` is at most `bound`
/// times the magnitude of `d`.
proof fn lemma_bounded_product(factor: int, d: int, bound: int)
    requires
        -bound <= factor <= bound,
    ensures
        -(bound * magnitude(d)) <= factor * d <= bound * magnitude(d),
{
    let m = magnitude(d);
    assert(-(bound * m) <= factor * d <= bound * m) by (nonlinear_arith)
        requires
            -bound <= factor <= bound,
            m >= 0,
            d == m || d == -m,
    ;
}

/// How far, in units of `1 / (u * u)`, one turn by `(c3, s3)` puts the
/// first coordinate from where the joint turn `(jc, js)` would put it.
proof fn lemma_single_turn_gap(
    u: int,
    c3: int,
    s3: int,
    jc: int,
    js: int,
    dx: int,
    dy: int,
    x3: int,
)
    ensures
        u * u * x3 - (jc * dx - js * dy) == u * (x3 * u - (c3 * dx - s3 * dy)) + (u * c3 - jc)
            * dx - (u * s3 - js) * dy,
{
    let n = c3 * dx - s3 * dy;
    let xu = x3 * u;
    assert(u * (xu - n) == u * xu - u * n) by (nonlinear_arith);
    assert(u * xu == u * u * x3) by (nonlinear_arith)
        requires
            xu == x3 * u,
    ;
    let cx = c3 * dx;
    let sy = s3 * dy;
    assert(u * n == u * cx - u * sy) by (nonlinear_arith)
        requires
            n == cx - sy,
    ;
    assert(u * cx == (u * c3) * dx) by (nonlinear_arith)
        requires
            cx == c3 * dx,
    ;
    assert(u * sy == (u * s3) * dy) by (nonlinear_arith)
        requires
            sy == s3 * dy,
    ;
    let uc = u * c3;
    let us = u * s3;
    assert((uc - jc) * dx == uc * dx - jc * dx) by (nonlinear_arith);
    assert((us - js) * dy == us * dy - js * dy) by (nonlinear_arith);
}

/// Two turns in a row come close to one turn by their sum. Let `third`
/// stand for the sum of `first` and `second`, its cosine and sine within
/// `slack / UNIT` of those that the two make together. Then a point `dx`
/// right of the pivot and `dy` below it ends up, on each axis, no more
/// than two pixels and `slack * (|dx| + |dy|) / UNIT` squared apart under
/// the two turns and under the one. The coordinates are taken before they
/// are brought into range.
pub proof fn lemma_two_turns_near_one(
    first: Rotation,
    second: Rotation,
    third: Rotation,
    dx: int,
    dy: int,
    slack: int,
)
    requires
        second.wf(),
        magnitude(UNIT * third.cos - joint_cos(first, second)) <= slack,
        magnitude(UNIT * third.sin - joint_sin(first, second)) <= slack,
    ensures
        ({
            let mid_dx = first.turned_dx(dx, dy);
            let mid_dy = first.turned_dy(dx, dy);
            let gap_dx = second.turned_dx(mid_dx, mid_dy) - third.turned_dx(dx, dy);
            let gap_dy = second.turned_dy(mid_dx, mid_dy) - third.turned_dy(dx, dy);
            let whole = UNIT * UNIT;
            let drift = slack * (magnitude(dx) + magnitude(dy));
            &&& whole * magnitude(gap_dx) <= 2 * whole + drift
            &&& whole * magnitude(gap_dy) <= 2 * whole + drift
        }),
{
    let u = UNIT as int;
    let whole = u * u;
    let c3 = third.cos as int;
    let s3 = third.sin as int;
    let jc = joint_cos(first, second);
    let js = joint_sin(first, second);
    let a = first.turned_dx(dx, dy);
    let b = first.turned_dy(dx, dy);
    let x2 = second.turned_dx(a, b);
    let y2 = second.turned_dy(a, b);
    let x3 = third.turned_dx(dx, dy);
    let y3 = third.turned_dy(dx, dy);
    lemma_two_turns_stay_close(first, second, dx, dy);
    crate::rounding::lemma_round_div_nearest(c3 * dx - s3 * dy, u);
    crate::rounding::lemma_round_div_nearest(s3 * dx + c3 * dy, u);
    let ex = x3 * u - (c3 * dx - s3 * dy);
    let ey = y3 * u - (s3 * dx + c3 * dy);
    lemma_scaled_error(u, ex, u);
    lemma_scaled_error(u, ey, u);
    lemma_single_turn_gap(u, c3, s3, jc, js, dx, dy, x3);
    lemma_single_turn_gap(u, c3, -s3, jc, -js, dy, dx, y3);
    assert(c3 * dy - (-s3) * dx == s3 * dx + c3 * dy) by (nonlinear_arith);
    assert(jc * dy - (-js) * dx == js * dx + jc * dy) by (nonlinear_arith);
    assert(u * (-s3) - (-js) == -(u * s3 - js)) by (nonlinear_arith);
    let fc = u * c3 - jc;
    let fs = u * s3 - js;
    assert((-fs) * dx == -(fs * dx)) by (nonlinear_arith);
    lemma_bounded_product(fc, dx, slack);
    lemma_bounded_product(fs, dy, slack);
    lemma_bounded_product(fs, dx, slack);
    lemma_bounded_product(fc, dy, slack);
    let drift = slack * (magnitude(dx) + magnitude(dy));
    assert(drift == slack * magnitude(dx) + slack * magnitude(dy)) by (nonlinear_arith)
        requires
            drift == slack * (magnitude(dx) + magnitude(dy)),
    ;
    let gx = x2 - x3;
    let gy = y2 - y3;
    assert(whole * gx == whole * x2 - whole * x3) by (nonlinear_arith)
        requires
            gx == x2 - x3,
    ;
    assert(whole * gy == whole * y2 - whole * y3) by (nonlinear_arith)
        requires
            gy == y2 - y3,
    ;
    assert(whole * magnitude(gx) == magnitude(whole * gx)) by (nonlinear_arith)
        requires
            whole > 0,
    ;
    assert(whole * magnitude(gy) == magnitude(whole * gy)) by (nonlinear_arith)
        requires
            whole > 0,
    ;
}

} // verus!
