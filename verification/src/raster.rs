//! The outline of a triangle: one sample per scanline for each edge, put in
//! scanline order.

use vstd::prelude::*;
use crate::geometry::{Point, Triangle};
use crate::rounding::{
    lemma_round_div_monotonic, lemma_round_div_multiple, round_div, round_div_exec,
};

verus! {

/// The column in which the edge from `top` down to `bottom` crosses the
/// scanline `i` rows below `top`: the point of the straight line through the
/// two ends, rounded to the nearest column, halves away from zero.
pub open spec fn scan_x(top: Point, bottom: Point, i: int) -> int
    recommends
        top.y < bottom.y,
{
    round_div(
        (bottom.x - top.x) * i + top.x * (bottom.y - top.y),
        bottom.y - top.y,
    )
}

/// The sample of the edge from `top` down to `bottom` on the scanline `i`
/// rows below `top`.
pub open spec fn scan_point(top: Point, bottom: Point, i: int) -> Point {
    Point { x: scan_x(top, bottom, i) as i32, y: (top.y + i) as i32 }
}

/// The samples of the edge between `a` and `b`, from the upper end down: one
/// for each scanline from the upper end's to the one just above the lower
/// end's. An edge that lies in one scanline has none.
pub open spec fn edge_points(a: Point, b: Point) -> Seq<Point> {
    if a.y == b.y {
        Seq::empty()
    } else if a.y > b.y {
        Seq::new((a.y - b.y) as nat, |i: int| scan_point(b, a, i))
    } else {
        Seq::new((b.y - a.y) as nat, |i: int| scan_point(a, b, i))
    }
}

/// Every sample of an edge lies between the columns of its two ends.
pub proof fn lemma_scan_x_within(top: Point, bottom: Point, i: int)
    requires
        top.y < bottom.y,
        0 <= i <= bottom.y - top.y,
    ensures
        top.x <= bottom.x ==> top.x <= scan_x(top, bottom, i) <= bottom.x,
        bottom.x <= top.x ==> bottom.x <= scan_x(top, bottom, i) <= top.x,
{
    let dy = bottom.y - top.y;
    let dx = bottom.x - top.x;
    let x1 = top.x as int;
    let x2 = bottom.x as int;
    let num = dx * i + x1 * dy;
    lemma_round_div_multiple(x1, dy);
    lemma_round_div_multiple(x2, dy);
    assert(x2 * dy == dx * dy + x1 * dy) by (nonlinear_arith)
        requires
            dx == x2 - x1,
    ;
    if dx >= 0 {
        assert(0 <= dx * i <= dx * dy) by (nonlinear_arith)
            requires
                dx >= 0,
                0 <= i <= dy,
        ;
    } else {
        assert(dx * dy <= dx * i <= 0) by (nonlinear_arith)
            requires
                dx < 0,
                0 <= i <= dy,
        ;
    }
    if x1 * dy <= num {
        lemma_round_div_monotonic(x1 * dy, num, dy);
    } else {
        lemma_round_div_monotonic(num, x1 * dy, dy);
    }
    if x2 * dy <= num {
        lemma_round_div_monotonic(x2 * dy, num, dy);
    } else {
        lemma_round_div_monotonic(num, x2 * dy, dy);
    }
}

/// Where the straight line through the two ends passes through the middle
/// of a pixel, the sample is that pixel: `k` columns from the upper end on
/// the scanline `i` rows below it, if `k` is to `i` as the edge's width is
/// to its height.
pub proof fn lemma_scan_x_exact(top: Point, bottom: Point, i: int, k: int)
    requires
        top.y < bottom.y,
        (bottom.x - top.x) * i == k * (bottom.y - top.y),
    ensures
        scan_x(top, bottom, i) == top.x + k,
{
    let dy = bottom.y - top.y;
    assert((bottom.x - top.x) * i + top.x * dy == (top.x + k) * dy) by (nonlinear_arith)
        requires
            (bottom.x - top.x) * i == k * dy,
    ;
    lemma_round_div_multiple(top.x + k, dy);
}

/// A sample lies no farther than half a pixel from the straight line
/// through the two ends of its edge.
pub proof fn lemma_scan_x_nearest(top: Point, bottom: Point, i: int)
    requires
        top.y < bottom.y,
    ensures
        ({
            let dy = bottom.y - top.y;
            let on_line = (bottom.x - top.x) * i + top.x * dy;
            -dy <= 2 * (scan_x(top, bottom, i) * dy - on_line) <= dy
        }),
{
    let dy = bottom.y - top.y;
    crate::rounding::lemma_round_div_nearest((bottom.x - top.x) * i + top.x * dy, dy);
}

/// An edge whose two ends share a scanline has no samples, and any other
/// has one for each scanline it spans, the lower end's left out.
pub proof fn lemma_edge_points_len(a: Point, b: Point)
    ensures
        a.y == b.y ==> edge_points(a, b) == Seq::<Point>::empty(),
        a.y <= b.y ==> edge_points(a, b).len() == b.y - a.y,
        a.y >= b.y ==> edge_points(a, b).len() == a.y - b.y,
{
}

/// Samples the edge between `a` and `b` once per scanline, from the upper
/// end down. An edge that lies in one scanline is passed over.
pub fn scan_edge(a: Point, b: Point) -> (out: Vec<Point>)
    ensures
        out@ == edge_points(a, b),
        a.y == b.y ==> out@.len() == 0,
{
    let mut out: Vec<Point> = Vec::new();
    if a.y == b.y {
        assert(out@ =~= edge_points(a, b));
        return out;
    }
    let (top, bottom) = if a.y > b.y {
        (b, a)
    } else {
        (a, b)
    };
    let dy: i128 = bottom.y as i128 - top.y as i128;
    let dx: i128 = bottom.x as i128 - top.x as i128;
    assert(-0x1_0000_0000_0000_0000 <= top.x * dy <= 0x1_0000_0000_0000_0000)
        by (nonlinear_arith)
        requires
            -0x1_0000_0000 <= top.x <= 0x1_0000_0000,
            0 <= dy <= 0x1_0000_0000,
    ;
    let base: i128 = top.x as i128 * dy;
    let mut i: i128 = 0;
    while i < dy
        invariant
            top.y < bottom.y,
            dy == bottom.y - top.y,
            dx == bottom.x - top.x,
            base == top.x * dy,
            -0x1_0000_0000_0000_0000 <= base <= 0x1_0000_0000_0000_0000,
            0 <= i <= dy,
            out@.len() == i,
            forall|k: int| 0 <= k < i ==> out@[k] == scan_point(top, bottom, k),
        decreases dy - i,
    {
        proof {
            lemma_scan_x_within(top, bottom, i as int);
            assert(-0x1_0000_0000_0000_0000 <= dx * i <= 0x1_0000_0000_0000_0000)
                by (nonlinear_arith)
                requires
                    -0x1_0000_0000 <= dx <= 0x1_0000_0000,
                    0 <= i <= 0x1_0000_0000,
            ;
        }
        let x: i128 = round_div_exec(dx * i + base, dy);
        out.push(Point { x: x as i32, y: (top.y as i128 + i) as i32 });
        i = i + 1;
    }
    assert(out@ =~= edge_points(a, b));
    out
}

/// No point of `s` lies on a scanline above that of a point before it.
pub open spec fn ascending_by_y(s: Seq<Point>) -> bool {
    forall|i: int, j: int| 0 <= i < j < s.len() ==> s[i].y <= s[j].y
}

/// The points of `s` that lie on scanline `y`, in the order they have in `s`.
pub open spec fn on_scanline(s: Seq<Point>, y: int) -> Seq<Point>
    decreases s.len(),
{
    if s.len() == 0 {
        Seq::empty()
    } else if s.last().y == y {
        on_scanline(s.drop_last(), y).push(s.last())
    } else {
        on_scanline(s.drop_last(), y)
    }
}

/// `out` holds the points of `inp` in scanline order, and those of one
/// scanline in the order they had in `inp`.
pub open spec fn sorted_stably_by_y(out: Seq<Point>, inp: Seq<Point>) -> bool {
    &&& ascending_by_y(out)
    &&& forall|y: int| #[trigger] on_scanline(out, y) == on_scanline(inp, y)
}

/// What a point appended to `s` adds to each scanline.
pub proof fn lemma_on_scanline_push(s: Seq<Point>, p: Point, y: int)
    ensures
        on_scanline(s.push(p), y) == if p.y == y {
            on_scanline(s, y).push(p)
        } else {
            on_scanline(s, y)
        },
{
    assert(s.push(p).drop_last() =~= s);
}

/// The points that `a + b` has on a scanline are those of `a` followed by
/// those of `b`.
pub proof fn lemma_on_scanline_concat(a: Seq<Point>, b: Seq<Point>, y: int)
    ensures
        on_scanline(a + b, y) == on_scanline(a, y) + on_scanline(b, y),
    decreases b.len(),
{
    if b.len() == 0 {
        assert(a + b =~= a);
        assert(on_scanline(a, y) + on_scanline(b, y) =~= on_scanline(a, y));
    } else {
        lemma_on_scanline_concat(a, b.drop_last(), y);
        assert((a + b).drop_last() =~= a + b.drop_last());
        let front = on_scanline(a, y);
        let back = on_scanline(b.drop_last(), y);
        assert((front + back).push(b.last()) =~= front + back.push(b.last()));
    }
}

/// A point lies in the part of `s` on scanline `y` only if it lies in `s`,
/// on that scanline.
pub proof fn lemma_on_scanline_members(s: Seq<Point>, y: int)
    ensures
        forall|k: int|
            0 <= k < on_scanline(s, y).len() ==> {
                &&& (#[trigger] on_scanline(s, y)[k]).y == y
                &&& s.contains(on_scanline(s, y)[k])
            },
        forall|i: int|
            0 <= i < s.len() && (#[trigger] s[i]).y == y ==> on_scanline(s, y).contains(s[i]),
    decreases s.len(),
{
    if s.len() > 0 {
        let front = s.drop_last();
        lemma_on_scanline_members(front, y);
        assert forall|k: int| 0 <= k < on_scanline(s, y).len() implies {
            &&& (#[trigger] on_scanline(s, y)[k]).y == y
            &&& s.contains(on_scanline(s, y)[k])
        } by {
            if k < on_scanline(front, y).len() {
                let q = on_scanline(front, y)[k];
                let w = choose|w: int| 0 <= w < front.len() && front[w] == q;
                assert(s[w] == q);
            } else {
                assert(s[s.len() - 1] == s.last());
            }
        }
        assert forall|i: int| 0 <= i < s.len() && (#[trigger] s[i]).y == y implies on_scanline(
            s,
            y,
        ).contains(s[i]) by {
            if i < front.len() {
                assert(front[i] == s[i]);
                let w = choose|w: int|
                    0 <= w < on_scanline(front, y).len() && on_scanline(front, y)[w] == s[i];
                assert(on_scanline(s, y)[w] == s[i]);
            } else {
                let row = on_scanline(front, y);
                assert(row.push(s.last())[row.len() as int] == s[i]);
            }
        }
    }
}

/// The samples of an edge come in scanline order.
pub proof fn lemma_edge_points_ascending(a: Point, b: Point)
    ensures
        ascending_by_y(edge_points(a, b)),
{
}

/// Putting points in scanline order neither adds nor drops one.
pub proof fn lemma_sorted_stably_same_points(out: Seq<Point>, inp: Seq<Point>)
    requires
        sorted_stably_by_y(out, inp),
    ensures
        forall|k: int| 0 <= k < out.len() ==> inp.contains(#[trigger] out[k]),
        forall|k: int| 0 <= k < inp.len() ==> out.contains(#[trigger] inp[k]),
{
    assert forall|k: int| 0 <= k < out.len() implies inp.contains(#[trigger] out[k]) by {
        let y = out[k].y as int;
        lemma_on_scanline_members(out, y);
        lemma_on_scanline_members(inp, y);
        let w = choose|w: int| 0 <= w < on_scanline(out, y).len() && on_scanline(out, y)[w] == out[k];
        assert(on_scanline(inp, y)[w] == out[k]);
    }
    assert forall|k: int| 0 <= k < inp.len() implies out.contains(#[trigger] inp[k]) by {
        let y = inp[k].y as int;
        lemma_on_scanline_members(out, y);
        lemma_on_scanline_members(inp, y);
        let w = choose|w: int| 0 <= w < on_scanline(inp, y).len() && on_scanline(inp, y)[w] == inp[k];
        assert(on_scanline(out, y)[w] == inp[k]);
    }
}

/// `p` lies in the upright box with the corners `lo` and `hi`.
pub open spec fn within(p: Point, lo: Point, hi: Point) -> bool {
    lo.x <= p.x <= hi.x && lo.y <= p.y <= hi.y
}

/// The samples of an edge lie in every upright box that holds its two ends.
pub proof fn lemma_edge_points_within(a: Point, b: Point, lo: Point, hi: Point)
    requires
        within(a, lo, hi),
        within(b, lo, hi),
    ensures
        forall|k: int|
            0 <= k < edge_points(a, b).len() ==> within(#[trigger] edge_points(a, b)[k], lo, hi),
{
    assert forall|k: int| 0 <= k < edge_points(a, b).len() implies within(
        #[trigger] edge_points(a, b)[k],
        lo,
        hi,
    ) by {
        if a.y > b.y {
            lemma_scan_x_within(b, a, k);
        } else {
            lemma_scan_x_within(a, b, k);
        }
    }
}

/// Two sequences in scanline order that agree on every scanline are the same
/// sequence: the order that `sorted_stably_by_y` asks for leaves no choice.
pub proof fn lemma_scanline_order_unique(u: Seq<Point>, v: Seq<Point>)
    requires
        ascending_by_y(u),
        ascending_by_y(v),
        forall|y: int| #[trigger] on_scanline(u, y) == on_scanline(v, y),
    ensures
        u == v,
    decreases u.len(),
{
    if u.len() == 0 {
        if v.len() > 0 {
            lemma_on_scanline_members(v, v[0].y as int);
            assert(on_scanline(u, v[0].y as int).len() == 0);
        }
    } else {
        let last = u.last();
        let y_last = last.y as int;
        let u_front = u.drop_last();
        assert(on_scanline(u, y_last) == on_scanline(u_front, y_last).push(last));
        lemma_on_scanline_members(v, y_last);
        let found = on_scanline(v, y_last)[0];
        let w = choose|w: int| 0 <= w < v.len() && v[w] == found;
        let v_last = v.last();
        let v_front = v.drop_last();
        let y_other = v_last.y as int;
        assert(v[w].y <= v[v.len() - 1].y);
        lemma_on_scanline_members(u, y_other);
        assert(on_scanline(v, y_other) == on_scanline(v_front, y_other).push(v_last));
        let back = on_scanline(u, y_other)[0];
        let z = choose|z: int| 0 <= z < u.len() && u[z] == back;
        assert(u[z].y <= u[u.len() - 1].y);
        assert(y_other == y_last);
        let us = on_scanline(u_front, y_last);
        let vs = on_scanline(v_front, y_last);
        assert(us.push(last) == vs.push(v_last));
        assert(us.push(last).last() == last);
        assert(vs.push(v_last).last() == v_last);
        assert(us.push(last).drop_last() =~= us);
        assert(vs.push(v_last).drop_last() =~= vs);
        assert forall|y: int| #[trigger] on_scanline(u_front, y) == on_scanline(v_front, y) by {
            assert(on_scanline(u, y) == on_scanline(v, y));
        }
        lemma_scanline_order_unique(u_front, v_front);
        assert(u =~= u_front.push(last));
        assert(v =~= v_front.push(v_last));
    }
}

/// Merges two runs that are each in scanline order into one. Where a point
/// of `a` and a point of `b` share a scanline, the one of `a` comes first.
pub fn merge_by_y(a: &Vec<Point>, b: &Vec<Point>) -> (out: Vec<Point>)
    requires
        ascending_by_y(a@),
        ascending_by_y(b@),
    ensures
        sorted_stably_by_y(out@, a@ + b@),
        out@.len() == a@.len() + b@.len(),
{
    let mut out: Vec<Point> = Vec::new();
    let mut i: usize = 0;
    let mut j: usize = 0;
    while i < a.len() || j < b.len()
        invariant
            i <= a.len(),
            j <= b.len(),
            out@.len() == i + j,
            ascending_by_y(a@),
            ascending_by_y(b@),
            ascending_by_y(out@),
            forall|k: int| 0 <= k < out@.len() && i < a.len() ==> out@[k].y <= a@[i as int].y,
            forall|k: int| 0 <= k < out@.len() && j < b.len() ==> out@[k].y <= b@[j as int].y,
            forall|k: int| 0 <= k < j && i < a.len() ==> b@[k].y < a@[i as int].y,
            forall|y: int| #[trigger]
                on_scanline(out@, y) == on_scanline(a@.take(i as int), y) + on_scanline(
                    b@.take(j as int),
                    y,
                ),
        decreases a.len() - i + b.len() - j,
    {
        let ghost before = out@;
        let from_a = if j >= b.len() {
            true
        } else if i >= a.len() {
            false
        } else {
            a[i].y <= b[j].y
        };
        if from_a {
            let p = a[i];
            out.push(p);
            proof {
                assert(a@.take(i + 1) =~= a@.take(i as int).push(p));
                assert forall|y: int| #[trigger]
                    on_scanline(out@, y) == on_scanline(a@.take(i + 1), y) + on_scanline(
                        b@.take(j as int),
                        y,
                    ) by {
                    lemma_on_scanline_push(before, p, y);
                    lemma_on_scanline_push(a@.take(i as int), p, y);
                    let front = on_scanline(a@.take(i as int), y);
                    let back = on_scanline(b@.take(j as int), y);
                    if p.y == y {
                        lemma_on_scanline_members(b@.take(j as int), y);
                        if back.len() > 0 {
                            let q = back[0];
                            let w = choose|w: int| 0 <= w < b@.take(j as int).len() && b@.take(j as int)[w] == q;
                            assert(b@[w].y < p.y);
                        }
                        assert((front + back).push(p) =~= front.push(p) + back);
                    }
                }
            }
            i = i + 1;
        } else {
            let p = b[j];
            out.push(p);
            proof {
                assert(b@.take(j + 1) =~= b@.take(j as int).push(p));
                assert forall|y: int| #[trigger]
                    on_scanline(out@, y) == on_scanline(a@.take(i as int), y) + on_scanline(
                        b@.take(j + 1),
                        y,
                    ) by {
                    lemma_on_scanline_push(before, p, y);
                    lemma_on_scanline_push(b@.take(j as int), p, y);
                    let front = on_scanline(a@.take(i as int), y);
                    let back = on_scanline(b@.take(j as int), y);
                    assert((front + back).push(p) =~= front + back.push(p));
                }
            }
            j = j + 1;
        }
    }
    proof {
        assert(a@.take(i as int) =~= a@);
        assert(b@.take(j as int) =~= b@);
        assert forall|y: int| #[trigger] on_scanline(out@, y) == on_scanline(a@ + b@, y) by {
            lemma_on_scanline_concat(a@, b@, y);
        }
    }
    out
}

impl Triangle {
    /// The samples of the three edges, edge after edge: from `p1` to `p2`,
    /// from `p2` to `p3`, from `p3` to `p1`.
    pub open spec fn edge_samples(self) -> Seq<Point> {
        edge_points(self.p1, self.p2) + edge_points(self.p2, self.p3) + edge_points(
            self.p3,
            self.p1,
        )
    }

    /// The outline as one run of points in scanline order, to be joined by
    /// straight strokes. Points of one scanline keep the order of the edges
    /// they come from.
    pub fn rasterize(&self) -> (out: Vec<Point>)
        ensures
            sorted_stably_by_y(out@, self.edge_samples()),
            out@.len() == self.edge_samples().len(),
    {
        let first = scan_edge(self.p1, self.p2);
        let second = scan_edge(self.p2, self.p3);
        let third = scan_edge(self.p3, self.p1);
        proof {
            lemma_edge_points_ascending(self.p1, self.p2);
            lemma_edge_points_ascending(self.p2, self.p3);
            lemma_edge_points_ascending(self.p3, self.p1);
        }
        let two = merge_by_y(&first, &second);
        let out = merge_by_y(&two, &third);
        proof {
            assert forall|y: int| #[trigger]
                on_scanline(out@, y) == on_scanline(self.edge_samples(), y) by {
                lemma_on_scanline_concat(first@, second@, y);
                lemma_on_scanline_concat(two@, third@, y);
                lemma_on_scanline_concat(first@ + second@, third@, y);
                assert(on_scanline(two@, y) == on_scanline(first@ + second@, y));
            }
        }
        out
    }
}

/// An edge of a triangle that lies in one scanline adds nothing to the
/// outline: what is left are the samples of the other two edges.
pub proof fn lemma_flat_edge_is_skipped(t: Triangle)
    ensures
        t.p1.y == t.p2.y ==> t.edge_samples() == edge_points(t.p2, t.p3) + edge_points(
            t.p3,
            t.p1,
        ),
        t.p2.y == t.p3.y ==> t.edge_samples() == edge_points(t.p1, t.p2) + edge_points(
            t.p3,
            t.p1,
        ),
        t.p3.y == t.p1.y ==> t.edge_samples() == edge_points(t.p1, t.p2) + edge_points(
            t.p2,
            t.p3,
        ),
{
    let none = Seq::<Point>::empty();
    let e1 = edge_points(t.p1, t.p2);
    let e2 = edge_points(t.p2, t.p3);
    let e3 = edge_points(t.p3, t.p1);
    assert(none + e2 =~= e2);
    assert(e1 + none =~= e1);
    assert(e1 + e2 + none =~= e1 + e2);
}

/// The outline of a triangle lies in every upright box that holds its three
/// vertices.
pub proof fn lemma_outline_within(t: Triangle, out: Seq<Point>, lo: Point, hi: Point)
    requires
        sorted_stably_by_y(out, t.edge_samples()),
        within(t.p1, lo, hi),
        within(t.p2, lo, hi),
        within(t.p3, lo, hi),
    ensures
        forall|k: int| 0 <= k < out.len() ==> within(#[trigger] out[k], lo, hi),
{
    let e1 = edge_points(t.p1, t.p2);
    let e2 = edge_points(t.p2, t.p3);
    let e3 = edge_points(t.p3, t.p1);
    lemma_edge_points_within(t.p1, t.p2, lo, hi);
    lemma_edge_points_within(t.p2, t.p3, lo, hi);
    lemma_edge_points_within(t.p3, t.p1, lo, hi);
    lemma_sorted_stably_same_points(out, t.edge_samples());
    assert forall|k: int| 0 <= k < out.len() implies within(#[trigger] out[k], lo, hi) by {
        let all = t.edge_samples();
        let w = choose|w: int| 0 <= w < all.len() && all[w] == out[k];
        if w < e1.len() {
            assert(all[w] == e1[w]);
        } else if w < e1.len() + e2.len() {
            assert(all[w] == e2[w - e1.len()]);
        } else {
            assert(all[w] == e3[w - e1.len() - e2.len()]);
        }
    }
}

/// The outline of a triangle is fixed by the triangle: two runs of points
/// that both are its outline are equal, point for point.
pub proof fn lemma_outline_determined(t: Triangle, u: Seq<Point>, v: Seq<Point>)
    requires
        sorted_stably_by_y(u, t.edge_samples()),
        sorted_stably_by_y(v, t.edge_samples()),
    ensures
        u == v,
{
    assert forall|y: int| #[trigger] on_scanline(u, y) == on_scanline(v, y) by {
        assert(on_scanline(u, y) == on_scanline(t.edge_samples(), y));
        assert(on_scanline(v, y) == on_scanline(t.edge_samples(), y));
    }
    lemma_scanline_order_unique(u, v);
}

} // verus!
