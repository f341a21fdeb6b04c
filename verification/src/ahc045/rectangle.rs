//! Axis-parallel rectangles `[x_min, x_max] x [y_min, y_max]`.
use vstd::prelude::*;
use crate::ahc045::coord::{Coord, abs_diff_spec, isqrt, is_isqrt};
use crate::rng::gen_range_inclusive;

verus! {

#[derive(Debug, Clone, Copy)]
pub struct Rect {
    pub x_min: usize,
    pub x_max: usize,
    pub y_min: usize,
    pub y_max: usize,
}

/// The gap between the intervals `[a0, a1]` and `[b0, b1]` (0 when they
/// meet).
pub open spec fn gap(a0: usize, a1: usize, b0: usize, b1: usize) -> nat {
    if a1 < b0 { (b0 - a1) as nat } else if b1 < a0 { (a0 - b1) as nat } else { 0 }
}

/// The largest distance between an end of `[a0, a1]` and an end of
/// `[b0, b1]`.
pub open spec fn spread(a0: usize, a1: usize, b0: usize, b1: usize) -> nat {
    let d1 = abs_diff_spec(a0, b0);
    let d2 = abs_diff_spec(a0, b1);
    let d3 = abs_diff_spec(a1, b0);
    let d4 = abs_diff_spec(a1, b1);
    let m12 = if d1 >= d2 { d1 } else { d2 };
    let m123 = if m12 >= d3 { m12 } else { d3 };
    if m123 >= d4 { m123 } else { d4 }
}

fn gap_exec(a0: usize, a1: usize, b0: usize, b1: usize) -> (g: usize)
    ensures
        g == gap(a0, a1, b0, b1),
{
    if a1 < b0 {
        b0 - a1
    } else if b1 < a0 {
        a0 - b1
    } else {
        0
    }
}

fn diff(a: usize, b: usize) -> (d: usize)
    ensures
        d == abs_diff_spec(a, b),
{
    if a >= b { a - b } else { b - a }
}

fn spread_exec(a0: usize, a1: usize, b0: usize, b1: usize) -> (s: usize)
    ensures
        s == spread(a0, a1, b0, b1),
{
    let d1 = diff(a0, b0);
    let d2 = diff(a0, b1);
    let d3 = diff(a1, b0);
    let d4 = diff(a1, b1);
    let m12 = if d1 >= d2 { d1 } else { d2 };
    let m123 = if m12 >= d3 { m12 } else { d3 };
    if m123 >= d4 { m123 } else { d4 }
}

impl Rect {
    /// The midpoint, each coordinate rounded down.
    pub fn center(&self) -> (c: Coord)
        requires
            self.x_min + self.x_max <= usize::MAX,
            self.y_min + self.y_max <= usize::MAX,
        ensures
            c.x == (self.x_min + self.x_max) / 2,
            c.y == (self.y_min + self.y_max) / 2,
    {
        Coord { x: (self.x_min + self.x_max) / 2, y: (self.y_min + self.y_max) / 2 }
    }

    /// The longer of the width and the height.
    pub fn long_side(&self) -> (l: usize)
        requires
            self.x_min <= self.x_max,
            self.y_min <= self.y_max,
        ensures
            l == if self.x_max - self.x_min >= self.y_max - self.y_min {
                self.x_max - self.x_min
            } else {
                self.y_max - self.y_min
            },
    {
        let w = self.x_max - self.x_min;
        let h = self.y_max - self.y_min;
        if w >= h { w } else { h }
    }

    /// A point of the rectangle drawn with `rng`.
    pub fn random_coord(&self, rng: &mut rand_pcg::Mcg128Xsl64) -> (c: Coord)
        requires
            self.x_min <= self.x_max,
            self.y_min <= self.y_max,
        ensures
            self.x_min <= c.x <= self.x_max,
            self.y_min <= c.y <= self.y_max,
    {
        let x = gen_range_inclusive(rng, self.x_min, self.x_max);
        let y = gen_range_inclusive(rng, self.y_min, self.y_max);
        Coord { x, y }
    }

    pub open spec fn min_dist2(&self, other: &Rect) -> nat {
        let dx = gap(self.x_min, self.x_max, other.x_min, other.x_max);
        let dy = gap(self.y_min, self.y_max, other.y_min, other.y_max);
        dx * dx + dy * dy
    }

    /// The distance between the closest points of the two rectangles,
    /// rounded down.
    pub fn min_dist(&self, other: &Rect) -> (d: usize)
        requires
            self.min_dist2(other) <= usize::MAX,
        ensures
            is_isqrt(d as nat, self.min_dist2(other)),
    {
        let dx = gap_exec(self.x_min, self.x_max, other.x_min, other.x_max);
        let dy = gap_exec(self.y_min, self.y_max, other.y_min, other.y_max);
        proof {
            assert(dx * dx <= dx * dx + dy * dy) by (nonlinear_arith);
        }
        isqrt(dx * dx + dy * dy)
    }

    pub open spec fn max_dist2(&self, other: &Rect) -> nat {
        let dx = spread(self.x_min, self.x_max, other.x_min, other.x_max);
        let dy = spread(self.y_min, self.y_max, other.y_min, other.y_max);
        dx * dx + dy * dy
    }

    /// The distance between the farthest corners of the two rectangles,
    /// rounded down.
    pub fn max_dist(&self, other: &Rect) -> (d: usize)
        requires
            self.max_dist2(other) <= usize::MAX,
        ensures
            is_isqrt(d as nat, self.max_dist2(other)),
    {
        let dx = spread_exec(self.x_min, self.x_max, other.x_min, other.x_max);
        let dy = spread_exec(self.y_min, self.y_max, other.y_min, other.y_max);
        proof {
            assert(dx * dx <= dx * dx + dy * dy) by (nonlinear_arith);
        }
        isqrt(dx * dx + dy * dy)
    }
}

/// Whether point `p` lies in rectangle `r`.
pub open spec fn contains_point(r: Rect, p: Coord) -> bool {
    r.x_min <= p.x <= r.x_max && r.y_min <= p.y <= r.y_max
}

/// On one axis, two points of two intervals lie at least the gap and at
/// most the spread apart.
proof fn lemma_axis_between(a0: usize, a1: usize, b0: usize, b1: usize, p: usize, q: usize)
    requires
        a0 <= p <= a1,
        b0 <= q <= b1,
    ensures
        gap(a0, a1, b0, b1) <= abs_diff_spec(p, q) <= spread(a0, a1, b0, b1),
{
}

/// On one axis, the gap and the spread are distances between points of the
/// two intervals.
proof fn lemma_axis_attained(a0: usize, a1: usize, b0: usize, b1: usize) -> (r: (usize, usize, usize, usize))
    requires
        a0 <= a1,
        b0 <= b1,
    ensures
        a0 <= r.0 <= a1 && b0 <= r.1 <= b1 && abs_diff_spec(r.0, r.1) == gap(a0, a1, b0, b1),
        a0 <= r.2 <= a1 && b0 <= r.3 <= b1 && abs_diff_spec(r.2, r.3) == spread(a0, a1, b0, b1),
{
    let g = if a1 < b0 { (a1, b0) } else if b1 < a0 { (a0, b1) } else if a0 <= b0 { (b0, b0) } else { (a0, a0) };
    let d1 = abs_diff_spec(a0, b0);
    let d2 = abs_diff_spec(a0, b1);
    let d3 = abs_diff_spec(a1, b0);
    let d4 = abs_diff_spec(a1, b1);
    let m12 = if d1 >= d2 { (a0, b0, d1) } else { (a0, b1, d2) };
    let m123 = if m12.2 >= d3 { m12 } else { (a1, b0, d3) };
    let m = if m123.2 >= d4 { m123 } else { (a1, b1, d4) };
    (g.0, g.1, m.0, m.1)
}

/// A square is monotone on lengths.
proof fn lemma_square_mono(x: nat, y: nat)
    requires
        x <= y,
    ensures
        x * x <= y * y,
{
    assert(x * x <= y * y) by (nonlinear_arith)
        requires x <= y;
}

/// Between a point of one rectangle and a point of the other, the squared
/// distance lies between `min_dist2` and `max_dist2`.
pub proof fn law_dist_between_points(a: Rect, b: Rect, p: Coord, q: Coord)
    requires
        contains_point(a, p),
        contains_point(b, q),
    ensures
        a.min_dist2(&b) <= p.dist2_spec(q) <= a.max_dist2(&b),
{
    lemma_axis_between(a.x_min, a.x_max, b.x_min, b.x_max, p.x, q.x);
    lemma_axis_between(a.y_min, a.y_max, b.y_min, b.y_max, p.y, q.y);
    lemma_square_mono(gap(a.x_min, a.x_max, b.x_min, b.x_max), abs_diff_spec(p.x, q.x));
    lemma_square_mono(gap(a.y_min, a.y_max, b.y_min, b.y_max), abs_diff_spec(p.y, q.y));
    lemma_square_mono(abs_diff_spec(p.x, q.x), spread(a.x_min, a.x_max, b.x_min, b.x_max));
    lemma_square_mono(abs_diff_spec(p.y, q.y), spread(a.y_min, a.y_max, b.y_min, b.y_max));
}

/// `min_dist2` and `max_dist2` are squared distances between points of the
/// two rectangles: with `law_dist_between_points`, the least and the
/// greatest of them.
pub proof fn law_dist_attained(a: Rect, b: Rect)
    requires
        a.x_min <= a.x_max,
        a.y_min <= a.y_max,
        b.x_min <= b.x_max,
        b.y_min <= b.y_max,
    ensures
        exists|p: Coord, q: Coord| contains_point(a, p) && contains_point(b, q) && #[trigger] p.dist2_spec(q) == a.min_dist2(&b),
        exists|p: Coord, q: Coord| contains_point(a, p) && contains_point(b, q) && #[trigger] p.dist2_spec(q) == a.max_dist2(&b),
{
    let x = lemma_axis_attained(a.x_min, a.x_max, b.x_min, b.x_max);
    let y = lemma_axis_attained(a.y_min, a.y_max, b.y_min, b.y_max);
    let p1 = Coord { x: x.0, y: y.0 };
    let q1 = Coord { x: x.1, y: y.1 };
    let p2 = Coord { x: x.2, y: y.2 };
    let q2 = Coord { x: x.3, y: y.3 };
    assert(p1.dist2_spec(q1) == a.min_dist2(&b));
    assert(p2.dist2_spec(q2) == a.max_dist2(&b));
}

/// The distances between two rectangles do not depend on their order.
pub proof fn law_dist_symmetric(a: Rect, b: Rect)
    requires
        a.x_min <= a.x_max,
        a.y_min <= a.y_max,
        b.x_min <= b.x_max,
        b.y_min <= b.y_max,
    ensures
        a.min_dist2(&b) == b.min_dist2(&a),
        a.max_dist2(&b) == b.max_dist2(&a),
{
}

/// Of two whole square roots, the one of the smaller number is not larger:
/// so `min_dist` is at most `max_dist` (their squares are ordered by
/// `law_dist_between_points` and `law_dist_attained`).
pub proof fn law_min_dist_le_max_dist(a: Rect, b: Rect, d1: nat, d2: nat)
    requires
        a.x_min <= a.x_max,
        a.y_min <= a.y_max,
        b.x_min <= b.x_max,
        b.y_min <= b.y_max,
        is_isqrt(d1, a.min_dist2(&b)),
        is_isqrt(d2, a.max_dist2(&b)),
    ensures
        d1 <= d2,
{
    let x = lemma_axis_attained(a.x_min, a.x_max, b.x_min, b.x_max);
    let y = lemma_axis_attained(a.y_min, a.y_max, b.y_min, b.y_max);
    let p = Coord { x: x.0, y: y.0 };
    let q = Coord { x: x.1, y: y.1 };
    law_dist_between_points(a, b, p, q);
    let m1 = a.min_dist2(&b);
    let m2 = a.max_dist2(&b);
    assert(d1 <= d2) by (nonlinear_arith)
        requires d1 * d1 <= m1, m1 <= m2, m2 < (d2 + 1) * (d2 + 1);
}

} // verus!
