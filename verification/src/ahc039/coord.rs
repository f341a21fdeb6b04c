//! Points of the plane with `x` and `y` coordinates.
use vstd::prelude::*;
use crate::coord::{wrap, abs_diff, abs_diff_spec, NEG};

verus! {

#[derive(Debug, Clone, Copy, PartialEq, Eq, Structural, PartialOrd, Ord, Hash)]
pub struct Coord {
    pub x: usize,
    pub y: usize,
}

impl Coord {
    pub fn new(x: usize, y: usize) -> (c: Coord)
        ensures
            c.x == x,
            c.y == y,
    {
        Coord { x, y }
    }

    pub open spec fn in_map_spec(self, size: usize) -> bool {
        self.x < size && self.y < size
    }

    /// Whether both coordinates lie in `0..size`.
    pub fn in_map(self, size: usize) -> (b: bool)
        ensures
            b == self.in_map_spec(size),
    {
        self.x < size && self.y < size
    }

    pub open spec fn add_spec(self, rhs: Coord) -> Coord {
        Coord { x: wrap(self.x as int, rhs.x as int), y: wrap(self.y as int, rhs.y as int) }
    }

    /// Component-wise wrapping sum (the `+` of the plane).
    pub fn add_wrapping(self, rhs: Coord) -> (c: Coord)
        ensures
            c == self.add_spec(rhs),
    {
        Coord { x: self.x.wrapping_add(rhs.x), y: self.y.wrapping_add(rhs.y) }
    }
}

/// The offsets Up, Right, Down, Left.
pub open spec fn dxy4_spec(k: int) -> (int, int) {
    if k == 0 { (0, 1) } else if k == 1 { (1, 0) } else if k == 2 { (0, -1) } else { (-1, 0) }
}

/// The `k`-th of the four unit steps Up, Right, Down, Left.
pub fn dxy4(k: usize) -> (c: Coord)
    requires
        k < 4,
    ensures
        c.x == wrap(0, dxy4_spec(k as int).0),
        c.y == wrap(0, dxy4_spec(k as int).1),
{
    if k == 0 {
        Coord { x: 0, y: 1 }
    } else if k == 1 {
        Coord { x: 1, y: 0 }
    } else if k == 2 {
        Coord { x: 0, y: NEG }
    } else {
        Coord { x: NEG, y: 0 }
    }
}

/// The lattice point next to `c` in direction `k` (Up, Right, Down, Left).
pub open spec fn nb(c: Coord, k: int) -> Coord {
    Coord { x: wrap(c.x as int, dxy4_spec(k).0), y: wrap(c.y as int, dxy4_spec(k).1) }
}

/// A step from a cell of an `n x n` grid stays on it exactly when the integer
/// coordinates do.
pub proof fn lemma_nb(c: Coord, k: int, n: usize)
    requires
        c.in_map_spec(n),
        0 <= k < 4,
        n <= usize::MAX / 2,
    ensures
        nb(c, k).in_map_spec(n) <==> (0 <= c.x + dxy4_spec(k).0 < n && 0 <= c.y + dxy4_spec(k).1 < n),
        nb(c, k).in_map_spec(n) ==> nb(c, k).x == c.x + dxy4_spec(k).0 && nb(c, k).y == c.y + dxy4_spec(k).1,
{
}

/// The offsets to the four cells around a lattice point: `(0, 0)`,
/// `(-1, 0)`, `(0, -1)`, `(-1, -1)`.
pub open spec fn two_by_two_spec(k: int) -> (int, int) {
    if k == 0 { (0, 0) } else if k == 1 { (-1, 0) } else if k == 2 { (0, -1) } else { (-1, -1) }
}

/// The `k`-th of the four cells around a lattice point, as an offset.
pub fn two_by_two(k: usize) -> (c: Coord)
    requires
        k < 4,
    ensures
        c.x == wrap(0, two_by_two_spec(k as int).0),
        c.y == wrap(0, two_by_two_spec(k as int).1),
{
    if k == 0 {
        Coord { x: 0, y: 0 }
    } else if k == 1 {
        Coord { x: NEG, y: 0 }
    } else if k == 2 {
        Coord { x: 0, y: NEG }
    } else {
        Coord { x: NEG, y: NEG }
    }
}

/// `|a.x - b.x| + |a.y - b.y|`.
pub fn calc_manhattan_dist(a: Coord, b: Coord) -> (d: usize)
    requires
        abs_diff_spec(a.x, b.x) + abs_diff_spec(a.y, b.y) <= usize::MAX,
    ensures
        d == abs_diff_spec(a.x, b.x) + abs_diff_spec(a.y, b.y),
{
    abs_diff(a.x, b.x) + abs_diff(a.y, b.y)
}

pub open spec fn dist2_spec(a: Coord, b: Coord) -> int {
    (a.x - b.x) * (a.x - b.x) + (a.y - b.y) * (a.y - b.y)
}

/// The squared Euclidean distance `(a.x - b.x)^2 + (a.y - b.y)^2`.
pub fn calc_dist2(a: Coord, b: Coord) -> (d: usize)
    requires
        dist2_spec(a, b) <= usize::MAX,
    ensures
        d == dist2_spec(a, b),
{
    let dx = abs_diff(a.x, b.x);
    let dy = abs_diff(a.y, b.y);
    proof {
        assert(dx * dx == (a.x - b.x) * (a.x - b.x)) by (nonlinear_arith)
            requires dx == abs_diff_spec(a.x, b.x);
        assert(dy * dy == (a.y - b.y) * (a.y - b.y)) by (nonlinear_arith)
            requires dy == abs_diff_spec(a.y, b.y);
        assert(0 <= dx * dx) by (nonlinear_arith);
        assert(0 <= dy * dy) by (nonlinear_arith);
    }
    dx * dx + dy * dy
}

} // verus!
