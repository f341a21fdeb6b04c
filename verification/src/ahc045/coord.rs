//! Points of the plane with `usize` coordinates `x`, `y`.
use vstd::prelude::*;
use crate::coord::wrap;

verus! {

/// The offset `-1` as a wrapping `usize`.
pub const NEG: usize = usize::MAX;

#[derive(Debug, Clone, Copy, PartialEq, Eq, Structural, PartialOrd, Ord, Hash)]
pub struct Coord {
    pub x: usize,
    pub y: usize,
}

pub open spec fn abs_diff_spec(a: usize, b: usize) -> nat {
    if a >= b { (a - b) as nat } else { (b - a) as nat }
}

/// `|a - b|`.
fn abs_diff(a: usize, b: usize) -> (d: usize)
    ensures
        d == abs_diff_spec(a, b),
{
    if a >= b { a - b } else { b - a }
}

/// The whole square root of `d`: the largest `r` with `r * r <= d`.
pub open spec fn is_isqrt(r: nat, d: nat) -> bool {
    r * r <= d < (r + 1) * (r + 1)
}

/// The whole square root of `d` (the square root rounded down).
pub fn isqrt(d: usize) -> (r: usize)
    ensures
        is_isqrt(r as nat, d as nat),
{
    let dd: u128 = d as u128;
    let mut lo: u128 = 0;
    let mut hi: u128 = dd + 1;
    proof {
        assert(hi * hi > dd) by (nonlinear_arith)
            requires hi == dd + 1;
    }
    while hi - lo > 1
        invariant
            lo < hi <= dd + 1,
            dd == d,
            dd <= usize::MAX,
            lo * lo <= dd,
            hi * hi > dd,
        decreases hi - lo,
    {
        let mid = lo + (hi - lo) / 2;
        proof {
            assert(mid * mid <= dd * dd) by (nonlinear_arith)
                requires mid <= dd;
            assert(dd * dd <= 0xFFFF_FFFF_FFFF_FFFFu128 * 0xFFFF_FFFF_FFFF_FFFFu128) by (nonlinear_arith)
                requires dd <= 0xFFFF_FFFF_FFFF_FFFFu128;
        }
        if mid * mid <= dd {
            lo = mid;
        } else {
            hi = mid;
        }
    }
    proof {
        assert(hi == lo + 1);
    }
    lo as usize
}

impl Coord {
    pub fn new(x: usize, y: usize) -> (c: Coord)
        ensures
            c.x == x,
            c.y == y,
    {
        Coord { x, y }
    }

    pub open spec fn in_map_spec(self, size: usize) -> bool {
        self.x < size && self.y < size
    }

    /// Whether both coordinates lie in `0..size`.
    pub fn in_map(self, size: usize) -> (b: bool)
        ensures
            b == self.in_map_spec(size),
    {
        self.x < size && self.y < size
    }

    pub open spec fn manhattan_spec(self, other: Coord) -> nat {
        abs_diff_spec(self.x, other.x) + abs_diff_spec(self.y, other.y)
    }

    /// `|dx| + |dy|`.
    pub fn manhattan_dist(self, other: Coord) -> (d: usize)
        requires
            self.manhattan_spec(other) <= usize::MAX,
        ensures
            d == self.manhattan_spec(other),
    {
        abs_diff(self.x, other.x) + abs_diff(self.y, other.y)
    }

    pub open spec fn dist2_spec(self, other: Coord) -> nat {
        abs_diff_spec(self.x, other.x) * abs_diff_spec(self.x, other.x)
            + abs_diff_spec(self.y, other.y) * abs_diff_spec(self.y, other.y)
    }

    /// The squared Euclidean distance `dx * dx + dy * dy`.
    pub fn euclidean_dist2(self, other: Coord) -> (d: usize)
        requires
            self.dist2_spec(other) <= usize::MAX,
        ensures
            d == self.dist2_spec(other),
    {
        let dx = abs_diff(self.x, other.x);
        let dy = abs_diff(self.y, other.y);
        proof {
            assert(dx * dx <= dx * dx + dy * dy) by (nonlinear_arith);
        }
        dx * dx + dy * dy
    }

    /// The Euclidean distance rounded down.
    pub fn euclidean_dist(self, other: Coord) -> (d: usize)
        requires
            self.dist2_spec(other) <= usize::MAX,
        ensures
            is_isqrt(d as nat, self.dist2_spec(other)),
    {
        isqrt(self.euclidean_dist2(other))
    }

    /// Component-wise wrapping sum.
    pub fn add_wrapping(self, rhs: Coord) -> (c: Coord)
        ensures
            c.x == wrap(self.x as int, rhs.x as int),
            c.y == wrap(self.y as int, rhs.y as int),
    {
        Coord { x: self.x.wrapping_add(rhs.x), y: self.y.wrapping_add(rhs.y) }
    }

    /// Component-wise wrapping difference.
    pub fn sub_wrapping(self, rhs: Coord) -> (c: Coord)
        ensures
            c.x == wrap(self.x as int, -(rhs.x as int)),
            c.y == wrap(self.y as int, -(rhs.y as int)),
    {
        Coord { x: self.x.wrapping_sub(rhs.x), y: self.y.wrapping_sub(rhs.y) }
    }

    /// Component-wise wrapping product.
    pub fn mul_wrapping(self, rhs: Coord) -> (c: Coord)
        ensures
            c.x == (self.x as int * rhs.x as int) % (usize::MAX as int + 1),
            c.y == (self.y as int * rhs.y as int) % (usize::MAX as int + 1),
    {
        Coord { x: self.x.wrapping_mul(rhs.x), y: self.y.wrapping_mul(rhs.y) }
    }
}

} // verus!
