//! Grid coordinates addressed by row `i` and column `j`.
//!
//! Moves are stored as wrapping offsets: `usize::MAX` stands for `-1`, so a
//! step off the top or left edge wraps to a huge value that `in_map` rejects.
use vstd::prelude::*;

verus! {

/// The row offset `-1` as a wrapping `usize`.
pub const NEG: usize = usize::MAX;

/// `x + d` brought back into the `usize` range by one turn around it (exact for
/// `-(usize::MAX + 1) <= x + d <= 2 * usize::MAX + 1`).
pub open spec fn wrap(x: int, d: int) -> usize {
    if x + d < 0 {
        (x + d + usize::MAX + 1) as usize
    } else if x + d > usize::MAX {
        (x + d - usize::MAX - 1) as usize
    } else {
        (x + d) as usize
    }
}

/// The offset that a wrapping `usize` stands for: values above half the range
/// are negative.
pub open spec fn signed(x: usize) -> int {
    if x > usize::MAX / 2 { x - (usize::MAX as int + 1) } else { x as int }
}

#[derive(Debug, Clone, Copy, PartialEq, Eq, Structural, PartialOrd, Ord, Hash)]
pub struct Coord {
    pub i: usize,
    pub j: usize,
}

impl Coord {
    pub fn new(i: usize, j: usize) -> (c: Coord)
        ensures
            c.i == i,
            c.j == j,
    {
        Coord { i, j }
    }

    pub open spec fn in_map_spec(self, n: usize) -> bool {
        self.i < n && self.j < n
    }

    /// Whether both components lie in `0..n`.
    pub fn in_map(self, n: usize) -> (b: bool)
        ensures
            b == self.in_map_spec(n),
    {
        self.i < n && self.j < n
    }

    /// The component-wise wrapping sum.
    pub open spec fn add_spec(self, rhs: Coord) -> Coord {
        Coord { i: wrap(self.i as int, rhs.i as int), j: wrap(self.j as int, rhs.j as int) }
    }

    /// The component-wise wrapping product.
    pub open spec fn mul_spec(self, rhs: Coord) -> Coord {
        Coord {
            i: ((self.i as int * rhs.i as int) % (usize::MAX as int + 1)) as usize,
            j: ((self.j as int * rhs.j as int) % (usize::MAX as int + 1)) as usize,
        }
    }

    /// Component-wise wrapping sum (the `+` of the grid).
    pub fn add_wrapping(self, rhs: Coord) -> (c: Coord)
        ensures
            c == self.add_spec(rhs),
            c.i == wrap(self.i as int, rhs.i as int),
            c.j == wrap(self.j as int, rhs.j as int),
    {
        Coord { i: self.i.wrapping_add(rhs.i), j: self.j.wrapping_add(rhs.j) }
    }

    /// Component-wise wrapping difference (the `-` of the grid).
    pub fn sub_wrapping(self, rhs: Coord) -> (c: Coord)
        ensures
            c.i == wrap(self.i as int, -(rhs.i as int)),
            c.j == wrap(self.j as int, -(rhs.j as int)),
    {
        Coord { i: self.i.wrapping_sub(rhs.i), j: self.j.wrapping_sub(rhs.j) }
    }

    /// Component-wise wrapping product (the `*` of the grid), used to scale a
    /// unit step by an arm length.
    pub fn mul_wrapping(self, rhs: Coord) -> (c: Coord)
        ensures
            c == self.mul_spec(rhs),
            c.i == ((self.i as int * rhs.i as int) % (usize::MAX as int + 1)) as usize,
            c.j == ((self.j as int * rhs.j as int) % (usize::MAX as int + 1)) as usize,
    {
        Coord { i: self.i.wrapping_mul(rhs.i), j: self.j.wrapping_mul(rhs.j) }
    }
}

/// The row and column offsets of the four unit steps Right, Down, Left, Up,
/// and of staying put (`k == 4`).
pub open spec fn dij_spec(k: int) -> (int, int) {
    if k == 0 {
        (0, 1)
    } else if k == 1 {
        (1, 0)
    } else if k == 2 {
        (0, -1)
    } else if k == 3 {
        (-1, 0)
    } else {
        (0, 0)
    }
}

/// The steps go round clockwise from Right: step 0 moves one column right,
/// each next step is the one before turned a quarter clockwise (row step
/// and column step `(a, b)` become `(b, -a)`), step 4 stays put.
pub proof fn law_steps_clockwise()
    ensures
        dij_spec(0) == (0int, 1int),
        forall|k: int| 0 <= k < 4 ==> #[trigger] dij_spec((k + 1) % 4) == (dij_spec(k).1, -dij_spec(k).0),
        dij_spec(4) == (0int, 0int),
{
}

/// The `k`-th unit step as a wrapping offset.
pub open spec fn dij_coord(k: int) -> Coord {
    Coord { i: wrap(0, dij_spec(k).0), j: wrap(0, dij_spec(k).1) }
}

/// The `k`-th unit step (Right, Down, Left, Up) as wrapping offsets; `k == 4`
/// gives the zero step.
pub fn dij5(k: usize) -> (c: Coord)
    requires
        k < 5,
    ensures
        c == dij_coord(k as int),
        signed(c.i) == dij_spec(k as int).0,
        signed(c.j) == dij_spec(k as int).1,
        c.i == wrap(0, dij_spec(k as int).0),
        c.j == wrap(0, dij_spec(k as int).1),
{
    if k == 0 {
        Coord { i: 0, j: 1 }
    } else if k == 1 {
        Coord { i: 1, j: 0 }
    } else if k == 2 {
        Coord { i: 0, j: NEG }
    } else if k == 3 {
        Coord { i: NEG, j: 0 }
    } else {
        Coord { i: 0, j: 0 }
    }
}

/// The offsets of the squares within Manhattan distance 2 (the square
/// itself included), row by row.
pub open spec fn adj_spec(k: int) -> (int, int) {
    if k == 0 { (-2, 0) }
    else if k == 1 { (-1, -1) } else if k == 2 { (-1, 0) } else if k == 3 { (-1, 1) }
    else if k == 4 { (0, -2) } else if k == 5 { (0, -1) } else if k == 6 { (0, 0) }
    else if k == 7 { (0, 1) } else if k == 8 { (0, 2) }
    else if k == 9 { (1, -1) } else if k == 10 { (1, 0) } else if k == 11 { (1, 1) }
    else { (2, 0) }
}

/// The `k`-th offset within Manhattan distance 2, as wrapping offsets.
pub fn adj(k: usize) -> (c: Coord)
    requires
        k < 13,
    ensures
        c.i == wrap(0, adj_spec(k as int).0),
        c.j == wrap(0, adj_spec(k as int).1),
{
    let (di, dj): (usize, usize) = if k == 0 { (NEG - 1, 0) }
        else if k == 1 { (NEG, NEG) } else if k == 2 { (NEG, 0) } else if k == 3 { (NEG, 1) }
        else if k == 4 { (0, NEG - 1) } else if k == 5 { (0, NEG) } else if k == 6 { (0, 0) }
        else if k == 7 { (0, 1) } else if k == 8 { (0, 2) }
        else if k == 9 { (1, NEG) } else if k == 10 { (1, 0) } else if k == 11 { (1, 1) }
        else { (2, 0) };
    Coord { i: di, j: dj }
}

pub open spec fn abs_diff_spec(a: usize, b: usize) -> nat {
    if a >= b { (a - b) as nat } else { (b - a) as nat }
}

/// `|a - b|`.
pub fn abs_diff(a: usize, b: usize) -> (d: usize)
    ensures
        d == abs_diff_spec(a, b),
{
    if a >= b { a - b } else { b - a }
}

pub open spec fn manhattan_spec(a: Coord, b: Coord) -> int {
    (abs_diff_spec(a.i, b.i) + abs_diff_spec(a.j, b.j)) as int
}

/// The Manhattan distance `|a.i - b.i| + |a.j - b.j|`.
pub fn calc_manhattan_dist(a: Coord, b: Coord) -> (d: usize)
    requires
        manhattan_spec(a, b) <= usize::MAX,
    ensures
        d == manhattan_spec(a, b),
{
    abs_diff(a.i, b.i) + abs_diff(a.j, b.j)
}

} // verus!
