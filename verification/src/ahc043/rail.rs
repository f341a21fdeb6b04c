//! Rail pieces and the piece that joins two consecutive steps of a route.
use vstd::prelude::*;
use crate::coord::{Coord, NEG, wrap};

verus! {

/// The six rail pieces, named by the two sides of the square they join.
#[derive(Debug, Clone, Copy, PartialEq, Eq, Structural)]
pub enum RailType {
    LeftToRight,
    UpToDown,
    LeftToDown,
    LeftToUp,
    UpToRight,
    DownToRight,
}

impl RailType {
    pub open spec fn code_spec(self) -> i64 {
        match self {
            RailType::LeftToRight => 1,
            RailType::UpToDown => 2,
            RailType::LeftToDown => 3,
            RailType::LeftToUp => 4,
            RailType::UpToRight => 5,
            RailType::DownToRight => 6,
        }
    }

    /// The number of the piece in the output format (1 to 6).
    pub fn code(self) -> (c: i64)
        ensures
            c == self.code_spec(),
    {
        match self {
            RailType::LeftToRight => 1,
            RailType::UpToDown => 2,
            RailType::LeftToDown => 3,
            RailType::LeftToUp => 4,
            RailType::UpToRight => 5,
            RailType::DownToRight => 6,
        }
    }
}

/// What occupies a square.
#[derive(Debug, Clone, Copy, PartialEq, Eq, Structural)]
pub enum Entity {
    Station,
    Rail(RailType),
    Empty,
}

/// `(di, dj)` is one of the four unit steps.
pub open spec fn unit(d: (int, int)) -> bool {
    d == (1int, 0int) || d == (-1int, 0int) || d == (0int, 1int) || d == (0int, -1int)
}

/// The step from `a` to `b`.
pub open spec fn delta(a: Coord, b: Coord) -> (int, int) {
    (b.i - a.i, b.j - a.j)
}

/// A route enters a square by step `a` and leaves it by step `b`, without
/// turning back.
pub open spec fn valid_turn(a: (int, int), b: (int, int)) -> bool {
    unit(a) && unit(b) && b != (-a.0, -a.1)
}

/// The piece that joins entering by step `a` and leaving by step `b`.
pub open spec fn rail_spec(a: (int, int), b: (int, int)) -> RailType {
    if a.1 == 0 && b.1 == 0 {
        RailType::UpToDown
    } else if a.0 == 0 && b.0 == 0 {
        RailType::LeftToRight
    } else if a == (1int, 0int) {
        if b == (0int, 1int) { RailType::UpToRight } else { RailType::LeftToUp }
    } else if a == (-1int, 0int) {
        if b == (0int, 1int) { RailType::DownToRight } else { RailType::LeftToDown }
    } else if a == (0int, 1int) {
        if b == (1int, 0int) { RailType::LeftToDown } else { RailType::LeftToUp }
    } else {
        if b == (1int, 0int) { RailType::DownToRight } else { RailType::UpToRight }
    }
}

/// The component of a wrapping difference of two coordinates that are one
/// apart at most.
proof fn lemma_unit_diff(a: usize, b: usize)
    requires
        -1 <= b - a <= 1,
    ensures
        wrap(b as int, -(a as int)) == if b - a == 1 { 1 } else if b - a == -1 { NEG } else { 0 },
{
}

/// The rail piece for the square `now` of a route that comes from `prev` and
/// goes on to `next`.
pub fn to_rail_type(prev: Coord, now: Coord, next: Coord) -> (t: RailType)
    requires
        valid_turn(delta(prev, now), delta(now, next)),
    ensures
        t == rail_spec(delta(prev, now), delta(now, next)),
{
    let a = now.sub_wrapping(prev);
    let b = next.sub_wrapping(now);
    proof {
        lemma_unit_diff(prev.i, now.i);
        lemma_unit_diff(prev.j, now.j);
        lemma_unit_diff(now.i, next.i);
        lemma_unit_diff(now.j, next.j);
    }
    if a.j == 0 && b.j == 0 {
        RailType::UpToDown
    } else if a.i == 0 && b.i == 0 {
        RailType::LeftToRight
    } else if a.i == 1 {
        if b.j == 1 { RailType::UpToRight } else { RailType::LeftToUp }
    } else if a.i == NEG {
        if b.j == 1 { RailType::DownToRight } else { RailType::LeftToDown }
    } else if a.j == 1 {
        if b.i == 1 { RailType::LeftToDown } else { RailType::LeftToUp }
    } else {
        if b.i == 1 { RailType::DownToRight } else { RailType::UpToRight }
    }
}

/// The piece `t` opens toward the neighbour at step `s`: each piece opens
/// on the two sides of the square that its name gives (left `(0, -1)`,
/// right `(0, 1)`, up `(-1, 0)`, down `(1, 0)`).
pub open spec fn opens_to(t: RailType, s: (int, int)) -> bool {
    match t {
        RailType::LeftToRight => s == (0int, -1int) || s == (0int, 1int),
        RailType::UpToDown => s == (-1int, 0int) || s == (1int, 0int),
        RailType::LeftToDown => s == (0int, -1int) || s == (1int, 0int),
        RailType::LeftToUp => s == (0int, -1int) || s == (-1int, 0int),
        RailType::UpToRight => s == (-1int, 0int) || s == (0int, 1int),
        RailType::DownToRight => s == (1int, 0int) || s == (0int, 1int),
    }
}

/// The piece laid on a square of a route joins exactly the two sides the
/// route uses there: the side it comes in through (back along the step in)
/// and the side it leaves through (along the step out). No other piece
/// opens on both.
pub proof fn law_rail_joins_route(a: (int, int), b: (int, int))
    requires
        valid_turn(a, b),
    ensures
        opens_to(rail_spec(a, b), (-a.0, -a.1)),
        opens_to(rail_spec(a, b), b),
        forall|t: RailType| opens_to(t, (-a.0, -a.1)) && opens_to(t, b) ==> t == rail_spec(a, b),
{
}

/// The number of a piece in the output names its two open sides: 1 left and
/// right, 2 up and down, 3 left and down, 4 left and up, 5 up and right,
/// 6 down and right.
pub proof fn law_code_names_sides(t: RailType)
    ensures
        t.code_spec() == 1 <==> opens_to(t, (0int, -1int)) && opens_to(t, (0int, 1int)),
        t.code_spec() == 2 <==> opens_to(t, (-1int, 0int)) && opens_to(t, (1int, 0int)),
        t.code_spec() == 3 <==> opens_to(t, (0int, -1int)) && opens_to(t, (1int, 0int)),
        t.code_spec() == 4 <==> opens_to(t, (0int, -1int)) && opens_to(t, (-1int, 0int)),
        t.code_spec() == 5 <==> opens_to(t, (-1int, 0int)) && opens_to(t, (0int, 1int)),
        t.code_spec() == 6 <==> opens_to(t, (1int, 0int)) && opens_to(t, (0int, 1int)),
{
}

} // verus!
