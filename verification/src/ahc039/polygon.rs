//! The vertices of the polygon that a grid of cells outlines.
//!
//! Cell `(x, y)` covers the unit square with lower left corner `(x, y)`; the
//! lattice point `(x, y)` is the corner shared by the cells `(x - 1, y - 1)`,
//! `(x - 1, y)`, `(x, y - 1)` and `(x, y)`.
use vstd::prelude::*;
use crate::coord::wrap;
use crate::ahc039::coord::{Coord, dxy4, dxy4_spec, two_by_two, two_by_two_spec};
use crate::ahc039::common::{bgrid, ind};

verus! {

#[derive(Debug, Clone, Copy, PartialEq, Eq, Structural)]
pub enum Direction {
    Up,
    Right,
    Down,
    Left,
}

impl Direction {
    pub open spec fn index_spec(self) -> int {
        match self {
            Direction::Up => 0,
            Direction::Right => 1,
            Direction::Down => 2,
            Direction::Left => 3,
        }
    }

    fn index(self) -> (k: usize)
        ensures
            k == self.index_spec(),
    {
        match self {
            Direction::Up => 0,
            Direction::Right => 1,
            Direction::Down => 2,
            Direction::Left => 3,
        }
    }
}

/// Which single cell around a lattice point differs from the other three
/// (the only filled one, or the only empty one); `Other` when none does.
#[derive(Debug, Clone, Copy, PartialEq, Eq, Structural)]
pub enum Edge {
    RightUp,
    LeftUp,
    RightDown,
    LeftDown,
    Other,
}

pub open spec fn edge_of(k: int) -> Edge {
    if k == 0 {
        Edge::RightUp
    } else if k == 1 {
        Edge::LeftUp
    } else if k == 2 {
        Edge::RightDown
    } else {
        Edge::LeftDown
    }
}

/// The corner cell number `n` (in the order of `two_by_two`).
fn usize_to_edge(n: usize) -> (e: Edge)
    requires
        n < 4,
    ensures
        e == edge_of(n as int),
{
    match n {
        0 => Edge::RightUp,
        1 => Edge::LeftUp,
        2 => Edge::RightDown,
        _ => Edge::LeftDown,
    }
}

/// The grid is `n x n`.
pub open spec fn square_bool(g: Seq<Seq<bool>>, n: int) -> bool {
    &&& g.len() == n
    &&& forall|r: int| 0 <= r < n ==> #[trigger] g[r].len() == n
}

/// The `k`-th cell around the lattice point `c`.
pub open spec fn corner(c: Coord, k: int) -> Coord {
    Coord { x: wrap(c.x as int, two_by_two_spec(k).0), y: wrap(c.y as int, two_by_two_spec(k).1) }
}

/// The `k`-th cell around `c` lies on the grid and is filled.
pub open spec fn filled(g: Seq<Seq<bool>>, c: Coord, k: int) -> bool {
    let p = corner(c, k);
    p.in_map_spec(g.len() as usize) && g[p.x as int][p.y as int]
}

/// The `k`-th cell around `c` lies on the grid and is empty.
pub open spec fn empty(g: Seq<Seq<bool>>, c: Coord, k: int) -> bool {
    let p = corner(c, k);
    p.in_map_spec(g.len() as usize) && !g[p.x as int][p.y as int]
}

/// The number of filled cells around the lattice point `c`.
pub open spec fn count_spec(g: Seq<Seq<bool>>, c: Coord) -> int {
    ind(filled(g, c, 0)) + ind(filled(g, c, 1)) + ind(filled(g, c, 2)) + ind(filled(g, c, 3))
}

/// A corner of the outline: one or three of the four cells are filled.
pub open spec fn vertex_spec(g: Seq<Seq<bool>>, c: Coord) -> bool {
    count_spec(g, c) == 1 || count_spec(g, c) == 3
}

/// The first `k` at or after `from` for which `p(k)`, or 4.
pub open spec fn first_filled(g: Seq<Seq<bool>>, c: Coord, from: int) -> int
    decreases 4 - from,
{
    if from >= 4 { 4 } else if filled(g, c, from) { from } else { first_filled(g, c, from + 1) }
}

pub open spec fn first_empty(g: Seq<Seq<bool>>, c: Coord, from: int) -> int
    decreases 4 - from,
{
    if from >= 4 { 4 } else if empty(g, c, from) { from } else { first_empty(g, c, from + 1) }
}

/// The odd cell around `c`: the only filled one when one is filled, the
/// first empty one when three are.
pub open spec fn edge_spec(g: Seq<Seq<bool>>, c: Coord) -> Edge {
    if count_spec(g, c) == 1 {
        edge_of(first_filled(g, c, 0))
    } else if count_spec(g, c) == 3 {
        edge_of(first_empty(g, c, 0))
    } else {
        Edge::Other
    }
}

/// The cells around `c` in the first `k` positions that are filled.
pub open spec fn count_upto(g: Seq<Seq<bool>>, c: Coord, k: int) -> int
    decreases k,
{
    if k <= 0 { 0 } else { count_upto(g, c, k - 1) + ind(filled(g, c, k - 1)) }
}

/// A lattice point with a cell of the grid around it lies in `0..=n`; only
/// points strictly inside have all four cells on the grid.
proof fn lemma_corner(c: Coord, k: int, n: int)
    requires
        1 <= n <= usize::MAX / 2,
        0 <= k < 4,
    ensures
        corner(c, k).in_map_spec(n as usize) <==>
            (0 <= c.x + two_by_two_spec(k).0 < n && 0 <= c.y + two_by_two_spec(k).1 < n),
        corner(c, k).in_map_spec(n as usize) ==> corner(c, k).x == c.x + two_by_two_spec(k).0
            && corner(c, k).y == c.y + two_by_two_spec(k).1,
{
}

/// The number of filled cells around a lattice point.
fn count_two_by_two(coord: Coord, grid: &Vec<Vec<bool>>) -> (cnt: usize)
    requires
        square_bool(bgrid(grid@), grid@.len() as int),
    ensures
        cnt == count_spec(bgrid(grid@), coord),
{
    let n = grid.len();
    let ghost g = bgrid(grid@);
    let mut cnt: usize = 0;
    let mut k: usize = 0;
    while k < 4
        invariant
            n == grid@.len(),
            g == bgrid(grid@),
            square_bool(g, n as int),
            0 <= k <= 4,
            cnt == count_upto(g, coord, k as int),
            cnt <= k,
        decreases 4 - k,
    {
        let nxt = coord.add_wrapping(two_by_two(k));
        proof {
            assert(nxt == corner(coord, k as int));
        }
        if nxt.in_map(n) {
            proof {
                assert(g[nxt.x as int] == grid@[nxt.x as int]@);
            }
            if grid[nxt.x][nxt.y] {
                cnt += 1;
            }
        }
        k += 1;
    }
    proof {
        reveal_with_fuel(count_upto, 5);
    }
    cnt
}

/// Whether the lattice point is a corner of the outline.
fn is_vertex(coord: Coord, grid: &Vec<Vec<bool>>) -> (b: bool)
    requires
        square_bool(bgrid(grid@), grid@.len() as int),
    ensures
        b == vertex_spec(bgrid(grid@), coord),
{
    let cnt = count_two_by_two(coord, grid);
    cnt == 1 || cnt == 3
}

proof fn lemma_first_filled(g: Seq<Seq<bool>>, c: Coord, k: int)
    requires
        0 <= k <= 4,
        forall|m: int| 0 <= m < k ==> !#[trigger] filled(g, c, m),
    ensures
        first_filled(g, c, 0) == first_filled(g, c, k),
    decreases k,
{
    if k > 0 {
        lemma_first_filled(g, c, k - 1);
    }
}

proof fn lemma_first_empty(g: Seq<Seq<bool>>, c: Coord, k: int)
    requires
        0 <= k <= 4,
        forall|m: int| 0 <= m < k ==> !#[trigger] empty(g, c, m),
    ensures
        first_empty(g, c, 0) == first_empty(g, c, k),
    decreases k,
{
    if k > 0 {
        lemma_first_empty(g, c, k - 1);
    }
}

/// The odd cell around the lattice point (see `edge_spec`).
fn to_edge(coord: Coord, grid: &Vec<Vec<bool>>) -> (e: Edge)
    requires
        1 <= grid@.len() <= usize::MAX / 2,
        square_bool(bgrid(grid@), grid@.len() as int),
    ensures
        e == edge_spec(bgrid(grid@), coord),
{
    let n = grid.len();
    let ghost g = bgrid(grid@);
    let cnt = count_two_by_two(coord, grid);
    if cnt == 1 {
        let mut k: usize = 0;
        while k < 4
            invariant
                n == grid@.len(),
                1 <= n <= usize::MAX / 2,
                g == bgrid(grid@),
                square_bool(g, n as int),
                count_spec(g, coord) == 1,
                0 <= k <= 4,
                forall|m: int| 0 <= m < k ==> !#[trigger] filled(g, coord, m),
            decreases 4 - k,
        {
            let nxt = coord.add_wrapping(two_by_two(k));
            proof {
                assert(nxt == corner(coord, k as int));
                if nxt.in_map_spec(n) {
                    assert(g[nxt.x as int] == grid@[nxt.x as int]@);
                }
            }
            if nxt.in_map(n) && grid[nxt.x][nxt.y] {
                proof {
                    lemma_first_filled(g, coord, k as int);
                }
                return usize_to_edge(k);
            }
            k += 1;
        }
        proof {
            assert(count_spec(g, coord) == 0);
        }
        Edge::Other
    } else if cnt == 3 {
        proof {
            lemma_corner(coord, 0, n as int);
            lemma_corner(coord, 1, n as int);
            lemma_corner(coord, 2, n as int);
            lemma_corner(coord, 3, n as int);
        }
        let mut k: usize = 0;
        while k < 4
            invariant
                n == grid@.len(),
                1 <= n <= usize::MAX / 2,
                g == bgrid(grid@),
                square_bool(g, n as int),
                count_spec(g, coord) == 3,
                forall|m: int| 0 <= m < 4 ==> #[trigger] corner(coord, m).in_map_spec(n),
                0 <= k <= 4,
                forall|m: int| 0 <= m < k ==> !#[trigger] empty(g, coord, m),
            decreases 4 - k,
        {
            let nxt = coord.add_wrapping(two_by_two(k));
            proof {
                assert(nxt == corner(coord, k as int));
                if nxt.in_map_spec(n) {
                    assert(g[nxt.x as int] == grid@[nxt.x as int]@);
                }
            }
            if nxt.in_map(n) && !grid[nxt.x][nxt.y] {
                proof {
                    lemma_first_empty(g, coord, k as int);
                }
                return usize_to_edge(k);
            }
            k += 1;
        }
        proof {
            assert(!empty(g, coord, 0) && !empty(g, coord, 1) && !empty(g, coord, 2) && !empty(g, coord, 3));
            assert(count_spec(g, coord) == 4);
        }
        Edge::Other
    } else {
        Edge::Other
    }
}


pub open spec fn dir_of(k: int) -> Direction {
    if k == 0 { Direction::Up } else if k == 1 { Direction::Right } else if k == 2 { Direction::Down } else { Direction::Left }
}

/// The direction in which the outline goes on from a lattice point, arriving
/// in direction `dir` and finding the odd cell `e` there: it turns so as to
/// keep the filled cells on its right; `None` for an arrival that no outline
/// can make.
pub open spec fn turn(dir: Direction, e: Edge) -> Option<Direction> {
    match e {
        Edge::Other => Some(dir),
        Edge::RightDown => match dir {
            Direction::Up => Some(Direction::Right),
            Direction::Left => Some(Direction::Down),
            _ => None,
        },
        Edge::LeftDown => match dir {
            Direction::Up => Some(Direction::Left),
            Direction::Right => Some(Direction::Down),
            _ => None,
        },
        Edge::LeftUp => match dir {
            Direction::Right => Some(Direction::Up),
            Direction::Down => Some(Direction::Left),
            _ => None,
        },
        Edge::RightUp => match dir {
            Direction::Down => Some(Direction::Right),
            Direction::Left => Some(Direction::Up),
            _ => None,
        },
    }
}

fn turn_exec(dir: Direction, e: Edge) -> (t: Option<Direction>)
    ensures
        t == turn(dir, e),
{
    match e {
        Edge::Other => Some(dir),
        Edge::RightDown => match dir {
            Direction::Up => Some(Direction::Right),
            Direction::Left => Some(Direction::Down),
            _ => None,
        },
        Edge::LeftDown => match dir {
            Direction::Up => Some(Direction::Left),
            Direction::Right => Some(Direction::Down),
            _ => None,
        },
        Edge::LeftUp => match dir {
            Direction::Right => Some(Direction::Up),
            Direction::Down => Some(Direction::Left),
            _ => None,
        },
        Edge::RightUp => match dir {
            Direction::Down => Some(Direction::Right),
            Direction::Left => Some(Direction::Up),
            _ => None,
        },
    }
}

/// The lattice point one unit from `c` in direction `d`.
pub open spec fn advance(c: Coord, d: Direction) -> Coord {
    Coord { x: wrap(c.x as int, dxy4_spec(d.index_spec()).0), y: wrap(c.y as int, dxy4_spec(d.index_spec()).1) }
}

/// The corners that the outline passes after leaving `pos` in direction
/// `dir`, up to its return to `start` (which is not listed), if it returns
/// within `fuel` steps and never makes an impossible arrival.
pub open spec fn walk(g: Seq<Seq<bool>>, start: Coord, pos: Coord, dir: Direction, fuel: nat) -> Option<Seq<Coord>>
    decreases fuel,
{
    if fuel == 0 {
        None
    } else {
        match turn(dir, edge_spec(g, pos)) {
            None => None,
            Some(d2) => {
                let p2 = advance(pos, d2);
                if p2 == start {
                    Some(Seq::empty())
                } else {
                    match walk(g, start, p2, d2, (fuel - 1) as nat) {
                        None => None,
                        Some(rest) => Some(if vertex_spec(g, p2) { seq![p2] + rest } else { rest }),
                    }
                }
            }
        }
    }
}

/// The first corner `(x', y)` with `x <= x' <= n`.
pub open spec fn first_in_row(g: Seq<Seq<bool>>, n: int, y: int, x: int) -> Option<Coord>
    decreases n + 1 - x,
{
    if x > n {
        None
    } else if vertex_spec(g, Coord { x: x as usize, y: y as usize }) {
        Some(Coord { x: x as usize, y: y as usize })
    } else {
        first_in_row(g, n, y, x + 1)
    }
}

/// The first corner, scanning the rows `y..=n` bottom up and each row left
/// to right.
pub open spec fn first_vertex(g: Seq<Seq<bool>>, n: int, y: int) -> Option<Coord>
    decreases n + 1 - y,
{
    if y > n {
        None
    } else {
        match first_in_row(g, n, y, 0) {
            Some(c) => Some(c),
            None => first_vertex(g, n, y + 1),
        }
    }
}

/// How many steps the outline may take: four times the lattice points.
pub open spec fn walk_bound(n: int) -> nat {
    (4 * (n + 1) * (n + 1)) as nat
}

/// The outline of the grid closes: starting from the first corner (lowest
/// row, then leftmost) heading left, following the boundary returns to it
/// within `walk_bound` steps without an impossible arrival.
pub open spec fn traces(grid: Seq<Vec<bool>>) -> bool {
    let g = bgrid(grid);
    let n = grid.len() as int;
    match first_vertex(g, n, 0) {
        None => true,
        Some(s) => walk(g, s, s, Direction::Left, walk_bound(n)) is Some,
    }
}

/// The corners of the outline in the order in which it visits them, from the
/// first corner (lowest row, then leftmost); empty for an empty grid.
pub open spec fn outline(grid: Seq<Vec<bool>>) -> Seq<Coord> {
    let g = bgrid(grid);
    let n = grid.len() as int;
    match first_vertex(g, n, 0) {
        None => Seq::empty(),
        Some(s) => seq![s] + walk(g, s, s, Direction::Left, walk_bound(n)).unwrap(),
    }
}

/// The corners of the polygon that the filled cells of an `n x n` grid
/// outline, starting from the lowest, leftmost one.
pub fn polygon_grid_to_vertex_coords(grid: &Vec<Vec<bool>>) -> (ret: Vec<Coord>)
    requires
        grid@.len() <= usize::MAX / 4,
        square_bool(bgrid(grid@), grid@.len() as int),
        traces(grid@),
    ensures
        ret@ == outline(grid@),
{
    let n = grid.len();
    let ghost g = bgrid(grid@);
    let mut ret: Vec<Coord> = Vec::new();
    let mut start: Option<Coord> = None;
    let mut y: usize = 0;
    while y < n + 1 && start.is_none()
        invariant
            n == grid@.len(),
            n <= usize::MAX / 4,
            g == bgrid(grid@),
            square_bool(g, n as int),
            0 <= y <= n + 1,
            match start {
                None => first_vertex(g, n as int, 0) == first_vertex(g, n as int, y as int),
                Some(c) => first_vertex(g, n as int, 0) == Some(c),
            },
        decreases n + 1 - y, if start is None { 1int } else { 0int },
    {
        let mut x: usize = 0;
        while x < n + 1 && start.is_none()
            invariant
                n == grid@.len(),
                n <= usize::MAX / 4,
                g == bgrid(grid@),
                square_bool(g, n as int),
                0 <= y <= n,
                0 <= x <= n + 1,
                match start {
                    None => first_vertex(g, n as int, 0) == first_vertex(g, n as int, y as int)
                        && first_in_row(g, n as int, y as int, 0) == first_in_row(g, n as int, y as int, x as int),
                    Some(c) => first_vertex(g, n as int, 0) == Some(c),
                },
            decreases n + 1 - x,
        {
            if is_vertex(Coord::new(x, y), grid) {
                start = Some(Coord::new(x, y));
            }
            x += 1;
        }
        y += 1;
    }
    if start.is_none() {
        return ret;
    }
    let start = start.unwrap();
    let ghost full = walk(g, start, start, Direction::Left, walk_bound(n as int)).unwrap();
    proof {
        reveal(traces);
        reveal(outline);
    }
    let mut pos = start;
    let mut dir = Direction::Left;
    ret.push(start);
    let ghost mut fuel: nat = walk_bound(n as int);
    let mut done = false;
    while !done
        invariant
            n == grid@.len(),
            n <= usize::MAX / 4,
            g == bgrid(grid@),
            square_bool(g, n as int),
            outline(grid@) == seq![start] + full,
            !done ==> walk(g, start, pos, dir, fuel) is Some
                && ret@ + walk(g, start, pos, dir, fuel).unwrap() == seq![start] + full,
            done ==> ret@ == seq![start] + full,
        decreases fuel, if done { 0int } else { 1int },
    {
        let ghost rest = walk(g, start, pos, dir, fuel).unwrap();
        if n == 0 {
            proof {
                assert(edge_spec(g, pos) == Edge::Other);
            }
        }
        let edge = if n == 0 { Edge::Other } else { to_edge(pos, grid) };
        let d2 = turn_exec(dir, edge).unwrap();
        let p2 = pos.add_wrapping(dxy4(d2.index()));
        proof {
            assert(p2 == advance(pos, d2));
        }
        if p2 == start {
            done = true;
            proof {
                assert(ret@ =~= seq![start] + full);
            }
        } else {
            let ghost rest2 = walk(g, start, p2, d2, (fuel - 1) as nat).unwrap();
            if is_vertex(p2, grid) {
                ret.push(p2);
                proof {
                    assert(ret@ + rest2 =~= seq![start] + full);
                }
            } else {
                proof {
                    assert(ret@ + rest2 =~= seq![start] + full);
                }
            }
            pos = p2;
            dir = d2;
            proof {
                fuel = (fuel - 1) as nat;
            }
        }
    }
    ret
}

} // verus!
