//! A railway laid out as a tree over chosen station squares, and the
//! operations of a plan that extends it.
use vstd::prelude::*;
use crate::coord::{Coord, dij5, dij_coord};
use crate::ahc043::rail::Entity;

verus! {

/// A step of a plan over the tree: connect station `to` (from `from`, if
/// any) along `route`, in `period` turns, or wait; with the score reached.
#[derive(Debug)]
pub struct Op {
    pub from: Option<(Coord, usize)>,
    pub to: (Coord, usize),
    pub period: usize,
    pub route: Vec<usize>,
    pub is_wait: bool,
    pub score: i64,
}

/// The stations, the rail squares, what occupies each square, and the edges
/// of the tree (`G[a]` holds `(b, length)`).
pub struct RailTree {
    pub station_position: Vec<Coord>,
    pub rail_position: Vec<Coord>,
    pub field: Vec<Vec<Entity>>,
    pub G: Vec<Vec<(usize, usize)>>,
}

/// The board as values.
pub open spec fn entities(f: Seq<Vec<Entity>>) -> Seq<Seq<Entity>> {
    f.map_values(|r: Vec<Entity>| r@)
}

/// Whether the square of the `k`-th unit step from `p` is off the board or
/// occupied.
pub open spec fn side_blocked(f: Seq<Seq<Entity>>, n: usize, p: Coord, k: int) -> bool {
    let q = p.add_spec(dij_coord(k));
    !q.in_map_spec(n) || f[q.i as int][q.j as int] != Entity::Empty
}

/// How many of the first `k` sides of `p` are blocked.
pub open spec fn blocked_count(f: Seq<Seq<Entity>>, n: usize, p: Coord, k: int) -> int
    decreases k,
{
    if k <= 0 { 0 } else { blocked_count(f, n, p, k - 1) + if side_blocked(f, n, p, k - 1) { 1int } else { 0 } }
}

impl RailTree {
    /// An empty `n x n` board without stations or rails.
    pub fn new(n: usize) -> (t: RailTree)
        ensures
            t.station_position@.len() == 0,
            t.rail_position@.len() == 0,
            t.G@.len() == 0,
            t.field@.len() == n,
            forall|i: int| 0 <= i < n ==> (#[trigger] t.field@[i])@ == Seq::new(n as nat, |j: int| Entity::Empty),
    {
        let mut field: Vec<Vec<Entity>> = Vec::new();
        let mut i: usize = 0;
        while i < n
            invariant
                0 <= i <= n,
                field@.len() == i,
                forall|a: int| 0 <= a < i ==> (#[trigger] field@[a])@ == Seq::new(n as nat, |j: int| Entity::Empty),
            decreases n - i,
        {
            let mut row: Vec<Entity> = Vec::new();
            let mut j: usize = 0;
            while j < n
                invariant
                    0 <= j <= n,
                    row@ == Seq::new(j as nat, |q: int| Entity::Empty),
                decreases n - j,
            {
                row.push(Entity::Empty);
                j += 1;
                proof {
                    assert(row@ =~= Seq::new(j as nat, |q: int| Entity::Empty));
                }
            }
            field.push(row);
            i += 1;
        }
        RailTree { station_position: Vec::new(), rail_position: Vec::new(), field, G: Vec::new() }
    }

    /// Whether a rail can leave the square `station_pos`: it holds a
    /// station and one of its four sides is on the board and empty.
    pub fn can_connect(&self, station_pos: Coord, n: usize) -> (b: bool)
        requires
            station_pos.in_map_spec(n),
            self.field@.len() == n,
            forall|i: int| 0 <= i < n ==> (#[trigger] self.field@[i])@.len() == n,
        ensures
            b == (entities(self.field@)[station_pos.i as int][station_pos.j as int] == Entity::Station
                && blocked_count(entities(self.field@), n, station_pos, 4) < 4),
    {
        let ghost f = entities(self.field@);
        proof {
            assert(f[station_pos.i as int] == self.field@[station_pos.i as int]@);
        }
        if self.field[station_pos.i][station_pos.j] != Entity::Station {
            return false;
        }
        let mut cnt: usize = 0;
        let mut k: usize = 0;
        while k < 4
            invariant
                f == entities(self.field@),
                self.field@.len() == n,
                forall|i: int| 0 <= i < n ==> (#[trigger] self.field@[i])@.len() == n,
                0 <= k <= 4,
                cnt == blocked_count(f, n, station_pos, k as int),
                cnt <= k,
            decreases 4 - k,
        {
            let next = station_pos.add_wrapping(dij5(k));
            if next.in_map(n) {
                proof {
                    assert(f[next.i as int] == self.field@[next.i as int]@);
                }
                if self.field[next.i][next.j] != Entity::Empty {
                    cnt += 1;
                }
            } else {
                cnt += 1;
            }
            k += 1;
        }
        cnt < 4
    }
}

} // verus!
