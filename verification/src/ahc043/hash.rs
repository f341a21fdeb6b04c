//! Zobrist hash of the squares holding a station.
use vstd::prelude::*;
use crate::coord::Coord;

verus! {

/// One random key per square.
#[derive(Debug)]
pub struct CalcHash {
    pub hash_map: Vec<Vec<usize>>,
}

impl CalcHash {
    pub open spec fn key(&self, pos: Coord) -> usize {
        self.hash_map@[pos.i as int]@[pos.j as int]
    }

    /// `hash` with the key of `pos` toggled.
    pub fn calc(&self, hash: usize, pos: Coord) -> (h: usize)
        requires
            pos.i < self.hash_map@.len(),
            pos.j < self.hash_map@[pos.i as int]@.len(),
        ensures
            h == hash ^ self.key(pos),
    {
        hash ^ self.hash_map[pos.i][pos.j]
    }
}

/// Toggling the same square twice restores the hash.
pub proof fn law_toggle_twice(hc: &CalcHash, hash: usize, pos: Coord)
    ensures
        (hash ^ hc.key(pos)) ^ hc.key(pos) == hash,
{
    let k = hc.key(pos);
    assert((hash ^ k) ^ k == hash) by (bit_vector);
}

} // verus!
