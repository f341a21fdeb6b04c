//! The problem instance.
use vstd::prelude::*;
use crate::ahc042::hash::CalcHash;

verus! {

/// The board size, the board (`x` oni, `o` fukunokami, `.` empty) and the
/// hash table.
#[derive(Debug)]
pub struct Input {
    pub N: usize,
    pub C: Vec<Vec<char>>,
    pub calc_hash: CalcHash,
}

impl Input {
    /// The board and the hash table are `N x N`, and sums of distances over
    /// the board fit in an `i64` with room to spare.
    pub open spec fn wf(&self) -> bool {
        &&& 1 <= self.N <= 1_000_000
        &&& self.C@.len() == self.N
        &&& forall|r: int| 0 <= r < self.N ==> #[trigger] self.C@[r]@.len() == self.N
        &&& self.calc_hash.wf(self.N as nat)
    }
}

} // verus!
