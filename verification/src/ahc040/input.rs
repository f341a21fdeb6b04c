//! The instance: `N` boxes with their (estimated) widths and heights.
use vstd::prelude::*;
use crate::ahc040::hash::CalcHash;

verus! {

/// The smallest and largest box side.
pub const MIN: i32 = 10000;
pub const MAX: i32 = 100000;

/// `N` boxes, `wh2[i]` the estimated width and height of box `i`, `T`
/// answers to give, the measurement noise `sigma`, the hash words, and the
/// width that a row of shelves may not exceed.
#[derive(Debug)]
pub struct Input {
    pub N: usize,
    pub T: usize,
    pub sigma: i32,
    pub wh2: Vec<(i32, i32)>,
    pub calc_hash: CalcHash,
    pub width_limit: i32,
}

impl Input {
    /// Box sides in `0..=MAX`, a noise and a width limit small enough for
    /// the sums of the search to fit in an `i32`, and a hash row long enough
    /// for every width up to the limit.
    pub open spec fn wf(&self) -> bool {
        &&& forall|k: int| 0 <= k < self.wh2@.len() ==> 0 <= (#[trigger] self.wh2@[k]).0 <= MAX && 0 <= self.wh2@[k].1 <= MAX
        &&& 0 <= self.sigma <= 0x100_0000
        &&& 0 <= self.width_limit <= 0x2000_0000
        &&& forall|r: int| 0 <= r < self.calc_hash.hash_map@.len()
            ==> (#[trigger] self.calc_hash.hash_map@[r])@.len() > self.width_limit / 10000
    }
}

/// `v` brought into `MIN..=MAX`.
pub open spec fn clamp_spec(v: i32) -> i32 {
    if v < MIN { MIN } else if v > MAX { MAX } else { v }
}

/// Clamping gives the value of `MIN..=MAX` nearest to `v`: it lies in the
/// range, no value of the range is nearer, and a value already in the range
/// is kept.
pub proof fn law_clamp_nearest(v: i32, y: int)
    requires
        MIN <= y <= MAX,
    ensures
        MIN <= clamp_spec(v) <= MAX,
        (if clamp_spec(v) >= v { clamp_spec(v) - v } else { v - clamp_spec(v) })
            <= (if y >= v { y - v } else { v - y }),
        MIN <= v <= MAX ==> clamp_spec(v) == v,
{
}

/// `v` brought into `MIN..=MAX`.
pub fn clamp(v: i32) -> (r: i32)
    ensures
        r == clamp_spec(v),
{
    if v < MIN { MIN } else if v > MAX { MAX } else { v }
}

/// Each side brought into `MIN..=MAX`.
pub fn clamp_all(wh: &Vec<(i32, i32)>) -> (r: Vec<(i32, i32)>)
    ensures
        r@.len() == wh@.len(),
        forall|k: int| 0 <= k < wh@.len() ==> #[trigger] r@[k] == (clamp_spec(wh@[k].0), clamp_spec(wh@[k].1)),
{
    let mut r: Vec<(i32, i32)> = Vec::new();
    let mut k: usize = 0;
    while k < wh.len()
        invariant
            0 <= k <= wh@.len(),
            r@.len() == k,
            forall|q: int| 0 <= q < k ==> #[trigger] r@[q] == (clamp_spec(wh@[q].0), clamp_spec(wh@[q].1)),
        decreases wh@.len() - k,
    {
        let (w, h) = wh[k];
        r.push((clamp(w), clamp(h)));
        k += 1;
    }
    r
}

} // verus!
