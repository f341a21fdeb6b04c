//! Zobrist hash of the shelf widths: one random word per row and width
//! bucket of 10000.
use vstd::prelude::*;

verus! {

/// `hash_map[row][bucket]` is the word of row `row` whose width lies in
/// bucket `bucket` (widths `10000 * bucket .. 10000 * (bucket + 1)`); `MAX`
/// rows are covered.
#[derive(Debug)]
pub struct CalcHash {
    pub MAX: usize,
    pub hash_map: Vec<Vec<usize>>,
}

/// The width of a bucket.
pub const BUCKET: i32 = 10000;

/// The bucket of a width.
pub open spec fn bucket(width: i32) -> int {
    width as int / 10000
}

impl CalcHash {
    /// The word of row `row` for width `width`.
    pub open spec fn word(&self, row: int, width: i32) -> usize {
        self.hash_map@[row]@[bucket(width)]
    }

    /// Whether `calc` can be asked about row `row` and width `width`.
    pub open spec fn covers(&self, row: int, width: i32) -> bool {
        &&& 0 <= row < self.hash_map@.len()
        &&& 0 <= width
        &&& bucket(width) < self.hash_map@[row]@.len()
    }

    /// `hash` with the word of row `row` at its old width replaced by the
    /// word at its new width.
    pub fn calc(&self, hash: usize, row: usize, before_width: i32, after_width: i32) -> (h: usize)
        requires
            self.covers(row as int, before_width),
            self.covers(row as int, after_width),
        ensures
            h == (hash ^ self.word(row as int, before_width)) ^ self.word(row as int, after_width),
    {
        let bw = (before_width / BUCKET) as usize;
        let aw = (after_width / BUCKET) as usize;
        let mut h = hash;
        h = h ^ self.hash_map[row][bw];
        h = h ^ self.hash_map[row][aw];
        h
    }
}

/// Changing a row's width and changing it back restores the hash.
pub proof fn law_width_change_undone(hc: &CalcHash, hash: usize, row: int, a: i32, b: i32)
    ensures
        ({
            let h1 = (hash ^ hc.word(row, a)) ^ hc.word(row, b);
            (h1 ^ hc.word(row, b)) ^ hc.word(row, a) == hash
        }),
{
    let x = hc.word(row, a);
    let y = hc.word(row, b);
    assert((((hash ^ x) ^ y) ^ y) ^ x == hash) by (bit_vector);
}

} // verus!
