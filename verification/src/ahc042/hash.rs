//! Zobrist hash of the oni positions.
use vstd::prelude::*;

verus! {

/// One random key per square; the hash of a board is the XOR of the keys of
/// the squares that hold an oni.
#[derive(Debug)]
pub struct CalcHash {
    pub hash_map: Vec<Vec<usize>>,
}

/// Whether `dir` is one of the four shift directions.
pub open spec fn is_dir(dir: char) -> bool {
    dir == 'L' || dir == 'R' || dir == 'U' || dir == 'D'
}

/// The square that `(row, col)` slides to under a shift in `dir`, if it stays
/// on an `n x n` board.
pub open spec fn slide(row: int, col: int, dir: char, n: int) -> Option<(int, int)> {
    let (r, c) = if dir == 'L' {
        (row, col - 1)
    } else if dir == 'R' {
        (row, col + 1)
    } else if dir == 'U' {
        (row - 1, col)
    } else if dir == 'D' {
        (row + 1, col)
    } else {
        (row, col)
    };
    if 0 <= r < n && 0 <= c < n { Some((r, c)) } else { None }
}

impl CalcHash {
    /// The table is `n x n`.
    pub open spec fn wf(&self, n: nat) -> bool {
        &&& self.hash_map@.len() == n
        &&& forall|r: int| 0 <= r < n ==> #[trigger] self.hash_map@[r]@.len() == n
    }

    pub open spec fn key(&self, r: int, c: int) -> usize {
        self.hash_map@[r]@[c]
    }

    /// `hash` with the oni at `(row, col)` removed and, if it stays on the
    /// board, put back at the square it slides to.
    pub open spec fn calc_spec(&self, hash: usize, row: int, col: int, dir: char) -> usize {
        let n = self.hash_map@.len() as int;
        let h = hash ^ self.key(row, col);
        match slide(row, col, dir, n) {
            Some((r, c)) => if is_dir(dir) { h ^ self.key(r, c) } else { h },
            None => h,
        }
    }

    /// The hash after the oni at `(row, col)` slides one square towards `dir`.
    pub fn calc(&self, hash: usize, row: usize, col: usize, dir: char) -> (h: usize)
        requires
            self.wf(self.hash_map@.len()),
            row < self.hash_map@.len(),
            col < self.hash_map@.len(),
        ensures
            h == self.calc_spec(hash, row as int, col as int, dir),
    {
        let N = self.hash_map.len();
        let mut hash = hash ^ self.hash_map[row][col];
        if dir == 'L' {
            if col > 0 {
                hash = hash ^ self.hash_map[row][col - 1];
            }
        } else if dir == 'R' {
            if col + 1 < N {
                hash = hash ^ self.hash_map[row][col + 1];
            }
        } else if dir == 'U' {
            if row > 0 {
                hash = hash ^ self.hash_map[row - 1][col];
            }
        } else if dir == 'D' {
            if row + 1 < N {
                hash = hash ^ self.hash_map[row + 1][col];
            }
        }
        hash
    }
}

} // verus!
