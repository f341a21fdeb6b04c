//! Zobrist-style hashes of the arm search state: one random word per square
//! and content, per base square, and per segment and direction; a state's
//! hash is the exclusive or of the words of its parts.
use vstd::prelude::*;
use crate::coord::Coord;
use crate::ahc038::state::Direction;

verus! {

/// The hash words: `field_status_hash_map[i][j]` holds the words of square
/// `(i, j)` without and with a takoyaki, `root_position_hash_map[i][j]` the
/// word of the base on `(i, j)`, `arm_direction_hash_map[k][d]` the word of
/// segment `k` pointing to direction `d`.
#[derive(Debug)]
pub struct CalcHash {
    pub field_status_hash_map: Vec<Vec<(usize, usize)>>,
    pub root_position_hash_map: Vec<Vec<usize>>,
    pub arm_direction_hash_map: Vec<Vec<usize>>,
}

/// The word of a square with content `c` (`'0'` empty, else occupied).
pub open spec fn pick(w: (usize, usize), c: char) -> usize {
    if c == '0' { w.0 } else { w.1 }
}

/// `h` combined with the words of the squares `(i, 0..k)` of board `s`.
pub open spec fn field_row(f: Seq<Seq<(usize, usize)>>, s: Seq<Seq<char>>, i: int, k: int, h: usize) -> usize
    decreases k,
{
    if k <= 0 { h } else { field_row(f, s, i, k - 1, h) ^ pick(f[i][k - 1], s[i][k - 1]) }
}

/// `h` combined with the words of the rows `0..r` (of width `n`) of board `s`.
pub open spec fn field_rows(f: Seq<Seq<(usize, usize)>>, s: Seq<Seq<char>>, n: int, r: int, h: usize) -> usize
    decreases r,
{
    if r <= 0 { h } else { field_row(f, s, r - 1, n, field_rows(f, s, n, r - 1, h)) }
}

/// `h` combined with the words of segments `0..m` pointing Right.
pub open spec fn arms_right(a: Seq<Seq<usize>>, m: int, h: usize) -> usize
    decreases m,
{
    if m <= 0 { h } else { arms_right(a, m - 1, h) ^ a[m - 1][0] }
}

/// `h` combined with both words of the squares `coords[..k]` (a square that
/// changes content).
pub open spec fn field_flip(f: Seq<Seq<(usize, usize)>>, coords: Seq<Coord>, h: usize, k: int) -> usize
    decreases k,
{
    if k <= 0 {
        h
    } else {
        let c = coords[k - 1];
        (field_flip(f, coords, h, k - 1) ^ f[c.i as int][c.j as int].0) ^ f[c.i as int][c.j as int].1
    }
}

/// `h` combined with the words of both directions of each pair
/// `dirs[..k]` for segments `0..k` (a segment that turns).
pub open spec fn arm_flip(a: Seq<Seq<usize>>, dirs: Seq<(Direction, Direction)>, h: usize, k: int) -> usize
    decreases k,
{
    if k <= 0 {
        h
    } else {
        let d = dirs[k - 1];
        (arm_flip(a, dirs, h, k - 1) ^ a[k - 1][d.0.index_spec()]) ^ a[k - 1][d.1.index_spec()]
    }
}

/// The smaller of two lengths.
pub open spec fn min_len(a: int, b: int) -> int {
    if a < b { a } else { b }
}

impl CalcHash {
    /// The tables cover an `n x n` board and `v - 1` segments.
    pub open spec fn wf(&self, n: usize, v: usize) -> bool {
        &&& self.field_status_hash_map@.len() == n
        &&& forall|i: int| 0 <= i < n ==> (#[trigger] self.field_status_hash_map@[i])@.len() == n
        &&& self.root_position_hash_map@.len() == n
        &&& forall|i: int| 0 <= i < n ==> (#[trigger] self.root_position_hash_map@[i])@.len() == n
        &&& v >= 1
        &&& self.arm_direction_hash_map@.len() == v - 1
        &&& forall|k: int| 0 <= k < v - 1 ==> (#[trigger] self.arm_direction_hash_map@[k])@.len() == 4
    }

    /// The tables reach at least over an `n x n` board and `v - 1` segments
    /// (what `init` reads).
    pub open spec fn covers(&self, n: usize, v: usize) -> bool {
        &&& self.field_status_hash_map@.len() >= n
        &&& forall|i: int| 0 <= i < n ==> (#[trigger] self.field_status_hash_map@[i])@.len() >= n
        &&& self.root_position_hash_map@.len() >= n
        &&& forall|i: int| 0 <= i < n ==> (#[trigger] self.root_position_hash_map@[i])@.len() >= n
        &&& v >= 1
        &&& self.arm_direction_hash_map@.len() >= v - 1
        &&& forall|k: int| 0 <= k < v - 1 ==> (#[trigger] self.arm_direction_hash_map@[k])@.len() >= 1
    }

    pub open spec fn fields(&self) -> Seq<Seq<(usize, usize)>> {
        self.field_status_hash_map@.map_values(|r: Vec<(usize, usize)>| r@)
    }

    pub open spec fn roots(&self) -> Seq<Seq<usize>> {
        self.root_position_hash_map@.map_values(|r: Vec<usize>| r@)
    }

    pub open spec fn arms(&self) -> Seq<Seq<usize>> {
        self.arm_direction_hash_map@.map_values(|r: Vec<usize>| r@)
    }

    /// The hash of the start: board `S`, base on `root`, every segment
    /// pointing Right.
    pub open spec fn init_spec(&self, n: usize, v: usize, s: Seq<Seq<char>>, root: Coord) -> usize {
        arms_right(self.arms(), v - 1, field_rows(self.fields(), s, n as int, n as int, 0) ^ self.roots()[root.i as int][root.j as int])
    }

    /// The hash of the start: `init_spec`.
    pub fn init(&self, N: usize, V: usize, S: &Vec<Vec<char>>, root: Coord) -> (h: usize)
        requires
            self.covers(N, V),
            S@.len() >= N,
            forall|i: int| 0 <= i < N ==> (#[trigger] S@[i])@.len() >= N,
            root.in_map_spec(N),
        ensures
            h == self.init_spec(N, V, S@.map_values(|r: Vec<char>| r@), root),
    {
        let ghost s = S@.map_values(|r: Vec<char>| r@);
        let ghost f = self.fields();
        let mut ret: usize = 0;
        let mut i: usize = 0;
        while i < N
            invariant
                self.covers(N, V),
                S@.len() >= N,
                forall|i: int| 0 <= i < N ==> (#[trigger] S@[i])@.len() >= N,
                s == S@.map_values(|r: Vec<char>| r@),
                f == self.fields(),
                0 <= i <= N,
                ret == field_rows(f, s, N as int, i as int, 0),
            decreases N - i,
        {
            let ghost r0 = ret;
            proof {
                assert(s[i as int] == S@[i as int]@);
                assert(f[i as int] == self.field_status_hash_map@[i as int]@);
            }
            let mut j: usize = 0;
            while j < N
                invariant
                    self.covers(N, V),
                    S@.len() >= N,
                    forall|i: int| 0 <= i < N ==> (#[trigger] S@[i])@.len() >= N,
                    s[i as int] == S@[i as int]@,
                    f[i as int] == self.field_status_hash_map@[i as int]@,
                    0 <= i < N,
                    0 <= j <= N,
                    ret == field_row(f, s, i as int, j as int, r0),
                decreases N - j,
            {
                let w = self.field_status_hash_map[i][j];
                if S[i][j] == '0' {
                    ret = ret ^ w.0;
                } else {
                    ret = ret ^ w.1;
                }
                j += 1;
            }
            i += 1;
        }
        proof {
            assert(self.roots()[root.i as int] == self.root_position_hash_map@[root.i as int]@);
        }
        ret = ret ^ self.root_position_hash_map[root.i][root.j];
        let ghost a = self.arms();
        let ghost r1 = ret;
        let mut k: usize = 0;
        while k < V - 1
            invariant
                self.covers(N, V),
                a == self.arms(),
                0 <= k <= V - 1,
                ret == arms_right(a, k as int, r1),
            decreases V - 1 - k,
        {
            proof {
                assert(a[k as int] == self.arm_direction_hash_map@[k as int]@);
            }
            ret = ret ^ self.arm_direction_hash_map[k][0];
            k += 1;
        }
        ret
    }

    /// `hash` combined with both words of each square in `coords`.
    pub fn calc_field_status(&self, hash: usize, coords: &Vec<Coord>) -> (h: usize)
        requires
            self.field_status_hash_map@.len() > 0,
            forall|k: int| 0 <= k < coords@.len() ==> (#[trigger] coords@[k]).i < self.field_status_hash_map@.len()
                && coords@[k].j < self.field_status_hash_map@[coords@[k].i as int]@.len(),
        ensures
            h == field_flip(self.fields(), coords@, hash, coords@.len() as int),
    {
        let mut h = hash;
        let mut k: usize = 0;
        while k < coords.len()
            invariant
                forall|k: int| 0 <= k < coords@.len() ==> (#[trigger] coords@[k]).i < self.field_status_hash_map@.len()
                    && coords@[k].j < self.field_status_hash_map@[coords@[k].i as int]@.len(),
                0 <= k <= coords@.len(),
                h == field_flip(self.fields(), coords@, hash, k as int),
            decreases coords@.len() - k,
        {
            let c = coords[k];
            proof {
                assert(self.fields()[c.i as int] == self.field_status_hash_map@[c.i as int]@);
            }
            let w = self.field_status_hash_map[c.i][c.j];
            h = h ^ w.0;
            h = h ^ w.1;
            k += 1;
        }
        h
    }

    /// `hash` combined with the words of the base on `pos1` and on `pos2`.
    pub fn calc_root_position(&self, hash: usize, pos1: Coord, pos2: Coord) -> (h: usize)
        requires
            pos1.i < self.root_position_hash_map@.len(),
            pos1.j < self.root_position_hash_map@[pos1.i as int]@.len(),
            pos2.i < self.root_position_hash_map@.len(),
            pos2.j < self.root_position_hash_map@[pos2.i as int]@.len(),
        ensures
            h == (hash ^ self.roots()[pos1.i as int][pos1.j as int]) ^ self.roots()[pos2.i as int][pos2.j as int],
    {
        proof {
            assert(self.roots()[pos1.i as int] == self.root_position_hash_map@[pos1.i as int]@);
            assert(self.roots()[pos2.i as int] == self.root_position_hash_map@[pos2.i as int]@);
        }
        let mut h = hash;
        h = h ^ self.root_position_hash_map[pos1.i][pos1.j];
        h = h ^ self.root_position_hash_map[pos2.i][pos2.j];
        h
    }

    /// `hash` combined with both words of each direction pair, segment by
    /// segment, as far as both the pairs and the segments go.
    pub fn calc_arm_direction(&self, hash: usize, directions: &Vec<(Direction, Direction)>) -> (h: usize)
        requires
            forall|k: int| 0 <= k < min_len(directions@.len() as int, self.arm_direction_hash_map@.len() as int)
                ==> (#[trigger] directions@[k]).0.index_spec() < self.arm_direction_hash_map@[k]@.len()
                && directions@[k].1.index_spec() < self.arm_direction_hash_map@[k]@.len(),
        ensures
            h == arm_flip(self.arms(), directions@, hash, min_len(directions@.len() as int, self.arm_direction_hash_map@.len() as int)),
    {
        let n = if directions.len() < self.arm_direction_hash_map.len() {
            directions.len()
        } else {
            self.arm_direction_hash_map.len()
        };
        let mut h = hash;
        let mut k: usize = 0;
        while k < n
            invariant
                n == min_len(directions@.len() as int, self.arm_direction_hash_map@.len() as int),
                forall|k: int| 0 <= k < n ==> (#[trigger] directions@[k]).0.index_spec() < self.arm_direction_hash_map@[k]@.len()
                    && directions@[k].1.index_spec() < self.arm_direction_hash_map@[k]@.len(),
                0 <= k <= n,
                h == arm_flip(self.arms(), directions@, hash, k as int),
            decreases n - k,
        {
            let (d0, d1) = directions[k];
            proof {
                assert(self.arms()[k as int] == self.arm_direction_hash_map@[k as int]@);
            }
            h = h ^ self.arm_direction_hash_map[k][d0.index()];
            h = h ^ self.arm_direction_hash_map[k][d1.index()];
            k += 1;
        }
        h
    }

    /// The hash after a turn: see `calc`.
    pub open spec fn calc_spec(
        &self,
        hash: usize,
        coords: Seq<Coord>,
        p1: Coord,
        p2: Coord,
        dirs: Seq<(Direction, Direction)>,
    ) -> usize {
        let h1 = hash ^ field_flip(self.fields(), coords, hash, coords.len() as int);
        let h2 = h1 ^ ((h1 ^ self.roots()[p1.i as int][p1.j as int]) ^ self.roots()[p2.i as int][p2.j as int]);
        h2 ^ arm_flip(self.arms(), dirs, h2, min_len(dirs.len() as int, self.arm_direction_hash_map@.len() as int))
    }

    /// The hash after a turn: `hash` is combined with the result of each of
    /// `calc_field_status`, `calc_root_position` and `calc_arm_direction` in
    /// turn, each applied to the hash so far.
    pub fn calc(
        &self,
        hash: usize,
        field_change_coords: &Vec<Coord>,
        root_pos1: Coord,
        root_pos2: Coord,
        arm_directions: &Vec<(Direction, Direction)>,
    ) -> (h: usize)
        requires
            self.field_status_hash_map@.len() > 0,
            forall|k: int| 0 <= k < field_change_coords@.len() ==> (#[trigger] field_change_coords@[k]).i < self.field_status_hash_map@.len()
                && field_change_coords@[k].j < self.field_status_hash_map@[field_change_coords@[k].i as int]@.len(),
            root_pos1.i < self.root_position_hash_map@.len(),
            root_pos1.j < self.root_position_hash_map@[root_pos1.i as int]@.len(),
            root_pos2.i < self.root_position_hash_map@.len(),
            root_pos2.j < self.root_position_hash_map@[root_pos2.i as int]@.len(),
            forall|k: int| 0 <= k < min_len(arm_directions@.len() as int, self.arm_direction_hash_map@.len() as int)
                ==> (#[trigger] arm_directions@[k]).0.index_spec() < self.arm_direction_hash_map@[k]@.len()
                && arm_directions@[k].1.index_spec() < self.arm_direction_hash_map@[k]@.len(),
        ensures
            h == self.calc_spec(hash, field_change_coords@, root_pos1, root_pos2, arm_directions@),
    {
        let mut h = hash;
        h = h ^ self.calc_field_status(h, field_change_coords);
        h = h ^ self.calc_root_position(h, root_pos1, root_pos2);
        h = h ^ self.calc_arm_direction(h, arm_directions);
        h
    }
}

/// Combining a hash with the same word twice gives it back.
proof fn lemma_xor_twice(h: usize, a: usize)
    ensures
        (h ^ a) ^ a == h,
{
    assert((h ^ a) ^ a == h) by (bit_vector);
}

/// `field_flip` combines `h` with one word that depends on the squares only.
proof fn lemma_field_flip_split(f: Seq<Seq<(usize, usize)>>, coords: Seq<Coord>, h: usize, k: int)
    ensures
        field_flip(f, coords, h, k) == h ^ field_flip(f, coords, 0, k),
    decreases k,
{
    if k > 0 {
        lemma_field_flip_split(f, coords, h, k - 1);
        let c = coords[k - 1];
        let a = f[c.i as int][c.j as int].0;
        let b = f[c.i as int][c.j as int].1;
        let x = field_flip(f, coords, 0, k - 1);
        assert(((h ^ x) ^ a) ^ b == h ^ ((x ^ a) ^ b)) by (bit_vector);
    } else {
        assert(h ^ 0usize == h) by (bit_vector);
    }
}

/// Moving the base from `p1` to `p2` and back restores the hash.
pub proof fn law_root_move_undone(hc: &CalcHash, hash: usize, p1: Coord, p2: Coord)
    ensures
        ({
            let r = hc.roots();
            let h1 = (hash ^ r[p1.i as int][p1.j as int]) ^ r[p2.i as int][p2.j as int];
            (h1 ^ r[p2.i as int][p2.j as int]) ^ r[p1.i as int][p1.j as int] == hash
        }),
{
    let r = hc.roots();
    let a = r[p1.i as int][p1.j as int];
    let b = r[p2.i as int][p2.j as int];
    assert((((hash ^ a) ^ b) ^ b) ^ a == hash) by (bit_vector);
}

/// Changing the contents of the same squares twice restores the hash.
pub proof fn law_field_flip_undone(hc: &CalcHash, hash: usize, coords: Seq<Coord>)
    ensures
        field_flip(hc.fields(), coords, field_flip(hc.fields(), coords, hash, coords.len() as int), coords.len() as int)
            == hash,
{
    let f = hc.fields();
    let k = coords.len() as int;
    lemma_field_flip_split(f, coords, hash, k);
    lemma_field_flip_split(f, coords, field_flip(f, coords, hash, k), k);
    lemma_xor_twice(hash, field_flip(f, coords, 0, k));
}

/// The hash of a turn (`calc`) does not depend on the hash before it: the
/// field and base words cancel out and only the words of the turning
/// segments remain.
pub proof fn law_calc_forgets_hash(
    hc: &CalcHash,
    hash: usize,
    coords: Seq<Coord>,
    p1: Coord,
    p2: Coord,
    dirs: Seq<(Direction, Direction)>,
)
    ensures
        hc.calc_spec(hash, coords, p1, p2, dirs) == arm_flip(hc.arms(), dirs, 0,
            min_len(dirs.len() as int, hc.arm_direction_hash_map@.len() as int)),
{
    let f = hc.fields();
    let k = coords.len() as int;
    let m = min_len(dirs.len() as int, hc.arm_direction_hash_map@.len() as int);
    lemma_field_flip_split(f, coords, hash, k);
    let x = field_flip(f, coords, 0, k);
    let h1 = hash ^ field_flip(f, coords, hash, k);
    assert(hash ^ (hash ^ x) == x) by (bit_vector);
    let r = hc.roots();
    let a = r[p1.i as int][p1.j as int];
    let b = r[p2.i as int][p2.j as int];
    let h2 = h1 ^ ((h1 ^ a) ^ b);
    assert(h1 ^ ((h1 ^ a) ^ b) == a ^ b) by (bit_vector);
    lemma_arm_flip_split(hc.arms(), dirs, h2, m);
    let y = arm_flip(hc.arms(), dirs, 0, m);
    assert(h2 ^ (h2 ^ y) == y) by (bit_vector);
}

/// `arm_flip` combines `h` with one word that depends on the pairs only.
proof fn lemma_arm_flip_split(a: Seq<Seq<usize>>, dirs: Seq<(Direction, Direction)>, h: usize, k: int)
    ensures
        arm_flip(a, dirs, h, k) == h ^ arm_flip(a, dirs, 0, k),
    decreases k,
{
    if k > 0 {
        lemma_arm_flip_split(a, dirs, h, k - 1);
        let d = dirs[k - 1];
        let p = a[k - 1][d.0.index_spec()];
        let q = a[k - 1][d.1.index_spec()];
        let x = arm_flip(a, dirs, 0, k - 1);
        assert(((h ^ x) ^ p) ^ q == h ^ ((x ^ p) ^ q)) by (bit_vector);
    } else {
        assert(h ^ 0usize == h) by (bit_vector);
    }
}

/// The board `s` with the content of square `c` turned over: `'0'` (empty)
/// becomes `'1'`, anything else `'0'`.
pub open spec fn toggle(s: Seq<Seq<char>>, c: Coord) -> Seq<Seq<char>> {
    let x = s[c.i as int][c.j as int];
    s.update(c.i as int, s[c.i as int].update(c.j as int, if x == '0' { '1' } else { '0' }))
}

/// The board `s` with the squares `coords[..k]` turned over in turn.
pub open spec fn toggled(s: Seq<Seq<char>>, coords: Seq<Coord>, k: int) -> Seq<Seq<char>>
    decreases k,
{
    if k <= 0 { s } else { toggle(toggled(s, coords, k - 1), coords[k - 1]) }
}

/// The board words of one row combine with `h` one word that does not
/// depend on `h`.
proof fn lemma_row_split(f: Seq<Seq<(usize, usize)>>, s: Seq<Seq<char>>, i: int, k: int, h: usize)
    ensures
        field_row(f, s, i, k, h) == h ^ field_row(f, s, i, k, 0),
    decreases k,
{
    if k > 0 {
        lemma_row_split(f, s, i, k - 1, h);
        let x = field_row(f, s, i, k - 1, 0);
        let p = pick(f[i][k - 1], s[i][k - 1]);
        assert((h ^ x) ^ p == h ^ (x ^ p)) by (bit_vector);
    } else {
        assert(h ^ 0usize == h) by (bit_vector);
    }
}

/// The same for the rows `0..r`.
proof fn lemma_rows_split(f: Seq<Seq<(usize, usize)>>, s: Seq<Seq<char>>, n: int, r: int, h: usize)
    ensures
        field_rows(f, s, n, r, h) == h ^ field_rows(f, s, n, r, 0),
    decreases r,
{
    if r > 0 {
        lemma_rows_split(f, s, n, r - 1, h);
        let x = field_rows(f, s, n, r - 1, 0);
        lemma_row_split(f, s, r - 1, n, h ^ x);
        lemma_row_split(f, s, r - 1, n, x);
        let y = field_row(f, s, r - 1, n, 0);
        assert((h ^ x) ^ y == h ^ (x ^ y)) by (bit_vector);
    } else {
        assert(h ^ 0usize == h) by (bit_vector);
    }
}

/// The same for the segment words.
proof fn lemma_arms_split(a: Seq<Seq<usize>>, m: int, h: usize, x: usize)
    ensures
        arms_right(a, m, h ^ x) == arms_right(a, m, h) ^ x,
    decreases m,
{
    if m > 0 {
        lemma_arms_split(a, m - 1, h, x);
        let y = arms_right(a, m - 1, h);
        let w = a[m - 1][0];
        assert((y ^ x) ^ w == (y ^ w) ^ x) by (bit_vector);
    }
}

/// Turning over square `(i, j)` changes the words of row `i` by both words
/// of the square.
proof fn lemma_row_toggle(f: Seq<Seq<(usize, usize)>>, s: Seq<Seq<char>>, c: Coord, k: int)
    requires
        0 <= c.i < s.len(),
        0 <= c.j < s[c.i as int].len(),
        0 <= k <= s[c.i as int].len(),
    ensures
        field_row(f, toggle(s, c), c.i as int, k, 0) == if k <= c.j { field_row(f, s, c.i as int, k, 0) } else {
            (field_row(f, s, c.i as int, k, 0) ^ f[c.i as int][c.j as int].0) ^ f[c.i as int][c.j as int].1
        },
    decreases k,
{
    let t = toggle(s, c);
    let i = c.i as int;
    if k > 0 {
        lemma_row_toggle(f, s, c, k - 1);
        let x = field_row(f, s, i, k - 1, 0);
        let w = f[i][c.j as int];
        let w0 = w.0;
        let w1 = w.1;
        let p = pick(f[i][k - 1], s[i][k - 1]);
        let q = pick(f[i][k - 1], t[i][k - 1]);
        if k - 1 == c.j {
            if s[i][k - 1] == '0' {
                assert(p == w0 && q == w1);
                assert(x ^ w1 == ((x ^ w0) ^ w0) ^ w1) by (bit_vector);
            } else {
                assert(p == w1 && q == w0);
                assert(x ^ w0 == ((x ^ w1) ^ w0) ^ w1) by (bit_vector);
            }
        } else {
            assert(q == p);
            if k - 1 > c.j {
                assert(((x ^ w0) ^ w1) ^ p == ((x ^ p) ^ w0) ^ w1) by (bit_vector);
            }
        }
    }
}

/// Turning over square `c` of an `n x n` board changes the board words by
/// both words of the square.
proof fn lemma_rows_toggle(f: Seq<Seq<(usize, usize)>>, s: Seq<Seq<char>>, n: int, c: Coord, r: int)
    requires
        s.len() >= n,
        forall|a: int| 0 <= a < n ==> (#[trigger] s[a]).len() >= n,
        c.in_map_spec(n as usize),
        0 <= r <= n,
    ensures
        field_rows(f, toggle(s, c), n, r, 0) == if r <= c.i { field_rows(f, s, n, r, 0) } else {
            (field_rows(f, s, n, r, 0) ^ f[c.i as int][c.j as int].0) ^ f[c.i as int][c.j as int].1
        },
    decreases r,
{
    let t = toggle(s, c);
    if r > 0 {
        lemma_rows_toggle(f, s, n, c, r - 1);
        let x = field_rows(f, s, n, r - 1, 0);
        let xt = field_rows(f, t, n, r - 1, 0);
        let w = f[c.i as int][c.j as int];
        let w0 = w.0;
        let w1 = w.1;
        lemma_row_split(f, s, r - 1, n, x);
        lemma_row_split(f, t, r - 1, n, xt);
        let y = field_row(f, s, r - 1, n, 0);
        if r - 1 == c.i {
            lemma_row_toggle(f, s, c, n);
            assert(xt ^ ((y ^ w0) ^ w1) == ((x ^ y) ^ w0) ^ w1) by (bit_vector)
                requires xt == x;
        } else {
            assert(t[r - 1] == s[r - 1]);
            lemma_row_same(f, s, t, r - 1, n);
            if r - 1 > c.i {
                assert(((x ^ w0) ^ w1) ^ y == ((x ^ y) ^ w0) ^ w1) by (bit_vector);
            }
        }
    }
}

/// Two boards with the same row `i` give the same words for it.
proof fn lemma_row_same(f: Seq<Seq<(usize, usize)>>, s: Seq<Seq<char>>, t: Seq<Seq<char>>, i: int, k: int)
    requires
        t[i] == s[i],
    ensures
        field_row(f, t, i, k, 0) == field_row(f, s, i, k, 0),
    decreases k,
{
    if k > 0 {
        lemma_row_same(f, s, t, i, k - 1);
    }
}

/// The start hash of a board whose squares `coords` were turned over in
/// turn is the start hash of the board before, combined with both words of
/// each of those squares (`field_flip`, what `calc_field_status` computes).
pub proof fn law_init_after_flips(hc: &CalcHash, n: usize, v: usize, s: Seq<Seq<char>>, root: Coord, coords: Seq<Coord>)
    requires
        s.len() >= n,
        forall|a: int| 0 <= a < n ==> (#[trigger] s[a]).len() >= n,
        forall|k: int| 0 <= k < coords.len() ==> (#[trigger] coords[k]).in_map_spec(n),
    ensures
        hc.init_spec(n, v, toggled(s, coords, coords.len() as int), root)
            == field_flip(hc.fields(), coords, hc.init_spec(n, v, s, root), coords.len() as int),
{
    lemma_init_after_flips(hc, n, v, s, root, coords, coords.len() as int);
}

proof fn lemma_init_after_flips(hc: &CalcHash, n: usize, v: usize, s: Seq<Seq<char>>, root: Coord, coords: Seq<Coord>, k: int)
    requires
        s.len() >= n,
        forall|a: int| 0 <= a < n ==> (#[trigger] s[a]).len() >= n,
        forall|q: int| 0 <= q < coords.len() ==> (#[trigger] coords[q]).in_map_spec(n),
        0 <= k <= coords.len(),
    ensures
        toggled(s, coords, k).len() == s.len(),
        forall|a: int| 0 <= a < n ==> (#[trigger] toggled(s, coords, k)[a]).len() == s[a].len(),
        hc.init_spec(n, v, toggled(s, coords, k), root) == field_flip(hc.fields(), coords, hc.init_spec(n, v, s, root), k),
    decreases k,
{
    if k > 0 {
        lemma_init_after_flips(hc, n, v, s, root, coords, k - 1);
        let b = toggled(s, coords, k - 1);
        let c = coords[k - 1];
        assert(c.in_map_spec(n));
        let f = hc.fields();
        let a = hc.arms();
        let rt = hc.roots()[root.i as int][root.j as int];
        let w = f[c.i as int][c.j as int];
        let w0 = w.0;
        let w1 = w.1;
        lemma_rows_toggle(f, b, n as int, c, n as int);
        let x = field_rows(f, b, n as int, n as int, 0);
        let y = (x ^ w0) ^ w1;
        lemma_arms_split(a, v - 1, x ^ rt, w0 ^ w1);
        assert((x ^ rt) ^ (w0 ^ w1) == y ^ rt) by (bit_vector)
            requires y == (x ^ w0) ^ w1;
        let z = arms_right(a, v - 1, x ^ rt);
        assert(z ^ (w0 ^ w1) == (z ^ w0) ^ w1) by (bit_vector);
        let t = toggled(s, coords, k);
        assert forall|q: int| 0 <= q < n implies (#[trigger] t[q]).len() == s[q].len() by {
            assert(b[q].len() == s[q].len());
        }
    }
}

} // verus!
