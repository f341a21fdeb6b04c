//! The packing: where each placed box lies, the rows of shelves, and the
//! candidate placements of the next box.
use vstd::prelude::*;
use crate::ahc040::input::{Input, MAX};
use crate::ahc040::hash::{CalcHash, BUCKET};

verus! {

/// A placement: box `p`, rotated when `r`, pushed in direction `d` (`'U'`
/// up, else left) against box `b` (`-1`: the wall), landing at `pos`, in
/// shelf row `row`.
#[derive(Clone, Copy, Debug)]
pub struct Op {
    pub p: usize,
    pub r: bool,
    pub d: char,
    pub b: i32,
    pub pos: Pos,
    pub row: usize,
}

/// Where a box lies: `[x1, x2] x [y1, y2]`, rotated when `r`, box number `t`
/// (`-1`: none).
#[derive(Clone, Copy, Debug)]
pub struct Pos {
    pub x1: i32,
    pub x2: i32,
    pub y1: i32,
    pub y2: i32,
    pub r: bool,
    pub t: i32,
}

/// The position of no box.
pub open spec fn p0() -> Pos {
    Pos { x1: -1i32, x2: -1i32, y1: -1i32, y2: -1i32, r: false, t: -1i32 }
}

fn make_p0() -> (p: Pos)
    ensures
        p == p0(),
{
    Pos { x1: -1, x2: -1, y1: -1, y2: -1, r: false, t: -1 }
}

/// A row of shelves: its filled width, its height, how many boxes it holds,
/// the last box placed in it (`-1`: none) and its margin.
#[derive(Debug, Clone)]
pub struct Shelf {
    pub width: i32,
    pub height: i32,
    pub box_num: usize,
    pub right_edge: i32,
    pub margin: i32,
}

pub open spec fn max_i32(a: i32, b: i32) -> i32 {
    if a >= b { a } else { b }
}

pub open spec fn min_i32(a: i32, b: i32) -> i32 {
    if a <= b { a } else { b }
}

/// `max_i32` is the larger of its two arguments and `min_i32` the smaller.
pub proof fn law_max_min(a: i32, b: i32)
    ensures
        max_i32(a, b) >= a && max_i32(a, b) >= b && (max_i32(a, b) == a || max_i32(a, b) == b),
        min_i32(a, b) <= a && min_i32(a, b) <= b && (min_i32(a, b) == a || min_i32(a, b) == b),
{
}

/// The sides of box `idx`, swapped when `rotate`.
pub open spec fn sides(input: &Input, idx: int, rotate: bool) -> (i32, i32) {
    if rotate { (input.wh2@[idx].1, input.wh2@[idx].0) } else { input.wh2@[idx] }
}

impl Shelf {
    /// An empty row.
    pub fn new() -> (s: Shelf)
        ensures
            s.width == 0,
            s.height == 0,
            s.box_num == 0,
            s.right_edge == -1,
            s.margin == 0,
    {
        Shelf { width: 0, height: 0, box_num: 0, right_edge: -1, margin: 0 }
    }

    /// The free area that adding box `idx` (rotated when `rotate`) would
    /// leave to the right of this row: `(width_limit - new width) * new
    /// height`, or 0 when less than 10000 of width would be left.
    pub open spec fn margin_spec(&self, idx: int, rotate: bool, input: &Input) -> int {
        let (w, h) = sides(input, idx, rotate);
        let sw = self.width + w;
        let sh = max_i32(self.height, h);
        if input.width_limit - sw < 10000 { 0 } else { (input.width_limit - sw) * sh }
    }

    /// The free area after adding box `idx`: `margin_spec`.
    pub fn calc_margin(&self, idx: usize, rotate: bool, input: &Input) -> (m: i32)
        requires
            idx < input.wh2@.len(),
            i32::MIN <= self.width + sides(input, idx as int, rotate).0 <= i32::MAX,
            i32::MIN <= input.width_limit - (self.width + sides(input, idx as int, rotate).0) <= i32::MAX,
            i32::MIN <= self.margin_spec(idx as int, rotate, input) <= i32::MAX,
        ensures
            m == self.margin_spec(idx as int, rotate, input),
    {
        let (w0, h0) = input.wh2[idx];
        let (w, h) = if rotate { (h0, w0) } else { (w0, h0) };
        let shelf_width = self.width + w;
        let shelf_height = if self.height >= h { self.height } else { h };
        if input.width_limit - shelf_width < 10000 {
            return 0;
        }
        (input.width_limit - shelf_width) * shelf_height
    }
}

/// The packing after `pos.len()` boxes: `pos[k]` where box `k` lies, the
/// rows of shelves, the width `W2` and height `H2` of the packing, its
/// score and hash.
#[derive(Debug, Clone)]
pub struct State {
    pub n: usize,
    pub pos: Vec<Pos>,
    pub lines: Vec<Shelf>,
    pub W2: i32,
    pub H2: i32,
    pub score: usize,
    pub hash: usize,
}

/// Whether the open intervals `(a1, a2)` and `(b1, b2)` overlap.
pub open spec fn overlaps(a1: i32, a2: i32, b1: i32, b2: i32) -> bool {
    max_i32(a1, b1) < min_i32(a2, b2)
}

/// The highest top `y2` among the boxes `pos[..k]` whose `x` range overlaps
/// `(x1, x2)`, if any.
pub open spec fn top_y(pos: Seq<Pos>, x1: i32, x2: i32, k: int) -> Option<i32>
    decreases k,
{
    if k <= 0 {
        None
    } else {
        let q = pos[k - 1];
        let rest = top_y(pos, x1, x2, k - 1);
        if q.t >= 0 && overlaps(x1, x2, q.x1, q.x2) {
            Some(match rest { None => q.y2, Some(m) => max_i32(m, q.y2) })
        } else {
            rest
        }
    }
}

/// The rightmost right side `x2` among the boxes `pos[..k]` whose `y` range
/// overlaps `(y1, y2)`, if any.
pub open spec fn right_x(pos: Seq<Pos>, y1: i32, y2: i32, k: int) -> Option<i32>
    decreases k,
{
    if k <= 0 {
        None
    } else {
        let q = pos[k - 1];
        let rest = right_x(pos, y1, y2, k - 1);
        if q.t >= 0 && overlaps(y1, y2, q.y1, q.y2) {
            Some(match rest { None => q.x2, Some(m) => max_i32(m, q.x2) })
        } else {
            rest
        }
    }
}

pub open spec fn unwrap_or_zero(o: Option<i32>) -> int {
    match o { Some(v) => v as int, None => 0 }
}

/// The sum of the per-row words of `hash_map` for width 0, rows `0..k`.
pub open spec fn init_words(h: &CalcHash, k: int) -> usize
    decreases k,
{
    if k <= 0 { 0 } else { init_words(h, k - 1) ^ h.hash_map@[k - 1]@[0] }
}

impl State {
    /// The invariant of a packing grown by `apply` from `new`: every
    /// coordinate lies in `0..=pos.len() * MAX`, `score == W2 + H2`, the
    /// rows are no wider than the limit and remember a placed box.
    pub open spec fn wf(&self, input: &Input) -> bool {
        let lim = self.pos@.len() * MAX;
        &&& forall|k: int| 0 <= k < self.pos@.len() ==> {
            let q = #[trigger] self.pos@[k];
            0 <= q.x1 <= lim && 0 <= q.x2 <= lim && 0 <= q.y1 <= lim && 0 <= q.y2 <= lim
        }
        &&& 0 <= self.W2 <= lim
        &&& 0 <= self.H2 <= lim
        &&& self.score == self.W2 + self.H2
        &&& self.lines@.len() >= 1
        &&& forall|i: int| 0 <= i < self.lines@.len() ==> {
            let l = #[trigger] self.lines@[i];
            &&& 0 <= l.width <= input.width_limit
            &&& (l.right_edge == -1 || 0 <= l.right_edge < self.pos@.len())
            &&& l.width == if l.right_edge == -1 { 0 } else { self.pos@[l.right_edge as int].x2 }
            &&& l.box_num <= self.pos@.len()
            &&& (l.box_num == 0 <==> i == self.lines@.len() - 1)
        }
    }

    /// What `apply` makes of `old` with `score`, `hash` and `op`: the box
    /// lies at `op.pos`, row `op.row` grows to `op.pos.x2` and remembers the
    /// box (a new empty row opens below it when it was empty), the packing
    /// grows to cover the box, and takes the given score and hash.
    pub open spec fn applied(old: State, new: State, score: usize, hash: usize, op: Op) -> bool {
        let row = op.row as int;
        let l = old.lines@[row];
        &&& new.n == old.n
        &&& new.pos@ == old.pos@.push(op.pos)
        &&& new.lines@.len() == old.lines@.len() + if l.box_num == 0 { 1int } else { 0 }
        &&& forall|i: int| 0 <= i < old.lines@.len() && i != row ==> #[trigger] new.lines@[i] == old.lines@[i]
        &&& new.lines@[row] == (Shelf { width: op.pos.x2, right_edge: op.p as i32, box_num: (l.box_num + 1) as usize, ..l })
        &&& l.box_num == 0 ==> new.lines@[row + 1] == (Shelf {
            width: 0i32, height: 0i32, box_num: 0usize, right_edge: -1i32, margin: 0i32 })
        &&& new.score == score
        &&& new.hash == hash
        &&& new.W2 == max_i32(old.W2, op.pos.x2)
        &&& new.H2 == max_i32(old.H2, op.pos.y2)
    }

    /// The empty packing: one empty row, the hash of all rows at width 0.
    pub fn new(input: &Input) -> (s: State)
        requires
            input.calc_hash.hash_map@.len() >= input.calc_hash.MAX,
            forall|k: int| 0 <= k < input.calc_hash.MAX ==> (#[trigger] input.calc_hash.hash_map@[k])@.len() >= 1,
            input.width_limit >= 0,
        ensures
            s.wf(input),
            s.n == input.N,
            s.pos@.len() == 0,
            s.lines@.len() == 1,
            s.lines@[0].width == 0 && s.lines@[0].height == 0 && s.lines@[0].box_num == 0 && s.lines@[0].right_edge == -1
                && s.lines@[0].margin == 0,
            s.W2 == 0,
            s.H2 == 0,
            s.score == 0,
            s.hash == init_words(&input.calc_hash, input.calc_hash.MAX as int),
    {
        let mut init_hash: usize = 0;
        let mut k: usize = 0;
        while k < input.calc_hash.MAX
            invariant
                input.calc_hash.hash_map@.len() >= input.calc_hash.MAX,
                forall|k: int| 0 <= k < input.calc_hash.MAX ==> (#[trigger] input.calc_hash.hash_map@[k])@.len() >= 1,
                0 <= k <= input.calc_hash.MAX,
                init_hash == init_words(&input.calc_hash, k as int),
            decreases input.calc_hash.MAX - k,
        {
            init_hash = init_hash ^ input.calc_hash.hash_map[k][0];
            k += 1;
        }
        let mut lines: Vec<Shelf> = Vec::new();
        lines.push(Shelf::new());
        State { n: input.N, pos: Vec::new(), lines, W2: 0, H2: 0, score: 0, hash: init_hash }
    }

    /// Where box `c.p` (rotated when `c.r`) lands when pushed up (`c.d ==
    /// 'U'`: it starts at the right side of box `c.b`, or at the wall, and
    /// rises until it meets a placed box) or left (the same with the axes
    /// swapped).
    pub open spec fn placed(&self, c: Op, input: &Input) -> Pos {
        let (w, h) = sides(input, c.p as int, c.r);
        let k = self.pos@.len() as int;
        if c.d == 'U' {
            let x1: int = if c.b < 0 { 0 } else { self.pos@[c.b as int].x2 as int };
            let x2: int = x1 + w;
            let y1: int = unwrap_or_zero(top_y(self.pos@, x1 as i32, x2 as i32, k));
            Pos { x1: x1 as i32, x2: x2 as i32, y1: y1 as i32, y2: (y1 + h) as i32, r: c.r, t: c.p as i32 }
        } else {
            let y1: int = if c.b < 0 { 0 } else { self.pos@[c.b as int].y2 as int };
            let y2: int = y1 + h;
            let x1: int = unwrap_or_zero(right_x(self.pos@, y1 as i32, y2 as i32, k));
            Pos { x1: x1 as i32, x2: (x1 + w) as i32, y1: y1 as i32, y2: y2 as i32, r: c.r, t: c.p as i32 }
        }
    }

    /// What a placement needs: the box exists with sides in `0..=MAX`, the
    /// box it is pushed against has been placed, and the packing is small
    /// enough for its coordinates to fit in an `i32`.
    pub open spec fn can_place(&self, c: Op, input: &Input) -> bool {
        &&& c.p < input.wh2@.len()
        &&& 0 <= input.wh2@[c.p as int].0 <= MAX
        &&& 0 <= input.wh2@[c.p as int].1 <= MAX
        &&& (c.b < 0 || c.b < self.pos@.len())
        &&& self.pos@.len() < 10000
        &&& c.p < 0x7fff_ffff
    }

    /// The width and height of the packing after placement `c`, and where
    /// the box lands: `placed`.
    pub fn calc_length(&self, c: Op, input: &Input) -> (r: (i32, i32, Pos))
        requires
            self.wf(input),
            self.can_place(c, input),
        ensures
            r.2 == self.placed(c, input),
            r.0 == max_i32(self.W2, r.2.x2),
            r.1 == max_i32(self.H2, r.2.y2),
            0 <= r.2.x1 <= r.2.x2 <= (self.pos@.len() + 1) * MAX,
            0 <= r.2.y1 <= r.2.y2 <= (self.pos@.len() + 1) * MAX,
    {
        let ghost lim = self.pos@.len() * MAX;
        proof {
            assert((self.pos@.len() + 1) * MAX == lim + MAX);
            assert(lim <= 20000 * MAX) by (nonlinear_arith)
                requires lim == self.pos@.len() * MAX, self.pos@.len() < 10000;
        }
        let (w0, h0) = input.wh2[c.p];
        let (w, h) = if c.r { (h0, w0) } else { (w0, h0) };
        let pos = if c.d == 'U' {
            let x1: i32 = if c.b < 0 { 0 } else { self.pos[c.b as usize].x2 };
            let x2 = x1 + w;
            let mut best: Option<i32> = None;
            let mut k: usize = 0;
            while k < self.pos.len()
                invariant
                    self.wf(input),
                    lim == self.pos@.len() * MAX,
                    0 <= k <= self.pos@.len(),
                    best == top_y(self.pos@, x1, x2, k as int),
                    match best { Some(v) => 0 <= v <= lim, None => true },
                decreases self.pos@.len() - k,
            {
                let q = self.pos[k];
                let lo = if x1 >= q.x1 { x1 } else { q.x1 };
                let hi = if x2 <= q.x2 { x2 } else { q.x2 };
                if q.t >= 0 && lo < hi {
                    best = match best {
                        None => Some(q.y2),
                        Some(m) => Some(if m >= q.y2 { m } else { q.y2 }),
                    };
                }
                k += 1;
            }
            let y1: i32 = match best { Some(v) => v, None => 0 };
            Pos { x1, x2, y1, y2: y1 + h, r: c.r, t: c.p as i32 }
        } else {
            let y1: i32 = if c.b < 0 { 0 } else { self.pos[c.b as usize].y2 };
            let y2 = y1 + h;
            let mut best: Option<i32> = None;
            let mut k: usize = 0;
            while k < self.pos.len()
                invariant
                    self.wf(input),
                    lim == self.pos@.len() * MAX,
                    0 <= k <= self.pos@.len(),
                    best == right_x(self.pos@, y1, y2, k as int),
                    match best { Some(v) => 0 <= v <= lim, None => true },
                decreases self.pos@.len() - k,
            {
                let q = self.pos[k];
                let lo = if y1 >= q.y1 { y1 } else { q.y1 };
                let hi = if y2 <= q.y2 { y2 } else { q.y2 };
                if q.t >= 0 && lo < hi {
                    best = match best {
                        None => Some(q.x2),
                        Some(m) => Some(if m >= q.x2 { m } else { q.x2 }),
                    };
                }
                k += 1;
            }
            let x1: i32 = match best { Some(v) => v, None => 0 };
            Pos { x1, x2: x1 + w, y1, y2, r: c.r, t: c.p as i32 }
        };
        let W2 = if self.W2 >= pos.x2 { self.W2 } else { pos.x2 };
        let H2 = if self.H2 >= pos.y2 { self.H2 } else { pos.y2 };
        (W2, H2, pos)
    }
}

/// Whether a row of width `width` under a row of width `up` can take a box
/// side `s`: it stays at least `sigma` short of the row above, or that row
/// is already too long for another `s`; and it stays within the limit.
pub open spec fn fits_under(width: i32, s: i32, sigma: i32, up: i32, limit: i32) -> bool {
    (width + s + sigma <= up || up + s >= limit) && width + s <= limit
}

impl State {
    /// The rotations tried for the next box in row `i`, in the order tried:
    /// in the first row, the one that puts its shorter side along the row,
    /// if it fits; in the next five rows, the same one if it `fits_under`
    /// the row above; further down, each rotation that does.
    pub open spec fn line_rots(&self, input: &Input, i: int) -> Seq<bool> {
        let turn = self.pos@.len() as int;
        let (w, h) = input.wh2@[turn];
        let width = self.lines@[i].width;
        let limit = input.width_limit;
        let first: Seq<bool> = if w < h {
            if i == 0 && width + w <= limit { seq![false] } else { seq![] }
        } else {
            if i == 0 && width + h <= limit { seq![true] } else { seq![] }
        };
        let sigma = (input.sigma * 5) as i32;
        let up = if i > 0 { self.lines@[i - 1].width } else { 0 };
        let second: Seq<bool> = if i == 0 {
            seq![]
        } else if i <= 5 {
            if w < h {
                if fits_under(width, w, sigma, up, limit) { seq![false] } else { seq![] }
            } else {
                if fits_under(width, h, sigma, up, limit) { seq![true] } else { seq![] }
            }
        } else {
            (if fits_under(width, w, sigma, up, limit) { seq![false] } else { seq![] })
                + (if fits_under(width, h, sigma, up, limit) { seq![true] } else { seq![] })
        };
        first + second
    }

    /// The candidate that puts the next box into row `i` with rotation
    /// `rot`, pushed up against the last box of that row: the rise of the
    /// score, the new hash, the placement, and whether it is the last box.
    pub open spec fn cand_entry(&self, input: &Input, i: int, rot: bool) -> (usize, usize, Op, bool) {
        let turn = self.pos@.len();
        let op0 = Op { p: turn as usize, r: rot, d: 'U', b: self.lines@[i].right_edge, pos: p0(), row: i as usize };
        let pos = self.placed(op0, input);
        let w2 = max_i32(self.W2, pos.x2);
        let h2 = max_i32(self.H2, pos.y2);
        let width = self.lines@[i].width;
        let after = (width + sides(input, turn as int, rot).0) as i32;
        let hash = (self.hash ^ input.calc_hash.word(i, width)) ^ input.calc_hash.word(i, after);
        ((w2 + h2 - self.score) as usize, hash, Op { pos, ..op0 }, turn + 1 == input.N)
    }

    /// The candidates of rows `0..k`, row by row.
    pub open spec fn cands_upto(&self, input: &Input, k: int) -> Seq<(usize, usize, Op, bool)>
        decreases k,
    {
        if k <= 0 {
            seq![]
        } else {
            self.cands_upto(input, k - 1) + self.line_rots(input, k - 1).map_values(|rot: bool| self.cand_entry(input, k - 1, rot))
        }
    }

    /// What `cand` needs: a next box, a hash row for every row of shelves,
    /// and a packing small enough for its sums to fit.
    pub open spec fn can_extend(&self, input: &Input) -> bool {
        &&& self.wf(input)
        &&& input.wf()
        &&& self.pos@.len() < input.wh2@.len()
        &&& self.pos@.len() < 10000
        &&& self.lines@.len() <= input.calc_hash.hash_map@.len()
    }

    fn make_cand(&self, input: &Input, i: usize, rot: bool) -> (c: (usize, usize, Op, bool))
        requires
            self.can_extend(input),
            i < self.lines@.len(),
            self.lines@[i as int].width + sides(input, self.pos@.len() as int, rot).0 <= input.width_limit,
        ensures
            c == self.cand_entry(input, i as int, rot),
    {
        let turn = self.pos.len();
        let line = &self.lines[i];
        let op0 = Op { p: turn, r: rot, d: 'U', b: line.right_edge, pos: make_p0(), row: i };
        let (w, h, pos) = self.calc_length(op0, input);
        proof {
            assert(w >= self.W2 && h >= self.H2);
        }
        let delta_score = (w + h) as usize - self.score;
        let (bw, bh) = input.wh2[turn];
        let after_width = line.width + if rot { bh } else { bw };
        proof {
            assert(input.calc_hash.covers(i as int, line.width));
            assert(input.calc_hash.covers(i as int, after_width)) by {
                assert(after_width / 10000 <= input.width_limit / 10000) by (nonlinear_arith)
                    requires 0 <= after_width <= input.width_limit;
            }
        }
        let hash = input.calc_hash.calc(self.hash, i, line.width, after_width);
        (delta_score, hash, Op { p: turn, r: rot, d: 'U', b: line.right_edge, pos, row: i }, turn + 1 == input.N)
    }

    /// The candidate placements of the next box (box `pos.len()`), row by
    /// row: `cands_upto` over all rows.
    pub fn cand(&self, input: &Input) -> (r: Vec<(usize, usize, Op, bool)>)
        requires
            self.can_extend(input),
        ensures
            r@ == self.cands_upto(input, self.lines@.len() as int),
    {
        let mut cand: Vec<(usize, usize, Op, bool)> = Vec::new();
        let turn = self.pos.len();
        let (w, h) = input.wh2[turn];
        let limit = input.width_limit;
        let sigma = input.sigma * 5;
        let mut i: usize = 0;
        while i < self.lines.len()
            invariant
                self.can_extend(input),
                turn == self.pos@.len(),
                (w, h) == input.wh2@[turn as int],
                limit == input.width_limit,
                sigma == input.sigma * 5,
                0 <= i <= self.lines@.len(),
                cand@ == self.cands_upto(input, i as int),
            decreases self.lines@.len() - i,
        {
            let ghost before = cand@;
            let width = self.lines[i].width;
            let ghost rots = self.line_rots(input, i as int);
            let ghost mut taken: Seq<bool> = seq![];
            if w < h {
                if i == 0 && width + w <= limit {
                    cand.push(self.make_cand(input, i, false));
                    proof { taken = taken.push(false); }
                }
            } else {
                if i == 0 && width + h <= limit {
                    cand.push(self.make_cand(input, i, true));
                    proof { taken = taken.push(true); }
                }
            }
            if i > 0 {
                let up = self.lines[i - 1].width;
                let fit_w = (width + w + sigma <= up || up + w >= limit) && width + w <= limit;
                let fit_h = (width + h + sigma <= up || up + h >= limit) && width + h <= limit;
                if i <= 5 {
                    if w < h {
                        if fit_w {
                            cand.push(self.make_cand(input, i, false));
                            proof { taken = taken.push(false); }
                        }
                    } else {
                        if fit_h {
                            cand.push(self.make_cand(input, i, true));
                            proof { taken = taken.push(true); }
                        }
                    }
                } else {
                    if fit_w {
                        cand.push(self.make_cand(input, i, false));
                        proof { taken = taken.push(false); }
                    }
                    if fit_h {
                        cand.push(self.make_cand(input, i, true));
                        proof { taken = taken.push(true); }
                    }
                }
            }
            proof {
                assert(taken =~= rots);
                assert(cand@ =~= before + rots.map_values(|rot: bool| self.cand_entry(input, i as int, rot)));
            }
            i += 1;
        }
        cand
    }

    /// Places the box of `op`: it goes into row `op.row` (a new empty row is
    /// opened below when that row was empty), which grows to `op.pos.x2` and
    /// remembers the box; the packing takes the given score and hash and
    /// grows to cover the box.
    pub fn apply(&mut self, score: usize, hash: usize, op: &Op, _input: &Input)
        requires
            op.row < old(self).lines@.len(),
            old(self).lines@[op.row as int].box_num == 0 ==> old(self).lines@.len() == op.row + 1,
            old(self).lines@[op.row as int].box_num < usize::MAX,
            op.p <= i32::MAX,
        ensures
            State::applied(*old(self), *final(self), score, hash, *op),
    {
        let row = op.row;
        if self.lines[row].box_num == 0 {
            self.lines.push(Shelf::new());
        }
        let line = Shelf {
            width: op.pos.x2,
            height: self.lines[row].height,
            box_num: self.lines[row].box_num + 1,
            right_edge: op.p as i32,
            margin: self.lines[row].margin,
        };
        self.lines.set(row, line);
        self.pos.push(op.pos);
        self.score = score;
        self.hash = hash;
        if self.W2 < op.pos.x2 {
            self.W2 = op.pos.x2;
        }
        if self.H2 < op.pos.y2 {
            self.H2 = op.pos.y2;
        }
    }
}

proof fn lemma_top_y_bound(pos: Seq<Pos>, x1: i32, x2: i32, k: int, lim: int)
    requires
        0 <= k <= pos.len(),
        forall|m: int| 0 <= m < pos.len() ==> 0 <= (#[trigger] pos[m]).y2 <= lim,
    ensures
        0 <= unwrap_or_zero(top_y(pos, x1, x2, k)) <= lim || (lim < 0 && top_y(pos, x1, x2, k) is None),
        match top_y(pos, x1, x2, k) { Some(v) => 0 <= v <= lim, None => true },
    decreases k,
{
    if k > 0 {
        lemma_top_y_bound(pos, x1, x2, k - 1, lim);
    }
}

proof fn lemma_cands_member(s: &State, input: &Input, l: int, k: int)
    requires
        0 <= l,
        0 <= k < s.cands_upto(input, l).len(),
    ensures
        exists|i: int, rot: bool| 0 <= i < l && #[trigger] s.line_rots(input, i).contains(rot)
            && s.cands_upto(input, l)[k] == s.cand_entry(input, i, rot),
    decreases l,
{
    let a = s.cands_upto(input, l - 1);
    let rots = s.line_rots(input, l - 1);
    let b = rots.map_values(|rot: bool| s.cand_entry(input, l - 1, rot));
    assert(s.cands_upto(input, l) == a + b);
    if k < a.len() {
        lemma_cands_member(s, input, l - 1, k);
        let (i, rot) = choose|i: int, rot: bool| 0 <= i < l - 1 && #[trigger] s.line_rots(input, i).contains(rot)
            && a[k] == s.cand_entry(input, i, rot);
        assert(s.cands_upto(input, l)[k] == a[k]);
        assert(s.line_rots(input, i).contains(rot));
    } else {
        let j = k - a.len();
        assert(s.cands_upto(input, l)[k] == b[j]);
        assert(rots.contains(rots[j]));
        assert(b[j] == s.cand_entry(input, l - 1, rots[j]));
    }
}

/// A rotation that `line_rots` tries keeps the row within the width limit.
proof fn lemma_rots_fit(s: &State, input: &Input, i: int, rot: bool)
    requires
        s.line_rots(input, i).contains(rot),
    ensures
        s.lines@[i].width + sides(input, s.pos@.len() as int, rot).0 <= input.width_limit,
{
    let rots = s.line_rots(input, i);
    let j = choose|j: int| 0 <= j < rots.len() && rots[j] == rot;
}

/// In the first six rows, a box is tried only with its shorter side along
/// the row.
proof fn lemma_rots_short(s: &State, input: &Input, i: int, rot: bool)
    requires
        s.line_rots(input, i).contains(rot),
        0 <= i <= 5,
    ensures
        sides(input, s.pos@.len() as int, rot).0 <= sides(input, s.pos@.len() as int, rot).1,
{
    let rots = s.line_rots(input, i);
    let j = choose|j: int| 0 <= j < rots.len() && rots[j] == rot;
}

/// Every candidate of `cand` meets the needs of `apply`, and the score it
/// reaches (the parent's plus its rise) is that of a packing of fewer than
/// 10000 boxes, within `0x8000_0000`; its box is pushed up at the end of its
/// row and ends within the width limit.
pub proof fn law_candidate_applicable(s: State, input: &Input, k: int)
    requires
        s.can_extend(input),
        0 <= k < s.cands_upto(input, s.lines@.len() as int).len(),
    ensures
        ({
            let c = s.cands_upto(input, s.lines@.len() as int)[k];
            let op = c.2;
            &&& op.row < s.lines@.len()
            &&& s.lines@[op.row as int].box_num == 0 ==> s.lines@.len() == op.row + 1
            &&& s.lines@[op.row as int].box_num < usize::MAX
            &&& op.p <= i32::MAX
            &&& s.score + c.0 <= 0x8000_0000
            &&& op.d == 'U'
            &&& op.pos.x1 == s.lines@[op.row as int].width
            &&& op.pos.x2 <= input.width_limit
            &&& op.p == s.pos@.len()
            &&& op.row <= 5 ==> sides(input, op.p as int, op.r).0 <= sides(input, op.p as int, op.r).1
        }),
{
    let l = s.lines@.len() as int;
    let c = s.cands_upto(input, l)[k];
    lemma_cands_member(&s, input, l, k);
    let (i, rot) = choose|i: int, rot: bool| 0 <= i < l && #[trigger] s.line_rots(input, i).contains(rot)
        && s.cands_upto(input, l)[k] == s.cand_entry(input, i, rot);
    lemma_rots_fit(&s, input, i, rot);
    if i <= 5 {
        lemma_rots_short(&s, input, i, rot);
    }
    let turn = s.pos@.len();
    let line = s.lines@[i];
    let op0 = Op { p: turn as usize, r: rot, d: 'U', b: line.right_edge, pos: p0(), row: i as usize };
    let pos = s.placed(op0, input);
    assert(s.lines.len() == s.lines@.len());
    let lim = turn * MAX;
    assert(lim <= 10000 * MAX) by (nonlinear_arith)
        requires lim == turn * MAX, turn < 10000;
    let (w, h) = sides(input, turn as int, rot);
    assert(0 <= w <= MAX && 0 <= h <= MAX);
    let x1: int = if line.right_edge < 0 { 0 } else { s.pos@[line.right_edge as int].x2 as int };
    assert(x1 == line.width);
    assert forall|m: int| 0 <= m < s.pos@.len() implies 0 <= (#[trigger] s.pos@[m]).y2 <= lim by {
        let q = s.pos@[m];
    }
    lemma_top_y_bound(s.pos@, x1 as i32, (x1 + w) as i32, turn as int, lim);
    let y1 = unwrap_or_zero(top_y(s.pos@, x1 as i32, (x1 + w) as i32, turn as int));
    assert(0 <= y1 <= lim);
    assert(pos.x2 == x1 + w && pos.y2 == y1 + h);
    assert(c == s.cand_entry(input, i, rot));
}

/// Every candidate of `cand`, taken with `apply` (at the score it reaches,
/// the parent's score plus its rise), meets the needs of `apply` and leaves a
/// packing that keeps the invariant `wf`: the box lies within the growing
/// bounds, the row stays within the width limit, and the score is the width
/// plus the height.
pub proof fn law_candidate_keeps_wf(s: State, t: State, input: &Input, k: int)
    requires
        s.can_extend(input),
        0 <= k < s.cands_upto(input, s.lines@.len() as int).len(),
        State::applied(
            s,
            t,
            (s.score + s.cands_upto(input, s.lines@.len() as int)[k].0) as usize,
            s.cands_upto(input, s.lines@.len() as int)[k].1,
            s.cands_upto(input, s.lines@.len() as int)[k].2,
        ),
    ensures
        ({
            let op = s.cands_upto(input, s.lines@.len() as int)[k].2;
            &&& op.row < s.lines@.len()
            &&& s.lines@[op.row as int].box_num == 0 ==> s.lines@.len() == op.row + 1
            &&& s.lines@[op.row as int].box_num < usize::MAX
            &&& op.p <= i32::MAX
        }),
        t.wf(input),
{
    law_candidate_applicable(s, input, k);
    let l = s.lines@.len() as int;
    let c = s.cands_upto(input, l)[k];
    lemma_cands_member(&s, input, l, k);
    let (i, rot) = choose|i: int, rot: bool| 0 <= i < l && #[trigger] s.line_rots(input, i).contains(rot)
        && s.cands_upto(input, l)[k] == s.cand_entry(input, i, rot);
    lemma_rots_fit(&s, input, i, rot);
    let turn = s.pos@.len();
    let line = s.lines@[i];
    let op0 = Op { p: turn as usize, r: rot, d: 'U', b: line.right_edge, pos: p0(), row: i as usize };
    let pos = s.placed(op0, input);
    assert(c.2 == Op { pos, ..op0 });
    assert(s.lines.len() == s.lines@.len());
    assert(c.2.row as int == i);
    let lim = turn * MAX;
    assert(lim <= 10000 * MAX) by (nonlinear_arith)
        requires lim == turn * MAX, turn < 10000;
    assert((turn + 1) * MAX == lim + MAX);
    let (w, h) = sides(input, turn as int, rot);
    assert(0 <= w <= MAX && 0 <= h <= MAX);
    let x1: int = if line.right_edge < 0 { 0 } else { s.pos@[line.right_edge as int].x2 as int };
    assert(x1 == line.width);
    assert forall|m: int| 0 <= m < s.pos@.len() implies 0 <= (#[trigger] s.pos@[m]).y2 <= lim by {
        let q = s.pos@[m];
    }
    lemma_top_y_bound(s.pos@, x1 as i32, (x1 + w) as i32, turn as int, lim);
    let y1 = unwrap_or_zero(top_y(s.pos@, x1 as i32, (x1 + w) as i32, turn as int));
    assert(0 <= y1 <= lim);
    assert(pos.x1 == x1 && pos.x2 == x1 + w && pos.y1 == y1 && pos.y2 == y1 + h);
    assert(t.pos@ == s.pos@.push(pos));
    let tl = t.pos@.len() * MAX;
    assert(tl == lim + MAX);
    assert forall|m: int| 0 <= m < t.pos@.len() implies {
        let q = #[trigger] t.pos@[m];
        0 <= q.x1 <= tl && 0 <= q.x2 <= tl && 0 <= q.y1 <= tl && 0 <= q.y2 <= tl
    } by {
        if m < s.pos@.len() {
            assert(t.pos@[m] == s.pos@[m]);
        }
    }
    assert forall|j: int| 0 <= j < t.lines@.len() implies {
        let lj = #[trigger] t.lines@[j];
        &&& 0 <= lj.width <= input.width_limit
        &&& (lj.right_edge == -1 || 0 <= lj.right_edge < t.pos@.len())
        &&& lj.width == if lj.right_edge == -1 { 0 } else { t.pos@[lj.right_edge as int].x2 }
        &&& lj.box_num <= t.pos@.len()
        &&& (lj.box_num == 0 <==> j == t.lines@.len() - 1)
    } by {
        if j == i {
        } else if j < l {
            let lo = s.lines@[j];
            assert(t.lines@[j] == lo);
            if lo.right_edge != -1 {
                assert(t.pos@[lo.right_edge as int] == s.pos@[lo.right_edge as int]);
            }
        } else {
            assert(j == i + 1);
        }
    }
}

} // verus!
