//! The polygon as a set of grid cells, refined step by step, and the local
//! changes that simulated annealing tries.
use vstd::prelude::*;
use crate::coord::wrap;
use crate::ahc039::coord::{Coord, dxy4, dxy4_spec, nb, lemma_nb};
use crate::ahc039::common::{bgrid, mask9, get_mask9, ind, lemma_mask9_bound};
use crate::ahc039::polygon::square_bool;

verus! {

/// The fishing ground: its side `size`, the mackerels (`saba`, wanted) and
/// the sardines (`iwashi`, unwanted).
#[derive(Debug)]
pub struct Input {
    pub N: usize,
    pub size: usize,
    pub saba: Vec<Coord>,
    pub iwashi: Vec<Coord>,
}

/// Every fish lies in a cell of the `grid_num x grid_num` division of the
/// ground, and there are few enough to count in an `i64`.
pub open spec fn fish_fit(input: &Input, grid_num: usize) -> bool {
    &&& 1 <= grid_num
    &&& input.size / grid_num >= 1
    &&& input.saba@.len() <= 0x1000_0000
    &&& input.iwashi@.len() <= 0x1000_0000
    &&& forall|k: int| 0 <= k < input.saba@.len() ==> (#[trigger] input.saba@[k]).x / (input.size / grid_num) < grid_num
        && input.saba@[k].y / (input.size / grid_num) < grid_num
    &&& forall|k: int| 0 <= k < input.iwashi@.len() ==> (#[trigger] input.iwashi@[k]).x / (input.size / grid_num) < grid_num
        && input.iwashi@[k].y / (input.size / grid_num) < grid_num
}

/// The number of the first `k` fish of `fish` that fall in cell `(x, y)` of
/// side `dl`.
pub open spec fn count_in(fish: Seq<Coord>, dl: int, x: int, y: int, k: int) -> int
    decreases k,
{
    if k <= 0 {
        0
    } else {
        count_in(fish, dl, x, y, k - 1) + ind((fish[k - 1].x as int) / dl == x && (fish[k - 1].y as int) / dl == y)
    }
}

/// The table of the cells of side `size / grid_num`: mackerels minus
/// sardines in each.
pub open spec fn score_cell(input: &Input, grid_num: usize, x: int, y: int) -> int {
    let dl = (input.size / grid_num) as int;
    count_in(input.saba@, dl, x, y, input.saba@.len() as int) - count_in(input.iwashi@, dl, x, y, input.iwashi@.len() as int)
}

/// The rows of an `i64` table.
pub open spec fn igrid(t: Seq<Vec<i64>>) -> Seq<Seq<i64>> {
    t.map_values(|row: Vec<i64>| row@)
}

proof fn lemma_count_bound(fish: Seq<Coord>, dl: int, x: int, y: int, k: int)
    requires
        0 <= k,
    ensures
        0 <= count_in(fish, dl, x, y, k) <= k,
    decreases k,
{
    if k > 0 {
        lemma_count_bound(fish, dl, x, y, k - 1);
    }
}

/// For each cell of the `grid_num x grid_num` division, the number of
/// mackerels minus the number of sardines in it.
pub fn calc_score_map(grid_num: usize, input: &Input) -> (m: Vec<Vec<i64>>)
    requires
        fish_fit(input, grid_num),
    ensures
        m@.len() == grid_num,
        forall|x: int| 0 <= x < grid_num ==> (#[trigger] m@[x])@.len() == grid_num,
        forall|x: int, y: int| 0 <= x < grid_num && 0 <= y < grid_num
            ==> #[trigger] igrid(m@)[x][y] == score_cell(input, grid_num, x, y),
{
    let dl = input.size / grid_num;
    let mut score_map: Vec<Vec<i64>> = Vec::new();
    let mut r: usize = 0;
    while r < grid_num
        invariant
            0 <= r <= grid_num,
            score_map@.len() == r,
            forall|x: int| 0 <= x < r ==> (#[trigger] score_map@[x])@.len() == grid_num,
            forall|x: int, y: int| 0 <= x < r && 0 <= y < grid_num ==> #[trigger] score_map@[x]@[y] == 0,
        decreases grid_num - r,
    {
        let mut row: Vec<i64> = Vec::new();
        let mut c: usize = 0;
        while c < grid_num
            invariant
                0 <= c <= grid_num,
                row@.len() == c,
                forall|y: int| 0 <= y < c ==> #[trigger] row@[y] == 0,
            decreases grid_num - c,
        {
            row.push(0);
            c += 1;
        }
        score_map.push(row);
        r += 1;
    }
    let mut k: usize = 0;
    while k < input.saba.len()
        invariant
            fish_fit(input, grid_num),
            dl == input.size / grid_num,
            0 <= k <= input.saba@.len(),
            score_map@.len() == grid_num,
            forall|x: int| 0 <= x < grid_num ==> (#[trigger] score_map@[x])@.len() == grid_num,
            forall|x: int, y: int| 0 <= x < grid_num && 0 <= y < grid_num ==> #[trigger] score_map@[x]@[y]
                == count_in(input.saba@, dl as int, x, y, k as int),
        decreases input.saba@.len() - k,
    {
        let pos = input.saba[k];
        let x = pos.x / dl;
        let y = pos.y / dl;
        proof {
            lemma_count_bound(input.saba@, dl as int, x as int, y as int, k as int);
        }
        let v = score_map[x][y];
        score_map[x][y] = v + 1;
        k += 1;
    }
    let mut k: usize = 0;
    while k < input.iwashi.len()
        invariant
            fish_fit(input, grid_num),
            dl == input.size / grid_num,
            0 <= k <= input.iwashi@.len(),
            score_map@.len() == grid_num,
            forall|x: int| 0 <= x < grid_num ==> (#[trigger] score_map@[x])@.len() == grid_num,
            forall|x: int, y: int| 0 <= x < grid_num && 0 <= y < grid_num ==> #[trigger] score_map@[x]@[y]
                == count_in(input.saba@, dl as int, x, y, input.saba@.len() as int)
                    - count_in(input.iwashi@, dl as int, x, y, k as int),
        decreases input.iwashi@.len() - k,
    {
        let pos = input.iwashi[k];
        let x = pos.x / dl;
        let y = pos.y / dl;
        proof {
            lemma_count_bound(input.iwashi@, dl as int, x as int, y as int, k as int);
            lemma_count_bound(input.saba@, dl as int, x as int, y as int, input.saba@.len() as int);
        }
        let v = score_map[x][y];
        score_map[x][y] = v - 1;
        k += 1;
    }
    proof {
        assert forall|x: int, y: int| 0 <= x < grid_num && 0 <= y < grid_num
            implies #[trigger] igrid(score_map@)[x][y] == score_cell(input, grid_num, x, y) by {
            assert(igrid(score_map@)[x] == score_map@[x]@);
        }
    }
    score_map
}


/// The sum of `f(x, y)` over `y < k` in row `x`.
pub open spec fn sum_row(f: spec_fn(int, int) -> int, x: int, k: int) -> int
    decreases k,
{
    if k <= 0 { 0 } else { sum_row(f, x, k - 1) + f(x, k - 1) }
}

/// The sum of `f(x, y)` over the rows `x < r` of width `n`.
pub open spec fn sum_rows(f: spec_fn(int, int) -> int, n: int, r: int) -> int
    decreases r,
{
    if r <= 0 { 0 } else { sum_rows(f, n, r - 1) + sum_row(f, r - 1, n) }
}

proof fn lemma_sum_bound(f: spec_fn(int, int) -> int, n: int, r: int, b: int)
    requires
        0 <= n,
        0 <= r,
        0 <= b,
        forall|x: int, y: int| 0 <= x < r && 0 <= y < n ==> 0 <= #[trigger] f(x, y) <= b || -b <= f(x, y) <= 0,
    ensures
        -(r * n * b) <= sum_rows(f, n, r) <= r * n * b,
    decreases r,
{
    if r > 0 {
        lemma_sum_bound(f, n, r - 1, b);
        lemma_row_bound(f, r - 1, n, b);
        assert((r - 1) * n * b + n * b == r * n * b) by (nonlinear_arith);
    }
}

proof fn lemma_row_bound(f: spec_fn(int, int) -> int, x: int, k: int, b: int)
    requires
        0 <= k,
        0 <= b,
        forall|y: int| 0 <= y < k ==> 0 <= #[trigger] f(x, y) <= b || -b <= f(x, y) <= 0,
    ensures
        -(k * b) <= sum_row(f, x, k) <= k * b,
    decreases k,
{
    if k > 0 {
        lemma_row_bound(f, x, k - 1, b);
        assert((k - 1) * b + b == k * b) by (nonlinear_arith);
    }
}

proof fn lemma_row_ext(f: spec_fn(int, int) -> int, h: spec_fn(int, int) -> int, x: int, k: int, n: int)
    requires
        0 <= k <= n,
        forall|y: int| 0 <= y < n ==> #[trigger] f(x, y) == h(x, y),
    ensures
        sum_row(f, x, k) == sum_row(h, x, k),
    decreases k,
{
    if k > 0 {
        lemma_row_ext(f, h, x, k - 1, n);
    }
}

/// Sums of functions that agree on the `r x n` rectangle agree.
pub proof fn lemma_sum_ext(f: spec_fn(int, int) -> int, h: spec_fn(int, int) -> int, n: int, r: int)
    requires
        0 <= r,
        0 <= n,
        forall|x: int, y: int| 0 <= x < r && 0 <= y < n ==> #[trigger] f(x, y) == h(x, y),
    ensures
        sum_rows(f, n, r) == sum_rows(h, n, r),
    decreases r,
{
    if r > 0 {
        lemma_sum_ext(f, h, n, r - 1);
        assert forall|y: int| 0 <= y < n implies #[trigger] f(r - 1, y) == h(r - 1, y) by {}
        lemma_row_ext(f, h, r - 1, n, n);
    }
}

/// A copy of a grid of cells.
pub fn copy_grid(g: &Vec<Vec<bool>>) -> (c: Vec<Vec<bool>>)
    ensures
        bgrid(c@) == bgrid(g@),
        c@.len() == g@.len(),
{
    let mut c: Vec<Vec<bool>> = Vec::new();
    let mut i: usize = 0;
    while i < g.len()
        invariant
            0 <= i <= g@.len(),
            c@.len() == i,
            forall|a: int| 0 <= a < i ==> (#[trigger] c@[a])@ == g@[a]@,
        decreases g@.len() - i,
    {
        let mut row: Vec<bool> = Vec::new();
        let mut j: usize = 0;
        while j < g[i].len()
            invariant
                0 <= i < g@.len(),
                0 <= j <= g@[i as int]@.len(),
                row@ == g@[i as int]@.subrange(0, j as int),
            decreases g@[i as int]@.len() - j,
        {
            row.push(g[i][j]);
            j += 1;
            proof {
                assert(row@ =~= g@[i as int]@.subrange(0, j as int));
            }
        }
        proof {
            assert(row@ =~= g@[i as int]@);
        }
        c.push(row);
        i += 1;
    }
    proof {
        assert(bgrid(c@) =~= bgrid(g@));
    }
    c
}

/// The sums of row `x` of two functions that agree on it but at `y0`.
proof fn lemma_row_point(f: spec_fn(int, int) -> int, h: spec_fn(int, int) -> int, x: int, k: int, y0: int)
    requires
        0 <= k,
        forall|y: int| 0 <= y < k && y != y0 ==> #[trigger] f(x, y) == h(x, y),
    ensures
        sum_row(h, x, k) == sum_row(f, x, k) + if 0 <= y0 < k { h(x, y0) - f(x, y0) } else { 0 },
    decreases k,
{
    if k > 0 {
        lemma_row_point(f, h, x, k - 1, y0);
    }
}

/// The sums of two functions that agree on the `r x n` rectangle but at
/// `(x0, y0)` differ by their difference there.
pub proof fn lemma_sum_point(f: spec_fn(int, int) -> int, h: spec_fn(int, int) -> int, n: int, r: int, x0: int, y0: int)
    requires
        0 <= r,
        0 <= n,
        0 <= y0 < n,
        forall|x: int, y: int| 0 <= x < r && 0 <= y < n && !(x == x0 && y == y0) ==> #[trigger] f(x, y) == h(x, y),
    ensures
        sum_rows(h, n, r) == sum_rows(f, n, r) + if 0 <= x0 < r { h(x0, y0) - f(x0, y0) } else { 0 },
    decreases r,
{
    if r > 0 {
        lemma_sum_point(f, h, n, r - 1, x0, y0);
        if r - 1 == x0 {
            assert forall|y: int| 0 <= y < n && y != y0 implies #[trigger] f(r - 1, y) == h(r - 1, y) by {}
            lemma_row_point(f, h, r - 1, n, y0);
        } else {
            assert forall|y: int| 0 <= y < n implies #[trigger] f(r - 1, y) == h(r - 1, y) by {}
            lemma_row_ext(f, h, r - 1, n, n);
        }
    }
}

/// The grid `g` with cell `(x, y)` flipped.
pub open spec fn flipped(g: Seq<Seq<bool>>, x: int, y: int) -> Seq<Seq<bool>> {
    g.update(x, g[x].update(y, !g[x][y]))
}

/// Flipping a cell changes the score of the polygon by the cell's score:
/// plus it when the cell gets filled, minus it when it gets emptied (the
/// change that `calc_diff_score` computes).
pub proof fn law_flip_score(input: &Input, n: usize, g: Seq<Seq<bool>>, x: int, y: int)
    requires
        square_bool(g, n as int),
        0 <= x < n,
        0 <= y < n,
    ensures
        sum_rows(kept_score(flipped(g, x, y), input, n), n as int, n as int)
            == sum_rows(kept_score(g, input, n), n as int, n as int)
                + if g[x][y] { -score_cell(input, n, x, y) } else { score_cell(input, n, x, y) },
{
    let f = kept_score(g, input, n);
    let h = kept_score(flipped(g, x, y), input, n);
    assert forall|a: int, b: int| 0 <= a < n && 0 <= b < n && !(a == x && b == y) implies #[trigger] f(a, b) == h(a, b) by {
        assert(flipped(g, x, y)[a][b] == g[a][b]);
    }
    lemma_sum_point(f, h, n as int, n as int, x, y);
    assert(flipped(g, x, y)[x][y] == !g[x][y]);
}

/// The polygon as the filled cells of a `grid_num x grid_num` division of the
/// ground into cells of side `dl`, its perimeter `length`, its score
/// (mackerels minus sardines inside), the score of each cell, and the best
/// polygon met so far.
#[derive(Debug, Clone)]
pub struct State {
    pub grid_num: usize,
    pub dl: i64,
    pub grid: Vec<Vec<bool>>,
    pub length: i64,
    pub score: i64,
    pub score_map: Vec<Vec<i64>>,
    pub best_dl: i64,
    pub best_length: i64,
    pub best_grid: Vec<Vec<bool>>,
    pub best_score: i64,
}

/// The cell `c` and its neighbour in direction `k` are on opposite sides of
/// the outline (a cell off the grid counts as outside).
pub open spec fn across(g: Seq<Seq<bool>>, n: usize, c: Coord, k: int) -> bool {
    let q = nb(c, k);
    if q.in_map_spec(n) { g[c.x as int][c.y as int] != g[q.x as int][q.y as int] } else { g[c.x as int][c.y as int] }
}

/// The cell `c` and its neighbour in direction `k` are on the same side of
/// the outline.
pub open spec fn alike(g: Seq<Seq<bool>>, n: usize, c: Coord, k: int) -> bool {
    let q = nb(c, k);
    if q.in_map_spec(n) { g[c.x as int][c.y as int] == g[q.x as int][q.y as int] } else { !g[c.x as int][c.y as int] }
}

/// How many of the four neighbours of `c` lie on its side of the outline.
pub open spec fn alike_count(g: Seq<Seq<bool>>, n: usize, c: Coord) -> int {
    ind(alike(g, n, c, 0)) + ind(alike(g, n, c, 1)) + ind(alike(g, n, c, 2)) + ind(alike(g, n, c, 3))
}

/// How many sides of cell `(x, y)` lie on the outline, if it is filled.
pub open spec fn border_sides(g: Seq<Seq<bool>>, n: usize, x: int, y: int) -> int {
    let c = Coord { x: x as usize, y: y as usize };
    if g[x][y] {
        ind(across(g, n, c, 0)) + ind(across(g, n, c, 1)) + ind(across(g, n, c, 2)) + ind(across(g, n, c, 3))
    } else {
        0
    }
}

/// The score of each cell that the grid `g` fills, 0 for the others.
pub open spec fn kept_score(g: Seq<Seq<bool>>, input: &Input, n: usize) -> spec_fn(int, int) -> int {
    |x: int, y: int| if g[x][y] { score_cell(input, n, x, y) } else { 0 }
}

/// The outline sides of each cell of `g`.
pub open spec fn border_count(g: Seq<Seq<bool>>, n: usize) -> spec_fn(int, int) -> int {
    |x: int, y: int| border_sides(g, n, x, y)
}

/// The score of each cell of side `dl` whose corner lies in a filled cell of
/// side `odl` of `og`.
spec fn carried_score(og: Seq<Seq<bool>>, odl: int, dl: int, sm: Seq<Seq<i64>>) -> spec_fn(int, int) -> int {
    |x: int, y: int| if og[x * dl / odl][y * dl / odl] { sm[x][y] as int } else { 0 }
}

impl State {
    /// The grid and the score table are `grid_num x grid_num`, and the sizes
    /// keep every sum over the grid well inside `i64`.
    pub open spec fn wf(&self) -> bool {
        &&& 1 <= self.grid_num <= 0x1_0000
        &&& 1 <= self.dl <= 0x1000_0000
        &&& square_bool(bgrid(self.grid@), self.grid_num as int)
        &&& self.score_map@.len() == self.grid_num
        &&& forall|x: int| 0 <= x < self.grid_num ==> (#[trigger] self.score_map@[x])@.len() == self.grid_num
    }

    /// All cells filled: the polygon is the whole ground, of perimeter
    /// `4 * size` and score 0.
    pub fn new(grid_num: usize, input: &Input) -> (s: State)
        requires
            fish_fit(input, grid_num),
            input.size % grid_num == 0,
            grid_num <= 0x1_0000,
            input.size <= 0x1000_0000,
        ensures
            s.wf(),
            s.grid_num == grid_num,
            s.dl == input.size / grid_num,
            forall|x: int, y: int| 0 <= x < grid_num && 0 <= y < grid_num ==> #[trigger] bgrid(s.grid@)[x][y],
            s.length == 4 * input.size,
            s.score == 0,
            forall|x: int, y: int| 0 <= x < grid_num && 0 <= y < grid_num
                ==> #[trigger] igrid(s.score_map@)[x][y] == score_cell(input, grid_num, x, y),
            s.best_dl == s.dl,
            s.best_length == s.length,
            s.best_grid@.len() == 0,
            s.best_score == 0,
    {
        let mut grid: Vec<Vec<bool>> = Vec::new();
        let mut r: usize = 0;
        while r < grid_num
            invariant
                0 <= r <= grid_num,
                grid@.len() == r,
                forall|x: int| 0 <= x < r ==> (#[trigger] grid@[x])@.len() == grid_num,
                forall|x: int, y: int| 0 <= x < r && 0 <= y < grid_num ==> #[trigger] grid@[x]@[y],
            decreases grid_num - r,
        {
            let mut row: Vec<bool> = Vec::new();
            let mut c: usize = 0;
            while c < grid_num
                invariant
                    0 <= c <= grid_num,
                    row@.len() == c,
                    forall|y: int| 0 <= y < c ==> #[trigger] row@[y],
                decreases grid_num - c,
            {
                row.push(true);
                c += 1;
            }
            grid.push(row);
            r += 1;
        }
        let dl = input.size / grid_num;
        let score_map = calc_score_map(grid_num, input);
        proof {
            assert forall|x: int, y: int| 0 <= x < grid_num && 0 <= y < grid_num implies #[trigger] bgrid(grid@)[x][y] by {
                assert(bgrid(grid@)[x] == grid@[x]@);
            }
            assert(square_bool(bgrid(grid@), grid_num as int)) by {
                assert forall|r: int| 0 <= r < grid_num implies #[trigger] bgrid(grid@)[r].len() == grid_num by {
                    assert(bgrid(grid@)[r] == grid@[r]@);
                }
            }
        }
        State {
            grid_num,
            dl: dl as i64,
            grid,
            length: input.size as i64 * 4,
            score: 0,
            score_map,
            best_dl: dl as i64,
            best_length: input.size as i64 * 4,
            best_grid: Vec::new(),
            best_score: 0,
        }
    }

    /// Whether the cell `pos` touches the outline: a filled cell on the
    /// border of the ground, or a neighbour on the other side.
    pub fn is_next_to_edge(&self, pos: Coord) -> (b: bool)
        requires
            self.wf(),
            pos.in_map_spec(self.grid_num),
        ensures
            b == exists|k: int| 0 <= k < 4 && #[trigger] across(bgrid(self.grid@), self.grid_num, pos, k),
    {
        let ghost g = bgrid(self.grid@);
        let n = self.grid_num;
        proof {
            assert(g[pos.x as int] == self.grid@[pos.x as int]@);
        }
        let here = self.grid[pos.x][pos.y];
        let mut k: usize = 0;
        while k < 4
            invariant
                self.wf(),
                g == bgrid(self.grid@),
                n == self.grid_num,
                pos.in_map_spec(n),
                here == g[pos.x as int][pos.y as int],
                0 <= k <= 4,
                forall|m: int| 0 <= m < k ==> !#[trigger] across(g, n, pos, m),
            decreases 4 - k,
        {
            let nxt = pos.add_wrapping(dxy4(k));
            proof {
                assert(nxt == nb(pos, k as int));
                lemma_nb(pos, k as int, n);
            }
            if here && !nxt.in_map(n) {
                proof {
                    assert(across(g, n, pos, k as int));
                }
                return true;
            }
            if nxt.in_map(n) {
                proof {
                    assert(g[nxt.x as int] == self.grid@[nxt.x as int]@);
                }
                if here != self.grid[nxt.x][nxt.y] {
                    proof {
                        assert(across(g, n, pos, k as int));
                    }
                    return true;
                }
            }
            k += 1;
        }
        false
    }

    /// Whether flipping cell `pos` (filling it when `added`, emptying it
    /// otherwise) keeps the polygon connected, by the table `connect9`
    /// applied to its 3 x 3 neighbourhood (complemented when filling).
    pub fn legal_action(&self, pos: Coord, added: bool, connect9: &Vec<bool>) -> (b: bool)
        requires
            connect9@.len() == 512,
        ensures
            b == connect9@[if added {
                (mask9(bgrid(self.grid@), pos.x, pos.y, 9) as usize ^ 0x1FFusize) as int
            } else {
                mask9(bgrid(self.grid@), pos.x, pos.y, 9)
            }],
    {
        let mut mask = get_mask9(&self.grid, pos.x, pos.y);
        proof {
            lemma_mask9_bound(bgrid(self.grid@), pos.x, pos.y, 9);
            crate::ahc039::common::lemma_p2_bound(9);
        }
        if added {
            let m = mask;
            mask = mask ^ 0x1FF;
            assert(mask < 512) by (bit_vector)
                requires mask == m ^ 0x1FFusize, m < 512usize;
        }
        connect9[mask]
    }

    /// The change of perimeter when cell `pos` flips: `-2 dl` when one
    /// neighbour lies on its side, `+2 dl` when three do, else 0.
    pub fn calc_diff_length(&self, pos: Coord) -> (d: i64)
        requires
            self.wf(),
            pos.in_map_spec(self.grid_num),
        ensures
            d == if alike_count(bgrid(self.grid@), self.grid_num, pos) == 1 {
                -2 * self.dl
            } else if alike_count(bgrid(self.grid@), self.grid_num, pos) == 3 {
                2 * self.dl
            } else {
                0
            },
    {
        let ghost g = bgrid(self.grid@);
        let n = self.grid_num;
        proof {
            assert(g[pos.x as int] == self.grid@[pos.x as int]@);
        }
        let here = self.grid[pos.x][pos.y];
        let mut cnt: usize = 0;
        let mut k: usize = 0;
        while k < 4
            invariant
                self.wf(),
                g == bgrid(self.grid@),
                n == self.grid_num,
                pos.in_map_spec(n),
                here == g[pos.x as int][pos.y as int],
                0 <= k <= 4,
                cnt == (if k > 0 { ind(alike(g, n, pos, 0)) } else { 0 }) + (if k > 1 { ind(alike(g, n, pos, 1)) } else { 0 })
                    + (if k > 2 { ind(alike(g, n, pos, 2)) } else { 0 }) + (if k > 3 { ind(alike(g, n, pos, 3)) } else { 0 }),
            decreases 4 - k,
        {
            let nxt = pos.add_wrapping(dxy4(k));
            proof {
                assert(nxt == nb(pos, k as int));
                lemma_nb(pos, k as int, n);
            }
            if !here && !nxt.in_map(n) {
                cnt += 1;
            } else if nxt.in_map(n) {
                proof {
                    assert(g[nxt.x as int] == self.grid@[nxt.x as int]@);
                }
                if here == self.grid[nxt.x][nxt.y] {
                    cnt += 1;
                }
            }
            k += 1;
        }
        proof {
            assert(cnt == alike_count(g, n, pos));
            assert(1 <= self.dl <= 0x1000_0000);
        }
        let dl: i64 = self.dl;
        if cnt == 1 {
            0 - 2 * dl
        } else if cnt == 3 {
            2 * dl
        } else {
            0
        }
    }

    /// The change of score when cell `pos` flips: its score when it gets
    /// filled, minus it when it gets emptied.
    pub fn calc_diff_score(&self, pos: Coord) -> (d: i64)
        requires
            self.wf(),
            pos.in_map_spec(self.grid_num),
            igrid(self.score_map@)[pos.x as int][pos.y as int] > i64::MIN,
        ensures
            d == if bgrid(self.grid@)[pos.x as int][pos.y as int] {
                -igrid(self.score_map@)[pos.x as int][pos.y as int]
            } else {
                igrid(self.score_map@)[pos.x as int][pos.y as int] as int
            },
    {
        proof {
            assert(bgrid(self.grid@)[pos.x as int] == self.grid@[pos.x as int]@);
            assert(igrid(self.score_map@)[pos.x as int] == self.score_map@[pos.x as int]@);
        }
        let mut diff_score = self.score_map[pos.x][pos.y];
        if self.grid[pos.x][pos.y] {
            diff_score = -diff_score;
        }
        diff_score
    }

    /// Accepts the flip of cell `pos`: the perimeter and the score change by
    /// the given amounts and the cell flips; when the score beats the best
    /// one, the polygon becomes the best one.
    pub fn flip(&mut self, pos: Coord, diff_length: i64, diff_score: i64)
        requires
            old(self).wf(),
            pos.in_map_spec(old(self).grid_num),
            i64::MIN <= old(self).length + diff_length <= i64::MAX,
            i64::MIN <= old(self).score + diff_score <= i64::MAX,
        ensures
            final(self).wf(),
            final(self).grid_num == old(self).grid_num,
            final(self).dl == old(self).dl,
            final(self).score_map@ == old(self).score_map@,
            final(self).length == old(self).length + diff_length,
            final(self).score == old(self).score + diff_score,
            bgrid(final(self).grid@) == flipped(bgrid(old(self).grid@), pos.x as int, pos.y as int),
            if final(self).score > old(self).best_score {
                &&& final(self).best_score == final(self).score
                &&& bgrid(final(self).best_grid@) == bgrid(final(self).grid@)
                &&& final(self).best_length == final(self).length
                &&& final(self).best_dl == final(self).dl
            } else {
                &&& final(self).best_score == old(self).best_score
                &&& final(self).best_grid@ == old(self).best_grid@
                &&& final(self).best_length == old(self).best_length
                &&& final(self).best_dl == old(self).best_dl
            },
    {
        let ghost g = bgrid(self.grid@);
        proof {
            assert(g[pos.x as int] == self.grid@[pos.x as int]@);
        }
        self.length = self.length + diff_length;
        self.score = self.score + diff_score;
        let v = self.grid[pos.x][pos.y];
        self.grid[pos.x][pos.y] = !v;
        proof {
            assert(bgrid(self.grid@) =~~= flipped(g, pos.x as int, pos.y as int));
            assert(square_bool(bgrid(self.grid@), self.grid_num as int)) by {
                assert forall|r: int| 0 <= r < self.grid_num implies #[trigger] bgrid(self.grid@)[r].len() == self.grid_num by {
                    assert(bgrid(self.grid@)[r] == self.grid@[r]@);
                    assert(g[r] == old(self).grid@[r]@);
                }
            }
        }
        if self.score > self.best_score {
            self.best_score = self.score;
            self.best_grid = copy_grid(&self.grid);
            self.best_length = self.length;
            self.best_dl = self.dl;
        }
    }

    /// Moves to the finer division into `grid_num x grid_num` cells of side
    /// `size / grid_num`: a new cell is filled when the old cell holding its
    /// lower left corner was, and the score and perimeter are recomputed.
    pub fn to_next_grid(&mut self, grid_num: usize, input: &Input)
        requires
            old(self).wf(),
            fish_fit(input, grid_num),
            grid_num <= 0x1_0000,
            input.size <= 0x1000_0000,
            forall|x: int| 0 <= x < grid_num ==> #[trigger] (x * (input.size / grid_num) / old(self).dl as int) < old(self).grid_num,
        ensures
            final(self).wf(),
            final(self).grid_num == grid_num,
            final(self).dl == input.size / grid_num,
            forall|x: int, y: int| 0 <= x < grid_num && 0 <= y < grid_num ==> #[trigger] bgrid(final(self).grid@)[x][y]
                == bgrid(old(self).grid@)[x * (input.size / grid_num) / old(self).dl as int][y * (input.size / grid_num) / old(self).dl as int],
            forall|x: int, y: int| 0 <= x < grid_num && 0 <= y < grid_num
                ==> #[trigger] igrid(final(self).score_map@)[x][y] == score_cell(input, grid_num, x, y),
            final(self).score == sum_rows(kept_score(bgrid(final(self).grid@), input, grid_num), grid_num as int, grid_num as int),
            final(self).length == final(self).dl * sum_rows(border_count(bgrid(final(self).grid@), grid_num), grid_num as int, grid_num as int),
            final(self).best_dl == old(self).best_dl,
            final(self).best_length == old(self).best_length,
            final(self).best_grid == old(self).best_grid,
            final(self).best_score == old(self).best_score,
    {
        proof {
            assert(self.wf());
        }
        let dl = input.size / grid_num;
        let odl = self.dl as usize;
        let ghost og = bgrid(self.grid@);
        let ghost on = self.grid_num;
        let score_map = calc_score_map(grid_num, input);
        let ghost sm = igrid(score_map@);
        let ghost fs = carried_score(og, odl as int, dl as int, sm);
        proof {
            assert forall|x: int, y: int| 0 <= x < grid_num && 0 <= y < grid_num implies
                0 <= #[trigger] fs(x, y) <= 0x1000_0000 || -0x1000_0000 <= fs(x, y) <= 0 by {
                lemma_count_bound(input.saba@, dl as int, x, y, input.saba@.len() as int);
                lemma_count_bound(input.iwashi@, dl as int, x, y, input.iwashi@.len() as int);
            }
            assert forall|r: int| 0 <= r <= grid_num implies -(r * grid_num * 0x1000_0000) <= #[trigger] sum_rows(fs, grid_num as int, r)
                <= r * grid_num * 0x1000_0000 by {
                lemma_sum_bound(fs, grid_num as int, r, 0x1000_0000);
            }
            assert(grid_num * grid_num * 0x1000_0000 <= 0x1_0000 * 0x1_0000 * 0x1000_0000) by (nonlinear_arith)
                requires grid_num <= 0x1_0000;
        }
        let mut grid: Vec<Vec<bool>> = Vec::new();
        let mut score: i64 = 0;
        let mut x: usize = 0;
        while x < grid_num
            invariant
                self.wf(),
                og == bgrid(self.grid@),
                on == self.grid_num,
                odl as int == self.dl as int,
                dl == input.size / grid_num,
                input.size <= 0x1000_0000,
                fish_fit(input, grid_num),
                1 <= grid_num <= 0x1_0000,
                forall|x: int| 0 <= x < grid_num ==> #[trigger] (x * dl / odl as int) < on,
                score_map@.len() == grid_num,
                forall|x: int| 0 <= x < grid_num ==> (#[trigger] score_map@[x])@.len() == grid_num,
                sm == igrid(score_map@),
                fs == carried_score(og, odl as int, dl as int, sm),
                forall|x: int, y: int| 0 <= x < grid_num && 0 <= y < grid_num ==> -0x1000_0000 <= #[trigger] fs(x, y) <= 0x1000_0000,
                forall|r: int| 0 <= r <= grid_num ==> -(r * grid_num * 0x1000_0000) <= #[trigger] sum_rows(fs, grid_num as int, r) <= r * grid_num * 0x1000_0000,
                0 <= x <= grid_num,
                grid@.len() == x,
                forall|r: int| 0 <= r < x ==> (#[trigger] grid@[r])@.len() == grid_num,
                forall|r: int, c: int| 0 <= r < x && 0 <= c < grid_num ==> #[trigger] grid@[r]@[c] == og[r * dl / odl as int][c * dl / odl as int],
                score == sum_rows(fs, grid_num as int, x as int),
            decreases grid_num - x,
        {
            let mut row: Vec<bool> = Vec::new();
            let mut y: usize = 0;
            let ghost base = score as int;
            proof {
                assert forall|k: int| 0 <= k <= grid_num implies -(k * 0x1000_0000) <= #[trigger] sum_row(fs, x as int, k) <= k * 0x1000_0000 by {
                    lemma_row_bound(fs, x as int, k, 0x1000_0000);
                }
                assert(x * grid_num * 0x1000_0000 + grid_num * 0x1000_0000 == (x + 1) * grid_num * 0x1000_0000) by (nonlinear_arith);
                assert((x + 1) * grid_num * 0x1000_0000 <= 0x1_0000 * 0x1_0000 * 0x1000_0000) by (nonlinear_arith)
                    requires x + 1 <= grid_num, grid_num <= 0x1_0000;
            }
            while y < grid_num
                invariant
                    self.wf(),
                    og == bgrid(self.grid@),
                    on == self.grid_num,
                    odl as int == self.dl as int,
                    dl == input.size / grid_num,
                    1 <= grid_num <= 0x1_0000,
                    0 <= x < grid_num,
                    input.size <= 0x1000_0000,
                    fish_fit(input, grid_num),
                    (x * dl / odl as int) < on,
                    forall|y: int| 0 <= y < grid_num ==> #[trigger] (y * dl / odl as int) < on,
                    score_map@.len() == grid_num,
                    forall|x: int| 0 <= x < grid_num ==> (#[trigger] score_map@[x])@.len() == grid_num,
                    sm == igrid(score_map@),
                fs == carried_score(og, odl as int, dl as int, sm),
                    forall|k: int| 0 <= k <= grid_num ==> -(k * 0x1000_0000) <= #[trigger] sum_row(fs, x as int, k) <= k * 0x1000_0000,
                    -(x * grid_num * 0x1000_0000) <= base <= x * grid_num * 0x1000_0000,
                    (x + 1) * grid_num * 0x1000_0000 <= 0x1_0000 * 0x1_0000 * 0x1000_0000,
                    0 <= y <= grid_num,
                    row@.len() == y,
                    forall|c: int| 0 <= c < y ==> #[trigger] row@[c] == og[x * dl / odl as int][c * dl / odl as int],
                    score == base + sum_row(fs, x as int, y as int),
                decreases grid_num - y,
            {
                proof {
                    assert((y as int * dl as int / odl as int) < on);
                    assert(dl * grid_num <= input.size) by (nonlinear_arith)
                        requires dl == input.size / grid_num, grid_num >= 1;
                    assert(x * dl <= input.size && y * dl <= input.size) by (nonlinear_arith)
                        requires dl * grid_num <= input.size, x < grid_num, y < grid_num;
                    assert(og[x * dl / odl as int] == self.grid@[x * dl / odl as int]@);
                    assert(sm[x as int] == score_map@[x as int]@);
                    assert(y as int * 0x1000_0000 <= grid_num * 0x1000_0000) by (nonlinear_arith)
                        requires y < grid_num;
                }
                let bx = x * dl / odl;
                let by = y * dl / odl;
                let filled = self.grid[bx][by];
                proof {
                    assert(filled == og[x * dl / odl as int][y * dl / odl as int]);
                    assert(fs(x as int, y as int) == if filled { sm[x as int][y as int] as int } else { 0 });
                    assert(sum_row(fs, x as int, y as int + 1) == sum_row(fs, x as int, y as int) + fs(x as int, y as int));
                    assert(-((y + 1) * 0x1000_0000) <= sum_row(fs, x as int, y as int + 1) <= (y + 1) * 0x1000_0000);
                    assert((y + 1) * 0x1000_0000 <= grid_num * 0x1000_0000) by (nonlinear_arith)
                        requires y + 1 <= grid_num;
                    assert(x * grid_num * 0x1000_0000 + grid_num * 0x1000_0000 == (x + 1) * grid_num * 0x1000_0000) by (nonlinear_arith);
                }
                row.push(filled);
                if filled {
                    score = score + score_map[x][y];
                }
                y += 1;
            }
            grid.push(row);
            x += 1;
        }
        proof {
            assert(square_bool(bgrid(grid@), grid_num as int)) by {
                assert forall|r: int| 0 <= r < grid_num implies #[trigger] bgrid(grid@)[r].len() == grid_num by {
                    assert(bgrid(grid@)[r] == grid@[r]@);
                }
            }
        }
        let ghost ng = bgrid(grid@);
        let ghost fb = border_count(ng, grid_num);
        let mut length: u64 = 0;
        let mut x: usize = 0;
        while x < grid_num
            invariant
                dl == input.size / grid_num,
                1 <= grid_num <= 0x1_0000,
                input.size <= 0x1000_0000,
                ng == bgrid(grid@),
                fb == border_count(ng, grid_num),
                square_bool(ng, grid_num as int),
                0 <= x <= grid_num,
                0 <= sum_rows(fb, grid_num as int, x as int) <= 4 * x * grid_num,
                length == dl * sum_rows(fb, grid_num as int, x as int),
            decreases grid_num - x,
        {
            let mut y: usize = 0;
            let ghost base = sum_rows(fb, grid_num as int, x as int);
            while y < grid_num
                invariant
                    dl == input.size / grid_num,
                    1 <= grid_num <= 0x1_0000,
                    input.size <= 0x1000_0000,
                    ng == bgrid(grid@),
                fb == border_count(ng, grid_num),
                    square_bool(ng, grid_num as int),
                    0 <= x < grid_num,
                    0 <= y <= grid_num,
                    base == sum_rows(fb, grid_num as int, x as int),
                    0 <= base <= 4 * x * grid_num,
                    0 <= sum_row(fb, x as int, y as int) <= 4 * y,
                    length == dl * (base + sum_row(fb, x as int, y as int)),
                decreases grid_num - y,
            {
                proof {
                    assert(ng[x as int] == grid@[x as int]@);
                }
                if grid[x][y] {
                    let pos = Coord::new(x, y);
                    let mut k: usize = 0;
                    let ghost l0 = length as int;
                    let ghost mut c: int = 0;
                    while k < 4
                        invariant
                            dl == input.size / grid_num,
                            1 <= grid_num <= 0x1_0000,
                            input.size <= 0x1000_0000,
                            ng == bgrid(grid@),
                fb == border_count(ng, grid_num),
                            square_bool(ng, grid_num as int),
                            pos == (Coord { x, y }),
                            0 <= x < grid_num,
                            0 <= y < grid_num,
                            ng[x as int][y as int],
                            0 <= base <= 4 * x * grid_num,
                            0 <= sum_row(fb, x as int, y as int) <= 4 * y,
                            l0 == dl * (base + sum_row(fb, x as int, y as int)),
                            0 <= k <= 4,
                            0 <= c <= k,
                            c == (if k > 0 { ind(across(ng, grid_num, pos, 0)) } else { 0 })
                                + (if k > 1 { ind(across(ng, grid_num, pos, 1)) } else { 0 })
                                + (if k > 2 { ind(across(ng, grid_num, pos, 2)) } else { 0 })
                                + (if k > 3 { ind(across(ng, grid_num, pos, 3)) } else { 0 }),
                            length == l0 + dl * c,
                        decreases 4 - k,
                    {
                        let nxt = pos.add_wrapping(dxy4(k));
                        proof {
                            assert(nxt == nb(pos, k as int));
                            lemma_nb(pos, k as int, grid_num);
                            assert(dl * grid_num <= input.size) by (nonlinear_arith)
                                requires dl == input.size / grid_num, grid_num >= 1;
                            assert(dl * (4 * x * grid_num + 4 * y + 4) <= 4 * input.size * grid_num) by (nonlinear_arith)
                                requires dl * grid_num <= input.size, x < grid_num, y < grid_num;
                            assert(4 * input.size * grid_num <= 4 * 0x1000_0000 * 0x1_0000) by (nonlinear_arith)
                                requires input.size <= 0x1000_0000, grid_num <= 0x1_0000;
                            assert(dl * (base + sum_row(fb, x as int, y as int) + c + 1) <= dl * (4 * x * grid_num + 4 * y + 4)) by (nonlinear_arith)
                                requires base + sum_row(fb, x as int, y as int) <= 4 * x * grid_num + 4 * y, c < 4, dl >= 0;
                            assert(l0 + dl * c + dl == dl * (base + sum_row(fb, x as int, y as int) + c + 1)) by (nonlinear_arith)
                                requires l0 == dl * (base + sum_row(fb, x as int, y as int));
                            assert(dl * (c + 1) == dl * c + dl) by (nonlinear_arith);
                            if nxt.in_map_spec(grid_num) {
                                assert(ng[nxt.x as int] == grid@[nxt.x as int]@);
                            }
                        }
                        if !nxt.in_map(grid_num) || !grid[nxt.x][nxt.y] {
                            length = length + dl as u64;
                            proof {
                                c = c + 1;
                            }
                        }
                        k += 1;
                    }
                    proof {
                        assert(fb(x as int, y as int) == border_sides(ng, grid_num, x as int, y as int));
                        assert(c == border_sides(ng, grid_num, x as int, y as int));
                        assert(length == dl * (base + sum_row(fb, x as int, y as int) + fb(x as int, y as int))) by (nonlinear_arith)
                            requires length == l0 + dl * c, c == border_sides(ng, grid_num, x as int, y as int),
                                l0 == dl * (base + sum_row(fb, x as int, y as int)),
                                fb(x as int, y as int) == border_sides(ng, grid_num, x as int, y as int);
                    }
                } else {
                    proof {
                        assert(fb(x as int, y as int) == 0);
                    }
                }
                y += 1;
            }
            proof {
                assert(4 * x * grid_num + 4 * grid_num == 4 * (x + 1) * grid_num) by (nonlinear_arith);
            }
            x += 1;
        }
        proof {
            assert(dl * grid_num <= input.size) by (nonlinear_arith)
                requires dl == input.size / grid_num, grid_num >= 1;
            assert(dl * sum_rows(fb, grid_num as int, grid_num as int) <= dl * (4 * grid_num * grid_num)) by (nonlinear_arith)
                requires sum_rows(fb, grid_num as int, grid_num as int) <= 4 * grid_num * grid_num, dl >= 0;
            assert(dl * (4 * grid_num * grid_num) <= 4 * 0x1000_0000 * 0x1_0000) by (nonlinear_arith)
                requires dl * grid_num <= input.size, input.size <= 0x1000_0000, grid_num <= 0x1_0000;
            assert forall|x: int, y: int| 0 <= x < grid_num && 0 <= y < grid_num implies #[trigger] ng[x][y]
                == og[x * (input.size / grid_num) / odl as int][y * (input.size / grid_num) / odl as int] by {
                assert(ng[x] == grid@[x]@);
            }
            assert forall|x: int, y: int| 0 <= x < grid_num && 0 <= y < grid_num implies
                (#[trigger] fs(x, y)) == (if ng[x][y] { score_cell(input, grid_num, x, y) } else { 0 }) by {
                assert(ng[x] == grid@[x]@);
            }
            let fs2 = kept_score(ng, input, grid_num);
            lemma_sum_ext(fs, fs2, grid_num as int, grid_num as int);
        }
        self.grid = grid;
        self.dl = dl as i64;
        self.score_map = score_map;
        self.grid_num = grid_num;
        self.score = score;
        self.length = length as i64;
    }
}

} // verus!
