//! The board state, its shift candidates and their application.
use vstd::prelude::*;
use crate::ahc042::hash::{CalcHash, is_dir, slide};
use crate::ahc042::input::Input;

verus! {

/// A shift of row (`L`, `R`) or column (`U`, `D`) number `idx`.
#[derive(Debug, Clone, Copy, PartialEq, Eq, Structural)]
pub struct Op {
    pub dir: char,
    pub idx: usize,
}

/// The board as a sequence of rows.
pub open spec fn grid(f: Seq<Vec<char>>) -> Seq<Seq<char>> {
    f.map_values(|row: Vec<char>| row@)
}

/// The board is `n x n`.
pub open spec fn square(g: Seq<Seq<char>>, n: int) -> bool {
    &&& g.len() == n
    &&& forall|r: int| 0 <= r < n ==> #[trigger] g[r].len() == n
}

/// The square `(r, c)` after the shift `dir` of line `idx`: the line moves one
/// square towards `dir`, the piece at its front leaves the board and `.`
/// enters at its back.
pub open spec fn shifted_cell(g: Seq<Seq<char>>, n: int, dir: char, idx: int, r: int, c: int) -> char {
    if dir == 'L' && r == idx {
        if c + 1 < n { g[r][c + 1] } else { '.' }
    } else if dir == 'R' && r == idx {
        if c >= 1 { g[r][c - 1] } else { '.' }
    } else if dir == 'U' && c == idx {
        if r + 1 < n { g[r + 1][c] } else { '.' }
    } else if dir == 'D' && c == idx {
        if r >= 1 { g[r - 1][c] } else { '.' }
    } else {
        g[r][c]
    }
}

/// The whole board after the shift `dir` of line `idx`.
pub open spec fn shifted(g: Seq<Seq<char>>, n: int, dir: char, idx: int) -> Seq<Seq<char>> {
    Seq::new(n as nat, |r: int| Seq::new(n as nat, |c: int| shifted_cell(g, n, dir, idx, r, c)))
}

/// The onis of row `r` among its first `j` squares, left to right.
pub open spec fn xs_row(g: Seq<Seq<char>>, r: int, j: int) -> Seq<(usize, usize)>
    decreases j,
{
    if j <= 0 {
        Seq::empty()
    } else {
        let rest = xs_row(g, r, j - 1);
        if g[r][j - 1] == 'x' { rest.push((r as usize, (j - 1) as usize)) } else { rest }
    }
}

/// The onis of the first `i` rows of an `n`-wide board in row-major order.
pub open spec fn xs_rows(g: Seq<Seq<char>>, n: int, i: int) -> Seq<(usize, usize)>
    decreases i,
{
    if i <= 0 {
        Seq::empty()
    } else {
        xs_rows(g, n, i - 1) + xs_row(g, i - 1, n)
    }
}

/// All onis of an `n x n` board in row-major order.
pub open spec fn x_cells(g: Seq<Seq<char>>, n: int) -> Seq<(usize, usize)> {
    xs_rows(g, n, n)
}

/// The distance from `(row, col)` to the nearest edge, counting the square
/// itself: how many shifts it takes to push an oni there off the board.
pub open spec fn dist_spec(row: int, col: int, n: int) -> int {
    let a = if row + 1 <= n - row { row + 1 } else { n - row };
    let b = if a <= col + 1 { a } else { col + 1 };
    if b <= n - col { b } else { n - col }
}

/// The total distance of the first `k` onis of `xs`.
pub open spec fn score_of(xs: Seq<(usize, usize)>, n: int, k: int) -> int
    decreases k,
{
    if k <= 0 {
        0
    } else {
        score_of(xs, n, k - 1) + dist_spec(xs[k - 1].0 as int, xs[k - 1].1 as int, n)
    }
}

/// The XOR of the keys of the first `k` onis of `xs`, starting from `h`.
pub open spec fn hash_of(ch: CalcHash, xs: Seq<(usize, usize)>, h: usize, k: int) -> usize
    decreases k,
{
    if k <= 0 {
        h
    } else {
        hash_of(ch, xs, h, k - 1) ^ ch.key(xs[k - 1].0 as int, xs[k - 1].1 as int)
    }
}

/// Whether the oni at `p` lies on the line that `dir`, `idx` shifts.
pub open spec fn in_line(p: (usize, usize), dir: char, idx: int) -> bool {
    if dir == 'L' || dir == 'R' { p.0 == idx } else { p.1 == idx }
}

/// The distance of the oni at `p` after the shift; 0 once it has left.
pub open spec fn moved_dist(p: (usize, usize), dir: char, n: int) -> int {
    match slide(p.0 as int, p.1 as int, dir, n) {
        Some((r, c)) => dist_spec(r, c, n),
        None => 0,
    }
}

/// The total distance of the onis among the first `k` of `xs` on the line,
/// before the shift.
pub open spec fn line_prev(xs: Seq<(usize, usize)>, n: int, dir: char, idx: int, k: int) -> int
    decreases k,
{
    if k <= 0 {
        0
    } else {
        line_prev(xs, n, dir, idx, k - 1) + if in_line(xs[k - 1], dir, idx) {
            dist_spec(xs[k - 1].0 as int, xs[k - 1].1 as int, n)
        } else {
            0
        }
    }
}

/// The same total after the shift.
pub open spec fn line_next(xs: Seq<(usize, usize)>, n: int, dir: char, idx: int, k: int) -> int
    decreases k,
{
    if k <= 0 {
        0
    } else {
        line_next(xs, n, dir, idx, k - 1) + if in_line(xs[k - 1], dir, idx) {
            moved_dist(xs[k - 1], dir, n)
        } else {
            0
        }
    }
}

/// The hash `h` updated for every oni among the first `k` of `xs` on the
/// line.
pub open spec fn line_hash(ch: CalcHash, xs: Seq<(usize, usize)>, dir: char, idx: int, h: usize, k: int) -> usize
    decreases k,
{
    if k <= 0 {
        h
    } else {
        let prev = line_hash(ch, xs, dir, idx, h, k - 1);
        if in_line(xs[k - 1], dir, idx) {
            ch.calc_spec(prev, xs[k - 1].0 as int, xs[k - 1].1 as int, dir)
        } else {
            prev
        }
    }
}


/// The candidate that shifts line `idx` towards `dir` from state `s`: the
/// score and hash after the shift, the shift itself, and whether every oni
/// has then left the board.
pub open spec fn cand_for(s: State, ch: CalcHash, dir: char, idx: int) -> (i64, usize, Op, bool) {
    let xs = s.x_positions@;
    let n = s.N as int;
    let k = xs.len() as int;
    let next_score = s.score + line_next(xs, n, dir, idx, k) - line_prev(xs, n, dir, idx, k);
    (next_score as i64, line_hash(ch, xs, dir, idx, s.hash, k), Op { dir, idx: idx as usize }, next_score == 0)
}

/// The candidates of line `i` in the directions `d1` then `d2`, each when the
/// shift keeps every fukunokami on the board.
pub open spec fn line_cands(s: State, ch: CalcHash, d1: char, d2: char, i: int) -> Seq<(i64, usize, Op, bool)> {
    (if s.can_shift_spec(d1, i) { seq![cand_for(s, ch, d1, i)] } else { Seq::empty() })
    + (if s.can_shift_spec(d2, i) { seq![cand_for(s, ch, d2, i)] } else { Seq::empty() })
}

/// The candidates of the first `k` rows (left, right) or columns (up, down).
pub open spec fn lines_cands(s: State, ch: CalcHash, d1: char, d2: char, k: int) -> Seq<(i64, usize, Op, bool)>
    decreases k,
{
    if k <= 0 {
        Seq::empty()
    } else {
        lines_cands(s, ch, d1, d2, k - 1) + line_cands(s, ch, d1, d2, k - 1)
    }
}

/// All candidates: every row left then right, row by row, then every column
/// up then down.
pub open spec fn cand_spec(s: State, ch: CalcHash) -> Seq<(i64, usize, Op, bool)> {
    lines_cands(s, ch, 'L', 'R', s.N as int) + lines_cands(s, ch, 'U', 'D', s.N as int)
}

/// The distance of a square to the edge is the least of its distances to
/// the four sides (`row + 1` to the top, `n - row` to the bottom, `col + 1`
/// to the left, `n - col` to the right): at most each, and equal to one. In
/// particular a square on the border is 1 from the edge.
pub proof fn law_edge_distance(row: int, col: int, n: int)
    requires
        0 <= row < n,
        0 <= col < n,
    ensures
        dist_spec(row, col, n) <= row + 1,
        dist_spec(row, col, n) <= n - row,
        dist_spec(row, col, n) <= col + 1,
        dist_spec(row, col, n) <= n - col,
        dist_spec(row, col, n) == row + 1 || dist_spec(row, col, n) == n - row
            || dist_spec(row, col, n) == col + 1 || dist_spec(row, col, n) == n - col,
        (row == 0 || row == n - 1 || col == 0 || col == n - 1) ==> dist_spec(row, col, n) == 1,
{
}

/// The distance of `(row, col)` to the nearest edge of an `N x N` board,
/// counting the square itself.
pub fn calc_dist(row: usize, col: usize, N: usize) -> (d: i64)
    requires
        row < N,
        col < N,
        N <= i64::MAX,
    ensures
        d == dist_spec(row as int, col as int, N as int),
        1 <= d <= N,
        d <= row + 1 && d <= N - row && d <= col + 1 && d <= N - col,
        d == row + 1 || d == N - row || d == col + 1 || d == N - col,
{
    let a = if row + 1 <= N - row { row + 1 } else { N - row };
    let b = if a <= col + 1 { a } else { col + 1 };
    let c = if b <= N - col { b } else { N - col };
    c as i64
}

proof fn lemma_xs_row_bounds(g: Seq<Seq<char>>, r: int, j: int)
    requires
        0 <= r,
        r <= usize::MAX,
        j <= usize::MAX,
    ensures
        xs_row(g, r, j).len() <= if j < 0 { 0 } else { j },
        forall|k: int| 0 <= k < xs_row(g, r, j).len() ==> {
            &&& (#[trigger] xs_row(g, r, j)[k]).0 == r
            &&& xs_row(g, r, j)[k].1 < j
            &&& g[r][xs_row(g, r, j)[k].1 as int] == 'x'
        },
    decreases j,
{
    if j > 0 {
        lemma_xs_row_bounds(g, r, j - 1);
    }
}

/// The onis of an `n x n` board lie on it and there are at most `i * n` of
/// them in the first `i` rows.
pub(crate) proof fn lemma_xs_rows_bounds(g: Seq<Seq<char>>, n: int, i: int)
    requires
        0 <= i <= n <= 1_000_000,
    ensures
        xs_rows(g, n, i).len() <= i * n,
        forall|k: int| 0 <= k < xs_rows(g, n, i).len() ==> {
            &&& (#[trigger] xs_rows(g, n, i)[k]).0 < i
            &&& xs_rows(g, n, i)[k].1 < n
            &&& g[xs_rows(g, n, i)[k].0 as int][xs_rows(g, n, i)[k].1 as int] == 'x'
        },
    decreases i,
{
    if i > 0 {
        lemma_xs_rows_bounds(g, n, i - 1);
        lemma_xs_row_bounds(g, i - 1, n);
        let a = xs_rows(g, n, i - 1);
        let b = xs_row(g, i - 1, n);
        assert(xs_rows(g, n, i) == a + b);
        assert((i - 1) * n + n == i * n) by (nonlinear_arith);
        assert forall|k: int| 0 <= k < xs_rows(g, n, i).len() implies {
            &&& (#[trigger] xs_rows(g, n, i)[k]).0 < i
            &&& xs_rows(g, n, i)[k].1 < n
            &&& g[xs_rows(g, n, i)[k].0 as int][xs_rows(g, n, i)[k].1 as int] == 'x'
        } by {
            if k < a.len() {
                assert(xs_rows(g, n, i)[k] == a[k]);
            } else {
                assert(xs_rows(g, n, i)[k] == b[k - a.len()]);
            }
        }
    }
}


/// The sums over the first `k` onis only look at those onis.
proof fn lemma_prefix_sums(a: Seq<(usize, usize)>, b: Seq<(usize, usize)>, ch: CalcHash, n: int, h: usize, k: int)
    requires
        0 <= k <= a.len(),
        k <= b.len(),
        forall|m: int| 0 <= m < k ==> a[m] == b[m],
    ensures
        score_of(a, n, k) == score_of(b, n, k),
        hash_of(ch, a, h, k) == hash_of(ch, b, h, k),
    decreases k,
{
    if k > 0 {
        lemma_prefix_sums(a, b, ch, n, h, k - 1);
    }
}

proof fn lemma_dist_bounds(row: int, col: int, n: int)
    requires
        0 <= row < n,
        0 <= col < n,
    ensures
        1 <= dist_spec(row, col, n) <= n,
{
}

/// Every oni on the line adds between 0 and `n` to either sum.
proof fn lemma_line_bounds(xs: Seq<(usize, usize)>, n: int, dir: char, idx: int, k: int)
    requires
        0 <= k <= xs.len(),
        1 <= n <= 1_000_000,
        forall|m: int| 0 <= m < xs.len() ==> (#[trigger] xs[m]).0 < n && xs[m].1 < n,
    ensures
        0 <= line_prev(xs, n, dir, idx, k) <= k * n,
        0 <= line_next(xs, n, dir, idx, k) <= k * n,
    decreases k,
{
    if k > 0 {
        lemma_line_bounds(xs, n, dir, idx, k - 1);
        let p = xs[k - 1];
        lemma_dist_bounds(p.0 as int, p.1 as int, n);
        match slide(p.0 as int, p.1 as int, dir, n) {
            Some((r, c)) => lemma_dist_bounds(r, c, n),
            None => {},
        }
        assert((k - 1) * n + n == k * n) by (nonlinear_arith);
    }
}

/// The state of the board: the board, the total distance of its onis
/// (`score`, to be minimised), their hash and their positions in row-major
/// order.
#[derive(Debug, Clone)]
pub struct State {
    pub N: usize,
    pub field: Vec<Vec<char>>,
    pub score: i64,
    pub hash: usize,
    pub x_positions: Vec<(usize, usize)>,
}

impl State {
    /// The board is `N x N`, `x_positions` lists its onis in row-major order,
    /// and `score` stays far from the ends of the `i64` range.
    pub open spec fn wf(&self) -> bool {
        &&& 1 <= self.N <= 1_000_000
        &&& square(grid(self.field@), self.N as int)
        &&& self.x_positions@ == x_cells(grid(self.field@), self.N as int)
        &&& -0x4000_0000_0000_0000 <= self.score <= 0x4000_0000_0000_0000
    }

    /// The board of `input` with its onis, their total distance and hash.
    pub fn new(input: &Input) -> (s: State)
        requires
            input.wf(),
        ensures
            s.wf(),
            s.N == input.N,
            grid(s.field@) == grid(input.C@),
            s.score == score_of(s.x_positions@, s.N as int, s.x_positions@.len() as int),
            s.hash == hash_of(input.calc_hash, s.x_positions@, 0, s.x_positions@.len() as int),
    {
        let n = input.N;
        let ghost g = grid(input.C@);
        let mut x_positions: Vec<(usize, usize)> = Vec::new();
        let mut score: i64 = 0;
        let mut hash: usize = 0;
        let mut i: usize = 0;
        while i < n
            invariant
                input.wf(),
                n == input.N,
                g == grid(input.C@),
                0 <= i <= n,
                x_positions@ == xs_rows(g, n as int, i as int),
                score == score_of(x_positions@, n as int, x_positions@.len() as int),
                0 <= score <= x_positions@.len() * n,
                hash == hash_of(input.calc_hash, x_positions@, 0, x_positions@.len() as int),
            decreases n - i,
        {
            proof {
                lemma_xs_rows_bounds(g, n as int, i as int);
            }
            let mut j: usize = 0;
            while j < n
                invariant
                    input.wf(),
                    n == input.N,
                    g == grid(input.C@),
                    0 <= i < n,
                    0 <= j <= n,
                    x_positions@ == xs_rows(g, n as int, i as int) + xs_row(g, i as int, j as int),
                    x_positions@.len() <= i * n + j,
                    score == score_of(x_positions@, n as int, x_positions@.len() as int),
                    0 <= score <= x_positions@.len() * n,
                    hash == hash_of(input.calc_hash, x_positions@, 0, x_positions@.len() as int),
                decreases n - j,
            {
                proof {
                    lemma_xs_row_bounds(g, i as int, j as int);
                    assert(g[i as int] == input.C@[i as int]@);
                }
                if input.C[i][j] == 'x' {
                    let ghost old_xs = x_positions@;
                    let d = calc_dist(i, j, n);
                    proof {
                        assert(i * n + j + 1 <= n * n) by (nonlinear_arith)
                            requires i < n, j < n;
                        assert(n * n <= 1_000_000_000_000) by (nonlinear_arith)
                            requires n <= 1_000_000;
                        assert(x_positions@.len() * n <= 1_000_000_000_000 * 1_000_000) by (nonlinear_arith)
                            requires x_positions@.len() <= 1_000_000_000_000, n <= 1_000_000;
                        assert((x_positions@.len() + 1) * n == x_positions@.len() * n + n) by (nonlinear_arith);
                    }
                    x_positions.push((i, j));
                    score = score + d;
                    hash = hash ^ input.calc_hash.hash_map[i][j];
                    proof {
                        lemma_prefix_sums(old_xs, x_positions@, input.calc_hash, n as int, 0, old_xs.len() as int);
                        assert(x_positions@.drop_last() == old_xs);
                        assert(xs_row(g, i as int, j as int + 1) == xs_row(g, i as int, j as int).push((i, j)));
                    }
                }
                j += 1;
            }
            proof {
                assert(xs_rows(g, n as int, i as int + 1) == xs_rows(g, n as int, i as int) + xs_row(g, i as int, n as int));
            }
            i += 1;
        }
        proof {
            lemma_xs_rows_bounds(g, n as int, n as int);
            assert(n * n <= 1_000_000_000_000) by (nonlinear_arith)
                requires n <= 1_000_000;
            assert(x_positions@.len() * n <= 1_000_000_000_000 * 1_000_000) by (nonlinear_arith)
                requires x_positions@.len() <= 1_000_000_000_000, n <= 1_000_000;
        }
        let field = input.C.clone();
        proof {
            assert(grid(field@) =~= grid(input.C@));
        }
        State { N: n, field, score, hash, x_positions }
    }

    /// Whether the shift `dir` of line `idx` keeps every fukunokami on the
    /// board, i.e. the square that would leave holds no `o`.
    pub open spec fn can_shift_spec(&self, dir: char, idx: int) -> bool {
        let g = grid(self.field@);
        let n = self.N as int;
        if dir == 'L' {
            g[idx][0] != 'o'
        } else if dir == 'R' {
            g[idx][n - 1] != 'o'
        } else if dir == 'U' {
            g[0][idx] != 'o'
        } else {
            g[n - 1][idx] != 'o'
        }
    }

    pub fn can_shift(&self, dir: char, idx: usize) -> (b: bool)
        requires
            self.wf(),
            is_dir(dir),
            idx < self.N,
        ensures
            b == self.can_shift_spec(dir, idx as int),
    {
        proof {
            assert(grid(self.field@)[idx as int] == self.field@[idx as int]@);
            assert(grid(self.field@)[0] == self.field@[0]@);
            assert(grid(self.field@)[self.N - 1] == self.field@[self.N - 1]@);
        }
        if dir == 'L' {
            self.field[idx][0] != 'o'
        } else if dir == 'R' {
            self.field[idx][self.N - 1] != 'o'
        } else if dir == 'U' {
            self.field[0][idx] != 'o'
        } else {
            self.field[self.N - 1][idx] != 'o'
        }
    }

    /// Shifts the line of `op` by one square: the front piece leaves, `.`
    /// enters at the back. Any other direction leaves the board unchanged.
    pub fn shift(&mut self, op: &Op)
        requires
            old(self).wf(),
            op.idx < old(self).N,
        ensures
            final(self).N == old(self).N,
            final(self).score == old(self).score,
            final(self).hash == old(self).hash,
            final(self).x_positions == old(self).x_positions,
            square(grid(final(self).field@), final(self).N as int),
            grid(final(self).field@) == if is_dir(op.dir) {
                shifted(grid(old(self).field@), old(self).N as int, op.dir, op.idx as int)
            } else {
                grid(old(self).field@)
            },
    {
        let n = self.N;
        let idx = op.idx;
        let ghost g = grid(self.field@);
        proof {
            assert forall|r: int| 0 <= r < n implies #[trigger] self.field@[r]@ == g[r] && g[r].len() == n by {}
        }
        if op.dir == 'L' {
            let mut j: usize = 1;
            while j < n
                invariant
                    1 <= j <= n,
                    n == self.N,
                    self.score == old(self).score,
                    self.hash == old(self).hash,
                    self.x_positions == old(self).x_positions,
                    idx < n,
                    self.field@.len() == n,
                    forall|r: int| 0 <= r < n ==> #[trigger] self.field@[r]@.len() == n,
                    forall|r: int| 0 <= r < n && r != idx ==> #[trigger] self.field@[r]@ == g[r],
                    forall|c: int| 0 <= c < j - 1 ==> #[trigger] self.field@[idx as int]@[c] == g[idx as int][c + 1],
                    forall|c: int| j - 1 <= c < n ==> #[trigger] self.field@[idx as int]@[c] == g[idx as int][c],
                decreases n - j,
            {
                let v = self.field[idx][j];
                self.field[idx][j - 1] = v;
                j += 1;
            }
            self.field[idx][n - 1] = '.';
        } else if op.dir == 'R' {
            let mut j: usize = n - 1;
            while j >= 1
                invariant
                    0 <= j < n,
                    n == self.N,
                    self.score == old(self).score,
                    self.hash == old(self).hash,
                    self.x_positions == old(self).x_positions,
                    idx < n,
                    self.field@.len() == n,
                    forall|r: int| 0 <= r < n ==> #[trigger] self.field@[r]@.len() == n,
                    forall|r: int| 0 <= r < n && r != idx ==> #[trigger] self.field@[r]@ == g[r],
                    forall|c: int| j < c < n ==> #[trigger] self.field@[idx as int]@[c] == g[idx as int][c - 1],
                    forall|c: int| 0 <= c <= j ==> #[trigger] self.field@[idx as int]@[c] == g[idx as int][c],
                decreases j,
            {
                let v = self.field[idx][j - 1];
                self.field[idx][j] = v;
                j -= 1;
            }
            self.field[idx][0] = '.';
        } else if op.dir == 'U' {
            let mut i: usize = 1;
            while i < n
                invariant
                    1 <= i <= n,
                    n == self.N,
                    self.score == old(self).score,
                    self.hash == old(self).hash,
                    self.x_positions == old(self).x_positions,
                    idx < n,
                    self.field@.len() == n,
                    forall|r: int| 0 <= r < n ==> #[trigger] self.field@[r]@.len() == n,
                    forall|r: int, c: int| 0 <= r < n && 0 <= c < n && c != idx ==> #[trigger] self.field@[r]@[c] == g[r][c],
                    forall|r: int| 0 <= r < i - 1 ==> #[trigger] self.field@[r]@[idx as int] == g[r + 1][idx as int],
                    forall|r: int| i - 1 <= r < n ==> #[trigger] self.field@[r]@[idx as int] == g[r][idx as int],
                decreases n - i,
            {
                let v = self.field[i][idx];
                self.field[i - 1][idx] = v;
                i += 1;
            }
            self.field[n - 1][idx] = '.';
        } else if op.dir == 'D' {
            let mut i: usize = n - 1;
            while i >= 1
                invariant
                    0 <= i < n,
                    n == self.N,
                    self.score == old(self).score,
                    self.hash == old(self).hash,
                    self.x_positions == old(self).x_positions,
                    idx < n,
                    self.field@.len() == n,
                    forall|r: int| 0 <= r < n ==> #[trigger] self.field@[r]@.len() == n,
                    forall|r: int, c: int| 0 <= r < n && 0 <= c < n && c != idx ==> #[trigger] self.field@[r]@[c] == g[r][c],
                    forall|r: int| i < r < n ==> #[trigger] self.field@[r]@[idx as int] == g[r - 1][idx as int],
                    forall|r: int| 0 <= r <= i ==> #[trigger] self.field@[r]@[idx as int] == g[r][idx as int],
                decreases i,
            {
                let v = self.field[i - 1][idx];
                self.field[i][idx] = v;
                i -= 1;
            }
            self.field[0][idx] = '.';
        }
        proof {
            if is_dir(op.dir) {
                assert(grid(self.field@) =~~= shifted(g, n as int, op.dir, idx as int));
            } else {
                assert(grid(self.field@) =~~= g);
            }
        }
    }

    /// The candidate for one line (see `cand_for`).
    fn line_cand(&self, input: &Input, dir: char, idx: usize) -> (c: (i64, usize, Op, bool))
        requires
            self.wf(),
            input.calc_hash.wf(self.N as nat),
            is_dir(dir),
            idx < self.N,
        ensures
            c == cand_for(*self, input.calc_hash, dir, idx as int),
    {
        let n = self.N;
        let ghost xs = self.x_positions@;
        proof {
            lemma_xs_rows_bounds(grid(self.field@), n as int, n as int);
            assert(n * n <= 1_000_000_000_000) by (nonlinear_arith)
                requires n <= 1_000_000;
            assert(xs.len() * n <= 1_000_000_000_000 * 1_000_000) by (nonlinear_arith)
                requires xs.len() <= 1_000_000_000_000, n <= 1_000_000;
            lemma_line_bounds(xs, n as int, dir, idx as int, xs.len() as int);
        }
        let mut prev: i64 = 0;
        let mut next: i64 = 0;
        let mut next_hash = self.hash;
        let mut k: usize = 0;
        while k < self.x_positions.len()
            invariant
                self.wf(),
                input.calc_hash.wf(self.N as nat),
                n == self.N,
                is_dir(dir),
                xs == self.x_positions@,
                xs.len() * n <= 1_000_000_000_000 * 1_000_000,
                forall|m: int| 0 <= m < xs.len() ==> (#[trigger] xs[m]).0 < n && xs[m].1 < n,
                0 <= k <= xs.len(),
                prev == line_prev(xs, n as int, dir, idx as int, k as int),
                next == line_next(xs, n as int, dir, idx as int, k as int),
                next_hash == line_hash(input.calc_hash, xs, dir, idx as int, self.hash, k as int),
            decreases xs.len() - k,
        {
            proof {
                lemma_line_bounds(xs, n as int, dir, idx as int, k as int + 1);
                assert((k + 1) * n <= xs.len() * n) by (nonlinear_arith)
                    requires k + 1 <= xs.len();
            }
            let (row, col) = self.x_positions[k];
            let on_line = if dir == 'L' || dir == 'R' { row == idx } else { col == idx };
            if on_line {
                prev = prev + calc_dist(row, col, n);
                if dir == 'L' {
                    if col > 0 {
                        next = next + calc_dist(row, col - 1, n);
                    }
                } else if dir == 'R' {
                    if col + 1 < n {
                        next = next + calc_dist(row, col + 1, n);
                    }
                } else if dir == 'U' {
                    if row > 0 {
                        next = next + calc_dist(row - 1, col, n);
                    }
                } else {
                    if row + 1 < n {
                        next = next + calc_dist(row + 1, col, n);
                    }
                }
                next_hash = input.calc_hash.calc(next_hash, row, col, dir);
                proof {
                    let p = xs[k as int];
                    if dir == 'L' {
                        assert(slide(row as int, col as int, dir, n as int) == if col > 0 { Some((row as int, col - 1)) } else { None::<(int, int)> });
                    } else if dir == 'R' {
                        assert(slide(row as int, col as int, dir, n as int) == if col + 1 < n { Some((row as int, col + 1)) } else { None::<(int, int)> });
                    } else if dir == 'U' {
                        assert(slide(row as int, col as int, dir, n as int) == if row > 0 { Some((row - 1, col as int)) } else { None::<(int, int)> });
                    } else {
                        assert(slide(row as int, col as int, dir, n as int) == if row + 1 < n { Some((row + 1, col as int)) } else { None::<(int, int)> });
                    }
                }
            }
            k += 1;
        }
        let diff = next - prev;
        let next_score = self.score + diff;
        (next_score, next_hash, Op { dir, idx }, next_score == 0)
    }

    /// Every shift that keeps the fukunokami on the board, with the score and
    /// hash it leads to: rows left then right, then columns up then down.
    pub fn cand(&self, input: &Input) -> (cands: Vec<(i64, usize, Op, bool)>)
        requires
            self.wf(),
            input.calc_hash.wf(self.N as nat),
        ensures
            cands@ == cand_spec(*self, input.calc_hash),
    {
        let mut cand: Vec<(i64, usize, Op, bool)> = Vec::new();
        let n = self.N;
        let mut i: usize = 0;
        while i < n
            invariant
                self.wf(),
                input.calc_hash.wf(self.N as nat),
                n == self.N,
                0 <= i <= n,
                cand@ == lines_cands(*self, input.calc_hash, 'L', 'R', i as int),
            decreases n - i,
        {
            if self.can_shift('L', i) {
                cand.push(self.line_cand(input, 'L', i));
            }
            if self.can_shift('R', i) {
                cand.push(self.line_cand(input, 'R', i));
            }
            proof {
                assert(cand@ =~= lines_cands(*self, input.calc_hash, 'L', 'R', i as int + 1));
            }
            i += 1;
        }
        let ghost rows = cand@;
        let mut j: usize = 0;
        while j < n
            invariant
                self.wf(),
                input.calc_hash.wf(self.N as nat),
                n == self.N,
                0 <= j <= n,
                rows == lines_cands(*self, input.calc_hash, 'L', 'R', n as int),
                cand@ == rows + lines_cands(*self, input.calc_hash, 'U', 'D', j as int),
            decreases n - j,
        {
            if self.can_shift('U', j) {
                cand.push(self.line_cand(input, 'U', j));
            }
            if self.can_shift('D', j) {
                cand.push(self.line_cand(input, 'D', j));
            }
            proof {
                assert(cand@ =~= rows + lines_cands(*self, input.calc_hash, 'U', 'D', j as int + 1));
            }
            j += 1;
        }
        cand
    }

    /// Takes the candidate `op` with the score and hash computed for it:
    /// shifts the board and lists its onis again.
    pub fn apply(&mut self, score: i64, hash: usize, op: &Op, _input: &Input)
        requires
            old(self).wf(),
            op.idx < old(self).N,
            -0x4000_0000_0000_0000 <= score <= 0x4000_0000_0000_0000,
        ensures
            final(self).wf(),
            final(self).N == old(self).N,
            final(self).score == score,
            final(self).hash == hash,
            grid(final(self).field@) == if is_dir(op.dir) {
                shifted(grid(old(self).field@), old(self).N as int, op.dir, op.idx as int)
            } else {
                grid(old(self).field@)
            },
    {
        self.score = score;
        self.hash = hash;
        self.shift(op);
        let n = self.N;
        let ghost g = grid(self.field@);
        let mut x_positions: Vec<(usize, usize)> = Vec::new();
        let mut i: usize = 0;
        while i < n
            invariant
                n == self.N,
                g == grid(self.field@),
                square(g, n as int),
                0 <= i <= n,
                x_positions@ == xs_rows(g, n as int, i as int),
            decreases n - i,
        {
            let mut j: usize = 0;
            while j < n
                invariant
                    n == self.N,
                    g == grid(self.field@),
                    square(g, n as int),
                    0 <= i < n,
                    0 <= j <= n,
                    x_positions@ == xs_rows(g, n as int, i as int) + xs_row(g, i as int, j as int),
                decreases n - j,
            {
                proof {
                    assert(g[i as int] == self.field@[i as int]@);
                }
                if self.field[i][j] == 'x' {
                    x_positions.push((i, j));
                    proof {
                        assert(xs_row(g, i as int, j as int + 1) == xs_row(g, i as int, j as int).push((i, j)));
                    }
                }
                j += 1;
            }
            proof {
                assert(xs_rows(g, n as int, i as int + 1) == xs_rows(g, n as int, i as int) + xs_row(g, i as int, n as int));
            }
            i += 1;
        }
        self.x_positions = x_positions;
    }
}

} // verus!
