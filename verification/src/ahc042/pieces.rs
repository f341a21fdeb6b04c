//! The fukunokami (`o`) on the board: a shift that `can_shift` allows keeps
//! every one of them.
use vstd::prelude::*;
use crate::ahc042::hash::is_dir;
use crate::ahc042::state::{State, grid, square, shifted, cand_for, line_cands, lines_cands, cand_spec};
use crate::ahc042::hash::CalcHash;

verus! {

/// One for an `o`, zero otherwise.
pub open spec fn is_o(c: char) -> int {
    if c == 'o' { 1 } else { 0 }
}

/// The number of `o` among the first `k` squares of `line`.
pub open spec fn o_in(line: Seq<char>, k: int) -> int
    decreases k,
{
    if k <= 0 { 0 } else { o_in(line, k - 1) + is_o(line[k - 1]) }
}

/// The number of `o` in rows `0..k` of a board of width `n`.
pub open spec fn o_count(g: Seq<Seq<char>>, n: int, k: int) -> int
    decreases k,
{
    if k <= 0 { 0 } else { o_count(g, n, k - 1) + o_in(g[k - 1], n) }
}

/// Column `c` of a board with `n` rows.
pub open spec fn column(g: Seq<Seq<char>>, n: int, c: int) -> Seq<char> {
    Seq::new(n as nat, |r: int| g[r][c])
}

/// A line moved one square towards its start, `.` entering at its end.
proof fn lemma_line_forward(a: Seq<char>, b: Seq<char>, n: int, k: int)
    requires
        1 <= n,
        a.len() >= n,
        b.len() >= n,
        forall|c: int| 0 <= c < n - 1 ==> #[trigger] b[c] == a[c + 1],
        b[n - 1] == '.',
        0 <= k <= n - 1,
    ensures
        o_in(b, k) + is_o(a[0]) == o_in(a, k + 1),
    decreases k,
{
    if k > 0 {
        lemma_line_forward(a, b, n, k - 1);
        assert(b[k - 1] == a[k]);
    } else {
        assert(o_in(a, 0) == 0 && o_in(b, 0) == 0);
        assert(o_in(a, 1) == o_in(a, 0) + is_o(a[0]));
    }
}

/// A line moved one square towards its end, `.` entering at its start.
proof fn lemma_line_backward(a: Seq<char>, b: Seq<char>, n: int, k: int)
    requires
        1 <= n,
        a.len() >= n,
        b.len() >= n,
        forall|c: int| 1 <= c < n ==> #[trigger] b[c] == a[c - 1],
        b[0] == '.',
        1 <= k <= n,
    ensures
        o_in(b, k) == o_in(a, k - 1),
    decreases k,
{
    if k > 1 {
        lemma_line_backward(a, b, n, k - 1);
        assert(b[k - 1] == a[k - 2]);
    } else {
        assert(o_in(a, 0) == 0 && o_in(b, 0) == 0);
        assert(o_in(b, 1) == o_in(b, 0) + is_o(b[0]));
    }
}

/// Moving a line by one square keeps its `o` when the square that leaves
/// holds none.
proof fn lemma_line_moved(a: Seq<char>, b: Seq<char>, n: int, forward: bool)
    requires
        1 <= n,
        a.len() >= n,
        b.len() >= n,
        forward ==> (forall|c: int| 0 <= c < n - 1 ==> #[trigger] b[c] == a[c + 1]) && b[n - 1] == '.' && a[0] != 'o',
        !forward ==> (forall|c: int| 1 <= c < n ==> #[trigger] b[c] == a[c - 1]) && b[0] == '.' && a[n - 1] != 'o',
    ensures
        o_in(b, n) == o_in(a, n),
{
    if forward {
        lemma_line_forward(a, b, n, n - 1);
    } else {
        lemma_line_backward(a, b, n, n);
    }
}

/// Lines that differ at most at `j` differ in their count by that square.
proof fn lemma_line_one(a: Seq<char>, b: Seq<char>, j: int, k: int)
    requires
        0 <= k <= a.len(),
        k <= b.len(),
        forall|c: int| 0 <= c < k && c != j ==> #[trigger] b[c] == a[c],
    ensures
        o_in(b, k) - (if 0 <= j < k { is_o(b[j]) } else { 0 }) == o_in(a, k) - (if 0 <= j < k { is_o(a[j]) } else { 0 }),
    decreases k,
{
    if k > 0 {
        lemma_line_one(a, b, j, k - 1);
        if k - 1 != j {
            assert(b[k - 1] == a[k - 1]);
        }
    }
}

/// Boards that differ only in column `c` differ in their count by that
/// column.
proof fn lemma_rows_one_column(g: Seq<Seq<char>>, h: Seq<Seq<char>>, n: int, c: int, k: int)
    requires
        square(g, n),
        square(h, n),
        0 <= c < n,
        0 <= k <= n,
        forall|r: int, q: int| 0 <= r < n && 0 <= q < n && q != c ==> #[trigger] h[r][q] == g[r][q],
    ensures
        o_count(h, n, k) - o_in(column(h, n, c), k) == o_count(g, n, k) - o_in(column(g, n, c), k),
    decreases k,
{
    if k > 0 {
        lemma_rows_one_column(g, h, n, c, k - 1);
        let r = k - 1;
        assert forall|q: int| 0 <= q < n && q != c implies #[trigger] h[r][q] == g[r][q] by {}
        lemma_line_one(g[r], h[r], c, n);
        assert(column(h, n, c)[r] == h[r][c]);
        assert(column(g, n, c)[r] == g[r][c]);
    }
}

/// Boards that differ only in row `i` differ in their count by that row.
proof fn lemma_rows_one_row(g: Seq<Seq<char>>, h: Seq<Seq<char>>, n: int, i: int, k: int)
    requires
        square(g, n),
        square(h, n),
        0 <= i < n,
        0 <= k <= n,
        forall|r: int| 0 <= r < n && r != i ==> #[trigger] h[r] == g[r],
    ensures
        o_count(h, n, k) - (if i < k { o_in(h[i], n) } else { 0 }) == o_count(g, n, k) - (if i < k { o_in(g[i], n) } else { 0 }),
    decreases k,
{
    if k > 0 {
        lemma_rows_one_row(g, h, n, i, k - 1);
        if k - 1 != i {
            assert(h[k - 1] == g[k - 1]);
        }
    }
}

/// A shift that `can_shift` allows (the square that leaves holds no `o`)
/// keeps the number of fukunokami on the board.
pub proof fn law_shift_keeps_pieces(s: State, dir: char, idx: int)
    requires
        s.wf(),
        is_dir(dir),
        0 <= idx < s.N,
        s.can_shift_spec(dir, idx),
    ensures
        o_count(shifted(grid(s.field@), s.N as int, dir, idx), s.N as int, s.N as int)
            == o_count(grid(s.field@), s.N as int, s.N as int),
{
    let g = grid(s.field@);
    let n = s.N as int;
    let h = shifted(g, n, dir, idx);
    assert(square(h, n));
    if dir == 'L' || dir == 'R' {
        assert forall|r: int| 0 <= r < n && r != idx implies #[trigger] h[r] == g[r] by {
            assert(h[r] =~= g[r]);
        }
        lemma_rows_one_row(g, h, n, idx, n);
        if dir == 'L' {
            assert forall|c: int| 0 <= c < n - 1 implies #[trigger] h[idx][c] == g[idx][c + 1] by {}
            lemma_line_moved(g[idx], h[idx], n, true);
        } else {
            assert forall|c: int| 1 <= c < n implies #[trigger] h[idx][c] == g[idx][c - 1] by {}
            lemma_line_moved(g[idx], h[idx], n, false);
        }
    } else {
        assert forall|r: int, q: int| 0 <= r < n && 0 <= q < n && q != idx implies #[trigger] h[r][q] == g[r][q] by {}
        lemma_rows_one_column(g, h, n, idx, n);
        let a = column(g, n, idx);
        let b = column(h, n, idx);
        if dir == 'U' {
            assert forall|c: int| 0 <= c < n - 1 implies #[trigger] b[c] == a[c + 1] by {}
            lemma_line_moved(a, b, n, true);
        } else {
            assert forall|c: int| 1 <= c < n implies #[trigger] b[c] == a[c - 1] by {}
            lemma_line_moved(a, b, n, false);
        }
    }
}

/// A candidate of lines `0..k` in the directions `d1`, `d2` is the shift of
/// one such line in one of them that `can_shift` allows.
pub open spec fn allowed_shift(s: State, ch: CalcHash, d1: char, d2: char, k: int, c: (i64, usize, crate::ahc042::state::Op, bool)) -> bool {
    exists|i: int, d: char| 0 <= i < k && (d == d1 || d == d2) && s.can_shift_spec(d, i) && c == #[trigger] cand_for(s, ch, d, i)
}

proof fn lemma_lines_allowed(s: State, ch: CalcHash, d1: char, d2: char, k: int)
    ensures
        forall|j: int| 0 <= j < lines_cands(s, ch, d1, d2, k).len() ==> allowed_shift(s, ch, d1, d2, k, #[trigger] lines_cands(s, ch, d1, d2, k)[j]),
    decreases k,
{
    if k > 0 {
        lemma_lines_allowed(s, ch, d1, d2, k - 1);
        let rest = lines_cands(s, ch, d1, d2, k - 1);
        let line = line_cands(s, ch, d1, d2, k - 1);
        let all = lines_cands(s, ch, d1, d2, k);
        assert forall|j: int| 0 <= j < all.len() implies allowed_shift(s, ch, d1, d2, k, #[trigger] all[j]) by {
            if j < rest.len() {
                assert(all[j] == rest[j]);
                assert(allowed_shift(s, ch, d1, d2, k - 1, rest[j]));
                let (i, d) = choose|i: int, d: char| 0 <= i < k - 1 && (d == d1 || d == d2) && s.can_shift_spec(d, i)
                    && rest[j] == #[trigger] cand_for(s, ch, d, i);
                assert(all[j] == cand_for(s, ch, d, i));
            } else {
                assert(all[j] == line[j - rest.len()]);
                let a: Seq<(i64, usize, crate::ahc042::state::Op, bool)> =
                    if s.can_shift_spec(d1, k - 1) { seq![cand_for(s, ch, d1, k - 1)] } else { Seq::empty() };
                if j - rest.len() < a.len() {
                    assert(all[j] == cand_for(s, ch, d1, k - 1));
                } else {
                    assert(all[j] == cand_for(s, ch, d2, k - 1));
                }
            }
        }
    }
}

/// Every candidate shift keeps the number of fukunokami on the board: a
/// candidate is a shift of a row (left or right) or a column (up or down)
/// that `can_shift` allows.
pub proof fn law_candidates_keep_pieces(s: State, ch: CalcHash, k: int)
    requires
        s.wf(),
        0 <= k < cand_spec(s, ch).len(),
    ensures
        ({
            let op = cand_spec(s, ch)[k].2;
            &&& is_dir(op.dir)
            &&& op.idx < s.N
            &&& o_count(shifted(grid(s.field@), s.N as int, op.dir, op.idx as int), s.N as int, s.N as int)
                == o_count(grid(s.field@), s.N as int, s.N as int)
        }),
{
    let n = s.N as int;
    let a = lines_cands(s, ch, 'L', 'R', n);
    let b = lines_cands(s, ch, 'U', 'D', n);
    lemma_lines_allowed(s, ch, 'L', 'R', n);
    lemma_lines_allowed(s, ch, 'U', 'D', n);
    let c = cand_spec(s, ch)[k];
    let (d1, d2, j) = if k < a.len() { ('L', 'R', k) } else { ('U', 'D', k - a.len()) };
    if k < a.len() {
        assert(c == a[k]);
        assert(allowed_shift(s, ch, 'L', 'R', n, a[k]));
    } else {
        assert(c == b[k - a.len()]);
        assert(allowed_shift(s, ch, 'U', 'D', n, b[k - a.len()]));
    }
    let (i, d) = choose|i: int, d: char| 0 <= i < n && (d == d1 || d == d2) && s.can_shift_spec(d, i) && c == #[trigger] cand_for(s, ch, d, i);
    assert(c.2 == crate::ahc042::state::Op { dir: d, idx: i as usize });
    law_shift_keeps_pieces(s, d, i);
}

} // verus!
