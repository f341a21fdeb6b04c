//! Sums over two-dimensional tables, used as termination measures of the
//! searches that lower table entries.
use vstd::prelude::*;
use crate::coord::Coord;

verus! {

/// The table as a sequence of rows.
pub open spec fn view2(g: Seq<Vec<usize>>) -> Seq<Seq<usize>> {
    g.map_values(|row: Vec<usize>| row@)
}

/// The sum of the first `k` entries of `s`.
pub open spec fn row_sum(s: Seq<usize>, k: int) -> nat
    decreases k,
{
    if k <= 0 { 0 } else { row_sum(s, k - 1) + s[k - 1] as nat }
}

/// The sum of all entries of the first `k` rows.
pub open spec fn grid_sum(g: Seq<Seq<usize>>, k: int) -> nat
    decreases k,
{
    if k <= 0 { 0 } else { grid_sum(g, k - 1) + row_sum(g[k - 1], g[k - 1].len() as int) }
}

/// The sum of all entries.
pub open spec fn total(g: Seq<Seq<usize>>) -> nat {
    grid_sum(g, g.len() as int)
}

proof fn lemma_row_sum_update(s: Seq<usize>, c: int, v: usize, k: int)
    requires
        0 <= c < s.len(),
        0 <= k <= s.len(),
    ensures
        row_sum(s.update(c, v), k) == if c < k { row_sum(s, k) - s[c] + v } else { row_sum(s, k) as int },
    decreases k,
{
    if k > 0 {
        lemma_row_sum_update(s, c, v, k - 1);
        if c < k - 1 {
            assert(row_sum(s, k - 1) >= s[c]) by {
                lemma_row_sum_ge(s, c, k - 1);
            }
        }
    }
}

proof fn lemma_row_sum_ge(s: Seq<usize>, c: int, k: int)
    requires
        0 <= c < k <= s.len(),
    ensures
        row_sum(s, k) >= s[c],
    decreases k,
{
    if k - 1 > c {
        lemma_row_sum_ge(s, c, k - 1);
    }
}

proof fn lemma_grid_sum_update(g: Seq<Seq<usize>>, r: int, row: Seq<usize>, k: int)
    requires
        0 <= r < g.len(),
        0 <= k <= g.len(),
    ensures
        grid_sum(g.update(r, row), k) == if r < k {
            grid_sum(g, k) - row_sum(g[r], g[r].len() as int) + row_sum(row, row.len() as int)
        } else {
            grid_sum(g, k) as int
        },
    decreases k,
{
    if k > 0 {
        lemma_grid_sum_update(g, r, row, k - 1);
        if r < k - 1 {
            lemma_grid_sum_ge(g, r, k - 1);
        }
    }
}

proof fn lemma_grid_sum_ge(g: Seq<Seq<usize>>, r: int, k: int)
    requires
        0 <= r < k <= g.len(),
    ensures
        grid_sum(g, k) >= row_sum(g[r], g[r].len() as int),
    decreases k,
{
    if k - 1 > r {
        lemma_grid_sum_ge(g, r, k - 1);
    }
}

/// Writing `v` into entry `(r, c)` changes the total by `v - g[r][c]`.
pub proof fn lemma_total_update(g: Seq<Seq<usize>>, r: int, c: int, v: usize)
    requires
        0 <= r < g.len(),
        0 <= c < g[r].len(),
    ensures
        total(g.update(r, g[r].update(c, v))) == total(g) - g[r][c] + v,
{
    lemma_row_sum_update(g[r], c, v, g[r].len() as int);
    lemma_grid_sum_update(g, r, g[r].update(c, v), g.len() as int);
    lemma_row_sum_ge(g[r], c, g[r].len() as int);
    lemma_grid_sum_ge(g, r, g.len() as int);
}


/// The table is `n x n`.
pub open spec fn square_table(g: Seq<Seq<usize>>, n: int) -> bool {
    &&& g.len() == n
    &&& forall|r: int| 0 <= r < n ==> #[trigger] g[r].len() == n
}

/// The entry of the table at a square.
pub open spec fn at(g: Seq<Seq<usize>>, c: Coord) -> usize {
    g[c.i as int][c.j as int]
}

/// The entry at `c` of an `n x n` table.
pub fn tget(t: &Vec<Vec<usize>>, c: Coord) -> (v: usize)
    requires
        square_table(view2(t@), t@.len() as int),
        c.in_map_spec(t@.len() as usize),
    ensures
        v == at(view2(t@), c),
{
    assert(view2(t@)[c.i as int] == t@[c.i as int]@);
    t[c.i][c.j]
}

/// Writes `v` at `c` of an `n x n` table.
pub fn tset(t: &mut Vec<Vec<usize>>, c: Coord, v: usize)
    requires
        square_table(view2(old(t)@), old(t)@.len() as int),
        c.in_map_spec(old(t)@.len() as usize),
    ensures
        final(t)@.len() == old(t)@.len(),
        view2(final(t)@) == view2(old(t)@).update(c.i as int, view2(old(t)@)[c.i as int].update(c.j as int, v)),
        square_table(view2(final(t)@), old(t)@.len() as int),
        total(view2(final(t)@)) == total(view2(old(t)@)) - at(view2(old(t)@), c) + v,
        at(view2(final(t)@), c) == v,
        forall|d: Coord| #![trigger at(view2(final(t)@), d)] d != c && d.in_map_spec(old(t)@.len() as usize)
            ==> at(view2(final(t)@), d) == at(view2(old(t)@), d),
{
    let ghost before = view2(t@);
    assert(before[c.i as int] == t@[c.i as int]@);
    t[c.i][c.j] = v;
    proof {
        assert(view2(t@) =~~= before.update(c.i as int, before[c.i as int].update(c.j as int, v)));
        lemma_total_update(before, c.i as int, c.j as int, v);
    }
}


/// A table of zeros and ones.
pub open spec fn binary(g: Seq<Seq<usize>>) -> bool {
    forall|r: int, c: int| 0 <= r < g.len() && 0 <= c < g[r].len() ==> #[trigger] g[r][c] <= 1
}

proof fn lemma_row_sum_binary(s: Seq<usize>, k: int)
    requires
        0 <= k <= s.len(),
        forall|c: int| 0 <= c < s.len() ==> #[trigger] s[c] <= 1,
    ensures
        row_sum(s, k) <= k,
    decreases k,
{
    if k > 0 {
        lemma_row_sum_binary(s, k - 1);
    }
}

proof fn lemma_grid_sum_binary(g: Seq<Seq<usize>>, n: int, k: int)
    requires
        0 <= k <= n,
        square_table(g, n),
        binary(g),
    ensures
        grid_sum(g, k) <= k * n,
    decreases k,
{
    if k > 0 {
        lemma_grid_sum_binary(g, n, k - 1);
        assert forall|c: int| 0 <= c < g[k - 1].len() implies #[trigger] g[k - 1][c] <= 1 by {}
        lemma_row_sum_binary(g[k - 1], n);
        assert((k - 1) * n + n == k * n) by (nonlinear_arith);
    }
}

/// An `n x n` table of zeros and ones sums to at most `n * n`.
pub proof fn lemma_total_binary(g: Seq<Seq<usize>>, n: int)
    requires
        0 <= n,
        square_table(g, n),
        binary(g),
    ensures
        total(g) <= n * n,
{
    lemma_grid_sum_binary(g, n, n);
}

} // verus!
