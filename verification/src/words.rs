//! Hash words: from a stream of random words, the ones not drawn before, and
//! their arrangement into tables.
use vstd::prelude::*;
use crate::fxset::{word_set_new, word_set_insert};

verus! {

/// The words of `draws[..k]` that were not drawn before, in order.
pub open spec fn fresh_upto(draws: Seq<usize>, k: int) -> Seq<usize>
    decreases k,
{
    if k <= 0 {
        Seq::empty()
    } else {
        let f = fresh_upto(draws, k - 1);
        if f.contains(draws[k - 1]) { f } else { f.push(draws[k - 1]) }
    }
}

/// The new words of a shorter part of the stream come first among those of
/// a longer part, and no word is new twice.
proof fn lemma_fresh_prefix(draws: Seq<usize>, k: int, l: int)
    requires
        0 <= k <= l,
    ensures
        fresh_upto(draws, k).len() <= fresh_upto(draws, l).len(),
        fresh_upto(draws, l).take(fresh_upto(draws, k).len() as int) == fresh_upto(draws, k),
        fresh_upto(draws, l).no_duplicates(),
    decreases l,
{
    if l > 0 {
        if k < l {
            lemma_fresh_prefix(draws, k, l - 1);
            let f = fresh_upto(draws, l - 1);
            let fk = fresh_upto(draws, k);
            if !f.contains(draws[l - 1]) {
                assert(f.push(draws[l - 1]).take(fk.len() as int) =~= f.take(fk.len() as int));
            }
        } else {
            lemma_fresh_prefix(draws, k - 1, l - 1);
            assert(fresh_upto(draws, l).take(fresh_upto(draws, k).len() as int) =~= fresh_upto(draws, k));
        }
        let f = fresh_upto(draws, l - 1);
        if !f.contains(draws[l - 1]) {
            let g = f.push(draws[l - 1]);
            assert forall|i: int, j: int| 0 <= i < j < g.len() implies g[i] != g[j] by {
                if j == g.len() - 1 {
                    assert(f.contains(g[i]));
                }
            }
        }
    } else {
        assert(fresh_upto(draws, l).take(fresh_upto(draws, k).len() as int) =~= fresh_upto(draws, k));
    }
}

/// The first `count` words of the stream `draws` that were not drawn
/// before: what drawing until a new word comes, `count` times over, takes
/// from the stream. `None` if the stream holds fewer new words.
pub fn fresh_words(draws: &Vec<usize>, count: usize) -> (r: Option<Vec<usize>>)
    ensures
        (r is Some) == (fresh_upto(draws@, draws@.len() as int).len() >= count),
        r is Some ==> r->Some_0@ == fresh_upto(draws@, draws@.len() as int).take(count as int),
        r is Some ==> r->Some_0@.no_duplicates(),
{
    let mut set = word_set_new();
    let mut out: Vec<usize> = Vec::new();
    let mut k: usize = 0;
    proof {
        lemma_fresh_prefix(draws@, 0, draws@.len() as int);
    }
    while k < draws.len() && out.len() < count
        invariant
            0 <= k <= draws@.len(),
            out@ == fresh_upto(draws@, k as int),
            set@ == out@.to_set(),
            out@.len() <= count,
        decreases draws@.len() - k,
    {
        let w = draws[k];
        let ghost f = out@;
        let fresh = word_set_insert(&mut set, w);
        proof {
            assert(f.contains(w) == f.to_set().contains(w));
        }
        if fresh {
            out.push(w);
        }
        k += 1;
        proof {
            assert(out@.to_set() =~= set@) by {
                if fresh {
                    assert forall|x: usize| out@.contains(x) <==> set@.contains(x) by {
                        if out@.contains(x) && x != w {
                            let i = choose|i: int| 0 <= i < out@.len() && out@[i] == x;
                            assert(f[i] == x);
                        }
                        if f.contains(x) {
                            let i = choose|i: int| 0 <= i < f.len() && f[i] == x;
                            assert(out@[i] == x);
                        }
                        assert(out@[f.len() as int] == w);
                    }
                }
            }
        }
    }
    proof {
        lemma_fresh_prefix(draws@, k as int, draws@.len() as int);
    }
    if out.len() < count {
        return None;
    }
    proof {
        assert(out@.len() == count);
    }
    Some(out)
}

/// The words `words[start..start + rows * cols]` as `rows` rows of `cols`.
pub open spec fn table_of(words: Seq<usize>, start: int, rows: int, cols: int) -> Seq<Seq<usize>> {
    Seq::new(rows as nat, |r: int| words.subrange(start + r * cols, start + r * cols + cols))
}

/// The words `words[start..start + rows * cols]` as `rows` rows of `cols`,
/// row by row.
pub fn rows_of(words: &Vec<usize>, start: usize, rows: usize, cols: usize) -> (t: Vec<Vec<usize>>)
    requires
        start + rows * cols <= words@.len(),
    ensures
        t@.len() == rows,
        forall|r: int| 0 <= r < rows ==> (#[trigger] t@[r])@ == table_of(words@, start as int, rows as int, cols as int)[r],
{
    let total = words.len();
    let mut t: Vec<Vec<usize>> = Vec::new();
    let mut r: usize = 0;
    let mut base: usize = start;
    while r < rows
        invariant
            total == words@.len(),
            0 <= r <= rows,
            start + rows * cols <= words@.len(),
            base == start + r * cols,
            t@.len() == r,
            forall|q: int| 0 <= q < r ==> (#[trigger] t@[q])@ == table_of(words@, start as int, rows as int, cols as int)[q],
        decreases rows - r,
    {
        proof {
            assert(r * cols + cols <= rows * cols) by (nonlinear_arith)
                requires r < rows;
        }
        let mut row: Vec<usize> = Vec::new();
        let mut c: usize = 0;
        while c < cols
            invariant
                total == words@.len(),
                0 <= c <= cols,
                base + cols <= words@.len(),
                row@ == words@.subrange(base as int, base + c),
            decreases cols - c,
        {
            row.push(words[base + c]);
            c += 1;
            proof {
                assert(row@ =~= words@.subrange(base as int, base + c));
            }
        }
        t.push(row);
        proof {
            assert((r + 1) * cols == r * cols + cols) by (nonlinear_arith);
            assert(t@[r as int]@ == table_of(words@, start as int, rows as int, cols as int)[r as int]);
        }
        base = base + cols;
        r += 1;
    }
    t
}

/// The words from `start` on, taken two at a time, as `rows` rows of `cols`
/// pairs.
pub open spec fn pair_table_of(words: Seq<usize>, start: int, rows: int, cols: int) -> Seq<Seq<(usize, usize)>> {
    Seq::new(rows as nat, |r: int| Seq::new(cols as nat, |c: int|
        (words[start + 2 * (r * cols + c)], words[start + 2 * (r * cols + c) + 1])))
}

/// The words from `start` on, taken two at a time, as `rows` rows of `cols`
/// pairs, row by row.
pub fn pair_rows_of(words: &Vec<usize>, start: usize, rows: usize, cols: usize) -> (t: Vec<Vec<(usize, usize)>>)
    requires
        start + 2 * (rows * cols) <= words@.len(),
    ensures
        t@.len() == rows,
        forall|r: int| 0 <= r < rows ==> (#[trigger] t@[r])@ == pair_table_of(words@, start as int, rows as int, cols as int)[r],
{
    let total = words.len();
    let mut t: Vec<Vec<(usize, usize)>> = Vec::new();
    let mut r: usize = 0;
    let mut base: usize = start;
    while r < rows
        invariant
            total == words@.len(),
            0 <= r <= rows,
            start + 2 * (rows * cols) <= words@.len(),
            base == start + 2 * (r * cols),
            t@.len() == r,
            forall|q: int| 0 <= q < r ==> (#[trigger] t@[q])@ == pair_table_of(words@, start as int, rows as int, cols as int)[q],
        decreases rows - r,
    {
        proof {
            assert(r * cols + cols <= rows * cols) by (nonlinear_arith)
                requires r < rows;
        }
        let mut row: Vec<(usize, usize)> = Vec::new();
        let mut c: usize = 0;
        while c < cols
            invariant
                total == words@.len(),
                0 <= c <= cols,
                base + 2 * cols <= words@.len(),
                base == start + 2 * (r * cols),
                r < rows,
                row@.len() == c,
                forall|k: int| 0 <= k < c ==> #[trigger] row@[k] == pair_table_of(words@, start as int, rows as int, cols as int)[r as int][k],
            decreases cols - c,
        {
            row.push((words[base + 2 * c], words[base + 2 * c + 1]));
            proof {
                assert(start + 2 * (r * cols + c) == base + 2 * c);
            }
            c += 1;
        }
        t.push(row);
        proof {
            assert((r + 1) * cols == r * cols + cols) by (nonlinear_arith);
            assert(t@[r as int]@ =~= pair_table_of(words@, start as int, rows as int, cols as int)[r as int]);
        }
        base = base + 2 * cols;
        r += 1;
    }
    t
}

} // verus!
