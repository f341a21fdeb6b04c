//! What a candidate promises: its score and hash are those of the board
//! after its shift, computed from scratch.
use vstd::prelude::*;
use crate::ahc042::hash::{CalcHash, slide, is_dir};
use crate::ahc042::state::{
    State, grid, square, shifted, shifted_cell, xs_row, xs_rows, x_cells, dist_spec, score_of, hash_of, in_line,
    moved_dist, line_prev, line_next, line_hash, cand_for, lemma_xs_rows_bounds,
};

verus! {

/// The square an oni of the line moves to (`None` once it leaves); onis off
/// the line stay.
pub open spec fn moved_pos(p: (usize, usize), dir: char, idx: int, n: int) -> Option<(usize, usize)> {
    if in_line(p, dir, idx) {
        match slide(p.0 as int, p.1 as int, dir, n) {
            Some((r, c)) => Some((r as usize, c as usize)),
            None => None,
        }
    } else {
        Some(p)
    }
}

/// Where the first `k` onis of `xs` are after the shift, in the same order.
pub open spec fn moved_list(xs: Seq<(usize, usize)>, dir: char, idx: int, n: int, k: int) -> Seq<(usize, usize)>
    decreases k,
{
    if k <= 0 {
        seq![]
    } else {
        match moved_pos(xs[k - 1], dir, idx, n) {
            Some(q) => moved_list(xs, dir, idx, n, k - 1).push(q),
            None => moved_list(xs, dir, idx, n, k - 1),
        }
    }
}

proof fn lemma_score_push(xs: Seq<(usize, usize)>, x: (usize, usize), n: int)
    ensures
        score_of(xs.push(x), n, xs.len() as int + 1) == score_of(xs, n, xs.len() as int) + dist_spec(x.0 as int, x.1 as int, n),
{
    lemma_score_prefix(xs, xs.push(x), n, xs.len() as int);
}

proof fn lemma_score_prefix(a: Seq<(usize, usize)>, b: Seq<(usize, usize)>, n: int, k: int)
    requires
        0 <= k <= a.len(),
        k <= b.len(),
        forall|m: int| 0 <= m < k ==> a[m] == b[m],
    ensures
        score_of(a, n, k) == score_of(b, n, k),
    decreases k,
{
    if k > 0 {
        lemma_score_prefix(a, b, n, k - 1);
    }
}

proof fn lemma_hash_prefix(ch: CalcHash, a: Seq<(usize, usize)>, b: Seq<(usize, usize)>, h: usize, k: int)
    requires
        0 <= k <= a.len(),
        k <= b.len(),
        forall|m: int| 0 <= m < k ==> a[m] == b[m],
    ensures
        hash_of(ch, a, h, k) == hash_of(ch, b, h, k),
    decreases k,
{
    if k > 0 {
        lemma_hash_prefix(ch, a, b, h, k - 1);
    }
}

/// The score of the moved onis: the old one, less the line before, plus the
/// line after.
proof fn lemma_moved_score(xs: Seq<(usize, usize)>, dir: char, idx: int, n: int, k: int)
    requires
        0 <= k <= xs.len(),
        0 <= n <= 1_000_000,
    ensures
        score_of(moved_list(xs, dir, idx, n, k), n, moved_list(xs, dir, idx, n, k).len() as int)
            == score_of(xs, n, k) - line_prev(xs, n, dir, idx, k) + line_next(xs, n, dir, idx, k),
    decreases k,
{
    if k > 0 {
        lemma_moved_score(xs, dir, idx, n, k - 1);
        let ml = moved_list(xs, dir, idx, n, k - 1);
        let p = xs[k - 1];
        match moved_pos(p, dir, idx, n) {
            Some(q) => {
                lemma_score_push(ml, q, n);
                if in_line(p, dir, idx) {
                    let (r, c) = slide(p.0 as int, p.1 as int, dir, n).unwrap();
                    assert(q.0 as int == r && q.1 as int == c);
                    assert(moved_dist(p, dir, n) == dist_spec(r, c, n));
                }
            },
            None => {},
        }
    }
}

/// Removing the `i`-th oni takes its distance off the score.
proof fn lemma_score_remove(b: Seq<(usize, usize)>, n: int, i: int)
    requires
        0 <= i < b.len(),
    ensures
        score_of(b, n, b.len() as int) == score_of(b.remove(i), n, b.len() - 1) + dist_spec(b[i].0 as int, b[i].1 as int, n),
    decreases b.len(),
{
    let l = b.len() as int;
    if i == l - 1 {
        assert(b.remove(i) =~= b.drop_last());
        lemma_score_prefix(b, b.drop_last(), n, l - 1);
    } else {
        let b1 = b.drop_last();
        lemma_score_remove(b1, n, i);
        assert(b.remove(i) =~= b1.remove(i).push(b[l - 1]));
        lemma_score_push(b1.remove(i), b[l - 1], n);
        lemma_score_prefix(b, b1, n, l - 1);
    }
}

/// The score does not depend on the order of the onis.
proof fn lemma_score_perm(a: Seq<(usize, usize)>, b: Seq<(usize, usize)>, n: int)
    requires
        a.to_multiset() == b.to_multiset(),
    ensures
        score_of(a, n, a.len() as int) == score_of(b, n, b.len() as int),
    decreases a.len(),
{
    a.to_multiset_ensures();
    b.to_multiset_ensures();
    if a.len() == 0 {
        assert(b.len() == 0);
    } else {
        let x = a.last();
        let a1 = a.drop_last();
        assert(a1.push(x) =~= a);
        a1.to_multiset_ensures();
        assert(a.to_multiset().count(x) > 0) by {
            assert(a.contains(x)) by {
                assert(a[a.len() - 1] == x);
            }
        }
        assert(b.contains(x));
        let i = choose|i: int| 0 <= i < b.len() && b[i] == x;
        assert(b.remove(i).to_multiset() =~= b.to_multiset().remove(x));
        assert(a1.to_multiset() =~= a.to_multiset().remove(x));
        lemma_score_perm(a1, b.remove(i), n);
        lemma_score_remove(b, n, i);
        lemma_score_prefix(a, a1, n, a1.len() as int);
    }
}

proof fn lemma_xor_facts(a: usize, b: usize, c: usize)
    ensures
        (a ^ b) ^ c == a ^ (b ^ c),
        a ^ b == b ^ a,
        a ^ 0usize == a,
        a ^ a == 0usize,
{
    assert((a ^ b) ^ c == a ^ (b ^ c)) by (bit_vector);
    assert(a ^ b == b ^ a) by (bit_vector);
    assert(a ^ 0usize == a) by (bit_vector);
    assert(a ^ a == 0usize) by (bit_vector);
}

/// `hash_of` combines its start with one word for the onis.
proof fn lemma_hash_split(ch: CalcHash, xs: Seq<(usize, usize)>, h: usize, k: int)
    ensures
        hash_of(ch, xs, h, k) == h ^ hash_of(ch, xs, 0, k),
    decreases k,
{
    if k > 0 {
        lemma_hash_split(ch, xs, h, k - 1);
        lemma_xor_facts(h, hash_of(ch, xs, 0, k - 1), ch.key(xs[k - 1].0 as int, xs[k - 1].1 as int));
    } else {
        lemma_xor_facts(h, 0, 0);
    }
}

proof fn lemma_hash_push(ch: CalcHash, xs: Seq<(usize, usize)>, x: (usize, usize))
    ensures
        hash_of(ch, xs.push(x), 0, xs.len() as int + 1) == hash_of(ch, xs, 0, xs.len() as int) ^ ch.key(x.0 as int, x.1 as int),
{
    lemma_hash_prefix(ch, xs, xs.push(x), 0, xs.len() as int);
}

proof fn lemma_hash_remove(ch: CalcHash, b: Seq<(usize, usize)>, i: int)
    requires
        0 <= i < b.len(),
    ensures
        hash_of(ch, b, 0, b.len() as int) == hash_of(ch, b.remove(i), 0, b.len() - 1) ^ ch.key(b[i].0 as int, b[i].1 as int),
    decreases b.len(),
{
    let l = b.len() as int;
    if i == l - 1 {
        assert(b.remove(i) =~= b.drop_last());
        lemma_hash_prefix(ch, b, b.drop_last(), 0, l - 1);
    } else {
        let b1 = b.drop_last();
        lemma_hash_remove(ch, b1, i);
        assert(b.remove(i) =~= b1.remove(i).push(b[l - 1]));
        lemma_hash_push(ch, b1.remove(i), b[l - 1]);
        lemma_hash_prefix(ch, b, b1, 0, l - 1);
        let x = hash_of(ch, b1.remove(i), 0, l - 2);
        let ki = ch.key(b[i].0 as int, b[i].1 as int);
        let kl = ch.key(b[l - 1].0 as int, b[l - 1].1 as int);
        assert(b1[i] == b[i]);
        assert(hash_of(ch, b, 0, l) == hash_of(ch, b, 0, l - 1) ^ kl);
        assert(hash_of(ch, b1, 0, l - 1) == x ^ ki);
        assert(hash_of(ch, b.remove(i), 0, l - 1) == x ^ kl);
        lemma_xor_facts(x, ki, kl);
        lemma_xor_facts(x, kl, ki);
        lemma_xor_facts(ki, kl, 0);
    }
}

/// The hash does not depend on the order of the onis.
proof fn lemma_hash_perm(ch: CalcHash, a: Seq<(usize, usize)>, b: Seq<(usize, usize)>)
    requires
        a.to_multiset() == b.to_multiset(),
    ensures
        hash_of(ch, a, 0, a.len() as int) == hash_of(ch, b, 0, b.len() as int),
    decreases a.len(),
{
    a.to_multiset_ensures();
    b.to_multiset_ensures();
    if a.len() == 0 {
        assert(b.len() == 0);
    } else {
        let x = a.last();
        let a1 = a.drop_last();
        assert(a1.push(x) =~= a);
        a1.to_multiset_ensures();
        assert(a.to_multiset().count(x) > 0) by {
            assert(a.contains(x)) by {
                assert(a[a.len() - 1] == x);
            }
        }
        assert(b.contains(x));
        let i = choose|i: int| 0 <= i < b.len() && b[i] == x;
        assert(b.remove(i).to_multiset() =~= b.to_multiset().remove(x));
        assert(a1.to_multiset() =~= a.to_multiset().remove(x));
        lemma_hash_perm(ch, a1, b.remove(i));
        lemma_hash_remove(ch, b, i);
        lemma_hash_prefix(ch, a, a1, 0, a1.len() as int);
    }
}

/// The hash words of the line's onis before and after the shift, combined,
/// over the first `k` onis of `xs`.
pub open spec fn line_word(ch: CalcHash, xs: Seq<(usize, usize)>, dir: char, idx: int, n: int, k: int) -> usize
    decreases k,
{
    if k <= 0 {
        0
    } else {
        let p = xs[k - 1];
        let w = line_word(ch, xs, dir, idx, n, k - 1);
        if in_line(p, dir, idx) {
            match slide(p.0 as int, p.1 as int, dir, n) {
                Some((r, c)) => (w ^ ch.key(p.0 as int, p.1 as int)) ^ ch.key(r, c),
                None => w ^ ch.key(p.0 as int, p.1 as int),
            }
        } else {
            w
        }
    }
}

proof fn lemma_line_hash(ch: CalcHash, xs: Seq<(usize, usize)>, dir: char, idx: int, h: usize, k: int)
    requires
        is_dir(dir),
        0 <= k <= xs.len(),
    ensures
        line_hash(ch, xs, dir, idx, h, k) == h ^ line_word(ch, xs, dir, idx, ch.hash_map@.len() as int, k),
    decreases k,
{
    let n = ch.hash_map@.len() as int;
    if k > 0 {
        lemma_line_hash(ch, xs, dir, idx, h, k - 1);
        let p = xs[k - 1];
        let w = line_word(ch, xs, dir, idx, n, k - 1);
        let kp = ch.key(p.0 as int, p.1 as int);
        if in_line(p, dir, idx) {
            match slide(p.0 as int, p.1 as int, dir, n) {
                Some((r, c)) => {
                    lemma_xor_facts(h, w, kp);
                    lemma_xor_facts(h ^ w, kp, ch.key(r, c));
                    lemma_xor_facts(h, w ^ kp, ch.key(r, c));
                },
                None => {
                    lemma_xor_facts(h, w, kp);
                },
            }
        }
    } else {
        lemma_xor_facts(h, 0, 0);
    }
}

proof fn lemma_moved_hash(ch: CalcHash, xs: Seq<(usize, usize)>, dir: char, idx: int, n: int, k: int)
    requires
        0 <= k <= xs.len(),
        0 <= n <= 1_000_000,
    ensures
        hash_of(ch, moved_list(xs, dir, idx, n, k), 0, moved_list(xs, dir, idx, n, k).len() as int)
            == hash_of(ch, xs, 0, k) ^ line_word(ch, xs, dir, idx, n, k),
    decreases k,
{
    if k > 0 {
        lemma_moved_hash(ch, xs, dir, idx, n, k - 1);
        let ml = moved_list(xs, dir, idx, n, k - 1);
        let p = xs[k - 1];
        let hp = hash_of(ch, xs, 0, k - 1);
        let w = line_word(ch, xs, dir, idx, n, k - 1);
        let kp = ch.key(p.0 as int, p.1 as int);
        match moved_pos(p, dir, idx, n) {
            Some(q) => {
                lemma_hash_push(ch, ml, q);
                if in_line(p, dir, idx) {
                    let (r, c) = slide(p.0 as int, p.1 as int, dir, n).unwrap();
                    assert(q.0 as int == r && q.1 as int == c);
                    let kq = ch.key(r, c);
                    // (hp ^ w) ^ kq == (hp ^ kp) ^ ((w ^ kp) ^ kq)
                    assert(((hp ^ w) ^ kq) == ((hp ^ kp) ^ ((w ^ kp) ^ kq))) by (bit_vector);
                } else {
                    assert(((hp ^ w) ^ kp) == ((hp ^ kp) ^ w)) by (bit_vector);
                }
            },
            None => {
                assert((hp ^ w) == ((hp ^ kp) ^ (w ^ kp))) by (bit_vector);
            },
        }
    } else {
        lemma_xor_facts(0, 0, 0);
    }
}

/// The onis of row `r` among its first `j` squares are exactly its squares
/// `(r, c)`, `c < j`, that hold an oni, each once and from left to right.
proof fn lemma_row_cells(g: Seq<Seq<char>>, r: int, j: int, n: int)
    requires
        0 <= r < n <= 1_000_000,
        0 <= j <= n,
        square(g, n),
    ensures
        forall|q: (usize, usize)| #[trigger] xs_row(g, r, j).contains(q) <==> (q.0 == r && q.1 < j && g[r][q.1 as int] == 'x'),
        forall|a: int, b: int| 0 <= a < b < xs_row(g, r, j).len() ==> xs_row(g, r, j)[a].1 < xs_row(g, r, j)[b].1,
        forall|a: int| 0 <= a < xs_row(g, r, j).len() ==> (#[trigger] xs_row(g, r, j)[a]).0 == r,
    decreases j,
{
    if j > 0 {
        lemma_row_cells(g, r, j - 1, n);
        let prev = xs_row(g, r, j - 1);
        if g[r][j - 1] == 'x' {
            let cur = prev.push((r as usize, (j - 1) as usize));
            assert(xs_row(g, r, j) == cur);
            assert forall|q: (usize, usize)| cur.contains(q) <==> (q.0 == r && q.1 < j && g[r][q.1 as int] == 'x') by {
                if q == (r as usize, (j - 1) as usize) {
                    assert(cur[prev.len() as int] == q);
                }
                if cur.contains(q) && q != (r as usize, (j - 1) as usize) {
                    let a = choose|a: int| 0 <= a < cur.len() && cur[a] == q;
                    assert(prev[a] == q);
                    assert(prev.contains(q));
                }
                if prev.contains(q) {
                    let a = choose|a: int| 0 <= a < prev.len() && prev[a] == q;
                    assert(cur[a] == q);
                }
            }
            assert forall|a: int| 0 <= a < prev.len() implies (#[trigger] prev[a]).1 < j - 1 by {
                assert(prev.contains(prev[a]));
            }
        }
    }
}

/// The onis of the first `i` rows are exactly the squares of those rows
/// that hold an oni, each once, in row-major order.
proof fn lemma_rows_cells(g: Seq<Seq<char>>, i: int, n: int)
    requires
        0 <= i <= n <= 1_000_000,
        square(g, n),
    ensures
        forall|q: (usize, usize)| #[trigger] xs_rows(g, n, i).contains(q) <==> (q.0 < i && q.1 < n && g[q.0 as int][q.1 as int] == 'x'),
        xs_rows(g, n, i).no_duplicates(),
    decreases i,
{
    if i > 0 {
        lemma_rows_cells(g, i - 1, n);
        lemma_row_cells(g, i - 1, n, n);
        let a = xs_rows(g, n, i - 1);
        let b = xs_row(g, i - 1, n);
        assert(xs_rows(g, n, i) == a + b);
        assert forall|q: (usize, usize)| (a + b).contains(q) <==> (q.0 < i && q.1 < n && g[q.0 as int][q.1 as int] == 'x') by {
            if (a + b).contains(q) {
                let k = choose|k: int| 0 <= k < (a + b).len() && (a + b)[k] == q;
                if k < a.len() {
                    assert(a[k] == q);
                    assert(a.contains(q));
                } else {
                    assert(b[k - a.len()] == q);
                    assert(b.contains(q));
                }
            }
            if q.0 < i && q.1 < n && g[q.0 as int][q.1 as int] == 'x' {
                if q.0 < i - 1 {
                    assert(a.contains(q));
                    let k = choose|k: int| 0 <= k < a.len() && a[k] == q;
                    assert((a + b)[k] == q);
                } else {
                    assert(b.contains(q));
                    let k = choose|k: int| 0 <= k < b.len() && b[k] == q;
                    assert((a + b)[a.len() + k] == q);
                }
            }
        }
        assert(b.no_duplicates());
        assert forall|x: int, y: int| 0 <= x < a.len() && 0 <= y < b.len() implies a[x] != b[y] by {
            assert(a.contains(a[x]));
            assert(b[y].0 == i - 1);
        }
        vstd::seq_lib::lemma_no_dup_in_concat(a, b);
    }
}

/// Whether `(r, c)` lies on an `n x n` board.
pub open spec fn on_board(p: (usize, usize), n: int) -> bool {
    p.0 < n && p.1 < n
}

proof fn lemma_moved_list_members(xs: Seq<(usize, usize)>, dir: char, idx: int, n: int, k: int, q: (usize, usize))
    requires
        0 <= k <= xs.len(),
    ensures
        moved_list(xs, dir, idx, n, k).contains(q) <==> exists|m: int| 0 <= m < k && #[trigger] moved_pos(xs[m], dir, idx, n) == Some(q),
    decreases k,
{
    if k > 0 {
        lemma_moved_list_members(xs, dir, idx, n, k - 1, q);
        let prev = moved_list(xs, dir, idx, n, k - 1);
        match moved_pos(xs[k - 1], dir, idx, n) {
            Some(x) => {
                let cur = prev.push(x);
                if cur.contains(q) && q != x {
                    let a = choose|a: int| 0 <= a < cur.len() && cur[a] == q;
                    assert(prev[a] == q);
                }
                if prev.contains(q) {
                    let a = choose|a: int| 0 <= a < prev.len() && prev[a] == q;
                    assert(cur[a] == q);
                }
                if q == x {
                    assert(cur[prev.len() as int] == q);
                }
            },
            None => {},
        }
        if exists|m: int| 0 <= m < k && #[trigger] moved_pos(xs[m], dir, idx, n) == Some(q) {
            let m = choose|m: int| 0 <= m < k && #[trigger] moved_pos(xs[m], dir, idx, n) == Some(q);
            if m < k - 1 {
                assert(exists|m2: int| 0 <= m2 < k - 1 && #[trigger] moved_pos(xs[m2], dir, idx, n) == Some(q));
            }
        }
    }
}

/// Two squares of the board that move to the same square are the same.
proof fn lemma_moved_injective(p1: (usize, usize), p2: (usize, usize), dir: char, idx: int, n: int)
    requires
        is_dir(dir),
        on_board(p1, n),
        on_board(p2, n),
        n <= 1_000_000,
        moved_pos(p1, dir, idx, n) is Some,
        moved_pos(p1, dir, idx, n) == moved_pos(p2, dir, idx, n),
    ensures
        p1 == p2,
{
}

proof fn lemma_moved_list_no_dup(xs: Seq<(usize, usize)>, dir: char, idx: int, n: int, k: int)
    requires
        is_dir(dir),
        0 <= k <= xs.len(),
        n <= 1_000_000,
        xs.no_duplicates(),
        forall|m: int| 0 <= m < xs.len() ==> on_board(#[trigger] xs[m], n),
    ensures
        moved_list(xs, dir, idx, n, k).no_duplicates(),
    decreases k,
{
    if k > 0 {
        lemma_moved_list_no_dup(xs, dir, idx, n, k - 1);
        let prev = moved_list(xs, dir, idx, n, k - 1);
        match moved_pos(xs[k - 1], dir, idx, n) {
            Some(x) => {
                lemma_moved_list_members(xs, dir, idx, n, k - 1, x);
                if prev.contains(x) {
                    let m = choose|m: int| 0 <= m < k - 1 && #[trigger] moved_pos(xs[m], dir, idx, n) == Some(x);
                    lemma_moved_injective(xs[m], xs[k - 1], dir, idx, n);
                }
                let cur = prev.push(x);
                assert forall|a: int, b: int| 0 <= a < cur.len() && 0 <= b < cur.len() && a != b implies cur[a] != cur[b] by {
                    if a == prev.len() {
                        assert(prev.contains(cur[b]));
                    } else if b == prev.len() {
                        assert(prev.contains(cur[a]));
                    }
                }
            },
            None => {},
        }
    }
}

/// The onis after the shift are exactly where the onis before it move to.
proof fn lemma_shift_members(g: Seq<Seq<char>>, n: int, dir: char, idx: int, q: (usize, usize))
    requires
        square(g, n),
        1 <= n <= 1_000_000,
        is_dir(dir),
        0 <= idx < n,
    ensures
        x_cells(shifted(g, n, dir, idx), n).contains(q)
            <==> exists|p: (usize, usize)| x_cells(g, n).contains(p) && moved_pos(p, dir, idx, n) == Some(q),
{
    let g2 = shifted(g, n, dir, idx);
    assert(square(g2, n));
    lemma_rows_cells(g, n, n);
    lemma_rows_cells(g2, n, n);
    if x_cells(g2, n).contains(q) {
        let r = q.0 as int;
        let c = q.1 as int;
        assert(g2[r][c] == shifted_cell(g, n, dir, idx, r, c));
        let p: (usize, usize) = if dir == 'L' && r == idx {
            (q.0, (c + 1) as usize)
        } else if dir == 'R' && r == idx {
            (q.0, (c - 1) as usize)
        } else if dir == 'U' && c == idx {
            ((r + 1) as usize, q.1)
        } else if dir == 'D' && c == idx {
            ((r - 1) as usize, q.1)
        } else {
            q
        };
        assert(x_cells(g, n).contains(p));
        assert(moved_pos(p, dir, idx, n) == Some(q));
    }
    if exists|p: (usize, usize)| x_cells(g, n).contains(p) && moved_pos(p, dir, idx, n) == Some(q) {
        let p = choose|p: (usize, usize)| x_cells(g, n).contains(p) && moved_pos(p, dir, idx, n) == Some(q);
        assert(on_board(p, n) && g[p.0 as int][p.1 as int] == 'x');
        assert(on_board(q, n));
        assert(g2[q.0 as int][q.1 as int] == shifted_cell(g, n, dir, idx, q.0 as int, q.1 as int));
        assert(x_cells(g2, n).contains(q));
    }
}

/// The onis after the shift and the moved onis are the same squares.
proof fn lemma_shift_multiset(g: Seq<Seq<char>>, n: int, dir: char, idx: int)
    requires
        square(g, n),
        1 <= n <= 1_000_000,
        is_dir(dir),
        0 <= idx < n,
    ensures
        x_cells(shifted(g, n, dir, idx), n).to_multiset()
            == moved_list(x_cells(g, n), dir, idx, n, x_cells(g, n).len() as int).to_multiset(),
{
    let g2 = shifted(g, n, dir, idx);
    assert(square(g2, n));
    let a = x_cells(g2, n);
    let xs = x_cells(g, n);
    let b = moved_list(xs, dir, idx, n, xs.len() as int);
    lemma_rows_cells(g, n, n);
    lemma_rows_cells(g2, n, n);
    assert forall|m: int| 0 <= m < xs.len() implies on_board(#[trigger] xs[m], n) by {
        assert(xs.contains(xs[m]));
    }
    lemma_moved_list_no_dup(xs, dir, idx, n, xs.len() as int);
    assert forall|q: (usize, usize)| a.contains(q) <==> b.contains(q) by {
        lemma_shift_members(g, n, dir, idx, q);
        lemma_moved_list_members(xs, dir, idx, n, xs.len() as int, q);
        if a.contains(q) {
            let p = choose|p: (usize, usize)| xs.contains(p) && moved_pos(p, dir, idx, n) == Some(q);
            let m = choose|m: int| 0 <= m < xs.len() && xs[m] == p;
            assert(moved_pos(xs[m], dir, idx, n) == Some(q));
        }
        if b.contains(q) {
            let m = choose|m: int| 0 <= m < xs.len() && #[trigger] moved_pos(xs[m], dir, idx, n) == Some(q);
            assert(xs.contains(xs[m]));
        }
    }
    a.lemma_multiset_has_no_duplicates();
    b.lemma_multiset_has_no_duplicates();
    a.to_multiset_ensures();
    b.to_multiset_ensures();
    assert forall|q: (usize, usize)| a.to_multiset().count(q) == b.to_multiset().count(q) by {
        if a.contains(q) {
            assert(a.to_multiset().contains(q));
            assert(b.to_multiset().contains(q));
        }
    }
    assert(a.to_multiset() =~= b.to_multiset());
}

/// A candidate's score and hash are those of the board after its shift,
/// computed from scratch, whenever the state's own score and hash are those
/// of its board: the incremental update of `cand` is exact.
pub proof fn law_candidate_matches_board(s: State, ch: CalcHash, dir: char, idx: int)
    requires
        s.wf(),
        ch.wf(s.N as nat),
        is_dir(dir),
        0 <= idx < s.N,
        s.score == score_of(s.x_positions@, s.N as int, s.x_positions@.len() as int),
        s.hash == hash_of(ch, s.x_positions@, 0, s.x_positions@.len() as int),
    ensures
        ({
            let n = s.N as int;
            let c = cand_for(s, ch, dir, idx);
            let after = x_cells(shifted(grid(s.field@), n, dir, idx), n);
            &&& c.0 == score_of(after, n, after.len() as int)
            &&& c.1 == hash_of(ch, after, 0, after.len() as int)
            &&& c.3 == (score_of(after, n, after.len() as int) == 0)
        }),
{
    let n = s.N as int;
    let g = grid(s.field@);
    let xs = s.x_positions@;
    let k = xs.len() as int;
    let ml = moved_list(xs, dir, idx, n, k);
    let after = x_cells(shifted(g, n, dir, idx), n);
    lemma_shift_multiset(g, n, dir, idx);
    lemma_score_perm(after, ml, n);
    lemma_moved_score(xs, dir, idx, n, k);
    lemma_hash_perm(ch, after, ml);
    lemma_moved_hash(ch, xs, dir, idx, n, k);
    lemma_line_hash(ch, xs, dir, idx, s.hash, k);
    assert(ch.hash_map@.len() == n);
    assert(s.hash ^ line_word(ch, xs, dir, idx, n, k) == hash_of(ch, xs, 0, k) ^ line_word(ch, xs, dir, idx, n, k));
    lemma_after_score_bound(g, n, dir, idx);
    assert(n * n * n <= 1_000_000_000_000_000_000) by (nonlinear_arith)
        requires 1 <= n <= 1_000_000;
    let next_score = s.score + line_next(xs, n, dir, idx, k) - line_prev(xs, n, dir, idx, k);
    assert(next_score == score_of(after, n, after.len() as int));
    assert(cand_for(s, ch, dir, idx).0 == next_score as i64);
}

/// Taking a candidate keeps a state's score and hash those of its board:
/// when `t` is what `apply` makes of `s` with candidate `cand_for(s, ..)`,
/// `t`'s score and hash are again those of its onis, and the candidate's
/// done flag says exactly that no oni is left.
pub proof fn law_apply_keeps_consistency(s: State, t: State, ch: CalcHash, dir: char, idx: int)
    requires
        s.wf(),
        ch.wf(s.N as nat),
        is_dir(dir),
        0 <= idx < s.N,
        s.score == score_of(s.x_positions@, s.N as int, s.x_positions@.len() as int),
        s.hash == hash_of(ch, s.x_positions@, 0, s.x_positions@.len() as int),
        t.wf(),
        t.N == s.N,
        grid(t.field@) == shifted(grid(s.field@), s.N as int, dir, idx),
        t.score == cand_for(s, ch, dir, idx).0,
        t.hash == cand_for(s, ch, dir, idx).1,
    ensures
        t.score == score_of(t.x_positions@, t.N as int, t.x_positions@.len() as int),
        t.hash == hash_of(ch, t.x_positions@, 0, t.x_positions@.len() as int),
        cand_for(s, ch, dir, idx).3 == (t.x_positions@.len() == 0),
{
    law_candidate_matches_board(s, ch, dir, idx);
    let n = s.N as int;
    let a = t.x_positions@;
    let g2 = grid(t.field@);
    lemma_rows_cells(g2, n, n);
    assert forall|m: int| 0 <= m < a.len() implies on_board(#[trigger] a[m], n) by {
        assert(a.contains(a[m]));
    }
    lemma_score_at_least(a, n, a.len() as int);
}

/// Every oni on the board is at least one shift from leaving it, so the
/// total distance is at least the number of onis.
proof fn lemma_score_at_least(xs: Seq<(usize, usize)>, n: int, k: int)
    requires
        0 <= k <= xs.len(),
        1 <= n,
        forall|m: int| 0 <= m < xs.len() ==> on_board(#[trigger] xs[m], n),
    ensures
        score_of(xs, n, k) >= k,
    decreases k,
{
    if k > 0 {
        lemma_score_at_least(xs, n, k - 1);
        assert(on_board(xs[k - 1], n));
    }
}

/// The score of a board lies in `0..=n * n * n`.
proof fn lemma_after_score_bound(g: Seq<Seq<char>>, n: int, dir: char, idx: int)
    requires
        square(g, n),
        1 <= n <= 1_000_000,
    ensures
        0 <= score_of(x_cells(shifted(g, n, dir, idx), n), n, x_cells(shifted(g, n, dir, idx), n).len() as int) <= n * n * n,
{
    let g2 = shifted(g, n, dir, idx);
    assert(square(g2, n));
    let a = x_cells(g2, n);
    lemma_rows_cells(g2, n, n);
    assert forall|m: int| 0 <= m < a.len() implies on_board(#[trigger] a[m], n) by {
        assert(a.contains(a[m]));
    }
    lemma_xs_rows_bounds(g2, n, n);
    lemma_score_range(a, n, a.len() as int);
    assert(a.len() * n <= n * n * n) by (nonlinear_arith)
        requires a.len() <= n * n, 0 <= n;
}

proof fn lemma_score_range(xs: Seq<(usize, usize)>, n: int, k: int)
    requires
        0 <= k <= xs.len(),
        1 <= n,
        forall|m: int| 0 <= m < xs.len() ==> on_board(#[trigger] xs[m], n),
    ensures
        0 <= score_of(xs, n, k) <= k * n,
    decreases k,
{
    if k > 0 {
        lemma_score_range(xs, n, k - 1);
        assert(on_board(xs[k - 1], n));
        assert((k - 1) * n + n == k * n) by (nonlinear_arith);
    }
}

} // verus!
