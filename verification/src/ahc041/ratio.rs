//! The greedy by best average: grow a depth-first tree from every free
//! vertex on trial, and keep the root whose tree has the highest score per
//! vertex.
use vstd::prelude::*;
use crate::ahc041::input::Input;
use crate::ahc041::state::{
    State, graph, wsum, beauty, valid_forest, growing, unused, A_MAX, N_MAX, lemma_wsum_mark, lemma_unused_mark,
    lemma_grow_mark, lemma_wsum_bound, lemma_wsum_none, lemma_wsum_all,
};

verus! {

/// The state of a depth-first hanging: marks, parents, the stack of
/// (vertex, depth), the score gained, the number of vertices hung.
pub type DfsState = (Seq<bool>, Seq<i32>, Seq<(usize, usize)>, int, int);

/// Hanging under `pos` (at depth `h`) each of its first `k` neighbours that
/// is still free, each pushed on the stack.
pub open spec fn dfs_nbrs(a: Seq<i64>, g: Seq<Seq<usize>>, st: DfsState, pos: usize, h: int, k: int) -> DfsState
    decreases k,
{
    if k <= 0 {
        st
    } else {
        let s = dfs_nbrs(a, g, st, pos, h, k - 1);
        let nxt = g[pos as int][k - 1];
        if !s.0[nxt as int] {
            (s.0.update(nxt as int, true), s.1.update(nxt as int, pos as i32), s.2.push((nxt, (h + 1) as usize)),
                s.3 + a[nxt as int] * (h + 2), s.4 + 1)
        } else {
            s
        }
    }
}

/// One step of the hanging: the top of the stack is taken off, and unless it
/// lies at the height limit its free neighbours are hung under it.
pub open spec fn dfs_step(a: Seq<i64>, g: Seq<Seq<usize>>, hmax: int, st: DfsState) -> DfsState {
    let top = st.2.last();
    let popped = (st.0, st.1, st.2.drop_last(), st.3, st.4);
    if top.1 == hmax { popped } else { dfs_nbrs(a, g, popped, top.0, top.1 as int, g[top.0 as int].len() as int) }
}

/// The hanging run from `st` until the stack is empty: the marks, the
/// parents, the score gained and the number of vertices hung.
pub open spec fn dfs_run(a: Seq<i64>, g: Seq<Seq<usize>>, hmax: int, st: DfsState) -> (Seq<bool>, Seq<i32>, int, int)
    decreases 2 * unused(st.0, st.0.len() as int) + st.2.len(),
{
    if st.2.len() == 0 {
        (st.0, st.1, st.3, st.4)
    } else {
        let s = dfs_step(a, g, hmax, st);
        if s.0.len() == st.0.len() && 0 <= 2 * unused(s.0, s.0.len() as int) + s.2.len()
            < 2 * unused(st.0, st.0.len() as int) + st.2.len() {
            dfs_run(a, g, hmax, s)
        } else {
            (s.0, s.1, s.3, s.4)
        }
    }
}

/// The depth-first hanging from the free vertex `root`.
pub open spec fn dfs_from(a: Seq<i64>, g: Seq<Seq<usize>>, hmax: int, used: Seq<bool>, ans: Seq<i32>, root: usize)
    -> (Seq<bool>, Seq<i32>, int, int)
{
    dfs_run(a, g, hmax, (used.update(root as int, true), ans, seq![(root, 0usize)], a[root as int] as int, 1))
}

/// Hangs the free vertices reachable from the free vertex `root` depth
/// first: `root` becomes a root, and from each vertex above the height limit
/// every free neighbour is hung under it. Returns the score gained and the
/// number of vertices hung.
pub(crate) fn hang_from(input: &Input, used: &mut Vec<bool>, ans: &mut Vec<i32>, root: usize, d: Ghost<Seq<int>>)
    -> (r: (i64, usize, Ghost<Seq<int>>))
    requires
        input.wf(),
        old(used)@.len() == input.N,
        root < input.N,
        !old(used)@[root as int],
        growing(graph(input.G@), input.H as int, old(used)@, old(ans)@, d@),
        0 <= wsum(input.A@, old(used)@, d@, input.N as int),
    ensures
        final(used)@.len() == input.N,
        growing(graph(input.G@), input.H as int, final(used)@, final(ans)@, r.2@),
        wsum(input.A@, final(used)@, r.2@, input.N as int) == wsum(input.A@, old(used)@, d@, input.N as int) + r.0,
        unused(final(used)@, input.N as int) == unused(old(used)@, input.N as int) - r.1,
        r.1 >= 1,
        r.0 >= input.A@[root as int],
        forall|v: int| 0 <= v < input.N && old(used)@[v] ==> #[trigger] final(used)@[v],
        (final(used)@, final(ans)@, r.0 as int, r.1 as int)
            == dfs_from(input.A@, graph(input.G@), input.H as int, old(used)@, old(ans)@, root),
{
    let n = input.N;
    let hmax = input.H;
    let ghost g = graph(input.G@);
    let ghost mut dd = d@;
    let ghost u0 = used@;
    let ghost w0 = wsum(input.A@, used@, dd, n as int);
    let ghost un0 = unused(used@, n as int);
    proof {
        lemma_unused_le(used@, n as int);
    }
    let mut stack: Vec<(usize, usize)> = Vec::new();
    stack.push((root, 0));
    proof {
        lemma_wsum_mark(input.A@, used@, dd, root as int, 0, n as int);
        lemma_unused_mark(used@, root as int, n as int);
        lemma_grow_mark(g, hmax as int, used@, ans@, dd, root as int, -1i32, 0);
        assert(ans@.update(root as int, -1i32) =~= ans@);
        lemma_wsum_bound(input.A@, used@.update(root as int, true), dd.update(root as int, 0), hmax as int, n as int);
        assert(n * (A_MAX * (hmax + 1)) <= N_MAX * (A_MAX * (N_MAX + 1))) by (nonlinear_arith)
            requires n <= N_MAX, hmax <= N_MAX;
        assert(input.A@[root as int] * (0 + 1) == input.A@[root as int]) by (nonlinear_arith);
        lemma_wsum_bound(input.A@, used@, dd, hmax as int, n as int);
    }
    let mut gain: i64 = input.A[root];
    let mut cnt: usize = 1;
    used.set(root, true);
    proof {
        dd = dd.update(root as int, 0);
        assert(stack@ =~= seq![(root, 0usize)]);
    }
    let ghost goal = dfs_from(input.A@, g, hmax as int, u0, old(ans)@, root);
    while stack.len() > 0
        invariant
            input.wf(),
            n == input.N,
            hmax == input.H,
            g == graph(input.G@),
            used@.len() == n,
            growing(g, hmax as int, used@, ans@, dd),
            wsum(input.A@, used@, dd, n as int) == w0 + gain,
            0 <= w0,
            unused(used@, n as int) == un0 - cnt,
            unused(used@, n as int) >= 0,
            un0 <= n,
            cnt >= 1,
            gain >= input.A@[root as int],
            forall|q: int| 0 <= q < stack@.len() ==> (#[trigger] stack@[q]).0 < n && used@[stack@[q].0 as int]
                && dd[stack@[q].0 as int] == stack@[q].1 && stack@[q].1 <= hmax,
            forall|v: int| 0 <= v < n && u0[v] ==> #[trigger] used@[v],
            dfs_run(input.A@, g, hmax as int, (used@, ans@, stack@, gain as int, cnt as int)) == goal,
        decreases 2 * unused(used@, n as int) + stack@.len(),
    {
        let ghost m0 = 2 * unused(used@, n as int) + stack@.len();
        let ghost st0: DfsState = (used@, ans@, stack@, gain as int, cnt as int);
        let (pos, h) = stack.pop().unwrap();
        let ghost st1: DfsState = (used@, ans@, stack@, gain as int, cnt as int);
        proof {
            assert(st0.2.last() == (pos, h));
            assert(st0.2.drop_last() =~= stack@);
        }
        if h == hmax {
            proof {
                assert(dfs_step(input.A@, g, hmax as int, st0) == st1);
            }
            continue;
        }
        let mut k: usize = 0;
        while k < input.G[pos].len()
            invariant
                input.wf(),
                n == input.N,
                hmax == input.H,
                g == graph(input.G@),
                pos < n,
                used@.len() == n,
                used@[pos as int],
                dd[pos as int] == h,
                h < hmax,
                growing(g, hmax as int, used@, ans@, dd),
                wsum(input.A@, used@, dd, n as int) == w0 + gain,
                0 <= w0,
                unused(used@, n as int) == un0 - cnt,
                unused(used@, n as int) >= 0,
                un0 <= n,
                cnt >= 1,
                gain >= input.A@[root as int],
                forall|q: int| 0 <= q < stack@.len() ==> (#[trigger] stack@[q]).0 < n && used@[stack@[q].0 as int]
                    && dd[stack@[q].0 as int] == stack@[q].1 && stack@[q].1 <= hmax,
                forall|v: int| 0 <= v < n && u0[v] ==> #[trigger] used@[v],
                2 * unused(used@, n as int) + stack@.len() < m0,
                0 <= k <= input.G@[pos as int]@.len(),
                (used@, ans@, stack@, gain as int, cnt as int) == dfs_nbrs(input.A@, g, st1, pos, h as int, k as int),
            decreases input.G@[pos as int]@.len() - k,
        {
            let nxt = input.G[pos][k];
            let ghost sk: DfsState = (used@, ans@, stack@, gain as int, cnt as int);
            proof {
                assert(g[pos as int] == input.G@[pos as int]@);
                assert(g[pos as int][k as int] == nxt);
                assert(g[pos as int].contains(nxt));
            }
            if !used[nxt] {
                proof {
                    lemma_wsum_mark(input.A@, used@, dd, nxt as int, h + 1, n as int);
                    lemma_unused_mark(used@, nxt as int, n as int);
                    lemma_grow_mark(g, hmax as int, used@, ans@, dd, nxt as int, pos as i32, h + 1);
                    lemma_wsum_bound(input.A@, used@.update(nxt as int, true), dd.update(nxt as int, h + 1), hmax as int,
                        n as int);
                    assert(n * (A_MAX * (hmax + 1)) <= N_MAX * (A_MAX * (N_MAX + 1))) by (nonlinear_arith)
                        requires n <= N_MAX, hmax <= N_MAX;
                    assert(input.A@[nxt as int] * (h + 1 + 1) == input.A@[nxt as int] * (h + 2));
                    assert(0 <= input.A@[nxt as int] * (h + 2) <= A_MAX * (N_MAX + 2)) by (nonlinear_arith)
                        requires 0 <= input.A@[nxt as int] <= A_MAX, 0 <= h + 2 <= N_MAX + 2;
                }
                let ghost ub = used@;
                stack.push((nxt, h + 1));
                gain = gain + input.A[nxt] * (h as i64 + 2);
                cnt = cnt + 1;
                used.set(nxt, true);
                ans.set(nxt, pos as i32);
                proof {
                    dd = dd.update(nxt as int, h + 1);
                    assert forall|q: int| 0 <= q < stack@.len() implies (#[trigger] stack@[q]).0 < n
                        && used@[stack@[q].0 as int] && dd[stack@[q].0 as int] == stack@[q].1 && stack@[q].1 <= hmax by {
                        if q < stack@.len() - 1 {
                            assert(ub[stack@[q].0 as int]);
                        }
                    }
                    assert forall|v: int| 0 <= v < n && u0[v] implies #[trigger] used@[v] by {
                        assert(ub[v]);
                    }
                    assert((used@, ans@, stack@, gain as int, cnt as int) == dfs_nbrs(input.A@, g, st1, pos, h as int, k + 1));
                }
            } else {
                proof {
                    assert(dfs_nbrs(input.A@, g, st1, pos, h as int, k + 1) == sk);
                }
            }
            k += 1;
        }
        proof {
            assert(g[pos as int].len() == k);
            assert(dfs_step(input.A@, g, hmax as int, st0) == (used@, ans@, stack@, gain as int, cnt as int));
        }
    }
    (gain, cnt, Ghost(dd))
}

/// A copy of a list of marks.
fn copy_marks(v: &Vec<bool>) -> (c: Vec<bool>)
    ensures
        c@ == v@,
{
    let mut c: Vec<bool> = Vec::new();
    let mut k: usize = 0;
    while k < v.len()
        invariant
            0 <= k <= v@.len(),
            c@ == v@.subrange(0, k as int),
        decreases v@.len() - k,
    {
        c.push(v[k]);
        k += 1;
        proof {
            assert(c@ =~= v@.subrange(0, k as int));
        }
    }
    proof {
        assert(c@ =~= v@);
    }
    c
}

/// A copy of a parent list.
fn copy_parents(v: &Vec<i32>) -> (c: Vec<i32>)
    ensures
        c@ == v@,
{
    let mut c: Vec<i32> = Vec::new();
    let mut k: usize = 0;
    while k < v.len()
        invariant
            0 <= k <= v@.len(),
            c@ == v@.subrange(0, k as int),
        decreases v@.len() - k,
    {
        c.push(v[k]);
        k += 1;
        proof {
            assert(c@ =~= v@.subrange(0, k as int));
        }
    }
    proof {
        assert(c@ =~= v@);
    }
    c
}

proof fn lemma_unused_pos(used: Seq<bool>, k: int) -> (v: int)
    requires
        0 <= k <= used.len(),
        unused(used, k) > 0,
    ensures
        0 <= v < k,
        !used[v],
    decreases k,
{
    if used[k - 1] {
        lemma_unused_pos(used, k - 1)
    } else {
        k - 1
    }
}

proof fn lemma_unused_le(used: Seq<bool>, k: int)
    requires
        0 <= k <= used.len(),
    ensures
        0 <= unused(used, k) <= k,
    decreases k,
{
    if k > 0 {
        lemma_unused_le(used, k - 1);
    }
}

/// Of the free vertices below `r`, the one whose depth-first tree has the
/// highest score per vertex (the later one among equals): the vertex, the
/// score and the number of vertices of its tree; `(0, 0, 0)` if none is free.
pub open spec fn best_average(a: Seq<i64>, g: Seq<Seq<usize>>, hmax: int, used: Seq<bool>, ans: Seq<i32>, r: int)
    -> (usize, int, int)
    decreases r,
{
    if r <= 0 {
        (0, 0, 0)
    } else {
        let b = best_average(a, g, hmax, used, ans, r - 1);
        if used[r - 1] {
            b
        } else {
            let t = dfs_from(a, g, hmax, used, ans, (r - 1) as usize);
            if b.2 == 0 || t.2 * b.2 >= b.1 * t.3 { ((r - 1) as usize, t.2, t.3) } else { b }
        }
    }
}

/// The parents that the rounds of the greedy by best average give from the
/// marks `used` and the parents `ans`: while a vertex is free, the tree of
/// the best free vertex (`best_average`) is hung for real.
pub open spec fn average_rounds(a: Seq<i64>, g: Seq<Seq<usize>>, hmax: int, used: Seq<bool>, ans: Seq<i32>) -> Seq<i32>
    decreases unused(used, used.len() as int),
{
    let n = used.len() as int;
    if unused(used, n) <= 0 {
        ans
    } else {
        let b = best_average(a, g, hmax, used, ans, n);
        let s = dfs_from(a, g, hmax, used, ans, b.0);
        if s.0.len() == n && 0 <= unused(s.0, n) < unused(used, n) {
            average_rounds(a, g, hmax, s.0, s.1)
        } else {
            s.1
        }
    }
}

/// The parents of the forest of the greedy by best average of a graph with
/// beauties `a`, neighbour lists `g` and height limit `hmax`.
pub open spec fn average_parents(a: Seq<i64>, g: Seq<Seq<usize>>, hmax: int) -> Seq<i32> {
    average_rounds(a, g, hmax, Seq::new(a.len(), |v: int| false), Seq::new(a.len(), |v: int| -1i32))
}

impl State {
    /// The greedy by best average: while a vertex is free, grow a depth-first
    /// tree (as `dfs` does) from each free vertex on trial, and keep for real
    /// the one whose score per vertex is highest (the largest vertex among
    /// equals). The averages are compared exactly, as fractions. Returns the
    /// score and the parent of each vertex (`-1`: a root): a valid forest and
    /// its score.
    pub fn greedy_dfs_forest(&self, input: &Input) -> (r: (i64, Vec<i32>))
        requires
            input.wf(),
            forall|v: int| 0 <= v < input.N ==> 1 <= #[trigger] input.A@[v],
        ensures
            r.1@.len() == input.N,
            exists|d: Seq<int>| valid_forest(graph(input.G@), input.H as int, r.1@, d) && r.0 == beauty(input.A@, d),
            r.1@ == average_parents(input.A@, graph(input.G@), input.H as int),
    {
        let n = input.N;
        let hmax = input.H;
        let ghost g = graph(input.G@);
        let mut used: Vec<bool> = Vec::new();
        let mut ans: Vec<i32> = Vec::new();
        let mut i: usize = 0;
        while i < n
            invariant
                0 <= i <= n,
                used@ == Seq::new(i as nat, |v: int| false),
                ans@ == Seq::new(i as nat, |v: int| -1i32),
            decreases n - i,
        {
            used.push(false);
            ans.push(-1);
            i += 1;
            proof {
                assert(used@ =~= Seq::new(i as nat, |v: int| false));
                assert(ans@ =~= Seq::new(i as nat, |v: int| -1i32));
            }
        }
        let ghost mut d: Seq<int> = Seq::new(n as nat, |v: int| 0int);
        let mut score: i64 = 1;
        let mut used_cnt: usize = 0;
        proof {
            lemma_wsum_none(input.A@, used@, d, n as int);
            lemma_unused_all(used@, n as int);
            assert(used@ =~= Seq::new(input.A@.len(), |v: int| false));
            assert(ans@ =~= Seq::new(input.A@.len(), |v: int| -1i32));
        }
        while used_cnt < n
            invariant
                input.wf(),
                forall|v: int| 0 <= v < input.N ==> 1 <= #[trigger] input.A@[v],
                n == input.N,
                hmax == input.H,
                g == graph(input.G@),
                used@.len() == n,
                growing(g, hmax as int, used@, ans@, d),
                score == 1 + wsum(input.A@, used@, d, n as int),
                0 <= wsum(input.A@, used@, d, n as int),
                used_cnt + unused(used@, n as int) == n,
                average_rounds(input.A@, g, hmax as int, used@, ans@) == average_parents(input.A@, g, hmax as int),
            decreases n - used_cnt,
        {
            let mut best_root: usize = 0;
            let mut best_score: i64 = 0;
            let mut best_cnt: usize = 0;
            let mut root: usize = 0;
            while root < n
                invariant
                    input.wf(),
                    forall|v: int| 0 <= v < input.N ==> 1 <= #[trigger] input.A@[v],
                    n == input.N,
                    hmax == input.H,
                    g == graph(input.G@),
                    used@.len() == n,
                    growing(g, hmax as int, used@, ans@, d),
                    0 <= wsum(input.A@, used@, d, n as int),
                    0 <= root <= n,
                    best_cnt == 0 ==> forall|v: int| 0 <= v < root ==> #[trigger] used@[v],
                    best_cnt > 0 ==> best_root < n && !used@[best_root as int] && 0 <= best_score <= 0x100_0100_0000_0000,
                    best_cnt <= n,
                    (best_root, best_score as int, best_cnt as int) == best_average(input.A@, g, hmax as int, used@, ans@, root as int),
                decreases n - root,
            {
                if !used[root] {
                    let mut used_part = copy_marks(&used);
                    let mut ans_part = copy_parents(&ans);
                    let (score_part, part_cnt, dp) = hang_from(input, &mut used_part, &mut ans_part, root, Ghost(d));
                    proof {
                        lemma_unused_le(used@, n as int);
                        lemma_unused_le(used_part@, n as int);
                        lemma_wsum_bound(input.A@, used_part@, dp@, hmax as int, n as int);
                        assert(n * (A_MAX * (hmax + 1)) <= N_MAX * (A_MAX * (N_MAX + 1))) by (nonlinear_arith)
                            requires n <= N_MAX, hmax <= N_MAX;
                        assert(N_MAX * (A_MAX * (N_MAX + 1)) == 0x100_0100_0000_0000);
                        assert(score_part <= 0x100_0100_0000_0000);
                    }
                    let better = if best_cnt == 0 {
                        true
                    } else {
                        proof {
                            assert(score_part as int * best_cnt as int <= 0x100_0100_0000_0000 * 0x1_0000) by (nonlinear_arith)
                                requires 0 <= score_part <= 0x100_0100_0000_0000, best_cnt <= 0x1_0000;
                            assert(best_score as int * part_cnt as int <= 0x100_0100_0000_0000 * 0x1_0000) by (nonlinear_arith)
                                requires 0 <= best_score <= 0x100_0100_0000_0000, part_cnt <= 0x1_0000;
                        }
                        score_part as i128 * best_cnt as i128 >= best_score as i128 * part_cnt as i128
                    };
                    if better {
                        best_root = root;
                        best_score = score_part;
                        best_cnt = part_cnt;
                    }
                }
                root += 1;
            }
            proof {
                if best_cnt == 0 {
                    assert(forall|v: int| 0 <= v < n ==> #[trigger] used@[v]);
                    lemma_unused_zero(used@, n as int);
                }
            }
            let ghost w0 = wsum(input.A@, used@, d, n as int);
            let ghost used0 = used@;
            let ghost ans0 = ans@;
            let (gain, cnt, dd) = hang_from(input, &mut used, &mut ans, best_root, Ghost(d));
            proof {
                d = dd@;
                lemma_wsum_bound(input.A@, used@, d, hmax as int, n as int);
                assert(n * (A_MAX * (hmax + 1)) <= N_MAX * (A_MAX * (N_MAX + 1))) by (nonlinear_arith)
                    requires n <= N_MAX, hmax <= N_MAX;
                lemma_unused_le(used@, n as int);
                assert(average_rounds(input.A@, g, hmax as int, used0, ans0) == average_rounds(input.A@, g, hmax as int, used@, ans@));
            }
            score = score + gain;
            used_cnt = used_cnt + cnt;
        }
        proof {
            assert forall|v: int| 0 <= v < n implies #[trigger] used@[v] by {
                if !used@[v] {
                    lemma_unused_mark(used@, v, n as int);
                }
            }
            lemma_wsum_all(input.A@, used@, d, n as int);
            assert forall|v: int| 0 <= v < n implies {
                &&& 0 <= #[trigger] d[v] <= hmax
                &&& if ans@[v] == -1 {
                    d[v] == 0
                } else {
                    0 <= ans@[v] < n && d[v] == d[ans@[v] as int] + 1 && g[ans@[v] as int].contains(v as usize)
                }
            } by {
                assert(used@[v]);
            }
            assert(valid_forest(g, hmax as int, ans@, d));
            assert(score == beauty(input.A@, d));
            lemma_unused_le(used@, n as int);
            assert(average_rounds(input.A@, g, hmax as int, used@, ans@) == ans@);
        }
        (score, ans)
    }
}

proof fn lemma_unused_all(used: Seq<bool>, k: int)
    requires
        0 <= k <= used.len(),
        forall|v: int| 0 <= v < k ==> !#[trigger] used[v],
    ensures
        unused(used, k) == k,
    decreases k,
{
    if k > 0 {
        lemma_unused_all(used, k - 1);
    }
}

proof fn lemma_unused_zero(used: Seq<bool>, k: int)
    requires
        0 <= k <= used.len(),
        forall|v: int| 0 <= v < k ==> #[trigger] used[v],
    ensures
        unused(used, k) == 0,
    decreases k,
{
    if k > 0 {
        lemma_unused_zero(used, k - 1);
    }
}

} // verus!
