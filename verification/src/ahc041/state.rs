//! Forests of decorated trees: their nodes, their validity and score, and
//! the greedy depth-first construction.
use vstd::prelude::*;
use crate::ahc041::input::Input;
use crate::sorting::{sort_pairs, pair_le};
use crate::text::{push_signed_decimal, signed_decimal, chars_to_string};

verus! {

/// The largest beauty and the largest graph that the sums below allow.
pub const A_MAX: i64 = 0x100_0000;
pub const N_MAX: usize = 0x1_0000;

/// A vertex of the forest: its number, its depth `h`, its parent (`-1`: a
/// root), its children, the beauty of its subtree and the greatest depth in
/// it.
#[derive(Debug, Clone)]
pub struct Node {
    pub num: usize,
    pub h: i64,
    pub parent: i64,
    pub children: Vec<usize>,
    pub sum_A: i64,
    pub hmax: i64,
}

impl Node {
    /// Whether the vertex has no parent.
    pub fn is_root(&self) -> (b: bool)
        ensures
            b == (self.parent == -1),
    {
        self.parent == -1
    }

    /// Whether the vertex has no child.
    pub fn is_leaf(&self) -> (b: bool)
        ensures
            b == (self.children@.len() == 0),
    {
        self.children.len() == 0
    }
}

/// The score of the forest and its vertices.
#[derive(Debug, Clone)]
pub struct State {
    pub score: i64,
    pub nodes: Vec<Node>,
}

/// The neighbour lists as values.
pub open spec fn graph(g: Seq<Vec<usize>>) -> Seq<Seq<usize>> {
    g.map_values(|r: Vec<usize>| r@)
}

impl Input {
    /// `N` vertices with beauties in `0..=A_MAX`, neighbour lists of
    /// vertices, a height limit. The bounds (`N, H <= 2^16`, beauties
    /// `<= 2^24`) are machine limits, not rules of the problem: under them
    /// every score `1 + sum A[v] * (depth + 1) <= 2^16 * 2^24 * (2^16 + 1) + 1`
    /// and every subtree sum fits in an `i64`.
    pub open spec fn wf(&self) -> bool {
        &&& 1 <= self.N <= N_MAX
        &&& self.H <= N_MAX
        &&& self.A@.len() == self.N
        &&& self.G@.len() == self.N
        &&& forall|v: int| 0 <= v < self.N ==> 0 <= #[trigger] self.A@[v] <= A_MAX
        &&& forall|u: int, k: int| 0 <= u < self.N && 0 <= k < self.G@[u]@.len() ==> #[trigger] self.G@[u]@[k] < self.N
    }
}

/// The sum of `a[v] * (d[v] + 1)` over the vertices `v < k` with `used[v]`.
pub open spec fn wsum(a: Seq<i64>, used: Seq<bool>, d: Seq<int>, k: int) -> int
    decreases k,
{
    if k <= 0 { 0 } else { wsum(a, used, d, k - 1) + if used[k - 1] { a[k - 1] * (d[k - 1] + 1) } else { 0 } }
}

/// The score of a forest whose vertices lie at depths `d`: 1 plus the sum
/// of each beauty times its depth plus one.
pub open spec fn beauty(a: Seq<i64>, d: Seq<int>) -> int {
    1 + wsum(a, Seq::new(a.len(), |v: int| true), d, a.len() as int)
}

/// `ans` (the parent of each vertex, `-1` for a root) is a forest of the
/// graph `g` whose vertices lie at depths `d`, none deeper than `hmax`.
pub open spec fn valid_forest(g: Seq<Seq<usize>>, hmax: int, ans: Seq<i32>, d: Seq<int>) -> bool {
    let n = ans.len();
    &&& d.len() == n
    &&& forall|v: int| 0 <= v < n ==> {
        &&& 0 <= #[trigger] d[v] <= hmax
        &&& if ans[v] == -1 {
            d[v] == 0
        } else {
            0 <= ans[v] < n && d[v] == d[ans[v] as int] + 1 && g[ans[v] as int].contains(v as usize)
        }
    }
}

/// The number of unused vertices among the first `k`.
pub open spec fn unused(used: Seq<bool>, k: int) -> int
    decreases k,
{
    if k <= 0 { 0 } else { unused(used, k - 1) + if used[k - 1] { 0int } else { 1 } }
}

pub(crate) proof fn lemma_unused_mark(used: Seq<bool>, x: int, k: int)
    requires
        0 <= x < used.len(),
        !used[x],
        0 <= k <= used.len(),
    ensures
        unused(used.update(x, true), k) == unused(used, k) - if x < k { 1int } else { 0 },
        unused(used, k) >= if x < k { 1int } else { 0 },
    decreases k,
{
    if k > 0 {
        lemma_unused_mark(used, x, k - 1);
    } else {
        assert(unused(used, 0) == 0);
    }
}

pub(crate) proof fn lemma_wsum_mark(a: Seq<i64>, used: Seq<bool>, d: Seq<int>, x: int, dx: int, k: int)
    requires
        0 <= x < used.len(),
        used.len() == d.len(),
        !used[x],
        0 <= k <= used.len(),
    ensures
        wsum(a, used.update(x, true), d.update(x, dx), k) == wsum(a, used, d, k) + if x < k { a[x] * (dx + 1) } else { 0 },
    decreases k,
{
    if k > 0 {
        lemma_wsum_mark(a, used, d, x, dx, k - 1);
    }
}

pub(crate) proof fn lemma_wsum_bound(a: Seq<i64>, used: Seq<bool>, d: Seq<int>, hmax: int, k: int)
    requires
        0 <= k <= used.len(),
        used.len() == d.len(),
        k <= a.len(),
        0 <= hmax,
        forall|v: int| 0 <= v < k ==> 0 <= #[trigger] a[v] <= A_MAX,
        forall|v: int| 0 <= v < k && used[v] ==> 0 <= #[trigger] d[v] <= hmax,
    ensures
        0 <= wsum(a, used, d, k) <= k * (A_MAX * (hmax + 1)),
    decreases k,
{
    if k > 0 {
        lemma_wsum_bound(a, used, d, hmax, k - 1);
        if used[k - 1] {
            assert(a[k - 1] * (d[k - 1] + 1) <= A_MAX * (hmax + 1)) by (nonlinear_arith)
                requires 0 <= a[k - 1] <= A_MAX, 0 <= d[k - 1] <= hmax;
            assert(0 <= a[k - 1] * (d[k - 1] + 1)) by (nonlinear_arith)
                requires 0 <= a[k - 1], 0 <= d[k - 1];
        }
        assert((k - 1) * (A_MAX * (hmax + 1)) + A_MAX * (hmax + 1) == k * (A_MAX * (hmax + 1))) by (nonlinear_arith);
    }
}

pub(crate) proof fn lemma_wsum_all(a: Seq<i64>, used: Seq<bool>, d: Seq<int>, k: int)
    requires
        0 <= k <= used.len(),
        used.len() == a.len(),
        forall|v: int| 0 <= v < k ==> #[trigger] used[v],
    ensures
        wsum(a, used, d, k) == wsum(a, Seq::new(a.len(), |v: int| true), d, k),
    decreases k,
{
    if k > 0 {
        lemma_wsum_all(a, used, d, k - 1);
    }
}

impl State {
    /// Every vertex a root of its own: score `1 + sum of A`, subtree beauty
    /// its own.
    pub fn new(input: &Input) -> (s: State)
        requires
            input.wf(),
        ensures
            s.score == 1 + wsum(input.A@, Seq::new(input.N as nat, |v: int| true), Seq::new(input.N as nat, |v: int| 0int),
                input.N as int),
            s.nodes@.len() == input.N,
            forall|i: int| 0 <= i < input.N ==> {
                let nd = #[trigger] s.nodes@[i];
                nd.num == i && nd.h == 0 && nd.parent == -1 && nd.children@.len() == 0 && nd.sum_A == input.A@[i]
                    && nd.hmax == 0
            },
    {
        let n = input.N;
        let ghost all = Seq::new(n as nat, |v: int| true);
        let ghost zero = Seq::new(n as nat, |v: int| 0int);
        let mut score: i64 = 1;
        let mut nodes: Vec<Node> = Vec::new();
        let mut i: usize = 0;
        while i < n
            invariant
                input.wf(),
                n == input.N,
                all == Seq::new(n as nat, |v: int| true),
                zero == Seq::new(n as nat, |v: int| 0int),
                0 <= i <= n,
                score == 1 + wsum(input.A@, all, zero, i as int),
                nodes@.len() == i,
                forall|j: int| 0 <= j < i ==> {
                    let nd = #[trigger] nodes@[j];
                    nd.num == j && nd.h == 0 && nd.parent == -1 && nd.children@.len() == 0 && nd.sum_A == input.A@[j]
                        && nd.hmax == 0
                },
            decreases n - i,
        {
            proof {
                lemma_wsum_bound(input.A@, all, zero, 0, i + 1);
                assert((i + 1) * (A_MAX * (0 + 1)) <= N_MAX * A_MAX) by (nonlinear_arith)
                    requires i + 1 <= N_MAX;
            }
            proof {
                assert(all[i as int] && zero[i as int] == 0);
                assert(input.A@[i as int] * (zero[i as int] + 1) == input.A@[i as int]) by (nonlinear_arith)
                    requires zero[i as int] == 0;
            }
            score = score + input.A[i];
            nodes.push(Node { num: i, h: 0, parent: -1, children: Vec::new(), sum_A: input.A[i], hmax: 0 });
            i += 1;
        }
        State { score, nodes }
    }

    /// Whether moving `child` under `parent` is worth checking: it changes
    /// the parent, and the deepest vertex of `child`'s subtree stays within
    /// the height limit.
    pub fn is_valid(&self, child: &Node, parent: &Node, input: &Input) -> (b: bool)
        requires
            parent.num <= i64::MAX,
            -0x1000_0000 <= child.hmax <= 0x1000_0000,
            -0x1000_0000 <= child.h <= 0x1000_0000,
            -0x1000_0000 <= parent.h <= 0x1000_0000,
            input.H <= 0x1000_0000,
        ensures
            b == (child.parent != parent.num as i64 && child.hmax + (parent.h + 1) - child.h <= input.H as i64),
    {
        if child.parent == parent.num as i64 {
            return false;
        }
        if child.hmax + (parent.h + 1) - child.h > input.H as i64 {
            return false;
        }
        true
    }

    /// The change of score when `child` moves under `parent`: its subtree's
    /// beauty times the change of its depth.
    pub fn calc_diff_score(&self, child: &Node, parent: &Node) -> (d: i64)
        requires
            -0x1000_0000 <= child.h <= 0x1000_0000,
            -0x1000_0000 <= parent.h <= 0x1000_0000,
            -0x1000_0000 <= child.sum_A <= 0x1000_0000,
        ensures
            d == ((parent.h + 1) - child.h) * child.sum_A,
    {
        let diff_h = (parent.h + 1) - child.h;
        proof {
            assert(-0x3000_0000 <= diff_h <= 0x3000_0000);
            assert(-0x3000_0000 * 0x1000_0000 <= diff_h * child.sum_A <= 0x3000_0000 * 0x1000_0000) by (nonlinear_arith)
                requires -0x3000_0000 <= diff_h <= 0x3000_0000, -0x1000_0000 <= child.sum_A <= 0x1000_0000;
        }
        diff_h * child.sum_A
    }

    /// The parents of the vertices, in order, separated by spaces.
    pub open spec fn text(&self) -> Seq<char> {
        parents_text(self.nodes@, self.nodes@.len() as int)
    }

    /// The answer line: `text`.
    pub fn output(&self) -> (s: String)
        ensures
            s@ == self.text(),
    {
        let mut out: Vec<char> = Vec::new();
        let mut k: usize = 0;
        while k < self.nodes.len()
            invariant
                0 <= k <= self.nodes@.len(),
                out@ == parents_text(self.nodes@, k as int),
            decreases self.nodes@.len() - k,
        {
            if k > 0 {
                out.push(' ');
            }
            push_signed_decimal(&mut out, self.nodes[k].parent);
            k += 1;
            proof {
                assert(out@ =~= parents_text(self.nodes@, k as int));
            }
        }
        chars_to_string(&out)
    }
}

/// The vertices `(A[i], i)` for `i < k`.
pub open spec fn keyed(a: Seq<i64>, k: int) -> Seq<(i64, usize)> {
    Seq::new(k as nat, |i: int| (a[i], i as usize))
}

/// The invariant of the construction: marked vertices have a depth within
/// the limit, unmarked ones no parent and depth 0, and every parent is a
/// marked neighbour one level up.
pub open spec fn growing(g: Seq<Seq<usize>>, hmax: int, used: Seq<bool>, ans: Seq<i32>, d: Seq<int>) -> bool {
    let n = used.len();
    &&& ans.len() == n
    &&& d.len() == n
    &&& forall|v: int| 0 <= v < n ==> {
        &&& (#[trigger] used[v] ==> 0 <= d[v] <= hmax)
        &&& (!used[v] ==> ans[v] == -1 && d[v] == 0)
        &&& (used[v] && ans[v] == -1 ==> d[v] == 0)
        &&& (ans[v] != -1 ==> 0 <= ans[v] < n && used[ans[v] as int] && d[v] == d[ans[v] as int] + 1
            && g[ans[v] as int].contains(v as usize))
    }
}

pub(crate) proof fn lemma_sorted_keys(a: Seq<i64>, order: Seq<(i64, usize)>, n: int, q: int)
    requires
        0 <= n <= usize::MAX,
        order.to_multiset() == keyed(a, n).to_multiset(),
        0 <= q < order.len(),
    ensures
        order[q].1 < n,
        order[q].0 == a[order[q].1 as int],
{
    let x = order[q];
    assert(order.contains(x));
    vstd::seq_lib::to_multiset_contains(order, x);
    vstd::seq_lib::to_multiset_contains(keyed(a, n), x);
    assert(keyed(a, n).contains(x));
    let i = choose|i: int| 0 <= i < keyed(a, n).len() && keyed(a, n)[i] == x;
    assert(keyed(a, n)[i] == (a[i], i as usize));
    assert(x.1 as int == i);
}

pub(crate) proof fn lemma_every_key(a: Seq<i64>, order: Seq<(i64, usize)>, n: int, v: int)
    requires
        0 <= v < n,
        n <= a.len(),
        n <= usize::MAX,
        order.to_multiset() == keyed(a, n).to_multiset(),
    ensures
        exists|q: int| 0 <= q < order.len() && #[trigger] order[q].1 == v,
{
    let x = (a[v], v as usize);
    assert(keyed(a, n)[v] == x);
    assert(keyed(a, n).contains(x));
    vstd::seq_lib::to_multiset_contains(order, x);
    vstd::seq_lib::to_multiset_contains(keyed(a, n), x);
    assert(order.contains(x));
    let q = choose|q: int| 0 <= q < order.len() && order[q] == x;
    assert(order[q].1 == v);
}

pub(crate) proof fn lemma_wsum_none(a: Seq<i64>, used: Seq<bool>, d: Seq<int>, k: int)
    requires
        0 <= k <= used.len(),
        forall|v: int| 0 <= v < k ==> !#[trigger] used[v],
    ensures
        wsum(a, used, d, k) == 0,
    decreases k,
{
    if k > 0 {
        lemma_wsum_none(a, used, d, k - 1);
    }
}

/// Hanging an unmarked vertex `x` under a marked neighbour `px` one level
/// down (or making it a root at depth 0) keeps the construction growing.
pub(crate) proof fn lemma_grow_mark(g: Seq<Seq<usize>>, hmax: int, used: Seq<bool>, ans: Seq<i32>, d: Seq<int>, x: int, px: i32, dx: int)
    requires
        growing(g, hmax, used, ans, d),
        0 <= x < used.len(),
        !used[x],
        0 <= dx <= hmax,
        (px == -1 && dx == 0) || (0 <= px < used.len() && px != x && used[px as int] && dx == d[px as int] + 1
            && g[px as int].contains(x as usize)),
    ensures
        growing(g, hmax, used.update(x, true), ans.update(x, px), d.update(x, dx)),
{
    let u = used.update(x, true);
    let an = ans.update(x, px);
    let dd = d.update(x, dx);
    let n = used.len();
    assert forall|v: int| 0 <= v < n implies {
        &&& (#[trigger] u[v] ==> 0 <= dd[v] <= hmax)
        &&& (!u[v] ==> an[v] == -1 && dd[v] == 0)
        &&& (u[v] && an[v] == -1 ==> dd[v] == 0)
        &&& (an[v] != -1 ==> 0 <= an[v] < n && u[an[v] as int] && dd[v] == dd[an[v] as int] + 1
            && g[an[v] as int].contains(v as usize))
    } by {
        if v != x {
            assert(used[v] == u[v]);
            if ans[v] != -1 {
                assert(used[ans[v] as int]);
                assert(ans[v] as int != x);
            }
        }
    }
}

impl State {
    /// Grows trees depth first from the vertices in order of increasing
    /// beauty: each unmarked vertex becomes a root, and from each vertex
    /// above the height limit every unmarked neighbour is hung under it.
    /// Returns the score and the parent of each vertex (`-1`: a root): a
    /// valid forest and its score.
    pub fn dfs(&self, input: &Input) -> (r: (i64, Vec<i32>))
        requires
            input.wf(),
        ensures
            r.1@.len() == input.N,
            exists|d: Seq<int>| valid_forest(graph(input.G@), input.H as int, r.1@, d) && r.0 == beauty(input.A@, d),
    {
        let n = input.N;
        let hmax = input.H;
        let ghost g = graph(input.G@);
        let mut used: Vec<bool> = Vec::new();
        let mut ans: Vec<i32> = Vec::new();
        let mut order: Vec<(i64, usize)> = Vec::new();
        let mut i: usize = 0;
        while i < n
            invariant
                input.wf(),
                n == input.N,
                0 <= i <= n,
                used@ == Seq::new(i as nat, |v: int| false),
                ans@ == Seq::new(i as nat, |v: int| -1i32),
                order@ == keyed(input.A@, i as int),
            decreases n - i,
        {
            used.push(false);
            ans.push(-1);
            order.push((input.A[i], i));
            i += 1;
            proof {
                assert(used@ =~= Seq::new(i as nat, |v: int| false));
                assert(ans@ =~= Seq::new(i as nat, |v: int| -1i32));
                assert(order@ =~= keyed(input.A@, i as int));
            }
        }
        sort_pairs(&mut order);
        let ghost mut d: Seq<int> = Seq::new(n as nat, |v: int| 0int);
        let mut score: i64 = 1;
        proof {
            lemma_wsum_none(input.A@, used@, d, n as int);
            assert forall|q: int| 0 <= q < order@.len() implies (#[trigger] order@[q]).1 < n by {
                lemma_sorted_keys(input.A@, order@, n as int, q);
            }
        }
        let mut t: usize = 0;
        while t < order.len()
            invariant
                input.wf(),
                n == input.N,
                hmax == input.H,
                g == graph(input.G@),
                order@.len() == n,
                order@.to_multiset() == keyed(input.A@, n as int).to_multiset(),
                forall|q: int| 0 <= q < order@.len() ==> (#[trigger] order@[q]).1 < n,
                0 <= t <= order@.len(),
                used@.len() == n,
                growing(g, hmax as int, used@, ans@, d),
                score == 1 + wsum(input.A@, used@, d, n as int),
                forall|q: int| 0 <= q < t ==> used@[#[trigger] order@[q].1 as int],
            decreases order@.len() - t,
        {
            proof {
                lemma_sorted_keys(input.A@, order@, n as int, t as int);
            }
            let root = order[t].1;
            if used[root] {
                t += 1;
                continue;
            }
            let mut stack: Vec<(usize, usize)> = Vec::new();
            stack.push((root, 0));
            proof {
                lemma_wsum_mark(input.A@, used@, d, root as int, 0, n as int);
                lemma_unused_mark(used@, root as int, n as int);
                lemma_grow_mark(g, hmax as int, used@, ans@, d, root as int, -1i32, 0);
                assert(ans@.update(root as int, -1i32) =~= ans@);
                lemma_wsum_bound(input.A@, used@.update(root as int, true), d.update(root as int, 0), hmax as int, n as int);
                assert(n * (A_MAX * (hmax + 1)) <= N_MAX * (A_MAX * (N_MAX + 1))) by (nonlinear_arith)
                    requires n <= N_MAX, hmax <= N_MAX;
                assert(input.A@[root as int] * (0 + 1) == input.A@[root as int]) by (nonlinear_arith);
            }
            let ghost ub = used@;
            score = score + input.A[root];
            used.set(root, true);
            proof {
                d = d.update(root as int, 0);
                assert forall|q: int| 0 <= q < t implies used@[#[trigger] order@[q].1 as int] by {
                    assert(ub[order@[q].1 as int]);
                }
            }
            while stack.len() > 0
                invariant
                    input.wf(),
                    n == input.N,
                    hmax == input.H,
                    g == graph(input.G@),
                    used@.len() == n,
                    growing(g, hmax as int, used@, ans@, d),
                    score == 1 + wsum(input.A@, used@, d, n as int),
                    forall|q: int| 0 <= q < stack@.len() ==> (#[trigger] stack@[q]).0 < n && used@[stack@[q].0 as int]
                        && d[stack@[q].0 as int] == stack@[q].1 && stack@[q].1 <= hmax,
                    forall|q: int| 0 <= q < t ==> used@[#[trigger] order@[q].1 as int],
                    forall|q: int| 0 <= q < order@.len() ==> (#[trigger] order@[q]).1 < n,
                    t < order@.len(),
                    root < n,
                    used@[root as int],
                    unused(used@, n as int) >= 0,
                decreases 2 * unused(used@, n as int) + stack@.len(),
            {
                let ghost m0 = 2 * unused(used@, n as int) + stack@.len();
                let (pos, h) = stack.pop().unwrap();
                if h == hmax {
                    continue;
                }
                let mut k: usize = 0;
                while k < input.G[pos].len()
                    invariant
                        input.wf(),
                        n == input.N,
                        hmax == input.H,
                        g == graph(input.G@),
                        pos < n,
                        used@.len() == n,
                        used@[pos as int],
                        d[pos as int] == h,
                        h < hmax,
                        growing(g, hmax as int, used@, ans@, d),
                        score == 1 + wsum(input.A@, used@, d, n as int),
                        forall|q: int| 0 <= q < stack@.len() ==> (#[trigger] stack@[q]).0 < n && used@[stack@[q].0 as int]
                            && d[stack@[q].0 as int] == stack@[q].1 && stack@[q].1 <= hmax,
                        forall|q: int| 0 <= q < t ==> used@[#[trigger] order@[q].1 as int],
                        forall|q: int| 0 <= q < order@.len() ==> (#[trigger] order@[q]).1 < n,
                        t < order@.len(),
                        root < n,
                        used@[root as int],
                        unused(used@, n as int) >= 0,
                        2 * unused(used@, n as int) + stack@.len() < m0,
                        0 <= k <= input.G@[pos as int]@.len(),
                    decreases input.G@[pos as int]@.len() - k,
                {
                    let nxt = input.G[pos][k];
                    proof {
                        assert(g[pos as int] == input.G@[pos as int]@);
                        assert(g[pos as int][k as int] == nxt);
                        assert(g[pos as int].contains(nxt));
                    }
                    if !used[nxt] {
                        proof {
                            lemma_wsum_mark(input.A@, used@, d, nxt as int, h + 1, n as int);
                            lemma_unused_mark(used@, nxt as int, n as int);
                            lemma_grow_mark(g, hmax as int, used@, ans@, d, nxt as int, pos as i32, h + 1);
                            lemma_wsum_bound(input.A@, used@.update(nxt as int, true), d.update(nxt as int, h + 1), hmax as int,
                                n as int);
                            assert(n * (A_MAX * (hmax + 1)) <= N_MAX * (A_MAX * (N_MAX + 1))) by (nonlinear_arith)
                                requires n <= N_MAX, hmax <= N_MAX;
                            assert(input.A@[nxt as int] * (h + 1 + 1) == input.A@[nxt as int] * (h + 2));
                            assert(0 <= input.A@[nxt as int] * (h + 2) <= A_MAX * (N_MAX + 2)) by (nonlinear_arith)
                                requires 0 <= input.A@[nxt as int] <= A_MAX, h + 2 <= N_MAX + 2;
                        }
                        let ghost ub = used@;
                        stack.push((nxt, h + 1));
                        score = score + input.A[nxt] * (h as i64 + 2);
                        used.set(nxt, true);
                        ans.set(nxt, pos as i32);
                        proof {
                            d = d.update(nxt as int, h + 1);
                            assert forall|q: int| 0 <= q < t implies used@[#[trigger] order@[q].1 as int] by {
                                assert(ub[order@[q].1 as int]);
                            }
                            assert(ub[root as int]);
                            assert forall|q: int| 0 <= q < stack@.len() implies (#[trigger] stack@[q]).0 < n
                                && used@[stack@[q].0 as int] && d[stack@[q].0 as int] == stack@[q].1 && stack@[q].1 <= hmax by {
                                if q < stack@.len() - 1 {
                                    assert(ub[stack@[q].0 as int]);
                                }
                            }
                        }
                    }
                    k += 1;
                }
            }
            t += 1;
        }
        proof {
            assert forall|v: int| 0 <= v < n implies #[trigger] used@[v] by {
                lemma_every_key(input.A@, order@, n as int, v);
                let q = choose|q: int| 0 <= q < order@.len() && #[trigger] order@[q].1 == v;
            }
            lemma_wsum_all(input.A@, used@, d, n as int);
            assert forall|v: int| 0 <= v < n implies {
                &&& 0 <= #[trigger] d[v] <= hmax
                &&& if ans@[v] == -1 {
                    d[v] == 0
                } else {
                    0 <= ans@[v] < n && d[v] == d[ans@[v] as int] + 1 && g[ans@[v] as int].contains(v as usize)
                }
            } by {
                assert(used@[v]);
            }
            assert(valid_forest(g, hmax as int, ans@, d));
            assert(score == beauty(input.A@, d));
        }
        (score, ans)
    }
}

/// The parents of the first `k` nodes separated by spaces.
pub open spec fn parents_text(nodes: Seq<Node>, k: int) -> Seq<char>
    decreases k,
{
    if k <= 0 {
        seq![]
    } else if k == 1 {
        signed_decimal(nodes[0].parent as int)
    } else {
        parents_text(nodes, k - 1) + seq![' '] + signed_decimal(nodes[k - 1].parent as int)
    }
}

} // verus!
