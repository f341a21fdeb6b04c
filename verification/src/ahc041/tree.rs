//! Turning a parent list into the nodes of the forest: parents, children,
//! depths, and the values gathered from the leaves up.
use vstd::prelude::*;
use crate::ahc041::input::Input;
use crate::ahc041::state::{State, Node, graph, valid_forest, beauty};
use crate::ahc041::anneal::{forest_ok, lemma_kids_forest};
use crate::ahc041::greedy::greedy_parents;
use crate::ahc041::ratio::average_parents;
use crate::ahc041::subtree::{
    sub_sum, sub_max, done_sum, done_max, congruent, lemma_congruent_add, lemma_congruent_refl, lemma_done_all,
    lemma_done_none, lemma_done_mark, deeper, room, lemma_sub_same,
};

verus! {

/// The vertices `c < k` whose parent is `v`, in increasing order.
pub open spec fn kids(ans: Seq<i32>, v: int, k: int) -> Seq<usize>
    decreases k,
{
    if k <= 0 {
        seq![]
    } else if ans[k - 1] == v {
        kids(ans, v, k - 1).push((k - 1) as usize)
    } else {
        kids(ans, v, k - 1)
    }
}

impl State {
    /// Takes the forest `ans` (the parent of each vertex, `-1`: a root) and
    /// its score: every node gets its parent, the children in increasing
    /// order (after those it had), and its depth; then, from the deepest
    /// nodes up (larger depth, then larger number, first), each leaf starts
    /// with its own depth and beauty, and each node passes its greatest depth
    /// and its beauty sum on to its parent.
    pub fn set_forest(&mut self, score: i64, ans: &Vec<i32>, input: &Input)
        requires
            input.wf(),
            old(self).nodes@.len() == input.N,
            ans@.len() == input.N,
            exists|d: Seq<int>| valid_forest(graph(input.G@), input.H as int, ans@, d),
            forall|v: int| 0 <= v < input.N ==> -0x1000_0000 <= (#[trigger] old(self).nodes@[v]).sum_A <= 0x1000_0000,
            forall|v: int| 0 <= v < input.N ==> (#[trigger] old(self).nodes@[v]).children@.len() == 0,
        ensures
            final(self).score == score,
            final(self).nodes@.len() == input.N,
            exists|d: Seq<int>| valid_forest(graph(input.G@), input.H as int, ans@, d)
                && forall|v: int| 0 <= v < input.N ==> (#[trigger] final(self).nodes@[v]).h == d[v],
            forall|v: int| 0 <= v < input.N ==> (#[trigger] final(self).nodes@[v]).parent == ans@[v] as i64
                && final(self).nodes@[v].children@ == kids(ans@, v, input.N as int)
                && final(self).nodes@[v].num == old(self).nodes@[v].num,
            forall|v: int| 0 <= v < input.N ==> (#[trigger] final(self).nodes@[v]).sum_A == old(self).nodes@[v].sum_A
                && final(self).nodes@[v].hmax == old(self).nodes@[v].hmax,
    {
        let n = input.N;
        let ghost d = choose|d: Seq<int>| valid_forest(graph(input.G@), input.H as int, ans@, d);
        self.score = score;
        let mut c: usize = 0;
        while c < n
            invariant
                n == input.N,
                input.wf(),
                ans@.len() == n,
                valid_forest(graph(input.G@), input.H as int, ans@, d),
                self.nodes@.len() == n,
                self.score == score,
                0 <= c <= n,
                forall|v: int| 0 <= v < n ==> (#[trigger] self.nodes@[v]).children@ == kids(ans@, v, c as int)
                    && self.nodes@[v].num == old(self).nodes@[v].num && self.nodes@[v].h == old(self).nodes@[v].h
                    && self.nodes@[v].sum_A == old(self).nodes@[v].sum_A && self.nodes@[v].hmax == old(self).nodes@[v].hmax,
                forall|v: int| 0 <= v < c ==> (#[trigger] self.nodes@[v]).parent == ans@[v] as i64,
                forall|v: int| c <= v < n ==> (#[trigger] self.nodes@[v]).parent == old(self).nodes@[v].parent,
            decreases n - c,
        {
            let p = ans[c];
            let ghost before = self.nodes@;
            if p != -1 {
                proof {
                    lemma_forest_at(graph(input.G@), input.H as int, ans@, d, c as int);
                }
                let pu = p as usize;
                let mut node = self.nodes[pu].clone_node();
                node.children.push(c);
                self.nodes.set(pu, node);
            }
            let mut me = self.nodes[c].clone_node();
            me.parent = p as i64;
            self.nodes.set(c, me);
            proof {
                assert forall|v: int| 0 <= v < n implies (#[trigger] self.nodes@[v]).children@ == kids(ans@, v, c + 1)
                    && self.nodes@[v].num == old(self).nodes@[v].num && self.nodes@[v].h == old(self).nodes@[v].h
                    && self.nodes@[v].sum_A == old(self).nodes@[v].sum_A && self.nodes@[v].hmax == old(self).nodes@[v].hmax by {
                    if v != p as int && v != c as int {
                        assert(self.nodes@[v] == before[v]);
                    }
                }
                assert forall|v: int| c + 1 <= v < n implies (#[trigger] self.nodes@[v]).parent == old(self).nodes@[v].parent by {
                    if v != p as int {
                        assert(self.nodes@[v] == before[v]);
                    }
                }
                assert forall|v: int| 0 <= v < c + 1 implies (#[trigger] self.nodes@[v]).parent == ans@[v] as i64 by {
                    if v < c && v != p as int {
                        assert(self.nodes@[v] == before[v]);
                    }
                }
            }
            c += 1;
        }
        let mut v: usize = 0;
        while v < n
            invariant
                n == input.N,
                input.wf(),
                ans@.len() == n,
                valid_forest(graph(input.G@), input.H as int, ans@, d),
                self.nodes@.len() == n,
                self.score == score,
                0 <= v <= n,
                forall|w: int| 0 <= w < n ==> (#[trigger] self.nodes@[w]).children@ == kids(ans@, w, n as int)
                    && self.nodes@[w].num == old(self).nodes@[w].num && self.nodes@[w].parent == ans@[w] as i64,
                forall|w: int| 0 <= w < v ==> (#[trigger] self.nodes@[w]).h == d[w],
                forall|w: int| 0 <= w < n ==> (#[trigger] self.nodes@[w]).sum_A == old(self).nodes@[w].sum_A
                    && self.nodes@[w].hmax == old(self).nodes@[w].hmax,
            decreases n - v,
        {
            let h = depth_of(ans, v, Ghost(d), input);
            let ghost before = self.nodes@;
            let mut me = self.nodes[v].clone_node();
            me.h = h;
            self.nodes.set(v, me);
            proof {
                assert forall|w: int| 0 <= w < n implies (#[trigger] self.nodes@[w]).children@ == kids(ans@, w, n as int)
                    && self.nodes@[w].num == old(self).nodes@[w].num && self.nodes@[w].parent == ans@[w] as i64 by {
                    if w != v as int {
                        assert(self.nodes@[w] == before[w]);
                    }
                }
                assert forall|w: int| 0 <= w < v + 1 implies (#[trigger] self.nodes@[w]).h == d[w] by {
                    if w != v as int {
                        assert(self.nodes@[w] == before[w]);
                    }
                }
                assert forall|w: int| 0 <= w < n implies (#[trigger] self.nodes@[w]).sum_A == old(self).nodes@[w].sum_A
                    && self.nodes@[w].hmax == old(self).nodes@[w].hmax by {
                    if w != v as int {
                        assert(self.nodes@[w] == before[w]);
                    }
                }
            }
            v += 1;
        }
    }
}

proof fn lemma_forest_at(g: Seq<Seq<usize>>, hmax: int, ans: Seq<i32>, d: Seq<int>, v: int)
    requires
        valid_forest(g, hmax, ans, d),
        0 <= v < ans.len(),
    ensures
        0 <= d[v] <= hmax,
        ans[v] == -1 ==> d[v] == 0,
        ans[v] != -1 ==> 0 <= ans[v] < ans.len() && d[v] == d[ans[v] as int] + 1,
{
    let x = d[v];
}

/// The number of unmarked vertices among the first `k`.
pub open spec fn unmarked(m: Seq<bool>, k: int) -> int
    decreases k,
{
    if k <= 0 { 0 } else { unmarked(m, k - 1) + if m[k - 1] { 0int } else { 1 } }
}

proof fn lemma_unmarked_mark(m: Seq<bool>, x: int, k: int)
    requires
        0 <= x < m.len(),
        !m[x],
        0 <= k <= m.len(),
    ensures
        unmarked(m.update(x, true), k) == unmarked(m, k) - if x < k { 1int } else { 0 },
        unmarked(m, k) >= if x < k { 1int } else { 0 },
    decreases k,
{
    if k > 0 {
        lemma_unmarked_mark(m, x, k - 1);
    }
}

proof fn lemma_unmarked_nonneg(m: Seq<bool>, k: int)
    requires
        0 <= k <= m.len(),
    ensures
        unmarked(m, k) >= 0,
    decreases k,
{
    if k > 0 {
        lemma_unmarked_nonneg(m, k - 1);
    }
}

/// The index of the largest `(depth, vertex)` pair of a non-empty list.
fn max_index(heap: &Vec<(i64, usize)>) -> (k: usize)
    requires
        heap@.len() > 0,
    ensures
        k < heap@.len(),
        forall|j: int| 0 <= j < heap@.len() ==> crate::sorting::pair_le(#[trigger] heap@[j], heap@[k as int]),
{
    let mut best: usize = 0;
    let mut j: usize = 1;
    while j < heap.len()
        invariant
            heap@.len() > 0,
            best < heap@.len(),
            1 <= j <= heap@.len(),
            forall|q: int| 0 <= q < j ==> crate::sorting::pair_le(#[trigger] heap@[q], heap@[best as int]),
        decreases heap@.len() - j,
    {
        let (h1, i1) = heap[j];
        let (h0, i0) = heap[best];
        if h1 > h0 || (h1 == h0 && i1 > i0) {
            best = j;
        }
        j += 1;
    }
    best
}

/// What `gather` starts each node from: a leaf from its beauty, any other
/// node from the sum it holds.
pub open spec fn base_sum(nodes: Seq<Node>, a: Seq<i64>) -> Seq<int> {
    Seq::new(nodes.len(), |v: int| if nodes[v].children@.len() == 0 { a[v] as int } else { nodes[v].sum_A as int })
}

/// What `gather` starts each node's greatest depth from: a leaf from its
/// depth, any other node from the value it holds.
pub open spec fn base_max(nodes: Seq<Node>) -> Seq<int> {
    Seq::new(nodes.len(), |v: int| if nodes[v].children@.len() == 0 { nodes[v].h as int } else { nodes[v].hmax as int })
}

/// The beauties as integers.
pub open spec fn beauties(a: Seq<i64>) -> Seq<int> {
    Seq::new(a.len(), |v: int| a[v] as int)
}

/// Each leaf's depth, 0 for the other nodes: the subtree maximum of these is
/// the deepest depth in the subtree (depths are not negative).
pub open spec fn leaf_depths(nodes: Seq<Node>) -> Seq<int> {
    Seq::new(nodes.len(), |v: int| if nodes[v].children@.len() == 0 { nodes[v].h as int } else { 0 })
}

/// Nodes as `State::new` makes them: each at its own number, holding its
/// beauty as sum and 0 as greatest depth.
pub open spec fn fresh_nodes(nodes: Seq<Node>, a: Seq<i64>) -> bool {
    &&& nodes.len() == a.len()
    &&& forall|v: int| 0 <= v < nodes.len() ==> (#[trigger] nodes[v]).num == v && nodes[v].sum_A == a[v]
        && nodes[v].hmax == 0
}

/// Each node holds the beauty sum of its subtree (modulo `2^64`) and the
/// deepest depth in its subtree.
pub open spec fn gathered_values(nodes: Seq<Node>, a: Seq<i64>) -> bool {
    forall|v: int| 0 <= v < a.len() ==> {
        &&& congruent((#[trigger] nodes[v]).sum_A as int, sub_sum(nodes, beauties(a), v))
        &&& nodes[v].hmax == sub_max(nodes, leaf_depths(nodes), v)
    }
}

/// The values gathered over fresh nodes that took a forest are the beauty
/// sums and deepest depths of the subtrees.
proof fn lemma_adopt_values(old: Seq<Node>, mid: Seq<Node>, fin: Seq<Node>, a: Seq<i64>)
    requires
        fresh_nodes(old, a),
        mid.len() == a.len(),
        fin.len() == a.len(),
        forest_ok(mid),
        forall|v: int| 0 <= v < a.len() ==> (#[trigger] mid[v]).sum_A == old[v].sum_A && mid[v].hmax == old[v].hmax,
        forall|v: int| 0 <= v < a.len() ==> (#[trigger] fin[v]).children@ == mid[v].children@ && fin[v].h == mid[v].h,
        forall|v: int| 0 <= v < a.len() ==> {
            &&& congruent((#[trigger] fin[v]).sum_A as int, sub_sum(mid, base_sum(mid, a), v))
            &&& fin[v].hmax == sub_max(mid, base_max(mid), v)
        },
    ensures
        gathered_values(fin, a),
{
    assert(base_sum(mid, a) =~= beauties(a)) by {
        assert forall|v: int| 0 <= v < a.len() implies base_sum(mid, a)[v] == beauties(a)[v] by {
            let e = mid[v];
            let e2 = old[v];
        }
    }
    assert(base_max(mid) =~= leaf_depths(fin)) by {
        assert forall|v: int| 0 <= v < a.len() implies base_max(mid)[v] == leaf_depths(fin)[v] by {
            let e = mid[v];
            let e2 = old[v];
            let e3 = fin[v];
        }
    }
    assert forall|v: int| 0 <= v < a.len() implies {
        &&& congruent((#[trigger] fin[v]).sum_A as int, sub_sum(fin, beauties(a), v))
        &&& fin[v].hmax == sub_max(fin, leaf_depths(fin), v)
    } by {
        lemma_sub_same(mid, fin, beauties(a), v);
        lemma_sub_same(mid, fin, leaf_depths(fin), v);
    }
}

/// In a forest, a node not yet done has a node at least as deep on the
/// heap: itself, or (when it was never queued, so none of its children is
/// done) one below a child.
proof fn lemma_pending(g: Seq<Node>, heap: Seq<(i64, usize)>, used: Seq<bool>, done: Seq<bool>, y: int)
    requires
        forest_ok(g),
        0 <= y < g.len(),
        used.len() == g.len(),
        done.len() == g.len(),
        !done[y],
        forall|q: int| 0 <= q < heap.len() ==> (#[trigger] heap[q]).1 < g.len() && heap[q].0 == g[heap[q].1 as int].h,
        forall|v: int| 0 <= v < g.len() && #[trigger] used[v] && !done[v] ==> exists|q: int| 0 <= q < heap.len() && heap[q].1 == v,
        forall|v: int| 0 <= v < g.len() && !(#[trigger] used[v]) ==> g[v].children@.len() > 0
            && forall|j: int| 0 <= j < g[v].children@.len() ==> !done[#[trigger] g[v].children@[j] as int],
    ensures
        exists|q: int| 0 <= q < heap.len() && heap[q].0 >= g[y].h,
    decreases room(g, y),
{
    if used[y] {
        let q = choose|q: int| 0 <= q < heap.len() && heap[q].1 == y;
        assert(heap[q].0 == g[y].h);
    } else {
        let c = g[y].children@[0] as int;
        assert(!done[c]);
        let e = g[y];
        let e2 = g[c];
        lemma_pending(g, heap, used, done, c);
    }
}

/// The values `gather` holds of each node in the middle of its walk: the
/// start value plus what the children done so far passed on.
pub open spec fn gathered(g: Seq<Node>, bs: Seq<int>, bm: Seq<int>, nodes: Seq<Node>, done: Seq<bool>, n: int) -> bool {
    forall|x: int| 0 <= x < n ==> {
        &&& congruent((#[trigger] nodes[x]).sum_A as int, bs[x] + done_sum(g, bs, x, g[x].children@.len() as int, done))
        &&& nodes[x].hmax as int == done_max(g, bm, x, g[x].children@.len() as int, done)
    }
}

/// In a forest, a node is a child of its parent only.
proof fn lemma_only_parent(g: Seq<Node>, id: int, x: int)
    requires
        forest_ok(g),
        0 <= id < g.len(),
        0 <= x < g.len(),
    ensures
        (exists|j: int| 0 <= j < g[x].children@.len() && g[x].children@[j] as int == id) <==> g[id].parent == x,
{
    if exists|j: int| 0 <= j < g[x].children@.len() && g[x].children@[j] as int == id {
        let j = choose|j: int| 0 <= j < g[x].children@.len() && g[x].children@[j] as int == id;
        let c = g[x].children@[j];
    }
    if g[id].parent == x {
        let e = g[id];
        assert(g[x].children@.contains(id as usize));
        let j = choose|j: int| 0 <= j < g[x].children@.len() && g[x].children@[j] == id as usize;
    }
}

/// Marking node `id` done (all its children being done) after it passed its
/// values to parent `p` (or to nobody, `p == -1`) keeps `gathered`.
proof fn lemma_gather_pass(
    g: Seq<Node>,
    bs: Seq<int>,
    bm: Seq<int>,
    d0: Seq<bool>,
    nb: Seq<Node>,
    na: Seq<Node>,
    id: int,
    p: int,
    n: int,
)
    requires
        forest_ok(g),
        n == g.len(),
        d0.len() == n,
        nb.len() == n,
        na.len() == n,
        0 <= id < n,
        !d0[id],
        g[id].parent == p,
        forall|j: int| 0 <= j < g[id].children@.len() ==> d0[#[trigger] g[id].children@[j] as int],
        gathered(g, bs, bm, nb, d0, n),
        forall|x: int| 0 <= x < n && x != p ==> (#[trigger] na[x]).sum_A == nb[x].sum_A && na[x].hmax == nb[x].hmax,
        p != -1 ==> 0 <= p < n && na[p].sum_A == nb[p].sum_A.wrapping_add(nb[id].sum_A)
            && na[p].hmax == if nb[id].hmax > nb[p].hmax { nb[id].hmax } else { nb[p].hmax },
    ensures
        gathered(g, bs, bm, na, d0.update(id, true), n),
{
    let d1 = d0.update(id, true);
    let len = g[id].children@.len() as int;
    lemma_done_all(g, bs, id, len, d0);
    lemma_done_all(g, bm, id, len, d0);
    let e = nb[id];
    assert(congruent(nb[id].sum_A as int, sub_sum(g, bs, id)));
    assert(nb[id].hmax as int == sub_max(g, bm, id));
    assert forall|x: int| 0 <= x < n implies {
        &&& congruent((#[trigger] na[x]).sum_A as int, bs[x] + done_sum(g, bs, x, g[x].children@.len() as int, d1))
        &&& na[x].hmax as int == done_max(g, bm, x, g[x].children@.len() as int, d1)
    } by {
        let lx = g[x].children@.len() as int;
        let ex = g[x];
        assert forall|j: int| 0 <= j < lx implies (#[trigger] g[x].children@[j]) < d0.len() by {
            let c = g[x].children@[j];
        }
        lemma_done_mark(g, bs, x, lx, d0, id);
        lemma_done_mark(g, bm, x, lx, d0, id);
        lemma_only_parent(g, id, x);
        let eb = nb[x];
        if x == p {
            let ei = g[id];
            assert(deeper(g, x, id));
            lemma_congruent_add(nb[p].sum_A, nb[id].sum_A, bs[x] + done_sum(g, bs, x, lx, d0), sub_sum(g, bs, id));
        }
    }
}

/// The queue after node `id` (entry `k`) left it and its parent `p` (if
/// any, and if never queued) joined: every entry is a queued node not done
/// at its depth, once; every queued node not done is on it; every done
/// node was queued; and in a forest, a node never queued has children,
/// none of them done.
proof fn lemma_gather_heap(
    g: Seq<Node>,
    hb: Seq<(i64, usize)>,
    hb2: Seq<(i64, usize)>,
    ha: Seq<(i64, usize)>,
    ub: Seq<bool>,
    ua: Seq<bool>,
    d0: Seq<bool>,
    d1: Seq<bool>,
    k: int,
    id: int,
    p: int,
    ok: bool,
)
    requires
        ok == forest_ok(g),
        g.len() <= usize::MAX,
        ub.len() == g.len(),
        d0.len() == g.len(),
        0 <= k < hb.len(),
        id == hb[k].1,
        g[id].parent == p,
        -1 <= p < g.len(),
        hb2 == hb.update(k, hb.last()).drop_last(),
        d1 == d0.update(id, true),
        p == -1 || ub[p] ==> ha == hb2 && ua == ub,
        p != -1 && !ub[p] ==> ha == hb2.push((g[p].h, p as usize)) && ua == ub.update(p, true),
        forall|q: int| 0 <= q < hb.len() ==> (#[trigger] hb[q]).1 < g.len() && ub[hb[q].1 as int]
            && !d0[hb[q].1 as int] && hb[q].0 == g[hb[q].1 as int].h,
        forall|q1: int, q2: int| 0 <= q1 < hb.len() && 0 <= q2 < hb.len() && q1 != q2
            ==> (#[trigger] hb[q1]).1 != (#[trigger] hb[q2]).1,
        forall|v: int| 0 <= v < g.len() && #[trigger] ub[v] && !d0[v] ==> exists|q: int| 0 <= q < hb.len() && hb[q].1 == v,
        forall|v: int| 0 <= v < g.len() && #[trigger] d0[v] ==> ub[v],
        ok ==> forall|v: int| 0 <= v < g.len() && !(#[trigger] ub[v]) ==> g[v].children@.len() > 0
            && forall|j: int| 0 <= j < g[v].children@.len() ==> !d0[#[trigger] g[v].children@[j] as int],
    ensures
        ua.len() == g.len(),
        d1.len() == g.len(),
        forall|q: int| 0 <= q < ha.len() ==> (#[trigger] ha[q]).1 < g.len() && ua[ha[q].1 as int]
            && !d1[ha[q].1 as int] && ha[q].0 == g[ha[q].1 as int].h,
        forall|q1: int, q2: int| 0 <= q1 < ha.len() && 0 <= q2 < ha.len() && q1 != q2
            ==> (#[trigger] ha[q1]).1 != (#[trigger] ha[q2]).1,
        forall|v: int| 0 <= v < g.len() && #[trigger] ua[v] && !d1[v] ==> exists|q: int| 0 <= q < ha.len() && ha[q].1 == v,
        forall|v: int| 0 <= v < g.len() && #[trigger] d1[v] ==> ua[v],
        ok ==> forall|v: int| 0 <= v < g.len() && !(#[trigger] ua[v]) ==> g[v].children@.len() > 0
            && forall|j: int| 0 <= j < g[v].children@.len() ==> !d1[#[trigger] g[v].children@[j] as int],
{
    let last = hb.len() - 1;
    // hb2 holds every entry of hb but `id`, once each.
    assert forall|q: int| 0 <= q < hb2.len() implies (#[trigger] hb2[q]) == hb[if q == k { last } else { q }] by {}
    assert forall|q: int| 0 <= q < hb2.len() implies (#[trigger] hb2[q]).1 != id by {
        let src = if q == k { last } else { q };
        assert(hb2[q] == hb[src]);
        assert(src != k);
    }
    let pushed = p != -1 && !ub[p];
    assert forall|q: int| 0 <= q < ha.len() implies (#[trigger] ha[q]).1 < g.len() && ua[ha[q].1 as int]
        && !d1[ha[q].1 as int] && ha[q].0 == g[ha[q].1 as int].h by {
        if q < hb2.len() {
            assert(ha[q] == hb2[q]);
            let src = if q == k { last } else { q };
            assert(hb2[q] == hb[src]);
            let x = hb[src].1 as int;
            assert(ub[x]);
            if pushed {
                assert(x != p);
                assert(ua[x] == ub[x]);
            }
        } else {
            assert(pushed);
            assert(ha == hb2.push((g[p].h, p as usize)));
            assert(q == hb2.len());
            assert(ha[q] == (g[p].h, p as usize));
            assert(ha[q].1 as int == p);
            assert(!d0[p]);
            assert(p != id) by {
                assert(ub[id]);
            }
            assert(ua[p]);
        }
    }
    assert forall|q1: int, q2: int| 0 <= q1 < ha.len() && 0 <= q2 < ha.len() && q1 != q2
        implies (#[trigger] ha[q1]).1 != (#[trigger] ha[q2]).1 by {
        if q1 < hb2.len() && q2 < hb2.len() {
            let s1 = if q1 == k { last } else { q1 };
            let s2 = if q2 == k { last } else { q2 };
            assert(ha[q1] == hb2[q1] && ha[q2] == hb2[q2]);
            assert(hb2[q1] == hb[s1] && hb2[q2] == hb[s2]);
        } else if q1 < hb2.len() {
            let s1 = if q1 == k { last } else { q1 };
            assert(ha[q1] == hb2[q1]);
            assert(hb2[q1] == hb[s1]);
            assert(ub[hb[s1].1 as int]);
        } else if q2 < hb2.len() {
            let s2 = if q2 == k { last } else { q2 };
            assert(ha[q2] == hb2[q2]);
            assert(hb2[q2] == hb[s2]);
            assert(ub[hb[s2].1 as int]);
        }
    }
    assert forall|v: int| 0 <= v < g.len() && #[trigger] ua[v] && !d1[v] implies exists|q: int| 0 <= q < ha.len() && ha[q].1 == v by {
        if p != -1 && !ub[p] && v == p {
            assert(ha[ha.len() - 1].1 == v);
        } else {
            assert(ub[v] && !d0[v] && v != id);
            let q = choose|q: int| 0 <= q < hb.len() && hb[q].1 == v;
            assert(q != k);
            if q == last {
                assert(hb2[k] == hb[last]);
                assert(ha[k] == hb2[k]);
            } else {
                assert(hb2[q] == hb[q]);
                assert(ha[q] == hb2[q]);
            }
        }
    }
    assert forall|v: int| 0 <= v < g.len() && #[trigger] d1[v] implies ua[v] by {
        if v == id {
            assert(ub[id]);
        }
    }
    if ok {
        assert forall|v: int| 0 <= v < g.len() && !(#[trigger] ua[v]) implies g[v].children@.len() > 0
            && forall|j: int| 0 <= j < g[v].children@.len() ==> !d1[#[trigger] g[v].children@[j] as int] by {
            assert(!ub[v]);
            assert forall|j: int| 0 <= j < g[v].children@.len() implies !d1[#[trigger] g[v].children@[j] as int] by {
                let c = g[v].children@[j] as int;
                let e = g[v].children@[j];
                if c == id {
                    lemma_only_parent(g, id, v);
                }
            }
        }
    }
}

impl State {
    /// Gathers values from the leaves up: each leaf starts with its own
    /// depth as `hmax` and its beauty as `sum_A`; the nodes are taken from
    /// a queue, largest `(depth, vertex)` first, and each passes its `hmax`
    /// (keeping the larger) and its `sum_A` (added, wrapping) on to its
    /// parent, which joins the queue the first time. On a forest, each
    /// node ends with the sum over its subtree of the start values
    /// (`base_sum`, modulo `2^64`) and their greatest depth (`base_max`).
    pub fn gather(&mut self, input: &Input)
        requires
            input.wf(),
            old(self).nodes@.len() == input.N,
            forall|v: int| 0 <= v < input.N ==> -1 <= (#[trigger] old(self).nodes@[v]).parent < input.N,
        ensures
            final(self).score == old(self).score,
            final(self).nodes@.len() == input.N,
            forall|v: int| 0 <= v < input.N ==> {
                &&& (#[trigger] final(self).nodes@[v]).num == old(self).nodes@[v].num
                &&& final(self).nodes@[v].h == old(self).nodes@[v].h
                &&& final(self).nodes@[v].parent == old(self).nodes@[v].parent
                &&& final(self).nodes@[v].children@ == old(self).nodes@[v].children@
            },
            forest_ok(old(self).nodes@) ==> forall|v: int| 0 <= v < input.N ==> {
                &&& congruent((#[trigger] final(self).nodes@[v]).sum_A as int,
                    sub_sum(old(self).nodes@, base_sum(old(self).nodes@, input.A@), v))
                &&& final(self).nodes@[v].hmax == sub_max(old(self).nodes@, base_max(old(self).nodes@), v)
            },
    {
        let n = input.N;
        let ghost g = self.nodes@;
        let ghost ok = forest_ok(g);
        let ghost bs = base_sum(g, input.A@);
        let ghost bm = base_max(g);
        let mut heap: Vec<(i64, usize)> = Vec::new();
        let mut used: Vec<bool> = Vec::new();
        let mut id: usize = 0;
        while id < n
            invariant
                n == input.N,
                input.wf(),
                g == old(self).nodes@,
                g.len() == n,
                bs == base_sum(g, input.A@),
                bm == base_max(g),
                self.nodes@.len() == n,
                self.score == old(self).score,
                0 <= id <= n,
                used@.len() == id,
                forall|v: int| 0 <= v < n ==> {
                    &&& (#[trigger] self.nodes@[v]).num == old(self).nodes@[v].num
                    &&& self.nodes@[v].h == old(self).nodes@[v].h
                    &&& self.nodes@[v].parent == old(self).nodes@[v].parent
                    &&& self.nodes@[v].children@ == old(self).nodes@[v].children@
                },
                forall|v: int| 0 <= v < id ==> #[trigger] used@[v] == (g[v].children@.len() == 0),
                forall|v: int| 0 <= v < n ==> (#[trigger] self.nodes@[v]).sum_A as int == if v < id { bs[v] } else { g[v].sum_A as int },
                forall|v: int| 0 <= v < n ==> (#[trigger] self.nodes@[v]).hmax as int == if v < id { bm[v] } else { g[v].hmax as int },
                forall|q: int| 0 <= q < heap@.len() ==> (#[trigger] heap@[q]).1 < id && used@[heap@[q].1 as int]
                    && heap@[q].0 == g[heap@[q].1 as int].h,
                forall|q1: int, q2: int| 0 <= q1 < heap@.len() && 0 <= q2 < heap@.len() && q1 != q2
                    ==> (#[trigger] heap@[q1]).1 != (#[trigger] heap@[q2]).1,
                forall|v: int| 0 <= v < id && #[trigger] used@[v] ==> exists|q: int| 0 <= q < heap@.len() && heap@[q].1 == v,
            decreases n - id,
        {
            let leaf = self.nodes[id].is_leaf();
            let ghost before = self.nodes@;
            let ghost hb = heap@;
            if leaf {
                let mut me = self.nodes[id].clone_node();
                me.hmax = me.h;
                me.sum_A = input.A[id];
                heap.push((me.h, id));
                self.nodes.set(id, me);
            }
            used.push(leaf);
            id += 1;
            proof {
                assert forall|v: int| 0 <= v < n implies {
                    &&& (#[trigger] self.nodes@[v]).num == old(self).nodes@[v].num
                    &&& self.nodes@[v].h == old(self).nodes@[v].h
                    &&& self.nodes@[v].parent == old(self).nodes@[v].parent
                    &&& self.nodes@[v].children@ == old(self).nodes@[v].children@
                } by {
                    if v != id - 1 {
                        assert(self.nodes@[v] == before[v]);
                    }
                }
                assert forall|v: int| 0 <= v < n implies (#[trigger] self.nodes@[v]).sum_A as int == if v < id { bs[v] } else { g[v].sum_A as int } by {
                    if v != id - 1 {
                        assert(self.nodes@[v] == before[v]);
                    }
                }
                assert forall|v: int| 0 <= v < n implies (#[trigger] self.nodes@[v]).hmax as int == if v < id { bm[v] } else { g[v].hmax as int } by {
                    if v != id - 1 {
                        assert(self.nodes@[v] == before[v]);
                    }
                }
                assert forall|v: int| 0 <= v < id && #[trigger] used@[v] implies exists|q: int| 0 <= q < heap@.len() && heap@[q].1 == v by {
                    if v == id - 1 {
                        assert(heap@[heap@.len() - 1].1 == v);
                    } else {
                        assert(used@[v] == used@.drop_last()[v]);
                        let q = choose|q: int| 0 <= q < hb.len() && hb[q].1 == v;
                        assert(heap@[q] == hb[q]);
                    }
                }
                assert forall|v: int| 0 <= v < id implies #[trigger] used@[v] == (g[v].children@.len() == 0) by {
                    if v < id - 1 {
                        assert(used@[v] == used@.drop_last()[v]);
                    }
                }
                assert forall|q: int| 0 <= q < heap@.len() implies (#[trigger] heap@[q]).1 < id && used@[heap@[q].1 as int]
                    && heap@[q].0 == g[heap@[q].1 as int].h by {
                    if q < hb.len() {
                        assert(heap@[q] == hb[q]);
                        assert(used@[heap@[q].1 as int] == used@.drop_last()[heap@[q].1 as int]);
                    }
                }
                assert forall|q1: int, q2: int| 0 <= q1 < heap@.len() && 0 <= q2 < heap@.len() && q1 != q2
                    implies (#[trigger] heap@[q1]).1 != (#[trigger] heap@[q2]).1 by {
                    if q1 < hb.len() && q2 < hb.len() {
                        assert(heap@[q1] == hb[q1] && heap@[q2] == hb[q2]);
                    } else if q1 < hb.len() {
                        assert(heap@[q1] == hb[q1]);
                    } else if q2 < hb.len() {
                        assert(heap@[q2] == hb[q2]);
                    }
                }
            }
        }
        proof {
            lemma_unmarked_nonneg(used@, n as int);
        }
        let ghost mut done: Seq<bool> = Seq::new(n as nat, |v: int| false);
        proof {
            if ok {
                assert forall|x: int| 0 <= x < n implies {
                    &&& congruent((#[trigger] self.nodes@[x]).sum_A as int, bs[x] + done_sum(g, bs, x, g[x].children@.len() as int, done))
                    &&& self.nodes@[x].hmax as int == done_max(g, bm, x, g[x].children@.len() as int, done)
                } by {
                    lemma_done_none(g, bs, x, g[x].children@.len() as int, done);
                    lemma_done_none(g, bm, x, g[x].children@.len() as int, done);
                    lemma_congruent_refl(bs[x]);
                }
            }
        }
        while heap.len() > 0
            invariant
                n == input.N,
                input.wf(),
                g == old(self).nodes@,
                g.len() == n,
                ok == forest_ok(g),
                bs == base_sum(g, input.A@),
                bm == base_max(g),
                self.nodes@.len() == n,
                used@.len() == n,
                done.len() == n,
                self.score == old(self).score,
                forall|v: int| 0 <= v < n ==> {
                    &&& (#[trigger] self.nodes@[v]).num == old(self).nodes@[v].num
                    &&& self.nodes@[v].h == old(self).nodes@[v].h
                    &&& self.nodes@[v].parent == old(self).nodes@[v].parent
                    &&& self.nodes@[v].children@ == old(self).nodes@[v].children@
                },
                forall|v: int| 0 <= v < input.N ==> -1 <= (#[trigger] old(self).nodes@[v]).parent < input.N,
                forall|q: int| 0 <= q < heap@.len() ==> (#[trigger] heap@[q]).1 < n && used@[heap@[q].1 as int]
                    && !done[heap@[q].1 as int] && heap@[q].0 == g[heap@[q].1 as int].h,
                forall|q1: int, q2: int| 0 <= q1 < heap@.len() && 0 <= q2 < heap@.len() && q1 != q2
                    ==> (#[trigger] heap@[q1]).1 != (#[trigger] heap@[q2]).1,
                forall|v: int| 0 <= v < n && #[trigger] used@[v] && !done[v] ==> exists|q: int| 0 <= q < heap@.len() && heap@[q].1 == v,
                forall|v: int| 0 <= v < n && #[trigger] done[v] ==> used@[v],
                ok ==> forall|v: int| 0 <= v < n && !(#[trigger] used@[v]) ==> g[v].children@.len() > 0
                    && forall|j: int| 0 <= j < g[v].children@.len() ==> !done[#[trigger] g[v].children@[j] as int],
                ok ==> gathered(g, bs, bm, self.nodes@, done, n as int),
                unmarked(used@, n as int) >= 0,
            decreases 2 * unmarked(used@, n as int) + heap@.len(),
        {
            let k = max_index(&heap);
            let ghost hb = heap@;
            let ghost id0 = heap@[k as int].1 as int;
            proof {
                if ok {
                    assert forall|j: int| 0 <= j < g[id0].children@.len() implies done[#[trigger] g[id0].children@[j] as int] by {
                        let c = g[id0].children@[j] as int;
                        if !done[c] {
                            lemma_pending(g, hb, used@, done, c);
                            let q = choose|q: int| 0 <= q < hb.len() && hb[q].0 >= g[c].h;
                            assert(crate::sorting::pair_le(hb[q], hb[k as int]));
                        }
                    }
                }
            }
            let (_, id) = heap.swap_remove(k);
            proof {
                assert(id < n);
                assert(id as int == id0);
            }
            let ghost d0 = done;
            let ghost nb = self.nodes@;
            let parent = self.nodes[id].parent;
            if parent != -1 {
                let p = parent as usize;
                let hm = self.nodes[id].hmax;
                let sa = self.nodes[id].sum_A;
                let ghost before = self.nodes@;
                let mut pn = self.nodes[p].clone_node();
                let ghost old_hmax = pn.hmax;
                let ghost old_sum = pn.sum_A;
                if hm > pn.hmax {
                    pn.hmax = hm;
                }
                pn.sum_A = pn.sum_A.wrapping_add(sa);
                let ph = pn.h;
                self.nodes.set(p, pn);
                proof {
                    assert forall|v: int| 0 <= v < n implies {
                        &&& (#[trigger] self.nodes@[v]).num == old(self).nodes@[v].num
                        &&& self.nodes@[v].h == old(self).nodes@[v].h
                        &&& self.nodes@[v].parent == old(self).nodes@[v].parent
                        &&& self.nodes@[v].children@ == old(self).nodes@[v].children@
                    } by {
                        if v != p as int {
                            assert(self.nodes@[v] == before[v]);
                        }
                    }
                    if ok {
                        assert forall|x: int| 0 <= x < n && x != p as int implies (#[trigger] self.nodes@[x]).sum_A == nb[x].sum_A
                            && self.nodes@[x].hmax == nb[x].hmax by {
                            assert(self.nodes@[x] == before[x]);
                        }
                        lemma_gather_pass(g, bs, bm, d0, nb, self.nodes@, id as int, p as int, n as int);
                    }
                    done = d0.update(id as int, true);
                }
                let ghost hb2 = heap@;
                let ghost ub = used@;
                if !used[p] {
                    proof {
                        lemma_unmarked_mark(used@, p as int, n as int);
                    }
                    used.set(p, true);
                    heap.push((ph, p));
                }
                proof {
                    lemma_gather_heap(g, hb, hb2, heap@, ub, used@, d0, done, k as int, id as int, p as int, ok);
                }
            } else {
                proof {
                    if ok {
                        lemma_gather_pass(g, bs, bm, d0, nb, self.nodes@, id as int, -1, n as int);
                    }
                    done = d0.update(id as int, true);
                    lemma_gather_heap(g, hb, heap@, heap@, used@, used@, d0, done, k as int, id as int, -1, ok);
                }
            }
        }
        proof {
            if ok {
                assert forall|v: int| 0 <= v < input.N implies {
                    &&& congruent((#[trigger] self.nodes@[v]).sum_A as int, sub_sum(g, bs, v))
                    &&& self.nodes@[v].hmax == sub_max(g, bm, v)
                } by {
                    assert forall|y: int| 0 <= y < n implies #[trigger] done[y] by {
                        if !done[y] {
                            lemma_pending(g, heap@, used@, done, y);
                        }
                    }
                    let len = g[v].children@.len() as int;
                    assert forall|j: int| 0 <= j < len implies done[#[trigger] g[v].children@[j] as int] by {
                        let c = g[v].children@[j];
                        assert(done[c as int]);
                    }
                    lemma_done_all(g, bs, v, len, done);
                    lemma_done_all(g, bm, v, len, done);
                }
            }
        }
    }

    /// The forest `ans` of score `score` taken into the nodes: parents,
    /// children and depths (`set_forest`), then the values gathered from the
    /// leaves up (`gather`).
    #[verifier::spinoff_prover]
    pub fn adopt(&mut self, score: i64, ans: &Vec<i32>, input: &Input)
        requires
            input.wf(),
            old(self).nodes@.len() == input.N,
            ans@.len() == input.N,
            exists|d: Seq<int>| valid_forest(graph(input.G@), input.H as int, ans@, d) && score == beauty(input.A@, d),
            forall|v: int| 0 <= v < input.N ==> -0x1000_0000 <= (#[trigger] old(self).nodes@[v]).sum_A <= 0x1000_0000,
            forall|v: int| 0 <= v < input.N ==> (#[trigger] old(self).nodes@[v]).children@.len() == 0,
        ensures
            final(self).nodes@.len() == input.N,
            exists|d: Seq<int>| {
                &&& valid_forest(graph(input.G@), input.H as int, Seq::new(input.N as nat, |v: int| final(self).nodes@[v].parent as i32), d)
                &&& final(self).score == beauty(input.A@, d)
                &&& forall|v: int| 0 <= v < input.N ==> (#[trigger] final(self).nodes@[v]).h == d[v]
            },
            forall|v: int| 0 <= v < input.N ==> (#[trigger] final(self).nodes@[v]).parent == ans@[v] as i64,
            forall|v: int| 0 <= v < input.N ==> (#[trigger] final(self).nodes@[v]).children@ == kids(ans@, v, input.N as int),
            forall|v: int| 0 <= v < input.N ==> (#[trigger] final(self).nodes@[v]).num == old(self).nodes@[v].num,
            (forall|v: int| 0 <= v < input.N ==> (#[trigger] old(self).nodes@[v]).num == v) ==> forest_ok(final(self).nodes@),
            fresh_nodes(old(self).nodes@, input.A@) ==> gathered_values(final(self).nodes@, input.A@),
    {
        let ghost d0 = choose|d: Seq<int>| valid_forest(graph(input.G@), input.H as int, ans@, d) && score == beauty(input.A@, d);
        self.set_forest(score, ans, input);
        let ghost d1 = choose|d: Seq<int>| valid_forest(graph(input.G@), input.H as int, ans@, d)
            && forall|v: int| 0 <= v < input.N ==> (#[trigger] self.nodes@[v]).h == d[v];
        proof {
            lemma_depth_unique(graph(input.G@), input.H as int, ans@, d0, d1);
            assert forall|v: int| 0 <= v < input.N implies -1 <= (#[trigger] self.nodes@[v]).parent < input.N by {
                lemma_forest_at(graph(input.G@), input.H as int, ans@, d0, v);
            }
        }
        let ghost mid = self.nodes@;
        proof {
            if forall|v: int| 0 <= v < input.N ==> (#[trigger] old(self).nodes@[v]).num == v {
                lemma_kids_forest(graph(input.G@), input.H as int, ans@, d0, mid);
            }
        }
        self.gather(input);
        proof {
            assert(Seq::new(input.N as nat, |v: int| self.nodes@[v].parent as i32) =~= ans@);
            if forall|v: int| 0 <= v < input.N ==> (#[trigger] old(self).nodes@[v]).num == v {
                lemma_kids_forest(graph(input.G@), input.H as int, ans@, d0, mid);
            }
            if fresh_nodes(old(self).nodes@, input.A@) {
                lemma_adopt_values(old(self).nodes@, mid, self.nodes@, input.A@);
            }
        }
    }

    /// The greedy construction (`greedy_forest`) taken into the nodes
    /// (`adopt`).
    pub fn greedy(&mut self, input: &Input)
        requires
            input.greedy_ok(),
            old(self).nodes@.len() == input.N,
            forall|v: int| 0 <= v < input.N ==> -0x1000_0000 <= (#[trigger] old(self).nodes@[v]).sum_A <= 0x1000_0000,
            forall|v: int| 0 <= v < input.N ==> (#[trigger] old(self).nodes@[v]).children@.len() == 0,
        ensures
            final(self).nodes@.len() == input.N,
            exists|d: Seq<int>| {
                &&& valid_forest(graph(input.G@), input.H as int, Seq::new(input.N as nat, |v: int| final(self).nodes@[v].parent as i32), d)
                &&& final(self).score == beauty(input.A@, d)
                &&& forall|v: int| 0 <= v < input.N ==> (#[trigger] final(self).nodes@[v]).h == d[v]
            },
            forall|v: int| 0 <= v < input.N ==> (#[trigger] final(self).nodes@[v]).num == old(self).nodes@[v].num,
            (forall|v: int| 0 <= v < input.N ==> (#[trigger] old(self).nodes@[v]).num == v) ==> forest_ok(final(self).nodes@),
            forall|v: int| 0 <= v < input.N ==> (#[trigger] final(self).nodes@[v]).children@
                == kids(Seq::new(input.N as nat, |u: int| final(self).nodes@[u].parent as i32), v, input.N as int),
            fresh_nodes(old(self).nodes@, input.A@) ==> gathered_values(final(self).nodes@, input.A@),
            Seq::new(input.N as nat, |v: int| final(self).nodes@[v].parent as i32)
                == greedy_parents(input.A@, graph(input.G@), input.H as int),
    {
        let (score, ans) = self.greedy_forest(input);
        self.adopt(score, &ans, input);
        proof {
            assert(Seq::new(input.N as nat, |u: int| self.nodes@[u].parent as i32) =~= ans@);
        }
    }

    /// The greedy by best average (`greedy_dfs_forest`) taken into the nodes
    /// (`adopt`).
    pub fn greedy_dfs(&mut self, input: &Input)
        requires
            input.wf(),
            forall|v: int| 0 <= v < input.N ==> 1 <= #[trigger] input.A@[v],
            old(self).nodes@.len() == input.N,
            forall|v: int| 0 <= v < input.N ==> -0x1000_0000 <= (#[trigger] old(self).nodes@[v]).sum_A <= 0x1000_0000,
            forall|v: int| 0 <= v < input.N ==> (#[trigger] old(self).nodes@[v]).children@.len() == 0,
        ensures
            final(self).nodes@.len() == input.N,
            exists|d: Seq<int>| {
                &&& valid_forest(graph(input.G@), input.H as int, Seq::new(input.N as nat, |v: int| final(self).nodes@[v].parent as i32), d)
                &&& final(self).score == beauty(input.A@, d)
                &&& forall|v: int| 0 <= v < input.N ==> (#[trigger] final(self).nodes@[v]).h == d[v]
            },
            forall|v: int| 0 <= v < input.N ==> (#[trigger] final(self).nodes@[v]).num == old(self).nodes@[v].num,
            (forall|v: int| 0 <= v < input.N ==> (#[trigger] old(self).nodes@[v]).num == v) ==> forest_ok(final(self).nodes@),
            forall|v: int| 0 <= v < input.N ==> (#[trigger] final(self).nodes@[v]).children@
                == kids(Seq::new(input.N as nat, |u: int| final(self).nodes@[u].parent as i32), v, input.N as int),
            fresh_nodes(old(self).nodes@, input.A@) ==> gathered_values(final(self).nodes@, input.A@),
            Seq::new(input.N as nat, |v: int| final(self).nodes@[v].parent as i32)
                == average_parents(input.A@, graph(input.G@), input.H as int),
    {
        let (score, ans) = self.greedy_dfs_forest(input);
        self.adopt(score, &ans, input);
        proof {
            assert(Seq::new(input.N as nat, |u: int| self.nodes@[u].parent as i32) =~= ans@);
        }
    }
}

/// A forest has one depth function.
proof fn lemma_depth_unique(g: Seq<Seq<usize>>, hmax: int, ans: Seq<i32>, d0: Seq<int>, d1: Seq<int>)
    requires
        valid_forest(g, hmax, ans, d0),
        valid_forest(g, hmax, ans, d1),
    ensures
        d0 == d1,
{
    assert forall|v: int| 0 <= v < ans.len() implies d0[v] == d1[v] by {
        lemma_depth_eq(g, hmax, ans, d0, d1, v, d0[v]);
    }
    assert(d0 =~= d1);
}

proof fn lemma_depth_eq(g: Seq<Seq<usize>>, hmax: int, ans: Seq<i32>, d0: Seq<int>, d1: Seq<int>, v: int, k: int)
    requires
        valid_forest(g, hmax, ans, d0),
        valid_forest(g, hmax, ans, d1),
        0 <= v < ans.len(),
        d0[v] == k,
    ensures
        d0[v] == d1[v],
    decreases k,
{
    lemma_forest_at(g, hmax, ans, d0, v);
    lemma_forest_at(g, hmax, ans, d1, v);
    if ans[v] != -1 {
        lemma_depth_eq(g, hmax, ans, d0, d1, ans[v] as int, k - 1);
    }
}

/// The depth of `v` in the forest `ans`: the number of steps up to its root.
fn depth_of(ans: &Vec<i32>, v: usize, d: Ghost<Seq<int>>, input: &Input) -> (h: i64)
    requires
        input.wf(),
        ans@.len() == input.N,
        v < input.N,
        valid_forest(graph(input.G@), input.H as int, ans@, d@),
    ensures
        h == d@[v as int],
{
    let n = ans.len();
    let mut x: usize = v;
    let mut steps: i64 = 0;
    proof {
        lemma_forest_at(graph(input.G@), input.H as int, ans@, d@, v as int);
    }
    while ans[x] != -1
        invariant
            n == ans@.len(),
            d@[v as int] <= input.H,
            v < n,
            n == input.N,
            input.wf(),
            valid_forest(graph(input.G@), input.H as int, ans@, d@),
            x < n,
            0 <= steps,
            d@[x as int] + steps == d@[v as int],
        decreases d@[x as int],
    {
        let p = ans[x];
        proof {
            lemma_forest_at(graph(input.G@), input.H as int, ans@, d@, x as int);
            lemma_forest_at(graph(input.G@), input.H as int, ans@, d@, v as int);
            lemma_forest_at(graph(input.G@), input.H as int, ans@, d@, p as int);
        }
        x = p as usize;
        steps += 1;
    }
    proof {
        lemma_forest_at(graph(input.G@), input.H as int, ans@, d@, x as int);
    }
    steps
}

impl Node {
    /// A copy of the node.
    pub fn clone_node(&self) -> (c: Node)
        ensures
            c.num == self.num,
            c.h == self.h,
            c.parent == self.parent,
            c.children@ == self.children@,
            c.sum_A == self.sum_A,
            c.hmax == self.hmax,
    {
        let mut children: Vec<usize> = Vec::new();
        let mut k: usize = 0;
        while k < self.children.len()
            invariant
                0 <= k <= self.children@.len(),
                children@ == self.children@.subrange(0, k as int),
            decreases self.children@.len() - k,
        {
            children.push(self.children[k]);
            k += 1;
            proof {
                assert(children@ =~= self.children@.subrange(0, k as int));
            }
        }
        proof {
            assert(children@ =~= self.children@);
        }
        Node { num: self.num, h: self.h, parent: self.parent, children, sum_A: self.sum_A, hmax: self.hmax }
    }
}

} // verus!
