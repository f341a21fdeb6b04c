//! The moves of the annealing of a forest: whether hanging a node below
//! another would close a loop.
use vstd::prelude::*;
use std::collections::VecDeque;
use crate::ahc041::state::{State, Node, N_MAX, valid_forest};
use crate::ahc041::tree::kids;

verus! {

/// The nodes as they link: every node stands at its own number, each child
/// of a node points back to it and lies one level deeper, no child is
/// listed twice, and the depths stay within `0..=N_MAX`.
pub open spec fn links_ok(nodes: Seq<Node>) -> bool {
    &&& links_core(nodes)
    &&& forall|v: int| 0 <= v < nodes.len() ==> (#[trigger] nodes[v]).h <= N_MAX
}

/// `links_ok` but for the bound on the depths.
pub open spec fn links_core(nodes: Seq<Node>) -> bool {
    let n = nodes.len();
    &&& n <= N_MAX
    &&& forall|v: int| 0 <= v < n ==> (#[trigger] nodes[v]).num == v && 0 <= nodes[v].h
        && nodes[v].children@.no_duplicates()
    &&& forall|v: int, k: int| 0 <= v < n && 0 <= k < nodes[v].children@.len() ==> {
        let c = #[trigger] nodes[v].children@[k];
        &&& c < n
        &&& nodes[c as int].parent == v
        &&& nodes[c as int].h == nodes[v].h + 1
    }
}

/// `y` is reached from `x` by following children at most `f` times.
pub open spec fn reach(nodes: Seq<Node>, x: int, y: int, f: nat) -> bool
    decreases f,
{
    x == y || (f > 0 && exists|k: int| 0 <= k < nodes[x].children@.len()
        && reach(nodes, #[trigger] nodes[x].children@[k] as int, y, (f - 1) as nat))
}

/// `y` lies in the subtree of `x` (`x` itself included).
pub open spec fn in_subtree(nodes: Seq<Node>, x: int, y: int) -> bool {
    exists|f: nat| reach(nodes, x, y, f)
}

/// A path that reaches `p` goes on to each child of `p`.
proof fn lemma_reach_step(nodes: Seq<Node>, x: int, p: int, f: nat, k: int)
    requires
        reach(nodes, x, p, f),
        0 <= k < nodes[p].children@.len(),
    ensures
        reach(nodes, x, nodes[p].children@[k] as int, f + 1),
    decreases f,
{
    let c = nodes[p].children@[k] as int;
    if x == p {
        assert(reach(nodes, c, c, f));
        assert(reach(nodes, x, c, f + 1));
    } else {
        let j = choose|j: int| 0 <= j < nodes[x].children@.len()
            && reach(nodes, #[trigger] nodes[x].children@[j] as int, p, (f - 1) as nat);
        lemma_reach_step(nodes, nodes[x].children@[j] as int, p, (f - 1) as nat, k);
        assert(reach(nodes, nodes[x].children@[j] as int, c, f));
    }
}

/// A set of nodes that holds `x` and every child of its members holds
/// everything reached from `x`.
proof fn lemma_reach_closed(nodes: Seq<Node>, s: Seq<usize>, x: int, y: int, f: nat)
    requires
        s.contains(x as usize),
        0 <= x <= usize::MAX,
        forall|i: int, k: int| 0 <= i < s.len() && 0 <= k < nodes[s[i] as int].children@.len()
            ==> s.contains(#[trigger] nodes[s[i] as int].children@[k]),
        reach(nodes, x, y, f),
    ensures
        exists|i: int| 0 <= i < s.len() && s[i] as int == y,
    decreases f,
{
    if x == y {
        let i = choose|i: int| 0 <= i < s.len() && s[i] == x as usize;
    } else {
        let k = choose|k: int| 0 <= k < nodes[x].children@.len()
            && reach(nodes, #[trigger] nodes[x].children@[k] as int, y, (f - 1) as nat);
        let i = choose|i: int| 0 <= i < s.len() && s[i] == x as usize;
        assert(s[i] as int == x);
        let c = nodes[s[i] as int].children@[k];
        assert(s.contains(c));
        lemma_reach_closed(nodes, s, c as int, y, (f - 1) as nat);
    }
}

/// Distinct values below `n` are at most `n`.
proof fn lemma_distinct_below(s: Seq<usize>, n: int)
    requires
        0 <= n,
        s.no_duplicates(),
        forall|i: int| 0 <= i < s.len() ==> (#[trigger] s[i]) < n,
    ensures
        s.len() <= n,
    decreases n,
{
    if n <= 0 {
        if s.len() > 0 {
            let e = s[0];
            assert(e >= 0);
            assert(false);
        }
    } else if exists|i: int| 0 <= i < s.len() && s[i] == (n - 1) as usize {
        let i = choose|i: int| 0 <= i < s.len() && s[i] == (n - 1) as usize;
        let t = s.remove(i);
        assert forall|a: int, b: int| 0 <= a < t.len() && 0 <= b < t.len() && a != b implies t[a] != t[b] by {
            let a2 = if a < i { a } else { a + 1 };
            let b2 = if b < i { b } else { b + 1 };
            assert(t[a] == s[a2] && t[b] == s[b2]);
        }
        assert forall|a: int| 0 <= a < t.len() implies (#[trigger] t[a]) < n - 1 by {
            let a2 = if a < i { a } else { a + 1 };
            assert(t[a] == s[a2]);
        }
        lemma_distinct_below(t, n - 1);
        assert(t.len() == s.len() - 1);
        assert(s.len() <= n);
    } else {
        assert forall|a: int| 0 <= a < s.len() implies (#[trigger] s[a]) < n - 1 by {
            assert(s[a] != (n - 1) as usize);
        }
        lemma_distinct_below(s, n - 1);
        assert(s.len() <= n);
    }
}

/// A forest: the nodes link (`links_ok`), each node with a parent is a
/// child of it, and each root lies at depth 0.
pub open spec fn forest_ok(nodes: Seq<Node>) -> bool {
    &&& links_ok(nodes)
    &&& forest_core(nodes)
}

/// `forest_ok` but for the bound on the depths (which follows).
pub open spec fn forest_core(nodes: Seq<Node>) -> bool {
    &&& links_core(nodes)
    &&& forall|x: int| 0 <= x < nodes.len() ==> {
        let p = (#[trigger] nodes[x]).parent;
        &&& (p == -1 ==> nodes[x].h == 0)
        &&& (p != -1 ==> 0 <= p < nodes.len() && nodes[p as int].children@.contains(x as usize))
    }
}

/// A node with a parent lies one level below it.
proof fn lemma_parent_level(nodes: Seq<Node>, x: int)
    requires
        forest_core(nodes),
        0 <= x < nodes.len(),
        nodes[x].parent != -1,
    ensures
        nodes[nodes[x].parent as int].h == nodes[x].h - 1,
{
    let p = nodes[x].parent as int;
    let k = choose|k: int| 0 <= k < nodes[p].children@.len() && nodes[p].children@[k] == x as usize;
    let c = nodes[p].children@[k];
}

/// The chain of ancestors of `x` (from its root down to `x`).
pub open spec fn ancestors(nodes: Seq<Node>, x: int) -> Seq<usize>
    decreases (if 0 <= x < nodes.len() && nodes[x].h >= 0 { nodes[x].h as int } else { 0 }),
{
    if 0 <= x < nodes.len() && nodes[x].parent != -1 && 0 <= nodes[x].parent < nodes.len()
        && 0 <= nodes[nodes[x].parent as int].h < nodes[x].h {
        ancestors(nodes, nodes[x].parent as int).push(x as usize)
    } else {
        seq![x as usize]
    }
}

/// In a forest the ancestors of `x` lie at the depths `0..=h[x]`, one each,
/// so `x` lies above depth `n`.
proof fn lemma_depth_below(nodes: Seq<Node>, x: int)
    requires
        forest_core(nodes),
        0 <= x < nodes.len(),
    ensures
        ancestors(nodes, x).len() == nodes[x].h + 1,
        forall|i: int| 0 <= i < ancestors(nodes, x).len() ==> (#[trigger] ancestors(nodes, x)[i]) < nodes.len()
            && nodes[ancestors(nodes, x)[i] as int].h == i,
        nodes[x].h < nodes.len(),
    decreases nodes[x].h,
{
    let a = ancestors(nodes, x);
    if nodes[x].parent != -1 {
        let p = nodes[x].parent as int;
        lemma_parent_level(nodes, x);
        lemma_depth_below(nodes, p);
        let ap = ancestors(nodes, p);
        assert(a == ap.push(x as usize));
        assert forall|i: int| 0 <= i < a.len() implies (#[trigger] a[i]) < nodes.len() && nodes[a[i] as int].h == i by {
            if i < ap.len() {
                assert(a[i] == ap[i]);
            }
        }
    } else {
        assert(a == seq![x as usize]);
    }
    assert(a.no_duplicates()) by {
        assert forall|i: int, j: int| 0 <= i < a.len() && 0 <= j < a.len() && i != j implies a[i] != a[j] by {
            let ai = a[i];
            let aj = a[j];
        }
    }
    lemma_distinct_below(a, nodes.len() as int);
}

/// The last step of a path: what `x` reaches in `f` steps, other than
/// itself, is a child of something it reaches in `f - 1`.
proof fn lemma_reach_last(nodes: Seq<Node>, x: int, y: int, f: nat)
    requires
        reach(nodes, x, y, f),
        x != y,
    ensures
        f > 0,
        exists|p: int, k: int| 0 <= k < nodes[p].children@.len() && nodes[p].children@[k] as int == y
            && reach(nodes, x, p, (f - 1) as nat),
    decreases f,
{
    let k = choose|k: int| 0 <= k < nodes[x].children@.len()
        && reach(nodes, #[trigger] nodes[x].children@[k] as int, y, (f - 1) as nat);
    let c = nodes[x].children@[k] as int;
    if c == y {
        assert(reach(nodes, x, x, (f - 1) as nat));
    } else {
        lemma_reach_last(nodes, c, y, (f - 1) as nat);
        let (p, k2) = choose|p: int, k2: int| 0 <= k2 < nodes[p].children@.len() && nodes[p].children@[k2] as int == y
            && reach(nodes, c, p, (f - 2) as nat);
        assert(reach(nodes, x, p, (f - 1) as nat));
    }
}

/// In a forest, `x` is an ancestor-or-self of `c` exactly when it is `c`
/// or an ancestor-or-self of `c`'s parent.
proof fn lemma_anc_step(nodes: Seq<Node>, x: int, c: int)
    requires
        forest_core(nodes),
        0 <= x < nodes.len(),
        0 <= c < nodes.len(),
    ensures
        in_subtree(nodes, x, c) <==> (x == c || (nodes[c].parent != -1 && in_subtree(nodes, x, nodes[c].parent as int))),
{
    if in_subtree(nodes, x, c) && x != c {
        let f = choose|f: nat| reach(nodes, x, c, f);
        lemma_reach_last(nodes, x, c, f);
        let (p, k) = choose|p: int, k: int| 0 <= k < nodes[p].children@.len() && nodes[p].children@[k] as int == c
            && reach(nodes, x, p, (f - 1) as nat);
        lemma_reach_depth(nodes, x, p, (f - 1) as nat);
        let cc = nodes[p].children@[k];
        assert(nodes[c].parent == p);
    }
    if x == c {
        assert(reach(nodes, x, c, 0));
    }
    if x != c && nodes[c].parent != -1 && in_subtree(nodes, x, nodes[c].parent as int) {
        let p = nodes[c].parent as int;
        let f = choose|f: nat| reach(nodes, x, p, f);
        let k = choose|k: int| 0 <= k < nodes[p].children@.len() && nodes[p].children@[k] == c as usize;
        lemma_reach_step(nodes, x, p, f, k);
    }
}

/// Going down the children never goes up.
proof fn lemma_reach_depth(nodes: Seq<Node>, x: int, y: int, f: nat)
    requires
        links_core(nodes),
        0 <= x < nodes.len(),
        reach(nodes, x, y, f),
    ensures
        0 <= y < nodes.len(),
        nodes[y].h >= nodes[x].h,
        x != y ==> nodes[y].h > nodes[x].h,
    decreases f,
{
    if x != y {
        let k = choose|k: int| 0 <= k < nodes[x].children@.len()
            && reach(nodes, #[trigger] nodes[x].children@[k] as int, y, (f - 1) as nat);
        let c = nodes[x].children@[k] as int;
        lemma_reach_depth(nodes, c, y, (f - 1) as nat);
    }
}

/// Paths join: what `y` reaches, `x` reaches through `y`.
proof fn lemma_reach_trans(nodes: Seq<Node>, x: int, y: int, z: int, f1: nat, f2: nat)
    requires
        reach(nodes, x, y, f1),
        reach(nodes, y, z, f2),
    ensures
        reach(nodes, x, z, f1 + f2),
    decreases f1,
{
    if x == y {
        lemma_reach_more(nodes, y, z, f2, f1 + f2);
    } else {
        let k = choose|k: int| 0 <= k < nodes[x].children@.len()
            && reach(nodes, #[trigger] nodes[x].children@[k] as int, y, (f1 - 1) as nat);
        let c = nodes[x].children@[k] as int;
        lemma_reach_trans(nodes, c, y, z, (f1 - 1) as nat, f2);
        assert(reach(nodes, c, z, (f1 + f2 - 1) as nat));
    }
}

/// More steps reach no less.
proof fn lemma_reach_more(nodes: Seq<Node>, x: int, y: int, f: nat, f2: nat)
    requires
        reach(nodes, x, y, f),
        f <= f2,
    ensures
        reach(nodes, x, y, f2),
    decreases f,
{
    if x != y {
        let k = choose|k: int| 0 <= k < nodes[x].children@.len()
            && reach(nodes, #[trigger] nodes[x].children@[k] as int, y, (f - 1) as nat);
        lemma_reach_more(nodes, nodes[x].children@[k] as int, y, (f - 1) as nat, (f2 - 1) as nat);
    }
}

/// Two states with the same children below `r` reach the same from `r`.
proof fn lemma_reach_same(a: Seq<Node>, b: Seq<Node>, r: int, x: int, f: nat)
    requires
        forall|y: int| #[trigger] in_subtree(a, r, y) ==> b[y].children@ == a[y].children@,
    ensures
        reach(b, r, x, f) == reach(a, r, x, f),
    decreases f,
{
    assert(reach(a, r, r, 0));
    assert(in_subtree(a, r, r));
    if r != x && f > 0 {
        assert forall|k: int| 0 <= k < a[r].children@.len() implies
            reach(b, #[trigger] a[r].children@[k] as int, x, (f - 1) as nat) == reach(a, a[r].children@[k] as int, x, (f - 1) as nat) by {
            let c = a[r].children@[k] as int;
            assert forall|y: int| #[trigger] in_subtree(a, c, y) implies b[y].children@ == a[y].children@ by {
                let f2 = choose|f2: nat| reach(a, c, y, f2);
                assert(reach(a, r, y, f2 + 1));
                assert(in_subtree(a, r, y));
            }
            lemma_reach_same(a, b, c, x, (f - 1) as nat);
        }
        assert(b[r].children@ == a[r].children@);
    }
}

/// `s` without the entries equal to `c`, in order.
pub open spec fn without(s: Seq<usize>, c: usize) -> Seq<usize>
    decreases s.len(),
{
    if s.len() == 0 {
        s
    } else if s.last() == c {
        without(s.drop_last(), c)
    } else {
        without(s.drop_last(), c).push(s.last())
    }
}

/// `without` keeps exactly the other entries, and keeps them distinct.
proof fn lemma_without(s: Seq<usize>, c: usize)
    requires
        s.no_duplicates(),
    ensures
        without(s, c).no_duplicates(),
        forall|x: usize| #[trigger] without(s, c).contains(x) <==> (s.contains(x) && x != c),
    decreases s.len(),
{
    if s.len() > 0 {
        let d = s.drop_last();
        assert(d.no_duplicates()) by {
            assert forall|i: int, j: int| 0 <= i < d.len() && 0 <= j < d.len() && i != j implies d[i] != d[j] by {
                assert(d[i] == s[i] && d[j] == s[j]);
            }
        }
        lemma_without(d, c);
        let w = without(d, c);
        assert forall|x: usize| s.contains(x) <==> (d.contains(x) || x == s.last()) by {
            if s.contains(x) {
                let i = choose|i: int| 0 <= i < s.len() && s[i] == x;
                if i < d.len() {
                    assert(d[i] == x);
                }
            }
            if d.contains(x) {
                let i = choose|i: int| 0 <= i < d.len() && d[i] == x;
                assert(s[i] == x);
            }
            if x == s.last() {
                assert(s[s.len() - 1] == x);
            }
        }
        if s.last() != c {
            let w2 = w.push(s.last());
            assert(!d.contains(s.last())) by {
                if d.contains(s.last()) {
                    let i = choose|i: int| 0 <= i < d.len() && d[i] == s.last();
                    assert(s[i] == s[s.len() - 1]);
                }
            }
            assert forall|i: int, j: int| 0 <= i < w2.len() && 0 <= j < w2.len() && i != j implies w2[i] != w2[j] by {
                if i == w.len() {
                    assert(w.contains(w2[j]));
                } else if j == w.len() {
                    assert(w.contains(w2[i]));
                }
            }
            assert forall|x: usize| #[trigger] w2.contains(x) <==> (s.contains(x) && x != c) by {
                if w2.contains(x) {
                    let i = choose|i: int| 0 <= i < w2.len() && w2[i] == x;
                    if i < w.len() {
                        assert(w.contains(x));
                    }
                }
                if s.contains(x) && x != c && x != s.last() {
                    assert(w.contains(x));
                    let i = choose|i: int| 0 <= i < w.len() && w[i] == x;
                    assert(w2[i] == x);
                }
                if x == s.last() {
                    assert(w2[w.len() as int] == x);
                }
            }
        }
    }
}

/// The children that `kids` lists: the vertices below `k` whose parent is
/// `v`, each once.
proof fn lemma_kids(ans: Seq<i32>, v: int, k: int)
    requires
        0 <= k <= ans.len(),
        ans.len() <= usize::MAX,
    ensures
        kids(ans, v, k).no_duplicates(),
        forall|j: int| 0 <= j < kids(ans, v, k).len() ==> (#[trigger] kids(ans, v, k)[j]) < k && ans[kids(ans, v, k)[j] as int] == v,
        forall|c: int| 0 <= c < k && ans[c] == v ==> #[trigger] kids(ans, v, k).contains(c as usize),
    decreases k,
{
    if k > 0 {
        lemma_kids(ans, v, k - 1);
        let prev = kids(ans, v, k - 1);
        let cur = kids(ans, v, k);
        if ans[k - 1] == v {
            assert(cur == prev.push((k - 1) as usize));
            assert forall|i: int, j: int| 0 <= i < cur.len() && 0 <= j < cur.len() && i != j implies cur[i] != cur[j] by {
                if i < prev.len() && j < prev.len() {
                    assert(cur[i] == prev[i] && cur[j] == prev[j]);
                } else if i < prev.len() {
                    assert(cur[i] == prev[i]);
                } else if j < prev.len() {
                    assert(cur[j] == prev[j]);
                }
            }
            assert forall|c: int| 0 <= c < k && ans[c] == v implies #[trigger] cur.contains(c as usize) by {
                if c < k - 1 {
                    assert(prev.contains(c as usize));
                    let j = choose|j: int| 0 <= j < prev.len() && prev[j] == c as usize;
                    assert(cur[j] == c as usize);
                } else {
                    assert(cur[prev.len() as int] == c as usize);
                }
            }
            assert forall|j: int| 0 <= j < cur.len() implies (#[trigger] cur[j]) < k && ans[cur[j] as int] == v by {
                if j < prev.len() {
                    assert(cur[j] == prev[j]);
                }
            }
        } else {
            assert(cur == prev);
            assert forall|c: int| 0 <= c < k && ans[c] == v implies #[trigger] cur.contains(c as usize) by {
                if c < k - 1 {
                    assert(prev.contains(c as usize));
                }
            }
        }
    }
}

/// Nodes taken from a valid parent list (parents, `kids` as children,
/// depths) form a forest.
pub proof fn lemma_kids_forest(g: Seq<Seq<usize>>, hmax: int, ans: Seq<i32>, d: Seq<int>, nodes: Seq<Node>)
    requires
        valid_forest(g, hmax, ans, d),
        hmax <= N_MAX,
        nodes.len() == ans.len(),
        ans.len() <= N_MAX,
        forall|v: int| 0 <= v < nodes.len() ==> {
            &&& (#[trigger] nodes[v]).num == v
            &&& nodes[v].parent == ans[v] as i64
            &&& nodes[v].children@ == kids(ans, v, ans.len() as int)
            &&& nodes[v].h == d[v]
        },
    ensures
        forest_ok(nodes),
{
    let n = ans.len() as int;
    assert forall|v: int| 0 <= v < n implies (#[trigger] nodes[v]).num == v && 0 <= nodes[v].h
        && nodes[v].children@.no_duplicates() by {
        lemma_kids(ans, v, n);
        let e = d[v];
    }
    assert forall|v: int, k: int| 0 <= v < n && 0 <= k < nodes[v].children@.len() implies {
        let c = #[trigger] nodes[v].children@[k];
        &&& c < n
        &&& nodes[c as int].parent == v
        &&& nodes[c as int].h == nodes[v].h + 1
    } by {
        lemma_kids(ans, v, n);
        let c = nodes[v].children@[k];
        assert(kids(ans, v, n)[k] == c);
        let e = d[c as int];
        let e2 = nodes[c as int];
    }
    assert forall|x: int| 0 <= x < n implies {
        let p = (#[trigger] nodes[x]).parent;
        &&& (p == -1 ==> nodes[x].h == 0)
        &&& (p != -1 ==> 0 <= p < nodes.len() && nodes[p as int].children@.contains(x as usize))
    } by {
        let e = d[x];
        if ans[x] != -1 {
            let p = ans[x] as int;
            lemma_kids(ans, p, n);
            let e2 = nodes[p];
        }
    }
    assert forall|v: int| 0 <= v < nodes.len() implies (#[trigger] nodes[v]).h <= N_MAX by {
        let e = d[v];
    }
}

/// The depths of a forest are below its size, so within the bound.
proof fn lemma_core_ok(nodes: Seq<Node>)
    requires
        forest_core(nodes),
    ensures
        forest_ok(nodes),
{
    assert forall|v: int| 0 <= v < nodes.len() implies (#[trigger] nodes[v]).h <= N_MAX by {
        lemma_depth_below(nodes, v);
    }
}

/// Every parent pointer leads to a node (or none) one level up, and every
/// child is a node: enough to climb from any node to its root.
pub open spec fn parents_descend(nodes: Seq<Node>) -> bool {
    &&& nodes.len() <= N_MAX
    &&& forall|x: int| 0 <= x < nodes.len() ==> {
        let p = (#[trigger] nodes[x]).parent;
        &&& 0 <= nodes[x].h
        &&& (p == -1 || (0 <= p < nodes.len() && nodes[p as int].h < nodes[x].h))
    }
    &&& forall|v: int, k: int| 0 <= v < nodes.len() && 0 <= k < nodes[v].children@.len()
        ==> (#[trigger] nodes[v].children@[k]) < nodes.len()
}

/// The chain of ancestors under `parents_descend`: from a root down to `y`,
/// each the parent of the next, at strictly growing depths.
proof fn lemma_anc_shape(nodes: Seq<Node>, y: int)
    requires
        parents_descend(nodes),
        0 <= y < nodes.len(),
    ensures
        ancestors(nodes, y).len() >= 1,
        ancestors(nodes, y).last() == y as usize,
        nodes[ancestors(nodes, y)[0] as int].parent == -1,
        forall|j: int| 0 <= j < ancestors(nodes, y).len() ==> (#[trigger] ancestors(nodes, y)[j]) < nodes.len(),
        forall|j: int| 1 <= j < ancestors(nodes, y).len() ==>
            nodes[(#[trigger] ancestors(nodes, y)[j]) as int].parent == ancestors(nodes, y)[j - 1] as i64,
        forall|i: int, j: int| 0 <= i < j < ancestors(nodes, y).len() ==>
            nodes[(#[trigger] ancestors(nodes, y)[i]) as int].h < nodes[(#[trigger] ancestors(nodes, y)[j]) as int].h,
    decreases nodes[y].h,
{
    let a = ancestors(nodes, y);
    let p = nodes[y].parent;
    if p != -1 {
        lemma_anc_shape(nodes, p as int);
        let ap = ancestors(nodes, p as int);
        assert(a == ap.push(y as usize));
        assert(a[0] == ap[0]);
        assert forall|j: int| 1 <= j < a.len() implies nodes[(#[trigger] a[j]) as int].parent == a[j - 1] as i64 by {
            if j < a.len() - 1 {
                assert(a[j] == ap[j] && a[j - 1] == ap[j - 1]);
            } else {
                assert(a[j - 1] == ap.last());
                assert(ap.last() == p as usize);
                assert(a[j] == y as usize);
            }
        }
        assert forall|i: int, j: int| 0 <= i < j < a.len() implies
            nodes[(#[trigger] a[i]) as int].h < nodes[(#[trigger] a[j]) as int].h by {
            if j < a.len() - 1 {
                assert(a[i] == ap[i] && a[j] == ap[j]);
            } else {
                assert(a[i] == ap[i]);
                if i < ap.len() - 1 {
                    assert(nodes[ap[i] as int].h < nodes[ap.last() as int].h);
                }
            }
        }
        assert forall|j: int| 0 <= j < a.len() implies (#[trigger] a[j]) < nodes.len() by {
            if j < a.len() - 1 {
                assert(a[j] == ap[j]);
            }
        }
    } else {
        assert(a == seq![y as usize]);
    }
}

/// In a forest, the ancestors of `y` are exactly the nodes whose subtree
/// holds `y`.
proof fn lemma_anc_subtree(nodes: Seq<Node>, y: int, x: int)
    requires
        forest_core(nodes),
        0 <= y < nodes.len(),
        0 <= x < nodes.len(),
    ensures
        ancestors(nodes, y).contains(x as usize) <==> in_subtree(nodes, x, y),
    decreases nodes[y].h,
{
    lemma_anc_step(nodes, x, y);
    let a = ancestors(nodes, y);
    let p = nodes[y].parent;
    if p != -1 {
        lemma_parent_level(nodes, y);
        lemma_anc_subtree(nodes, p as int, x);
        let ap = ancestors(nodes, p as int);
        assert(a == ap.push(y as usize));
        if ap.contains(x as usize) {
            let j = choose|j: int| 0 <= j < ap.len() && ap[j] == x as usize;
            assert(a[j] == x as usize);
        }
        if a.contains(x as usize) && x != y {
            let j = choose|j: int| 0 <= j < a.len() && a[j] == x as usize;
            assert(j < ap.len());
            assert(ap[j] == x as usize);
        }
        if x == y {
            assert(a[a.len() - 1] == y as usize);
        }
    } else {
        assert(a == seq![y as usize]);
        if x == y {
            assert(a[0] == y as usize);
        }
    }
}

/// Two states that agree on the parent and depth of every ancestor of `y`
/// in the first have the same ancestors of `y`.
proof fn lemma_anc_same(a: Seq<Node>, b: Seq<Node>, y: int)
    requires
        parents_descend(a),
        a.len() == b.len(),
        0 <= y < a.len(),
        forall|x: int| #[trigger] ancestors(a, y).contains(x as usize) && 0 <= x < a.len()
            ==> b[x].parent == a[x].parent && b[x].h == a[x].h,
    ensures
        ancestors(b, y) == ancestors(a, y),
    decreases a[y].h,
{
    lemma_anc_shape(a, y);
    let an = ancestors(a, y);
    assert(an[an.len() - 1] == y as usize);
    assert(an.contains(y as usize));
    let p = a[y].parent;
    if p != -1 {
        let ap = ancestors(a, p as int);
        assert(an == ap.push(y as usize));
        assert(ap.contains(p as usize)) by {
            lemma_anc_shape(a, p as int);
            assert(ap[ap.len() - 1] == p as usize);
        }
        assert(an.contains(p as usize)) by {
            let j = choose|j: int| 0 <= j < ap.len() && ap[j] == p as usize;
            assert(an[j] == p as usize);
        }
        assert forall|x: int| #[trigger] ancestors(a, p as int).contains(x as usize) && 0 <= x < a.len()
            implies b[x].parent == a[x].parent && b[x].h == a[x].h by {
            let j = choose|j: int| 0 <= j < ap.len() && ap[j] == x as usize;
            assert(an[j] == x as usize);
            assert(an.contains(x as usize));
        }
        lemma_anc_same(a, b, p as int);
    }
}

impl State {
    /// Whether `parent` lies in the subtree of `child` (so that hanging
    /// `child` below `parent` would close a loop): a breadth-first walk over
    /// the children from `child`.
    pub fn is_loop(&self, child: &Node, parent: &Node) -> (r: bool)
        requires
            links_ok(self.nodes@),
            child.num < self.nodes@.len(),
        ensures
            r == in_subtree(self.nodes@, child.num as int, parent.num as int),
    {
        let ghost nodes = self.nodes@;
        let ghost n = nodes.len() as int;
        let start = child.num;
        let target = parent.num;
        let mut q: VecDeque<usize> = VecDeque::new();
        q.push_back(start);
        let ghost mut pushed: Seq<usize> = seq![start];
        let ghost mut hd: int = 0;
        let ghost mut pidx: Seq<int> = seq![0];
        proof {
            assert(reach(nodes, start as int, start as int, 0));
            lemma_distinct_below(pushed, n);
        }
        while q.len() > 0
            invariant
                nodes == self.nodes@,
                n == nodes.len(),
                links_ok(nodes),
                start == child.num,
                target == parent.num,
                start < n,
                0 <= hd <= pushed.len(),
                pushed.len() <= n,
                q@ == pushed.subrange(hd, pushed.len() as int),
                pushed.len() >= 1,
                pushed[0] == start,
                pushed.no_duplicates(),
                forall|i: int| 0 <= i < pushed.len() ==> (#[trigger] pushed[i]) < n
                    && nodes[pushed[i] as int].h >= nodes[start as int].h
                    && in_subtree(nodes, start as int, pushed[i] as int),
                pidx.len() == pushed.len(),
                forall|j: int| 1 <= j < pushed.len() ==> 0 <= #[trigger] pidx[j] < hd
                    && nodes[pushed[j] as int].parent == pushed[pidx[j]] as i64,
                forall|i: int| 0 <= i < hd ==> #[trigger] pushed[i] != target,
                forall|i: int, k: int| 0 <= i < hd && 0 <= k < nodes[pushed[i] as int].children@.len()
                    ==> pushed.contains(#[trigger] nodes[pushed[i] as int].children@[k]),
            decreases n - pushed.len() + q@.len(),
        {
            let id = match q.pop_front() {
                Some(x) => x,
                None => 0,
            };
            proof {
                assert(id == pushed[hd]);
                hd = hd + 1;
            }
            if target == id {
                proof {
                    assert(pushed[hd - 1] == target);
                    assert(in_subtree(nodes, start as int, pushed[hd - 1] as int));
                    assert(start == child.num);
                    assert(target == parent.num);
                    assert(in_subtree(self.nodes@, child.num as int, parent.num as int));
                }
                return true;
            }
            let ghost before = pushed;
            let mut k: usize = 0;
            while k < self.nodes[id].children.len()
                invariant
                    nodes == self.nodes@,
                    n == nodes.len(),
                    links_ok(nodes),
                    start == child.num,
                    target == parent.num,
                    start < n,
                    id < n,
                    id == pushed[hd - 1],
                    1 <= hd <= before.len(),
                    before.len() <= pushed.len(),
                    0 <= k <= nodes[id as int].children@.len(),
                    pushed == before + nodes[id as int].children@.subrange(0, k as int),
                    q@ == pushed.subrange(hd, pushed.len() as int),
                    pushed.len() >= 1,
                    pushed[0] == start,
                    pushed.no_duplicates(),
                    forall|i: int| 0 <= i < pushed.len() ==> (#[trigger] pushed[i]) < n
                        && nodes[pushed[i] as int].h >= nodes[start as int].h
                        && in_subtree(nodes, start as int, pushed[i] as int),
                    pidx.len() == pushed.len(),
                    forall|j: int| 1 <= j < before.len() ==> 0 <= #[trigger] pidx[j] < hd - 1
                        && nodes[pushed[j] as int].parent == pushed[pidx[j]] as i64,
                    forall|j: int| before.len() <= j < pushed.len() ==> #[trigger] pidx[j] == hd - 1
                        && nodes[pushed[j] as int].parent == id as i64,
                    forall|i: int| 0 <= i < hd ==> #[trigger] pushed[i] != target,
                    forall|i: int, k: int| 0 <= i < hd - 1 && 0 <= k < nodes[pushed[i] as int].children@.len()
                        ==> pushed.contains(#[trigger] nodes[pushed[i] as int].children@[k]),
                decreases nodes[id as int].children@.len() - k,
            {
                let c = self.nodes[id].children[k];
                proof {
                    let kk = k as int;
                    assert(c == nodes[id as int].children@[kk]);
                    assert(nodes[c as int].parent == id as int);
                    assert(nodes[c as int].h == nodes[id as int].h + 1);
                    assert forall|j: int| 0 <= j < pushed.len() implies pushed[j] != c by {
                        if pushed[j] == c {
                            if j == 0 {
                                assert(nodes[id as int].h >= nodes[start as int].h);
                            } else if j < before.len() {
                                let i = pidx[j];
                                assert(pushed[i] == pushed[hd - 1]);
                            } else {
                                let k2 = j - before.len();
                                assert(pushed[j] == nodes[id as int].children@[k2]);
                            }
                        }
                    }
                    // `c` is reached from the start.
                    let f = choose|f: nat| reach(nodes, start as int, id as int, f);
                    lemma_reach_step(nodes, start as int, id as int, f, kk);
                    assert(in_subtree(nodes, start as int, c as int));
                }
                q.push_back(c);
                proof {
                    let old_pushed = pushed;
                    let old_pidx = pidx;
                    pushed = pushed.push(c);
                    pidx = pidx.push(hd - 1);
                    assert(pushed =~= before + nodes[id as int].children@.subrange(0, k + 1));
                    assert forall|j: int| 1 <= j < before.len() implies 0 <= #[trigger] pidx[j] < hd - 1
                        && nodes[pushed[j] as int].parent == pushed[pidx[j]] as i64 by {
                        assert(pushed[j] == old_pushed[j]);
                        assert(pidx[j] == old_pidx[j]);
                        assert(pushed[pidx[j]] == old_pushed[old_pidx[j]]);
                    }
                    assert forall|j: int| before.len() <= j < pushed.len() implies #[trigger] pidx[j] == hd - 1
                        && nodes[pushed[j] as int].parent == id as i64 by {
                        if j < pushed.len() - 1 {
                            assert(pushed[j] == old_pushed[j]);
                            assert(pidx[j] == old_pidx[j]);
                        }
                    }
                    assert forall|i: int, k2: int| 0 <= i < hd - 1 && 0 <= k2 < nodes[pushed[i] as int].children@.len()
                        implies pushed.contains(#[trigger] nodes[pushed[i] as int].children@[k2]) by {
                        assert(pushed[i] == old_pushed[i]);
                        let x = nodes[pushed[i] as int].children@[k2];
                        assert(old_pushed.contains(x));
                        let w = choose|w: int| 0 <= w < old_pushed.len() && old_pushed[w] == x;
                        assert(pushed[w] == x);
                    }
                }
                k += 1;
            }
            proof {
                assert(nodes[id as int].children@.subrange(0, k as int) =~= nodes[id as int].children@);
                assert forall|i: int, k2: int| 0 <= i < hd && 0 <= k2 < nodes[pushed[i] as int].children@.len()
                    implies pushed.contains(#[trigger] nodes[pushed[i] as int].children@[k2]) by {
                    if i == hd - 1 {
                        let x = nodes[id as int].children@[k2];
                        assert(pushed[before.len() + k2] == x);
                    }
                }
                lemma_distinct_below(pushed, n);
                assert forall|j: int| 1 <= j < pushed.len() implies 0 <= #[trigger] pidx[j] < hd
                    && nodes[pushed[j] as int].parent == pushed[pidx[j]] as i64 by {
                    if j >= before.len() {
                        assert(nodes[pushed[j] as int].parent == pushed[hd - 1] as i64);
                    }
                }
            }
        }
        proof {
            assert(hd == pushed.len());
            if in_subtree(nodes, start as int, target as int) {
                let f = choose|f: nat| reach(nodes, start as int, target as int, f);
                assert(pushed[0] == start);
                assert(pushed.contains(start));
                lemma_reach_closed(nodes, pushed, start as int, target as int, f);
            }
        }
        false
    }

    /// Climbs from `from` to its root along the parents: each node passed
    /// gets the beauty sum of `node_id`'s subtree added (`add`) or taken
    /// away (wrapping), and its greatest depth taken again from its
    /// children (its own depth when it has none). Nothing else changes.
    #[verifier::rlimit(100)]
    fn climb(&mut self, from: usize, node_id: usize, add: bool)
        requires
            parents_descend(old(self).nodes@),
            from < old(self).nodes@.len(),
            node_id < old(self).nodes@.len(),
            !ancestors(old(self).nodes@, from as int).contains(node_id),
        ensures
            final(self).score == old(self).score,
            final(self).nodes@.len() == old(self).nodes@.len(),
            forall|x: int| 0 <= x < old(self).nodes@.len() ==> {
                let a = #[trigger] old(self).nodes@[x];
                let b = final(self).nodes@[x];
                let s = old(self).nodes@[node_id as int].sum_A;
                &&& b.num == a.num && b.parent == a.parent && b.children == a.children && b.h == a.h
                &&& b.sum_A == if ancestors(old(self).nodes@, from as int).contains(x as usize) {
                    if add { a.sum_A.wrapping_add(s) } else { a.sum_A.wrapping_sub(s) }
                } else {
                    a.sum_A
                }
                &&& !ancestors(old(self).nodes@, from as int).contains(x as usize) ==> b.hmax == a.hmax
            },
    {
        let ghost g = self.nodes@;
        let ghost a = ancestors(g, from as int);
        let ghost s = g[node_id as int].sum_A;
        proof {
            lemma_anc_shape(g, from as int);
        }
        let mut parent_id: usize = from;
        let ghost mut j: int = a.len() - 1;
        while parent_id != usize::MAX
            invariant
                parents_descend(g),
                a == ancestors(g, from as int),
                a.len() >= 1,
                nodes_n(g) == self.nodes@.len(),
                node_id < g.len(),
                !a.contains(node_id),
                -1 <= j < a.len(),
                parent_id == (if j >= 0 { a[j] } else { usize::MAX }),
                nodes_n(g) <= N_MAX,
                forall|q: int| 0 <= q < a.len() ==> (#[trigger] a[q]) < g.len(),
                forall|q: int| 1 <= q < a.len() ==> g[(#[trigger] a[q]) as int].parent == a[q - 1] as i64,
                g[a[0] as int].parent == -1,
                self.score == old(self).score,
                self.nodes@[node_id as int].sum_A == s,
                forall|x: int| 0 <= x < g.len() ==> {
                    let u = #[trigger] g[x];
                    let v = self.nodes@[x];
                    &&& v.num == u.num && v.parent == u.parent && v.children == u.children && v.h == u.h
                    &&& v.sum_A == if a.subrange(j + 1, a.len() as int).contains(x as usize) {
                        if add { u.sum_A.wrapping_add(s) } else { u.sum_A.wrapping_sub(s) }
                    } else {
                        u.sum_A
                    }
                    &&& !a.subrange(j + 1, a.len() as int).contains(x as usize) ==> v.hmax == u.hmax
                },
            decreases j + 1,
        {
            let p = parent_id;
            let sa = self.nodes[node_id].sum_A;
            let cur = self.nodes[p].sum_A;
            let ns = if add { cur.wrapping_add(sa) } else { cur.wrapping_sub(sa) };
            let mut best: Option<i64> = None;
            let mut k: usize = 0;
            while k < self.nodes[p].children.len()
                invariant
                    parents_descend(g),
                    nodes_n(g) == self.nodes@.len(),
                    p < g.len(),
                    forall|x: int| 0 <= x < g.len() ==> (#[trigger] self.nodes@[x]).children == g[x].children,
                    0 <= k <= self.nodes@[p as int].children@.len(),
                decreases self.nodes@[p as int].children@.len() - k,
            {
                let c = self.nodes[p].children[k];
                proof {
                    assert(self.nodes@[p as int].children == g[p as int].children);
                    let e = g[p as int].children@[k as int];
                }
                let hm = self.nodes[c].hmax;
                best = match best {
                    Some(v) => if hm > v { Some(hm) } else { Some(v) },
                    None => Some(hm),
                };
                k += 1;
            }
            let hmax = match best {
                Some(v) => v,
                None => self.nodes[p].h,
            };
            let ghost before = self.nodes@;
            self.nodes[p].sum_A = ns;
            self.nodes[p].hmax = hmax;
            let np = self.nodes[p].parent;
            parent_id = if np == -1 { usize::MAX } else { np as usize };
            proof {
                let sub0 = a.subrange(j + 1, a.len() as int);
                let sub1 = a.subrange(j, a.len() as int);
                assert forall|x: int| 0 <= x < g.len() implies (#[trigger] sub1.contains(x as usize) <==> (sub0.contains(x as usize) || x == p as int)) by {
                    if sub1.contains(x as usize) {
                        let q = choose|q: int| 0 <= q < sub1.len() && sub1[q] == x as usize;
                        if q > 0 {
                            assert(sub0[q - 1] == sub1[q]);
                        }
                    }
                    if sub0.contains(x as usize) {
                        let q = choose|q: int| 0 <= q < sub0.len() && sub0[q] == x as usize;
                        assert(sub1[q + 1] == sub0[q]);
                    }
                    if x == p as int {
                        assert(sub1[0] == p);
                    }
                }
                assert(!sub0.contains(p)) by {
                    lemma_anc_shape(g, from as int);
                    if sub0.contains(p) {
                        let q = choose|q: int| 0 <= q < sub0.len() && sub0[q] == p;
                        assert(a[j + 1 + q] == a[j]);
                        assert(g[a[j] as int].h < g[a[j + 1 + q] as int].h);
                    }
                }
                assert(p != node_id) by {
                    assert(a[j] == p);
                }
                assert forall|x: int| 0 <= x < g.len() implies {
                    let u = #[trigger] g[x];
                    let v = self.nodes@[x];
                    &&& v.num == u.num && v.parent == u.parent && v.children == u.children && v.h == u.h
                    &&& v.sum_A == if sub1.contains(x as usize) {
                        if add { u.sum_A.wrapping_add(s) } else { u.sum_A.wrapping_sub(s) }
                    } else {
                        u.sum_A
                    }
                    &&& !sub1.contains(x as usize) ==> v.hmax == u.hmax
                } by {
                    if x != p as int {
                        assert(self.nodes@[x] == before[x]);
                    }
                }
                if j >= 1 {
                    assert(np == a[j - 1] as i64);
                } else {
                    assert(np == -1);
                }
                j = j - 1;
            }
        }
        proof {
            assert(a.subrange(0, a.len() as int) =~= a);
        }
    }

    /// Takes `c` out of the children of `p` (the others keep their order).
    fn detach(&mut self, p: usize, c: usize)
        requires
            p < old(self).nodes@.len(),
        ensures
            final(self).score == old(self).score,
            final(self).nodes@.len() == old(self).nodes@.len(),
            final(self).nodes@[p as int].children@ == without(old(self).nodes@[p as int].children@, c),
            forall|x: int| 0 <= x < old(self).nodes@.len() ==> {
                let a = #[trigger] old(self).nodes@[x];
                let b = final(self).nodes@[x];
                &&& b.num == a.num && b.parent == a.parent && b.h == a.h && b.sum_A == a.sum_A && b.hmax == a.hmax
                &&& x != p ==> b.children == a.children
            },
    {
        let ghost old_ch = self.nodes@[p as int].children@;
        let mut kept: Vec<usize> = Vec::new();
        let mut k: usize = 0;
        while k < self.nodes[p].children.len()
            invariant
                p < self.nodes@.len(),
                self.nodes@ == old(self).nodes@,
                old_ch == self.nodes@[p as int].children@,
                0 <= k <= old_ch.len(),
                kept@ == without(old_ch.subrange(0, k as int), c),
            decreases old_ch.len() - k,
        {
            let x = self.nodes[p].children[k];
            proof {
                assert(old_ch.subrange(0, k + 1).drop_last() =~= old_ch.subrange(0, k as int));
                assert(old_ch.subrange(0, k + 1).last() == x);
                assert(old_ch.subrange(0, k + 1).len() > 0);
            }
            if x != c {
                kept.push(x);
            }
            k += 1;
        }
        proof {
            assert(old_ch.subrange(0, k as int) =~= old_ch);
        }
        let ghost before = self.nodes@;
        self.nodes[p].children = kept;
        proof {
            assert forall|x: int| 0 <= x < old(self).nodes@.len() implies {
                let a = #[trigger] old(self).nodes@[x];
                let b = self.nodes@[x];
                &&& b.num == a.num && b.parent == a.parent && b.h == a.h && b.sum_A == a.sum_A && b.hmax == a.hmax
                &&& x != p ==> b.children == a.children
            } by {
                if x != p as int {
                    assert(self.nodes@[x] == before[x]);
                }
            }
        }
    }

    /// Adds `diff_h` to the depth, and (wrapping) to the greatest depth, of
    /// every node in the subtree of `root`: a depth-first walk with a stack.
    #[verifier::rlimit(100)]
    fn shift_subtree(&mut self, root: usize, diff_h: i64)
        requires
            links_core(old(self).nodes@),
            root < old(self).nodes@.len(),
            forall|x: int| 0 <= x < old(self).nodes@.len() ==> (#[trigger] old(self).nodes@[x]).h <= 2 * N_MAX,
            -2 * N_MAX <= diff_h <= 2 * N_MAX,
        ensures
            final(self).score == old(self).score,
            final(self).nodes@.len() == old(self).nodes@.len(),
            forall|x: int| 0 <= x < old(self).nodes@.len() ==> {
                let a = #[trigger] old(self).nodes@[x];
                let b = final(self).nodes@[x];
                &&& b.num == a.num && b.parent == a.parent && b.children == a.children && b.sum_A == a.sum_A
                &&& b.h == if in_subtree(old(self).nodes@, root as int, x) { a.h + diff_h } else { a.h as int }
                &&& b.hmax == if in_subtree(old(self).nodes@, root as int, x) { a.hmax.wrapping_add(diff_h) } else { a.hmax }
            },
    {
        let ghost g = self.nodes@;
        let ghost n = g.len() as int;
        let mut stack: Vec<usize> = Vec::new();
        stack.push(root);
        let ghost mut popped: Seq<usize> = seq![];
        proof {
            assert(reach(g, root as int, root as int, 0));
            assert(stack@[0] == root);
            assert(stack@.contains(root));
        }
        while stack.len() > 0
            invariant
                links_core(g),
                n == g.len(),
                n == self.nodes@.len(),
                root < n,
                forall|x: int| 0 <= x < n ==> (#[trigger] g[x]).h <= 2 * N_MAX,
                -2 * N_MAX <= diff_h <= 2 * N_MAX,
                self.score == old(self).score,
                g == old(self).nodes@,
                shift_state(g, root as int, popped, stack@),
                forall|i: int, k: int| 0 <= i < popped.len() && 0 <= k < g[popped[i] as int].children@.len()
                    ==> popped.contains(#[trigger] g[popped[i] as int].children@[k]) || stack@.contains(g[popped[i] as int].children@[k]),
                forall|x: int| 0 <= x < n ==> {
                    let a = #[trigger] g[x];
                    let b = self.nodes@[x];
                    &&& b.num == a.num && b.parent == a.parent && b.children == a.children && b.sum_A == a.sum_A
                    &&& b.h == if popped.contains(x as usize) { a.h + diff_h } else { a.h as int }
                    &&& b.hmax == if popped.contains(x as usize) { a.hmax.wrapping_add(diff_h) } else { a.hmax }
                },
            decreases n - popped.len(),
        {
            let ghost old_popped = popped;
            let ghost old_stack = stack@;
            let id = match stack.pop() {
                Some(x) => x,
                None => 0,
            };
            proof {
                assert(old_stack == stack@.push(id));
                lemma_shift_pop(g, root as int, old_popped, old_stack);
                popped = popped.push(id);
                lemma_distinct_below(popped, n);
            }
            let hh = self.nodes[id].h;
            let hm = self.nodes[id].hmax;
            let ghost before = self.nodes@;
            proof {
                let e = g[id as int];
                assert(!old_popped.contains(id));
            }
            self.nodes[id].h = hh + diff_h;
            self.nodes[id].hmax = hm.wrapping_add(diff_h);
            proof {
                assert forall|x: int| 0 <= x < n implies {
                    let a = #[trigger] g[x];
                    let b = self.nodes@[x];
                    &&& b.num == a.num && b.parent == a.parent && b.children == a.children && b.sum_A == a.sum_A
                    &&& b.h == if popped.contains(x as usize) { a.h + diff_h } else { a.h as int }
                    &&& b.hmax == if popped.contains(x as usize) { a.hmax.wrapping_add(diff_h) } else { a.hmax }
                } by {
                    if x != id as int {
                        assert(self.nodes@[x] == before[x]);
                        assert(popped.contains(x as usize) == old_popped.contains(x as usize)) by {
                            if popped.contains(x as usize) {
                                let i = choose|i: int| 0 <= i < popped.len() && popped[i] == x as usize;
                                assert(i < old_popped.len());
                                assert(old_popped[i] == x as usize);
                            }
                            if old_popped.contains(x as usize) {
                                let i = choose|i: int| 0 <= i < old_popped.len() && old_popped[i] == x as usize;
                                assert(popped[i] == x as usize);
                            }
                        }
                    } else {
                        assert(popped[popped.len() - 1] == id);
                    }
                }
            }
            let ghost mid_stack = stack@;
            proof {
                assert(popped.drop_last() =~= old_popped);
                assert forall|i: int| 0 <= i < mid_stack.len() && mid_stack[i] != root implies
                    popped.drop_last().contains(#[trigger] g[mid_stack[i] as int].parent as usize) by {
                    assert(mid_stack[i] == old_stack[i]);
                }
            }
            let mut k: usize = 0;
            while k < self.nodes[id].children.len()
                invariant
                    links_core(g),
                    n == g.len(),
                    n == self.nodes@.len(),
                    root < n,
                    id < n,
                    g == old(self).nodes@,
                    self.nodes@[id as int].children == g[id as int].children,
                    0 <= k <= g[id as int].children@.len(),
                    stack@ == mid_stack + g[id as int].children@.subrange(0, k as int),
                    shift_state(g, root as int, popped, mid_stack),
                    forall|i: int| 0 <= i < mid_stack.len() && mid_stack[i] != root ==> popped.drop_last().contains(#[trigger] g[mid_stack[i] as int].parent as usize),
                    popped.len() >= 1,
                    popped.last() == id,
                decreases g[id as int].children@.len() - k,
            {
                let c = self.nodes[id].children[k];
                stack.push(c);
                k += 1;
            }
            proof {
                assert(g[id as int].children@.subrange(0, k as int) =~= g[id as int].children@);
                lemma_shift_push(g, root as int, popped, mid_stack);
            }
        }
        proof {
            assert(stack@.len() == 0);
            assert forall|x: int| 0 <= x < n implies (popped.contains(x as usize) <==> #[trigger] in_subtree(g, root as int, x)) by {
                if in_subtree(g, root as int, x) {
                    let f = choose|f: nat| reach(g, root as int, x, f);
                    assert(popped.contains(root)) by {
                        if !popped.contains(root) {
                            assert(stack@.contains(root));
                        }
                    }
                    lemma_reach_closed(g, popped, root as int, x, f);
                    let i = choose|i: int| 0 <= i < popped.len() && popped[i] as int == x;
                }
                if popped.contains(x as usize) {
                    let i = choose|i: int| 0 <= i < popped.len() && popped[i] == x as usize;
                }
            }
        }
    }

    /// Hangs `node_id` below `neighbor_id`, a move of the annealing whose
    /// score change is `diff_score`: the node leaves the children of its
    /// old parent, whose ancestors lose its subtree's beauty sum and take
    /// their greatest depth again; its subtree moves to the depth below
    /// `neighbor_id` (greatest depths shift alike); it joins the children of
    /// `neighbor_id`, whose ancestors gain the beauty sum and take their
    /// greatest depth again. The forest stays a forest.
    pub fn reattach(&mut self, node_id: usize, neighbor_id: usize, diff_score: i64)
        requires
            forest_ok(old(self).nodes@),
            node_id < old(self).nodes@.len(),
            neighbor_id < old(self).nodes@.len(),
            !in_subtree(old(self).nodes@, node_id as int, neighbor_id as int),
            i64::MIN <= old(self).score + diff_score <= i64::MAX,
        ensures
            final(self).score == old(self).score + diff_score,
            final(self).nodes@.len() == old(self).nodes@.len(),
            forest_ok(final(self).nodes@),
            forall|x: int| 0 <= x < old(self).nodes@.len() ==> moved(old(self).nodes@, node_id as int, neighbor_id as int,
                #[trigger] final(self).nodes@[x], x),
    {
        let ghost g = self.nodes@;
        self.score = self.score + diff_score;
        self.leave_parent(node_id);
        self.join_below(node_id, neighbor_id, Ghost(g));
    }

    /// The second half of `reattach`: `node_id`, already out of its old
    /// parent's children, takes `neighbor_id` as its parent, its subtree
    /// moves to the depth below it, it joins its children, and the
    /// ancestors of `neighbor_id` gain its beauty sum.
    #[verifier::rlimit(100)]
    #[verifier::spinoff_prover]
    fn join_below(&mut self, node_id: usize, neighbor_id: usize, Ghost(g): Ghost<Seq<Node>>)
        requires
            forest_ok(g),
            node_id < g.len(),
            neighbor_id < g.len(),
            !in_subtree(g, node_id as int, neighbor_id as int),
            old(self).nodes@.len() == g.len(),
            left_parent(g, old(self).nodes@, node_id as int),
        ensures
            final(self).score == old(self).score,
            final(self).nodes@.len() == g.len(),
            forest_ok(final(self).nodes@),
            forall|x: int| 0 <= x < g.len() ==> moved(g, node_id as int, neighbor_id as int, #[trigger] final(self).nodes@[x], x),
    {
        let ghost n = g.len() as int;
        let ghost node = node_id as int;
        let ghost nb = neighbor_id as int;
        let ghost op = g[node].parent;
        let ghost c1 = self.nodes@;
        proof {
            lemma_descend(g);
            assert(in_subtree(g, node, node)) by {
                assert(reach(g, node, node, 0));
            }
        }
        self.nodes[node_id].parent = neighbor_id as i64;
        let ghost c2 = self.nodes@;
        proof {
            assert(c2[node].h == g[node].h);
            assert(c2[nb].h == g[nb].h);
            let e1 = g[node];
            let e2 = g[nb];
            lemma_shift_ready(g, c2, node);
        }
        let diff_h = (self.nodes[neighbor_id].h + 1) - self.nodes[node_id].h;
        self.shift_subtree(node_id, diff_h);
        let ghost c3 = self.nodes@;
        proof {
            lemma_subtree_same(g, c2, node);
        }
        let mut ch = copy_children(&self.nodes[neighbor_id].children);
        ch.push(node_id);
        self.nodes[neighbor_id].children = ch;
        let ghost c4 = self.nodes@;
        proof {
            assert(restructured(g, c4, node, nb, diff_h as int)) by {
                assert forall|x: int| 0 <= x < g.len() implies {
                    let a = #[trigger] g[x];
                    let b = c4[x];
                    let kept = if op != -1 && x == op { without(a.children@, node as usize) } else { a.children@ };
                    &&& b.num == a.num
                    &&& b.parent == if x == node { nb as i64 } else { a.parent }
                    &&& b.children@ == if x == nb { kept.push(node as usize) } else { kept }
                    &&& b.h == if in_subtree(g, node, x) { a.h + diff_h } else { a.h as int }
                } by {
                    assert(c3[x] == c4[x] || x == nb);
                    let e = c2[x];
                    let e1 = c1[x];
                }
            }
            lemma_final_forest(g, c4, node, nb, diff_h as int);
            assert forall|x: int| #[trigger] ancestors(g, nb).contains(x as usize) && 0 <= x < g.len()
                implies c4[x].parent == g[x].parent && c4[x].h == g[x].h by {
                lemma_anc_subtree(g, nb, x);
                lemma_anc_outside(g, node, nb, x);
            }
            lemma_anc_same(g, c4, nb);
            lemma_anc_subtree(g, nb, node);
        }
        self.climb(neighbor_id, node_id, true);
        proof {
            let fin = self.nodes@;
            assert forall|x: int| 0 <= x < n implies moved(g, node, nb, #[trigger] fin[x], x) by {
                lemma_anc_subtree(g, nb, x);
                lemma_anc_outside(g, node, nb, x);
                if op != -1 {
                    lemma_op_outside(g, node);
                    lemma_anc_outside(g, node, op as int, x);
                }
                let e1 = c1[x];
                let e2 = c2[x];
                let e3 = c3[x];
                let e4 = c4[x];
                assert(in_subtree(c2, node, x) == in_subtree(g, node, x));
            }
            assert(restructured(g, fin, node, nb, diff_h as int)) by {
                assert forall|x: int| 0 <= x < g.len() implies {
                    let a = #[trigger] g[x];
                    let b = fin[x];
                    let kept = if op != -1 && x == op { without(a.children@, node as usize) } else { a.children@ };
                    &&& b.num == a.num
                    &&& b.parent == if x == node { nb as i64 } else { a.parent }
                    &&& b.children@ == if x == nb { kept.push(node as usize) } else { kept }
                    &&& b.h == if in_subtree(g, node, x) { a.h + diff_h } else { a.h as int }
                } by {
                    let e = c4[x];
                }
            }
            lemma_final_forest(g, fin, node, nb, diff_h as int);
        }
    }

    /// The first half of `reattach`: `node_id` leaves the children of its
    /// parent (if any), and the parent's ancestors lose its beauty sum
    /// (`left_parent`).
    fn leave_parent(&mut self, node_id: usize)
        requires
            forest_ok(old(self).nodes@),
            node_id < old(self).nodes@.len(),
        ensures
            final(self).score == old(self).score,
            final(self).nodes@.len() == old(self).nodes@.len(),
            left_parent(old(self).nodes@, final(self).nodes@, node_id as int),
    {
        let ghost g = self.nodes@;
        let ghost n = g.len() as int;
        let ghost node = node_id as int;
        let ghost op = g[node].parent;
        proof {
            lemma_descend(g);
        }
        if !self.nodes[node_id].is_root() {
            let opu = self.nodes[node_id].parent as usize;
            proof {
                lemma_parent_level(g, node);
                lemma_anc_subtree(g, op as int, node);
                if in_subtree(g, node, op as int) {
                    let f = choose|f: nat| reach(g, node, op as int, f);
                    lemma_reach_depth(g, node, op as int, f);
                }
            }
            self.detach(opu, node_id);
            proof {
                let c = self.nodes@;
                assert forall|x: int| 0 <= x < n implies {
                    &&& (#[trigger] c[x]).parent == g[x].parent && c[x].h == g[x].h
                    &&& forall|k: int| 0 <= k < c[x].children@.len() ==> g[x].children@.contains(#[trigger] c[x].children@[k])
                } by {
                    if x == op as int {
                        lemma_without(g[x].children@, node_id);
                        assert forall|k: int| 0 <= k < c[x].children@.len() implies g[x].children@.contains(#[trigger] c[x].children@[k]) by {
                            assert(without(g[x].children@, node_id).contains(c[x].children@[k]));
                        }
                    }
                }
                lemma_descend_kept(g, c);
                assert forall|x: int| #[trigger] ancestors(g, op as int).contains(x as usize) && 0 <= x < g.len()
                    implies c[x].parent == g[x].parent && c[x].h == g[x].h by {}
                lemma_anc_same(g, c, op as int);
            }
            self.climb(opu, node_id, false);
        }
        let ghost c1 = self.nodes@;
        proof {
            assert forall|x: int| 0 <= x < n implies {
                let a = #[trigger] g[x];
                let b = c1[x];
                &&& b.num == a.num && b.parent == a.parent && b.h == a.h
                &&& b.children@ == if op != -1 && x == op { without(a.children@, node_id) } else { a.children@ }
                &&& b.sum_A == if op != -1 && in_subtree(g, x, op as int) { a.sum_A.wrapping_sub(g[node].sum_A) } else { a.sum_A }
                &&& !(op != -1 && in_subtree(g, x, op as int)) ==> b.hmax == a.hmax
            } by {
                if op != -1 {
                    lemma_anc_subtree(g, op as int, x);
                }
            }
        }
    }
}

/// After the old parent let go of `node` and `node` took its new parent,
/// the links still hold (nobody lists `node` as a child), the depths are
/// within bounds, and the subtree of `node` keeps its children.
proof fn lemma_shift_ready(g: Seq<Node>, c: Seq<Node>, node: int)
    requires
        forest_ok(g),
        0 <= node < g.len(),
        c.len() == g.len(),
        forall|x: int| 0 <= x < g.len() ==> {
            let a = #[trigger] g[x];
            let b = c[x];
            &&& b.num == a.num && b.h == a.h
            &&& x != node ==> b.parent == a.parent
            &&& b.children@ == if g[node].parent != -1 && x == g[node].parent { without(a.children@, node as usize) } else { a.children@ }
        },
    ensures
        links_core(c),
        forall|x: int| 0 <= x < c.len() ==> (#[trigger] c[x]).h <= 2 * N_MAX,
        forall|y: int| #[trigger] in_subtree(g, node, y) ==> c[y].children@ == g[y].children@,
{
    let op = g[node].parent;
    let n = g.len();
    assert forall|v: int| 0 <= v < n implies (#[trigger] c[v]).num == v && 0 <= c[v].h
        && c[v].children@.no_duplicates() by {
        let e = g[v];
        if op != -1 && v == op {
            lemma_without(g[v].children@, node as usize);
        }
    }
    assert forall|v: int, k: int| 0 <= v < n && 0 <= k < c[v].children@.len() implies {
        let cc = #[trigger] c[v].children@[k];
        &&& cc < n
        &&& c[cc as int].parent == v
        &&& c[cc as int].h == c[v].h + 1
    } by {
        let cc = c[v].children@[k];
        let e = g[v];
        if op != -1 && v == op {
            lemma_without(g[v].children@, node as usize);
            assert(without(g[v].children@, node as usize).contains(cc));
            assert(g[v].children@.contains(cc) && cc != node as usize);
            let j = choose|j: int| 0 <= j < g[v].children@.len() && g[v].children@[j] == cc;
            let e2 = g[v].children@[j];
            let e3 = g[cc as int];
        } else {
            assert(c[v].children@[k] == g[v].children@[k]);
            let e2 = g[v].children@[k];
            let e3 = g[cc as int];
            if cc == node as usize {
                assert(g[node].parent == v);
            }
        }
    }
    assert forall|x: int| 0 <= x < c.len() implies (#[trigger] c[x]).h <= 2 * N_MAX by {
        let e = g[x];
    }
    assert forall|y: int| #[trigger] in_subtree(g, node, y) implies c[y].children@ == g[y].children@ by {
        lemma_subtree_avoids_op(g, node, y);
        let f = choose|f: nat| reach(g, node, y, f);
        lemma_reach_depth(g, node, y, f);
        let e = g[y];
    }
}

/// A forest has parents that lead up.
proof fn lemma_descend(g: Seq<Node>)
    requires
        forest_ok(g),
    ensures
        parents_descend(g),
{
    assert forall|x: int| 0 <= x < g.len() implies {
        let p = (#[trigger] g[x]).parent;
        &&& 0 <= g[x].h
        &&& (p == -1 || (0 <= p < g.len() && g[p as int].h < g[x].h))
    } by {
        if g[x].parent != -1 {
            lemma_parent_level(g, x);
        }
    }
}

/// Keeping parents and depths and dropping children keeps parents leading
/// up.
proof fn lemma_descend_kept(g: Seq<Node>, c: Seq<Node>)
    requires
        parents_descend(g),
        c.len() == g.len(),
        forall|x: int| 0 <= x < g.len() ==> {
            &&& (#[trigger] c[x]).parent == g[x].parent && c[x].h == g[x].h
            &&& forall|k: int| 0 <= k < c[x].children@.len() ==> g[x].children@.contains(#[trigger] c[x].children@[k])
        },
    ensures
        parents_descend(c),
{
    assert forall|v: int, k: int| 0 <= v < c.len() && 0 <= k < c[v].children@.len()
        implies (#[trigger] c[v].children@[k]) < c.len() by {
        let e = c[v];
        assert(g[v].children@.contains(c[v].children@[k]));
        let j = choose|j: int| 0 <= j < g[v].children@.len() && g[v].children@[j] == c[v].children@[k];
    }
}

/// The subtree of a node with a parent does not hold that parent.
proof fn lemma_subtree_avoids_op(g: Seq<Node>, node: int, y: int)
    requires
        forest_ok(g),
        0 <= node < g.len(),
    ensures
        in_subtree(g, node, y) && g[node].parent != -1 ==> y != g[node].parent,
{
    if in_subtree(g, node, y) && g[node].parent != -1 {
        let f = choose|f: nat| reach(g, node, y, f);
        lemma_reach_depth(g, node, y, f);
        lemma_parent_level(g, node);
    }
}

/// Changing children only outside the subtree of `node` keeps that
/// subtree.
proof fn lemma_subtree_same(g: Seq<Node>, c: Seq<Node>, node: int)
    requires
        forest_ok(g),
        0 <= node < g.len(),
        forall|y: int| #[trigger] in_subtree(g, node, y) ==> c[y].children@ == g[y].children@,
    ensures
        forall|x: int| #[trigger] in_subtree(c, node, x) == in_subtree(g, node, x),
{
    assert forall|x: int| #[trigger] in_subtree(c, node, x) == in_subtree(g, node, x) by {
        if in_subtree(g, node, x) {
            let f = choose|f: nat| reach(g, node, x, f);
            lemma_reach_same(g, c, node, x, f);
        }
        if in_subtree(c, node, x) {
            let f = choose|f: nat| reach(c, node, x, f);
            lemma_reach_same(g, c, node, x, f);
        }
    }
}

/// A node's parent lies outside its subtree.
proof fn lemma_op_outside(g: Seq<Node>, node: int)
    requires
        forest_ok(g),
        0 <= node < g.len(),
        g[node].parent != -1,
    ensures
        !in_subtree(g, node, g[node].parent as int),
{
    lemma_subtree_avoids_op(g, node, g[node].parent as int);
}

/// An ancestor of a node outside the subtree of `node` lies outside it too,
/// and is not `node`.
proof fn lemma_anc_outside(g: Seq<Node>, node: int, nb: int, x: int)
    requires
        !in_subtree(g, node, nb),
    ensures
        in_subtree(g, x, nb) ==> !in_subtree(g, node, x) && x != node,
{
    if in_subtree(g, x, nb) && in_subtree(g, node, x) {
        let f1 = choose|f: nat| reach(g, node, x, f);
        let f2 = choose|f: nat| reach(g, x, nb, f);
        lemma_reach_trans(g, node, x, nb, f1, f2);
    }
}

/// The forest `c` that `reattach` makes of `g`, before the sums and greatest
/// depths: the moved node has its new parent and joined the children of
/// `nb` (after leaving those of its old parent), and its subtree moved by
/// `diff` levels.
pub open spec fn restructured(g: Seq<Node>, c: Seq<Node>, node: int, nb: int, diff: int) -> bool {
    let op = g[node].parent;
    &&& c.len() == g.len()
    &&& forall|x: int| 0 <= x < g.len() ==> {
        let a = #[trigger] g[x];
        let b = c[x];
        let kept = if op != -1 && x == op { without(a.children@, node as usize) } else { a.children@ };
        &&& b.num == a.num
        &&& b.parent == if x == node { nb as i64 } else { a.parent }
        &&& b.children@ == if x == nb { kept.push(node as usize) } else { kept }
        &&& b.h == if in_subtree(g, node, x) { a.h + diff } else { a.h as int }
    }
}

/// What `reattach` makes is a forest, with parents that lead up.
proof fn lemma_final_forest(g: Seq<Node>, c: Seq<Node>, node: int, nb: int, diff: int)
    requires
        forest_ok(g),
        0 <= node < g.len(),
        0 <= nb < g.len(),
        !in_subtree(g, node, nb),
        diff == g[nb].h + 1 - g[node].h,
        restructured(g, c, node, nb, diff),
    ensures
        forest_ok(c),
        parents_descend(c),
{
    let n = g.len();
    let op = g[node].parent;
    assert(reach(g, node, node, 0));
    assert forall|v: int| 0 <= v < n implies (#[trigger] c[v]).num == v && 0 <= c[v].h
        && c[v].children@.no_duplicates() by {
        let e = g[v];
        if in_subtree(g, node, v) {
            let f = choose|f: nat| reach(g, node, v, f);
            lemma_reach_depth(g, node, v, f);
        }
        let kept = if op != -1 && v == op { without(g[v].children@, node as usize) } else { g[v].children@ };
        if op != -1 && v == op {
            lemma_without(g[v].children@, node as usize);
        }
        if v == nb {
            assert(!kept.contains(node as usize)) by {
                if kept.contains(node as usize) {
                    if op != -1 && v == op {
                        lemma_without(g[v].children@, node as usize);
                    } else {
                        let j = choose|j: int| 0 <= j < kept.len() && kept[j] == node as usize;
                        let e2 = g[v].children@[j];
                    }
                }
            }
            let pk = kept.push(node as usize);
            assert forall|i: int, j: int| 0 <= i < pk.len() && 0 <= j < pk.len() && i != j implies pk[i] != pk[j] by {
                if i == kept.len() {
                    assert(kept.contains(pk[j]));
                } else if j == kept.len() {
                    assert(kept.contains(pk[i]));
                }
            }
        }
    }
    assert forall|v: int, k: int| 0 <= v < n && 0 <= k < c[v].children@.len() implies {
        let cc = #[trigger] c[v].children@[k];
        &&& cc < n
        &&& c[cc as int].parent == v
        &&& c[cc as int].h == c[v].h + 1
    } by {
        let cc = c[v].children@[k];
        let e = g[v];
        let kept = if op != -1 && v == op { without(g[v].children@, node as usize) } else { g[v].children@ };
        if op != -1 && v == op {
            lemma_without(g[v].children@, node as usize);
        }
        if v == nb && k == kept.len() {
            assert(cc == node as usize);
            assert(!in_subtree(g, node, nb));
        } else {
            assert(kept[k] == cc);
            assert(kept.contains(cc));
            assert(g[v].children@.contains(cc));
            let j = choose|j: int| 0 <= j < g[v].children@.len() && g[v].children@[j] == cc;
            let e2 = g[v].children@[j];
            let e3 = g[cc as int];
            assert(cc != node as usize) by {
                if cc == node as usize {
                    assert(g[node].parent == v);
                    if op != -1 && v == op {
                        lemma_without(g[v].children@, node as usize);
                    }
                }
            }
            // depths shift together inside the subtree
            if in_subtree(g, node, v) {
                let f = choose|f: nat| reach(g, node, v, f);
                lemma_reach_step(g, node, v, f, j);
            }
            if in_subtree(g, node, cc as int) {
                lemma_anc_step(g, node, cc as int);
            }
        }
    }
    assert forall|x: int| 0 <= x < n implies {
        let p = (#[trigger] c[x]).parent;
        &&& (p == -1 ==> c[x].h == 0)
        &&& (p != -1 ==> 0 <= p < c.len() && c[p as int].children@.contains(x as usize))
    } by {
        let e = g[x];
        if x == node {
            let kept = if op != -1 && nb == op { without(g[nb].children@, node as usize) } else { g[nb].children@ };
            assert(c[nb].children@ == kept.push(node as usize));
            assert(c[nb].children@[kept.len() as int] == node as usize);
        } else {
            let p = g[x].parent;
            if p == -1 {
                if in_subtree(g, node, x) {
                    lemma_anc_step(g, node, x);
                }
            } else {
                let pe = g[p as int];
                let kept = if op != -1 && p == op { without(g[p as int].children@, node as usize) } else { g[p as int].children@ };
                if op != -1 && p == op {
                    lemma_without(g[p as int].children@, node as usize);
                }
                assert(kept.contains(x as usize));
                if p == nb {
                    let j = choose|j: int| 0 <= j < kept.len() && kept[j] == x as usize;
                    assert(kept.push(node as usize)[j] == x as usize);
                }
            }
        }
    }
    lemma_core_ok(c);
    lemma_descend(c);
}

/// A copy of a list of children.
fn copy_children(v: &Vec<usize>) -> (r: Vec<usize>)
    ensures
        r@ == v@,
{
    let mut r: Vec<usize> = Vec::new();
    let mut k: usize = 0;
    while k < v.len()
        invariant
            0 <= k <= v@.len(),
            r@ == v@.subrange(0, k as int),
        decreases v@.len() - k,
    {
        r.push(v[k]);
        k += 1;
        proof {
            assert(r@ =~= v@.subrange(0, k as int));
        }
    }
    proof {
        assert(r@ =~= v@);
    }
    r
}

/// `c` is the forest `g` after `node` left its parent (if any): the parent
/// lost it as a child, and the beauty sum of `node` went from the
/// ancestors of the parent (wrapping), which took their greatest depth
/// again; nothing else changed.
pub open spec fn left_parent(g: Seq<Node>, c: Seq<Node>, node: int) -> bool {
    let op = g[node].parent;
    &&& c.len() == g.len()
    &&& forall|x: int| 0 <= x < g.len() ==> {
        let a = #[trigger] g[x];
        let b = c[x];
        &&& b.num == a.num && b.parent == a.parent && b.h == a.h
        &&& b.children@ == if op != -1 && x == op { without(a.children@, node as usize) } else { a.children@ }
        &&& b.sum_A == if op != -1 && in_subtree(g, x, op as int) { a.sum_A.wrapping_sub(g[node].sum_A) } else { a.sum_A }
        &&& !(op != -1 && in_subtree(g, x, op as int)) ==> b.hmax == a.hmax
    }
}

/// Node `b` (number `x`) is node `x` of the forest `g` after `node` moved
/// below `nb`: the moved node has the new parent; the old parent (if any)
/// lost it as a child and `nb` gained it last; the subtree of `node` moved
/// to the depth below `nb` (greatest depths alike, wrapping); the beauty
/// sum of `node` went from the ancestors of the old parent to those of `nb`
/// (wrapping); other greatest depths stay, but for those of the two lines of
/// ancestors, taken again from their children.
pub open spec fn moved(g: Seq<Node>, node: int, nb: int, b: Node, x: int) -> bool {
    let a = g[x];
    let op = g[node].parent;
    let s = g[node].sum_A;
    let diff_h = g[nb].h + 1 - g[node].h;
    let in_s = in_subtree(g, node, x);
    let in_a1 = op != -1 && in_subtree(g, x, op as int);
    let in_a2 = in_subtree(g, x, nb);
    let kept = if op != -1 && x == op { without(a.children@, node as usize) } else { a.children@ };
    &&& b.num == a.num
    &&& b.parent == if x == node { nb as i64 } else { a.parent }
    &&& b.children@ == if x == nb { kept.push(node as usize) } else { kept }
    &&& b.h == if in_s { a.h + diff_h } else { a.h as int }
    &&& b.sum_A == {
        let s1 = if in_a1 { a.sum_A.wrapping_sub(s) } else { a.sum_A };
        if in_a2 { s1.wrapping_add(s) } else { s1 }
    }
    &&& in_s ==> b.hmax == a.hmax.wrapping_add(diff_h as i64)
    &&& (!in_s && !in_a1 && !in_a2) ==> b.hmax == a.hmax
}

/// Where the walk of `shift_subtree` stands: `popped` (done) and `stack`
/// (to do) are apart and without repeats, every node on them lies in the
/// subtree of `root`, every node but `root` on them has its parent done,
/// `root` is on one of them, and the children of a node done are on one of
/// them.
pub open spec fn shift_state(g: Seq<Node>, root: int, popped: Seq<usize>, stack: Seq<usize>) -> bool {
    let n = g.len();
    &&& popped.no_duplicates()
    &&& stack.no_duplicates()
    &&& forall|i: int, j: int| 0 <= i < popped.len() && 0 <= j < stack.len() ==> popped[i] != stack[j]
    &&& popped.contains(root as usize) || stack.contains(root as usize)
    &&& forall|i: int| 0 <= i < popped.len() ==> (#[trigger] popped[i]) < n
        && g[popped[i] as int].h >= g[root].h && in_subtree(g, root, popped[i] as int)
    &&& forall|i: int| 0 <= i < stack.len() ==> (#[trigger] stack[i]) < n
        && g[stack[i] as int].h >= g[root].h && in_subtree(g, root, stack[i] as int)
    &&& forall|i: int| 0 <= i < popped.len() && popped[i] != root ==> 0 <= #[trigger] g[popped[i] as int].parent
        && popped.subrange(0, i).contains(g[popped[i] as int].parent as usize)
    &&& forall|i: int| 0 <= i < stack.len() && stack[i] != root ==> 0 <= #[trigger] g[stack[i] as int].parent
        && popped.contains(g[stack[i] as int].parent as usize)
    &&& forall|i: int, k: int| 0 <= i < popped.len() - 1 && 0 <= k < g[popped[i] as int].children@.len()
        ==> popped.contains(#[trigger] g[popped[i] as int].children@[k]) || stack.contains(g[popped[i] as int].children@[k])
}

/// Popping the top of the stack keeps `shift_state`, with the node done.
proof fn lemma_shift_pop(g: Seq<Node>, root: int, popped: Seq<usize>, stack: Seq<usize>)
    requires
        links_core(g),
        0 <= root < g.len(),
        stack.len() >= 1,
        shift_state(g, root, popped, stack),
        forall|i: int, k: int| 0 <= i < popped.len() && 0 <= k < g[popped[i] as int].children@.len()
            ==> popped.contains(#[trigger] g[popped[i] as int].children@[k]) || stack.contains(g[popped[i] as int].children@[k]),
    ensures
        !popped.contains(stack.last()),
        shift_state(g, root, popped.push(stack.last()), stack.drop_last()),
        forall|i: int| 0 <= i < stack.len() - 1 && stack[i] != root ==> popped.contains(#[trigger] g[stack[i] as int].parent as usize),
{
    let x = stack.last();
    let p2 = popped.push(x);
    let s2 = stack.drop_last();
    assert(!popped.contains(x)) by {
        if popped.contains(x) {
            let i = choose|i: int| 0 <= i < popped.len() && popped[i] == x;
            assert(stack[stack.len() - 1] == x);
        }
    }
    assert forall|i: int, j: int| 0 <= i < p2.len() && 0 <= j < p2.len() && i != j implies p2[i] != p2[j] by {
        if i < popped.len() && j < popped.len() {
        } else if i < popped.len() {
            assert(popped.contains(p2[i]));
        } else if j < popped.len() {
            assert(popped.contains(p2[j]));
        }
    }
    assert forall|i: int, j: int| 0 <= i < s2.len() && 0 <= j < s2.len() && i != j implies s2[i] != s2[j] by {
        assert(s2[i] == stack[i] && s2[j] == stack[j]);
    }
    assert forall|i: int, j: int| 0 <= i < p2.len() && 0 <= j < s2.len() implies p2[i] != s2[j] by {
        assert(s2[j] == stack[j]);
        if i < popped.len() {
            assert(p2[i] == popped[i]);
        } else {
            assert(stack[stack.len() - 1] == x);
        }
    }
    assert(p2.contains(root as usize) || s2.contains(root as usize)) by {
        if popped.contains(root as usize) {
            let i = choose|i: int| 0 <= i < popped.len() && popped[i] == root as usize;
            assert(p2[i] == root as usize);
        } else {
            let j = choose|j: int| 0 <= j < stack.len() && stack[j] == root as usize;
            if j < stack.len() - 1 {
                assert(s2[j] == root as usize);
            } else {
                assert(p2[p2.len() - 1] == root as usize);
            }
        }
    }
    assert forall|i: int| 0 <= i < p2.len() implies (#[trigger] p2[i]) < g.len()
        && g[p2[i] as int].h >= g[root].h && in_subtree(g, root, p2[i] as int) by {
        if i < popped.len() {
            assert(p2[i] == popped[i]);
        } else {
            assert(p2[i] == stack[stack.len() - 1]);
        }
    }
    assert forall|i: int| 0 <= i < s2.len() implies (#[trigger] s2[i]) < g.len()
        && g[s2[i] as int].h >= g[root].h && in_subtree(g, root, s2[i] as int) by {
        assert(s2[i] == stack[i]);
    }
    assert forall|i: int| 0 <= i < p2.len() && p2[i] != root ==> 0 <= #[trigger] g[p2[i] as int].parent
        && p2.subrange(0, i).contains(g[p2[i] as int].parent as usize) by {
        if 0 <= i < p2.len() && p2[i] != root {
            if i < popped.len() {
                assert(p2[i] == popped[i]);
                assert(p2.subrange(0, i) =~= popped.subrange(0, i));
            } else {
                assert(p2[i] == stack[stack.len() - 1]);
                assert(p2.subrange(0, i) =~= popped);
            }
        }
    }
    assert forall|i: int| 0 <= i < s2.len() && s2[i] != root ==> 0 <= #[trigger] g[s2[i] as int].parent
        && p2.contains(g[s2[i] as int].parent as usize) by {
        if 0 <= i < s2.len() && s2[i] != root {
            assert(s2[i] == stack[i]);
            let q = g[stack[i] as int].parent as usize;
            let w = choose|w: int| 0 <= w < popped.len() && popped[w] == q;
            assert(p2[w] == q);
        }
    }
    assert forall|i: int, k: int| 0 <= i < p2.len() - 1 && 0 <= k < g[p2[i] as int].children@.len()
        implies p2.contains(#[trigger] g[p2[i] as int].children@[k]) || s2.contains(g[p2[i] as int].children@[k]) by {
        assert(p2[i] == popped[i]);
        let c = g[popped[i] as int].children@[k];
        if popped.contains(c) {
            let w = choose|w: int| 0 <= w < popped.len() && popped[w] == c;
            assert(p2[w] == c);
        } else {
            assert(stack.contains(c));
            let w = choose|w: int| 0 <= w < stack.len() && stack[w] == c;
            if w < stack.len() - 1 {
                assert(s2[w] == c);
            } else {
                assert(p2[p2.len() - 1] == c);
            }
        }
    }
    assert forall|i: int| 0 <= i < stack.len() - 1 && stack[i] != root implies popped.contains(#[trigger] g[stack[i] as int].parent as usize) by {
    }
}

/// Pushing the children of the node just done keeps `shift_state`, with
/// every child of a node done on one of the lists.
proof fn lemma_shift_push(g: Seq<Node>, root: int, popped: Seq<usize>, stack: Seq<usize>)
    requires
        links_core(g),
        0 <= root < g.len(),
        popped.len() >= 1,
        shift_state(g, root, popped, stack),
        forall|i: int| 0 <= i < stack.len() && stack[i] != root ==> popped.drop_last().contains(#[trigger] g[stack[i] as int].parent as usize),
    ensures
        shift_state(g, root, popped, stack + g[popped.last() as int].children@),
        forall|i: int, k: int| 0 <= i < popped.len() && 0 <= k < g[popped[i] as int].children@.len()
            ==> popped.contains(#[trigger] g[popped[i] as int].children@[k])
            || (stack + g[popped.last() as int].children@).contains(g[popped[i] as int].children@[k]),
{
    let n = g.len();
    let x = popped.last();
    let li = popped.len() - 1;
    assert(popped[li] == x);
    let ch = g[x as int].children@;
    let s2 = stack + ch;
    let xf = choose|f: nat| reach(g, root, x as int, f);
    // A child of `x` is on neither list.
    assert forall|k: int| 0 <= k < ch.len() implies !popped.contains(#[trigger] ch[k]) && !stack.contains(ch[k]) by {
        let c = ch[k];
        assert(c < n && g[c as int].parent == x as int && g[c as int].h == g[x as int].h + 1);
        if popped.contains(c) {
            let i = choose|i: int| 0 <= i < popped.len() && popped[i] == c;
            if c != root as usize {
                let q = g[c as int].parent as usize;
                assert(q == x);
                assert(popped.subrange(0, i).contains(q));
                let w = choose|w: int| 0 <= w < i && popped.subrange(0, i)[w] == q;
                assert(popped[w] == x);
                assert(w != li);
            } else {
                assert(g[x as int].h >= g[root].h);
            }
        }
        if stack.contains(c) {
            let j = choose|j: int| 0 <= j < stack.len() && stack[j] == c;
            if c != root as usize {
                let q = g[c as int].parent as usize;
                assert(popped.drop_last().contains(q));
                let w = choose|w: int| 0 <= w < li && popped.drop_last()[w] == q;
                assert(popped[w] == x);
            } else {
                assert(g[x as int].h >= g[root].h);
            }
        }
    }
    assert forall|i: int, j: int| 0 <= i < s2.len() && 0 <= j < s2.len() && i != j implies s2[i] != s2[j] by {
        if i < stack.len() && j < stack.len() {
        } else if i >= stack.len() && j >= stack.len() {
            assert(s2[i] == ch[i - stack.len()] && s2[j] == ch[j - stack.len()]);
        } else if i < stack.len() {
            assert(s2[j] == ch[j - stack.len()]);
            assert(stack.contains(s2[i]));
        } else {
            assert(s2[i] == ch[i - stack.len()]);
            assert(stack.contains(s2[j]));
        }
    }
    assert forall|i: int, j: int| 0 <= i < popped.len() && 0 <= j < s2.len() implies popped[i] != s2[j] by {
        if j >= stack.len() {
            assert(s2[j] == ch[j - stack.len()]);
            assert(popped.contains(popped[i]));
        }
    }
    assert(popped.contains(root as usize) || s2.contains(root as usize)) by {
        if !popped.contains(root as usize) {
            let j = choose|j: int| 0 <= j < stack.len() && stack[j] == root as usize;
            assert(s2[j] == root as usize);
        }
    }
    assert forall|i: int| 0 <= i < s2.len() implies (#[trigger] s2[i]) < n
        && g[s2[i] as int].h >= g[root].h && in_subtree(g, root, s2[i] as int) by {
        if i >= stack.len() {
            let k = i - stack.len();
            assert(s2[i] == ch[k]);
            let c = ch[k];
            assert(g[c as int].h == g[x as int].h + 1);
            lemma_reach_step(g, root, x as int, xf, k);
        }
    }
    assert forall|i: int| 0 <= i < s2.len() && s2[i] != root ==> 0 <= #[trigger] g[s2[i] as int].parent
        && popped.contains(g[s2[i] as int].parent as usize) by {
        if 0 <= i < s2.len() && s2[i] != root {
            if i >= stack.len() {
                let k = i - stack.len();
                assert(s2[i] == ch[k]);
                assert(g[ch[k] as int].parent == x as int);
            }
        }
    }
    assert forall|i: int, k: int| 0 <= i < popped.len() - 1 && 0 <= k < g[popped[i] as int].children@.len()
        implies popped.contains(#[trigger] g[popped[i] as int].children@[k]) || s2.contains(g[popped[i] as int].children@[k]) by {
        let c = g[popped[i] as int].children@[k];
        if stack.contains(c) {
            let w = choose|w: int| 0 <= w < stack.len() && stack[w] == c;
            assert(s2[w] == c);
        }
    }
    assert forall|i: int, k: int| 0 <= i < popped.len() && 0 <= k < g[popped[i] as int].children@.len()
        implies popped.contains(#[trigger] g[popped[i] as int].children@[k]) || s2.contains(g[popped[i] as int].children@[k]) by {
        let c = g[popped[i] as int].children@[k];
        if i == li {
            assert(s2[stack.len() + k] == ch[k]);
        } else if stack.contains(c) {
            let w = choose|w: int| 0 <= w < stack.len() && stack[w] == c;
            assert(s2[w] == c);
        }
    }
}

/// The number of nodes (kept apart for the loops' bookkeeping).
pub open spec fn nodes_n(g: Seq<Node>) -> nat {
    g.len()
}

} // verus!