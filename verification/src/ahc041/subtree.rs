//! Values gathered over subtrees: the sum and the greatest value of a
//! per-node quantity over a node and everything below it, and sums taken
//! modulo `2^64` (what wrapping `i64` additions keep).
use vstd::prelude::*;
use crate::ahc041::state::{Node, N_MAX};

verus! {

/// How far above the depth bound a node lies (what bounds the recursion).
pub open spec fn room(nodes: Seq<Node>, v: int) -> int {
    if 0 <= v < nodes.len() && 0 <= nodes[v].h <= N_MAX { N_MAX + 1 - nodes[v].h } else { 0 }
}

/// Child `c` of `v` lies deeper (so recursion into it ends).
pub open spec fn deeper(nodes: Seq<Node>, v: int, c: int) -> bool {
    0 <= c < nodes.len() && room(nodes, c) < room(nodes, v) && 0 <= v < nodes.len() && 0 <= nodes[v].h <= N_MAX
}

/// `base[v]` plus the subtree sums of the children of `v`.
pub open spec fn sub_sum(nodes: Seq<Node>, base: Seq<int>, v: int) -> int
    decreases room(nodes, v), nodes[v].children@.len() + 1,
{
    base[v] + kids_sum(nodes, base, v, nodes[v].children@.len() as int)
}

/// The subtree sums of the first `k` children of `v`.
pub open spec fn kids_sum(nodes: Seq<Node>, base: Seq<int>, v: int, k: int) -> int
    decreases room(nodes, v), k,
{
    if k <= 0 || k > nodes[v].children@.len() {
        0
    } else {
        let c = nodes[v].children@[k - 1] as int;
        kids_sum(nodes, base, v, k - 1) + if deeper(nodes, v, c) { sub_sum(nodes, base, c) } else { 0 }
    }
}

/// The greatest of `base[v]` and the subtree maxima of the children of `v`.
pub open spec fn sub_max(nodes: Seq<Node>, base: Seq<int>, v: int) -> int
    decreases room(nodes, v), nodes[v].children@.len() + 1,
{
    kids_max(nodes, base, v, nodes[v].children@.len() as int)
}

/// The greatest of `base[v]` and the subtree maxima of the first `k`
/// children of `v`.
pub open spec fn kids_max(nodes: Seq<Node>, base: Seq<int>, v: int, k: int) -> int
    decreases room(nodes, v), k,
{
    if k <= 0 || k > nodes[v].children@.len() {
        base[v]
    } else {
        let c = nodes[v].children@[k - 1] as int;
        let m = kids_max(nodes, base, v, k - 1);
        if deeper(nodes, v, c) && sub_max(nodes, base, c) > m { sub_max(nodes, base, c) } else { m }
    }
}

/// Subtree sums and maxima read only the children and depths.
pub proof fn lemma_sub_same(a: Seq<Node>, b: Seq<Node>, base: Seq<int>, v: int)
    requires
        a.len() == b.len(),
        0 <= v < a.len(),
        forall|x: int| 0 <= x < a.len() ==> (#[trigger] b[x]).children@ == a[x].children@ && b[x].h == a[x].h,
    ensures
        sub_sum(b, base, v) == sub_sum(a, base, v),
        sub_max(b, base, v) == sub_max(a, base, v),
    decreases room(a, v), a[v].children@.len() + 1,
{
    let e = b[v];
    lemma_kids_same(a, b, base, v, a[v].children@.len() as int);
}

pub proof fn lemma_kids_same(a: Seq<Node>, b: Seq<Node>, base: Seq<int>, v: int, k: int)
    requires
        a.len() == b.len(),
        forall|x: int| 0 <= x < a.len() ==> (#[trigger] b[x]).children@ == a[x].children@ && b[x].h == a[x].h,
    ensures
        0 <= v < a.len() ==> kids_sum(b, base, v, k) == kids_sum(a, base, v, k)
            && kids_max(b, base, v, k) == kids_max(a, base, v, k),
    decreases room(a, v), k,
{
    if 0 <= v < a.len() && k > 0 && k <= a[v].children@.len() {
        let e = b[v];
        lemma_kids_same(a, b, base, v, k - 1);
        let c = a[v].children@[k - 1] as int;
        if deeper(a, v, c) {
            let ec = b[c];
            lemma_sub_same(a, b, base, c);
        }
    }
}

/// `kids_sum` over the children marked in `done` only.
pub open spec fn done_sum(nodes: Seq<Node>, base: Seq<int>, v: int, k: int, done: Seq<bool>) -> int
    decreases k,
{
    if k <= 0 || k > nodes[v].children@.len() {
        0
    } else {
        let c = nodes[v].children@[k - 1] as int;
        done_sum(nodes, base, v, k - 1, done) + if deeper(nodes, v, c) && done[c] { sub_sum(nodes, base, c) } else { 0 }
    }
}

/// `kids_max` over the children marked in `done` only.
pub open spec fn done_max(nodes: Seq<Node>, base: Seq<int>, v: int, k: int, done: Seq<bool>) -> int
    decreases k,
{
    if k <= 0 || k > nodes[v].children@.len() {
        base[v]
    } else {
        let c = nodes[v].children@[k - 1] as int;
        let m = done_max(nodes, base, v, k - 1, done);
        if deeper(nodes, v, c) && done[c] && sub_max(nodes, base, c) > m { sub_max(nodes, base, c) } else { m }
    }
}

/// `k` times `2^64`.
pub open spec fn wraps(k: int) -> int {
    k * 0x1_0000_0000_0000_0000
}

/// `a` and `b` are equal modulo `2^64`.
pub open spec fn congruent(a: int, b: int) -> bool {
    exists|k: int| a == b + #[trigger] wraps(k)
}

/// A wrapping addition is the addition modulo `2^64`, and congruence goes
/// through sums.
pub proof fn lemma_congruent_add(x: i64, y: i64, a: int, b: int)
    requires
        congruent(x as int, a),
        congruent(y as int, b),
    ensures
        congruent(x.wrapping_add(y) as int, a + b),
{
    let k1 = choose|k: int| x as int == a + #[trigger] wraps(k);
    let k2 = choose|k: int| y as int == b + #[trigger] wraps(k);
    let s = x as int + y as int;
    let w = x.wrapping_add(y) as int;
    if s > i64::MAX {
        assert(w == s - 0x1_0000_0000_0000_0000);
        assert(w == a + b + wraps(k1 + k2 - 1));
    } else if s < i64::MIN {
        assert(w == s + 0x1_0000_0000_0000_0000);
        assert(w == a + b + wraps(k1 + k2 + 1));
    } else {
        assert(w == s);
        assert(w == a + b + wraps(k1 + k2));
    }
}

/// Every value is congruent to itself.
pub proof fn lemma_congruent_refl(a: int)
    ensures
        congruent(a, a),
{
    assert(a == a + wraps(0));
}

/// Congruence carries over to an equal value.
pub proof fn lemma_congruent_eq(a: int, b: int, c: int)
    requires
        congruent(a, b),
        b == c,
    ensures
        congruent(a, c),
{
}

/// With every child marked, the marked sums are the full ones.
pub proof fn lemma_done_all(nodes: Seq<Node>, base: Seq<int>, v: int, k: int, done: Seq<bool>)
    requires
        0 <= k <= nodes[v].children@.len(),
        forall|j: int| 0 <= j < k ==> done[#[trigger] nodes[v].children@[j] as int],
    ensures
        done_sum(nodes, base, v, k, done) == kids_sum(nodes, base, v, k),
        done_max(nodes, base, v, k, done) == kids_max(nodes, base, v, k),
    decreases k,
{
    if k > 0 {
        lemma_done_all(nodes, base, v, k - 1, done);
        let c = nodes[v].children@[k - 1];
    }
}

/// With no child marked, the marked sum is 0 and the marked maximum `base[v]`.
pub proof fn lemma_done_none(nodes: Seq<Node>, base: Seq<int>, v: int, k: int, done: Seq<bool>)
    requires
        0 <= k <= nodes[v].children@.len(),
        forall|j: int| 0 <= j < k ==> !done[#[trigger] nodes[v].children@[j] as int],
    ensures
        done_sum(nodes, base, v, k, done) == 0,
        done_max(nodes, base, v, k, done) == base[v],
    decreases k,
{
    if k > 0 {
        lemma_done_none(nodes, base, v, k - 1, done);
        let c = nodes[v].children@[k - 1];
    }
}

/// Marking `x`: the marked sum of `v` grows by the subtree sum of `x` (and
/// its maximum joins) where `x` is a child of `v` (listed once), and stays
/// otherwise.
pub proof fn lemma_done_mark(nodes: Seq<Node>, base: Seq<int>, v: int, k: int, done: Seq<bool>, x: int)
    requires
        0 <= k <= nodes[v].children@.len(),
        nodes[v].children@.no_duplicates(),
        forall|j: int| 0 <= j < k ==> (#[trigger] nodes[v].children@[j]) < done.len(),
        0 <= x < done.len(),
        !done[x],
    ensures
        ({
            let is_kid = exists|j: int| 0 <= j < k && nodes[v].children@[j] as int == x;
            let d2 = done.update(x, true);
            &&& done_sum(nodes, base, v, k, d2) == done_sum(nodes, base, v, k, done)
                + if is_kid && deeper(nodes, v, x) { sub_sum(nodes, base, x) } else { 0 }
            &&& done_max(nodes, base, v, k, d2) == if is_kid && deeper(nodes, v, x)
                && sub_max(nodes, base, x) > done_max(nodes, base, v, k, done) {
                sub_max(nodes, base, x)
            } else {
                done_max(nodes, base, v, k, done)
            }
        }),
    decreases k,
{
    let d2 = done.update(x, true);
    if k > 0 {
        lemma_done_mark(nodes, base, v, k - 1, done, x);
        let c = nodes[v].children@[k - 1] as int;
        let was = exists|j: int| 0 <= j < k - 1 && nodes[v].children@[j] as int == x;
        if c == x {
            assert(!was) by {
                if was {
                    let j = choose|j: int| 0 <= j < k - 1 && nodes[v].children@[j] as int == x;
                    assert(nodes[v].children@[j] == nodes[v].children@[k - 1]);
                }
            }
            assert(exists|j: int| 0 <= j < k && nodes[v].children@[j] as int == x) by {
                assert(nodes[v].children@[k - 1] as int == x);
            }
        } else {
            assert(nodes[v].children@[k - 1] < done.len());
            assert(d2[c] == done[c]);
            assert((exists|j: int| 0 <= j < k && nodes[v].children@[j] as int == x) == was) by {
                if exists|j: int| 0 <= j < k && nodes[v].children@[j] as int == x {
                    let j = choose|j: int| 0 <= j < k && nodes[v].children@[j] as int == x;
                    assert(j < k - 1);
                }
            }
        }
    }
}

} // verus!
