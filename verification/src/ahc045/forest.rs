//! Kruskal's algorithm on edges given in order, the adjacency bit masks of a
//! set of edges, and the grouping of cities.
use vstd::prelude::*;
use std::collections::HashMap;
use crate::ahc045::union_find::UnionFind;

verus! {

/// The edges as pairs of integers.
pub open spec fn int_pairs(es: Seq<(usize, usize)>) -> Seq<(int, int)> {
    es.map_values(|e: (usize, usize)| (e.0 as int, e.1 as int))
}

/// `x` and `y` are joined by a path of the edges `es` (or are equal).
pub open spec fn linked(es: Seq<(int, int)>, x: int, y: int) -> bool
    decreases es.len(),
{
    if es.len() == 0 {
        x == y
    } else {
        let p = es.drop_last();
        let (u, v) = es.last();
        linked(p, x, y) || (linked(p, x, u) && linked(p, y, v)) || (linked(p, x, v) && linked(p, y, u))
    }
}

/// The edges at positions `pos` of `es`.
pub open spec fn picked(es: Seq<(int, int)>, pos: Seq<int>) -> Seq<(int, int)> {
    pos.map_values(|j: int| es[j])
}

/// The positions of the edges among `es[..k]` that Kruskal's algorithm
/// takes: in order, each edge whose ends the edges taken before do not yet
/// join, until `limit` are taken.
pub open spec fn accepted(es: Seq<(int, int)>, limit: nat, k: int) -> Seq<int>
    decreases k,
{
    if k <= 0 {
        seq![]
    } else {
        let t = accepted(es, limit, k - 1);
        if t.len() < limit && !linked(picked(es, t), es[k - 1].0, es[k - 1].1) {
            t.push(k - 1)
        } else {
            t
        }
    }
}

proof fn lemma_accepted_full(es: Seq<(int, int)>, limit: nat, k: int, n: int)
    requires
        0 <= k <= n,
        accepted(es, limit, k).len() >= limit,
    ensures
        accepted(es, limit, n) == accepted(es, limit, k),
    decreases n - k,
{
    if n > k {
        lemma_accepted_full(es, limit, k, n - 1);
    }
}

proof fn lemma_accepted_positions(es: Seq<(int, int)>, limit: nat, k: int)
    requires
        0 <= k <= es.len(),
    ensures
        forall|j: int| 0 <= j < accepted(es, limit, k).len() ==> 0 <= #[trigger] accepted(es, limit, k)[j] < k,
        accepted(es, limit, k).len() <= k,
    decreases k,
{
    if k > 0 {
        lemma_accepted_positions(es, limit, k - 1);
    }
}

/// The positions of the edges of `edges` (in the given order) that
/// Kruskal's algorithm takes on the points `0..l`, at most `limit` of them.
pub fn kruskal(l: usize, edges: &Vec<(usize, usize)>, limit: usize) -> (r: Vec<usize>)
    requires
        l <= isize::MAX,
        forall|j: int| 0 <= j < edges@.len() ==> (#[trigger] edges@[j]).0 < l && edges@[j].1 < l,
    ensures
        r@.map_values(|j: usize| j as int) == accepted(int_pairs(edges@), limit as nat, edges@.len() as int),
{
    let ghost es = int_pairs(edges@);
    let mut uf = UnionFind::new(l);
    let mut ret: Vec<usize> = Vec::new();
    let mut k: usize = 0;
    while k < edges.len()
        invariant
            uf.wf(),
            uf.size() == l,
            es == int_pairs(edges@),
            forall|j: int| 0 <= j < edges@.len() ==> (#[trigger] edges@[j]).0 < l && edges@[j].1 < l,
            0 <= k <= edges@.len(),
            ret@.map_values(|j: usize| j as int) == accepted(es, limit as nat, k as int),
            forall|x: int, y: int| 0 <= x < l && 0 <= y < l ==>
                (#[trigger] uf.same_spec(x, y) <==> linked(picked(es, accepted(es, limit as nat, k as int)), x, y)),
        decreases edges@.len() - k,
    {
        if ret.len() >= limit {
            proof {
                lemma_accepted_full(es, limit as nat, k as int, edges@.len() as int);
            }
            k = edges.len();
        } else {
            let (u, v) = edges[k];
            let ghost t = accepted(es, limit as nat, k as int);
            proof {
                assert(es[k as int] == (u as int, v as int));
                assert(uf.same_spec(u as int, v as int) == linked(picked(es, t), u as int, v as int));
            }
            let ghost uf0 = uf;
            let joined = uf.unite(u, v);
            if joined {
                ret.push(k);
            }
            k += 1;
            proof {
                let t2 = accepted(es, limit as nat, k as int);
                let pt = picked(es, t);
                if joined {
                    assert(t2 == t.push(k - 1));
                    assert(picked(es, t2) =~= pt.push((u as int, v as int)));
                    assert(picked(es, t2).drop_last() =~= pt);
                } else {
                    assert(t2 == t);
                }
                assert forall|x: int, y: int| 0 <= x < l && 0 <= y < l implies
                    (#[trigger] uf.same_spec(x, y) <==> linked(picked(es, t2), x, y)) by {
                    assert(uf0.same_spec(x, y) == linked(pt, x, y));
                    assert(uf0.same_spec(x, u as int) == linked(pt, x, u as int));
                    assert(uf0.same_spec(y, v as int) == linked(pt, y, v as int));
                    assert(uf0.same_spec(x, v as int) == linked(pt, x, v as int));
                    assert(uf0.same_spec(y, u as int) == linked(pt, y, u as int));
                }
                assert(ret@.map_values(|j: usize| j as int) =~= t2);
            }
        }
    }
    ret
}

/// Being joined by a path of `es` is an equivalence relation.
pub proof fn lemma_linked_equivalence(es: Seq<(int, int)>)
    ensures
        forall|x: int| #[trigger] linked(es, x, x),
        forall|x: int, y: int| #[trigger] linked(es, x, y) ==> linked(es, y, x),
        forall|x: int, y: int, z: int| #[trigger] linked(es, x, y) && #[trigger] linked(es, y, z) ==> linked(es, x, z),
    decreases es.len(),
{
    if es.len() > 0 {
        let p = es.drop_last();
        lemma_linked_equivalence(p);
        let (u, v) = es.last();
        assert forall|x: int| #[trigger] linked(es, x, x) by {
            assert(linked(p, x, x));
        }
        assert forall|x: int, y: int| #[trigger] linked(es, x, y) implies linked(es, y, x) by {
            if linked(p, x, y) {
                assert(linked(p, y, x));
            }
        }
        assert forall|x: int, y: int, z: int| #[trigger] linked(es, x, y) && #[trigger] linked(es, y, z) implies linked(es, x, z) by {
            lemma_linked_trans_step(p, u, v, x, y, z);
        }
    }
}

proof fn lemma_linked_trans_step(p: Seq<(int, int)>, u: int, v: int, x: int, y: int, z: int)
    requires
        forall|x: int| #[trigger] linked(p, x, x),
        forall|x: int, y: int| #[trigger] linked(p, x, y) ==> linked(p, y, x),
        forall|x: int, y: int, z: int| #[trigger] linked(p, x, y) && #[trigger] linked(p, y, z) ==> linked(p, x, z),
        linked(p, x, y) || (linked(p, x, u) && linked(p, y, v)) || (linked(p, x, v) && linked(p, y, u)),
        linked(p, y, z) || (linked(p, y, u) && linked(p, z, v)) || (linked(p, y, v) && linked(p, z, u)),
    ensures
        linked(p, x, z) || (linked(p, x, u) && linked(p, z, v)) || (linked(p, x, v) && linked(p, z, u)),
{
    let pxy = linked(p, x, y);
    let pyx = linked(p, y, x);
    let pyz = linked(p, y, z);
    let pzy = linked(p, z, y);
    let pux = linked(p, u, x);
    let pvx = linked(p, v, x);
    let puy = linked(p, u, y);
    let pvy = linked(p, v, y);
    let puz = linked(p, u, z);
    let pvz = linked(p, v, z);
    let pyu = linked(p, y, u);
    let pyv = linked(p, y, v);
    let pzu = linked(p, z, u);
    let pzv = linked(p, z, v);
    let pxu = linked(p, x, u);
    let pxv = linked(p, x, v);
    let puv = linked(p, u, v);
    let pvu = linked(p, v, u);
}

/// Kruskal's forest, with no limit on its size, joins exactly the points
/// that all the edges considered join: it is a spanning forest of them.
pub proof fn law_kruskal_spans(es: Seq<(int, int)>, k: int, x: int, y: int)
    requires
        0 <= k <= es.len(),
    ensures
        linked(picked(es, accepted(es, es.len(), k)), x, y) == linked(es.subrange(0, k), x, y),
    decreases k,
{
    if k > 0 {
        let t = accepted(es, es.len(), k - 1);
        let pt = picked(es, t);
        let e = es.subrange(0, k);
        let p = es.subrange(0, k - 1);
        assert(e.drop_last() =~= p);
        let (u, v) = es[k - 1];
        assert(e.last() == (u, v));
        lemma_accepted_positions(es, es.len(), k - 1);
        law_kruskal_spans(es, k - 1, x, y);
        law_kruskal_spans(es, k - 1, x, u);
        law_kruskal_spans(es, k - 1, y, v);
        law_kruskal_spans(es, k - 1, x, v);
        law_kruskal_spans(es, k - 1, y, u);
        if !linked(pt, u, v) {
            assert(picked(es, t.push(k - 1)) =~= pt.push((u, v)));
            assert(pt.push((u, v)).drop_last() =~= pt);
        } else {
            law_kruskal_spans(es, k - 1, u, v);
            lemma_linked_equivalence(p);
            assert(linked(p, u, v));
        }
    }
}

/// The bit mask of the neighbours of `i` along the edges `es`: bit `j` is
/// set when an edge joins `i` and `j`.
pub open spec fn mask_of(es: Seq<(int, int)>, i: int) -> u32
    decreases es.len(),
{
    if es.len() == 0 {
        0
    } else {
        let m = mask_of(es.drop_last(), i);
        let (u, v) = es.last();
        let m1 = if u == i { m | (1u32 << (v as u32)) } else { m };
        if v == i { m1 | (1u32 << (u as u32)) } else { m1 }
    }
}

/// The neighbour bit masks of the points `0..l` along `edges`.
pub fn masks_of(l: usize, edges: &Vec<(usize, usize)>) -> (r: Vec<u32>)
    requires
        l <= 32,
        forall|j: int| 0 <= j < edges@.len() ==> (#[trigger] edges@[j]).0 < l && edges@[j].1 < l,
    ensures
        r@.len() == l,
        forall|i: int| 0 <= i < l ==> #[trigger] r@[i] == mask_of(int_pairs(edges@), i),
{
    let ghost es = int_pairs(edges@);
    let mut mask: Vec<u32> = Vec::new();
    let mut i: usize = 0;
    while i < l
        invariant
            0 <= i <= l,
            mask@ == Seq::new(i as nat, |k: int| 0u32),
        decreases l - i,
    {
        mask.push(0);
        i += 1;
        proof {
            assert(mask@ =~= Seq::new(i as nat, |k: int| 0u32));
        }
    }
    let mut k: usize = 0;
    while k < edges.len()
        invariant
            l <= 32,
            es == int_pairs(edges@),
            forall|j: int| 0 <= j < edges@.len() ==> (#[trigger] edges@[j]).0 < l && edges@[j].1 < l,
            0 <= k <= edges@.len(),
            mask@.len() == l,
            forall|i: int| 0 <= i < l ==> #[trigger] mask@[i] == mask_of(es.subrange(0, k as int), i),
        decreases edges@.len() - k,
    {
        let (u, v) = edges[k];
        let ghost before = mask@;
        let mu = mask[u] | (1u32 << (v as u32));
        mask.set(u, mu);
        let mv = mask[v] | (1u32 << (u as u32));
        mask.set(v, mv);
        k += 1;
        proof {
            let s = es.subrange(0, k as int);
            assert(s.drop_last() =~= es.subrange(0, k - 1));
            assert(s.last() == (u as int, v as int));
            assert forall|i: int| 0 <= i < l implies #[trigger] mask@[i] == mask_of(s, i) by {
                let m = before[i];
                assert(m == mask_of(es.subrange(0, k - 1), i));
            }
        }
    }
    proof {
        assert(es.subrange(0, edges@.len() as int) =~= es);
    }
    mask
}

/// The neighbour bit masks of the points `0..l` in the forest that
/// Kruskal's algorithm builds from `edges` (given shortest first) with at
/// most `l - 1` edges.
pub fn limited_mst_mask(l: usize, edges: &Vec<(usize, usize)>) -> (r: Vec<u32>)
    requires
        1 <= l <= 32,
        forall|j: int| 0 <= j < edges@.len() ==> (#[trigger] edges@[j]).0 < l && edges@[j].1 < l,
    ensures
        r@.len() == l,
        forall|i: int| 0 <= i < l ==> #[trigger] r@[i] == mask_of(
            picked(int_pairs(edges@), accepted(int_pairs(edges@), (l - 1) as nat, edges@.len() as int)), i),
{
    let ghost es = int_pairs(edges@);
    let taken = kruskal(l, edges, l - 1);
    let ghost acc = accepted(es, (l - 1) as nat, edges@.len() as int);
    proof {
        lemma_accepted_positions(es, (l - 1) as nat, edges@.len() as int);
        assert forall|j: int| 0 <= j < taken@.len() implies (#[trigger] taken@[j]) < edges@.len() by {
            assert(taken@.map_values(|j: usize| j as int)[j] == acc[j]);
        }
    }
    let mut chosen: Vec<(usize, usize)> = Vec::new();
    let mut k: usize = 0;
    while k < taken.len()
        invariant
            forall|j: int| 0 <= j < taken@.len() ==> (#[trigger] taken@[j]) < edges@.len(),
            forall|j: int| 0 <= j < edges@.len() ==> (#[trigger] edges@[j]).0 < l && edges@[j].1 < l,
            0 <= k <= taken@.len(),
            chosen@ == taken@.subrange(0, k as int).map_values(|j: usize| edges@[j as int]),
        decreases taken@.len() - k,
    {
        chosen.push(edges[taken[k]]);
        k += 1;
        proof {
            assert(chosen@ =~= taken@.subrange(0, k as int).map_values(|j: usize| edges@[j as int]));
        }
    }
    proof {
        assert(taken@.subrange(0, k as int) =~= taken@);
        assert(int_pairs(chosen@) =~= picked(es, acc)) by {
            assert(taken@.map_values(|j: usize| j as int) == acc);
            assert forall|j: int| 0 <= j < acc.len() implies int_pairs(chosen@)[j] == picked(es, acc)[j] by {
                assert(taken@.map_values(|j: usize| j as int)[j] == acc[j]);
            }
        }
        assert forall|j: int| 0 <= j < chosen@.len() implies (#[trigger] chosen@[j]).0 < l && chosen@[j].1 < l by {
            let e = edges@[taken@[j] as int];
        }
    }
    masks_of(l, &chosen)
}

/// The position of each value among `list[..k]`, its last position where
/// it occurs twice.
pub open spec fn positions(list: Seq<usize>, k: int) -> Map<usize, usize>
    decreases k,
{
    if k <= 0 {
        Map::empty()
    } else {
        positions(list, k - 1).insert(list[k - 1], (k - 1) as usize)
    }
}

proof fn lemma_positions(list: Seq<usize>, k: int)
    requires
        0 <= k <= list.len(),
        list.len() <= usize::MAX,
    ensures
        forall|c: usize| #[trigger] positions(list, k).contains_key(c) <==> exists|j: int| 0 <= j < k && list[j] == c,
        forall|c: usize| #[trigger] positions(list, k).contains_key(c) ==> positions(list, k)[c] < k,
    decreases k,
{
    if k > 0 {
        lemma_positions(list, k - 1);
        assert forall|c: usize| #[trigger] positions(list, k).contains_key(c) <==> exists|j: int| 0 <= j < k && list[j] == c by {
            if c != list[k - 1] && positions(list, k).contains_key(c) {
                assert(positions(list, k - 1).contains_key(c));
                let j = choose|j: int| 0 <= j < k - 1 && list[j] == c;
            }
            if exists|j: int| 0 <= j < k && list[j] == c {
                let j = choose|j: int| 0 <= j < k && list[j] == c;
                if j < k - 1 {
                    assert(positions(list, k - 1).contains_key(c));
                }
            }
        }
        assert forall|c: usize| #[trigger] positions(list, k).contains_key(c) implies positions(list, k)[c] < k by {
            if c != list[k - 1] {
                assert(positions(list, k - 1).contains_key(c));
            }
        }
    }
}

/// Each value of `list` mapped to its (last) position.
fn index_map(list: &Vec<usize>) -> (m: HashMap<usize, usize>)
    ensures
        m@ == positions(list@, list@.len() as int),
{
    broadcast use vstd::std_specs::hash::group_hash_axioms;
    let mut m: HashMap<usize, usize> = HashMap::new();
    let mut i: usize = 0;
    while i < list.len()
        invariant
            0 <= i <= list@.len(),
            m@ == positions(list@, i as int),
        decreases list@.len() - i,
    {
        m.insert(list[i], i);
        i += 1;
    }
    m
}

/// `c` occurs in `list`.
pub open spec fn listed(list: Seq<usize>, c: usize) -> bool {
    exists|j: int| 0 <= j < list.len() && list[j] == c
}

/// The edges with each end replaced by its position in `list`.
pub open spec fn local_pairs(list: Seq<usize>, es: Seq<(usize, usize)>) -> Seq<(usize, usize)> {
    let pos = positions(list, list.len() as int);
    es.map_values(|e: (usize, usize)| (pos[e.0], pos[e.1]))
}

/// The edges with each end replaced by its position in `list`.
fn to_local(list: &Vec<usize>, edges: &Vec<(usize, usize)>) -> (r: Vec<(usize, usize)>)
    requires
        forall|j: int| 0 <= j < edges@.len() ==> listed(list@, (#[trigger] edges@[j]).0) && listed(list@, edges@[j].1),
    ensures
        r@ == local_pairs(list@, edges@),
        forall|j: int| 0 <= j < r@.len() ==> (#[trigger] r@[j]).0 < list@.len() && r@[j].1 < list@.len(),
{
    broadcast use vstd::std_specs::hash::group_hash_axioms;
    let m = index_map(list);
    let ll = list.len();
    let ghost pos = positions(list@, list@.len() as int);
    proof {
        lemma_positions(list@, list@.len() as int);
    }
    let mut r: Vec<(usize, usize)> = Vec::new();
    let mut k: usize = 0;
    while k < edges.len()
        invariant
            m@ == pos,
            pos == positions(list@, list@.len() as int),
            forall|c: usize| #[trigger] pos.contains_key(c) <==> listed(list@, c),
            forall|c: usize| #[trigger] pos.contains_key(c) ==> pos[c] < list@.len(),
            forall|j: int| 0 <= j < edges@.len() ==> listed(list@, (#[trigger] edges@[j]).0) && listed(list@, edges@[j].1),
            0 <= k <= edges@.len(),
            r@ == edges@.subrange(0, k as int).map_values(|e: (usize, usize)| (pos[e.0], pos[e.1])),
            forall|j: int| 0 <= j < r@.len() ==> (#[trigger] r@[j]).0 < list@.len() && r@[j].1 < list@.len(),
        decreases edges@.len() - k,
    {
        let (u, v) = edges[k];
        let iu = match m.get(&u) {
            Some(x) => *x,
            None => {
                proof {
                    assert(pos.contains_key(u));
                }
                0
            },
        };
        let iv = match m.get(&v) {
            Some(x) => *x,
            None => {
                proof {
                    assert(pos.contains_key(v));
                }
                0
            },
        };
        r.push((iu, iv));
        k += 1;
        proof {
            assert(r@ =~= edges@.subrange(0, k as int).map_values(|e: (usize, usize)| (pos[e.0], pos[e.1])));
        }
    }
    proof {
        assert(edges@.subrange(0, k as int) =~= edges@);
    }
    r
}

/// The neighbour bit masks of the cities of `city_list` (by position) along
/// `edges`, whose ends are cities of the list.
pub fn maskify(city_list: &Vec<usize>, edges: &Vec<(usize, usize)>) -> (r: Vec<u32>)
    requires
        city_list@.len() <= 32,
        forall|j: int| 0 <= j < edges@.len() ==> listed(city_list@, (#[trigger] edges@[j]).0) && listed(city_list@, edges@[j].1),
    ensures
        r@.len() == city_list@.len(),
        forall|i: int| 0 <= i < city_list@.len() ==> #[trigger] r@[i] == mask_of(int_pairs(local_pairs(city_list@, edges@)), i),
{
    let local = to_local(city_list, edges);
    masks_of(city_list.len(), &local)
}

/// The edges of the spanning forest of the cities of `group` that
/// Kruskal's algorithm builds from `edges` (given shortest first, their ends
/// cities of the group).
pub fn mst_edges(group: &Vec<usize>, edges: &Vec<(usize, usize)>) -> (r: Vec<(usize, usize)>)
    requires
        group@.len() <= isize::MAX,
        forall|j: int| 0 <= j < edges@.len() ==> listed(group@, (#[trigger] edges@[j]).0) && listed(group@, edges@[j].1),
    ensures
        r@ == accepted(int_pairs(local_pairs(group@, edges@)), edges@.len() as nat, edges@.len() as int)
            .map_values(|j: int| edges@[j]),
{
    let local = to_local(group, edges);
    let ghost es = int_pairs(local@);
    let taken = kruskal(group.len(), &local, edges.len());
    let ghost acc = accepted(es, edges@.len() as nat, edges@.len() as int);
    proof {
        lemma_accepted_positions(es, edges@.len() as nat, edges@.len() as int);
        assert forall|j: int| 0 <= j < taken@.len() implies (#[trigger] taken@[j]) as int == acc[j] by {
            assert(taken@.map_values(|j: usize| j as int)[j] == acc[j]);
        }
    }
    let mut ret: Vec<(usize, usize)> = Vec::new();
    let mut k: usize = 0;
    while k < taken.len()
        invariant
            forall|j: int| 0 <= j < taken@.len() ==> (#[trigger] taken@[j]) as int == acc[j],
            acc.len() == taken@.len(),
            forall|j: int| 0 <= j < acc.len() ==> 0 <= #[trigger] acc[j] < edges@.len(),
            0 <= k <= taken@.len(),
            ret@ == acc.subrange(0, k as int).map_values(|j: int| edges@[j]),
        decreases taken@.len() - k,
    {
        ret.push(edges[taken[k]]);
        k += 1;
        proof {
            assert(ret@ =~= acc.subrange(0, k as int).map_values(|j: int| edges@[j]));
        }
    }
    proof {
        assert(acc.subrange(0, k as int) =~= acc);
    }
    ret
}

/// The members of group `g` among `group_id[..k]`, in order.
pub open spec fn members(group_id: Seq<usize>, g: usize, k: int) -> Seq<usize>
    decreases k,
{
    if k <= 0 {
        seq![]
    } else if group_id[k - 1] == g {
        members(group_id, g, k - 1).push((k - 1) as usize)
    } else {
        members(group_id, g, k - 1)
    }
}

/// The cities of each of the groups `0..m`, in order, where city `i` is in
/// group `group_id[i]`.
pub fn calc_groups(group_id: &Vec<usize>, m: usize) -> (r: Vec<Vec<usize>>)
    requires
        forall|i: int| 0 <= i < group_id@.len() ==> #[trigger] group_id@[i] < m,
    ensures
        r@.len() == m,
        forall|g: int| 0 <= g < m ==> (#[trigger] r@[g])@ == members(group_id@, g as usize, group_id@.len() as int),
{
    let mut groups: Vec<Vec<usize>> = Vec::new();
    let mut g: usize = 0;
    while g < m
        invariant
            0 <= g <= m,
            groups@.len() == g,
            forall|h: int| 0 <= h < g ==> (#[trigger] groups@[h])@ == members(group_id@, h as usize, group_id@.len() as int),
        decreases m - g,
    {
        let mut row: Vec<usize> = Vec::new();
        let mut i: usize = 0;
        while i < group_id.len()
            invariant
                0 <= i <= group_id@.len(),
                row@ == members(group_id@, g, i as int),
            decreases group_id@.len() - i,
        {
            if group_id[i] == g {
                row.push(i);
            }
            i += 1;
        }
        groups.push(row);
        g += 1;
    }
    groups
}

/// The FNV-1a style hash of a query: from the offset basis, each city is
/// xor-ed in and the hash multiplied by the FNV prime (wrapping).
pub open spec fn query_hash(v: Seq<usize>, k: int) -> u64
    decreases k,
{
    if k <= 0 {
        0xcbf29ce484222325u64
    } else {
        (((query_hash(v, k - 1) ^ (v[k - 1] as u64)) as nat * 0x100000001b3nat) % 0x1_0000_0000_0000_0000nat) as u64
    }
}

/// The hash of a query, `query_hash`.
pub fn hash_query(v: &Vec<usize>) -> (h: u64)
    ensures
        h == query_hash(v@, v@.len() as int),
{
    let mut h: u64 = 0xcbf29ce484222325;
    let mut i: usize = 0;
    while i < v.len()
        invariant
            0 <= i <= v@.len(),
            h == query_hash(v@, i as int),
        decreases v@.len() - i,
    {
        h ^= v[i] as u64;
        h = h.wrapping_mul(0x100000001b3);
        i += 1;
    }
    h
}

} // verus!