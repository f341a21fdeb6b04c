//! The instance: `N` vertices with beauties `A`, `M` edges, the height limit
//! `H`, and the neighbours of each vertex.
use vstd::prelude::*;
use crate::sorting::{sort_pairs, pair_le};

verus! {

/// `G[v]` lists the neighbours of vertex `v` by increasing beauty (then
/// number).
#[derive(Debug)]
pub struct Input {
    pub N: usize,
    pub M: usize,
    pub H: usize,
    pub A: Vec<i64>,
    pub G: Vec<Vec<usize>>,
}

/// The `(beauty, vertex)` pairs of the neighbours of `u` along the edges
/// `uv[..k]`, in the order the edges list them.
pub open spec fn incident(a: Seq<i64>, uv: Seq<(usize, usize)>, u: int, k: int) -> Seq<(i64, usize)>
    decreases k,
{
    if k <= 0 {
        seq![]
    } else {
        let e = uv[k - 1];
        let s0 = incident(a, uv, u, k - 1);
        let s1 = if e.0 == u { s0.push((a[e.1 as int], e.1)) } else { s0 };
        if e.1 == u { s1.push((a[e.0 as int], e.0)) } else { s1 }
    }
}

/// `g` lists the neighbours of `u` by increasing `(beauty, vertex)`.
pub open spec fn sorted_neighbours(a: Seq<i64>, uv: Seq<(usize, usize)>, u: int, g: Seq<usize>) -> bool {
    exists|p: Seq<(i64, usize)>| {
        &&& #[trigger] p.to_multiset() == incident(a, uv, u, uv.len() as int).to_multiset()
        &&& forall|i: int, j: int| 0 <= i < j < p.len() ==> pair_le(#[trigger] p[i], #[trigger] p[j])
        &&& g == p.map_values(|x: (i64, usize)| x.1)
    }
}

/// The neighbour lists of the graph with edges `uv`: `sorted_neighbours`
/// of each vertex.
pub fn build_graph(n: usize, a: &Vec<i64>, uv: &Vec<(usize, usize)>) -> (g: Vec<Vec<usize>>)
    requires
        a@.len() == n,
        forall|e: int| 0 <= e < uv@.len() ==> (#[trigger] uv@[e]).0 < n && uv@[e].1 < n,
    ensures
        g@.len() == n,
        forall|u: int| 0 <= u < n ==> sorted_neighbours(a@, uv@, u, (#[trigger] g@[u])@),
{
    let mut pairs: Vec<Vec<(i64, usize)>> = Vec::new();
    let mut u: usize = 0;
    while u < n
        invariant
            0 <= u <= n,
            pairs@.len() == u,
            forall|w: int| 0 <= w < u ==> (#[trigger] pairs@[w])@ == Seq::<(i64, usize)>::empty(),
        decreases n - u,
    {
        pairs.push(Vec::new());
        u += 1;
    }
    let mut e: usize = 0;
    while e < uv.len()
        invariant
            a@.len() == n,
            forall|e: int| 0 <= e < uv@.len() ==> (#[trigger] uv@[e]).0 < n && uv@[e].1 < n,
            0 <= e <= uv@.len(),
            pairs@.len() == n,
            forall|w: int| 0 <= w < n ==> (#[trigger] pairs@[w])@ == incident(a@, uv@, w, e as int),
        decreases uv@.len() - e,
    {
        let (x, y) = uv[e];
        let ghost before = pairs@;
        let ax = a[x];
        let ay = a[y];
        pairs[x].push((ay, y));
        pairs[y].push((ax, x));
        proof {
            assert forall|w: int| 0 <= w < n implies (#[trigger] pairs@[w])@ == incident(a@, uv@, w, e + 1) by {
                if w == x && w == y {
                } else if w == x {
                } else if w == y {
                } else {
                    assert(pairs@[w] == before[w]);
                }
            }
        }
        e += 1;
    }
    let mut g: Vec<Vec<usize>> = Vec::new();
    let mut u: usize = 0;
    while u < n
        invariant
            0 <= u <= n,
            pairs@.len() == n,
            forall|w: int| 0 <= w < n ==> (#[trigger] pairs@[w])@ == incident(a@, uv@, w, uv@.len() as int),
            g@.len() == u,
            forall|w: int| 0 <= w < u ==> sorted_neighbours(a@, uv@, w, (#[trigger] g@[w])@),
        decreases n - u,
    {
        let mut p: Vec<(i64, usize)> = Vec::new();
        let mut k: usize = 0;
        while k < pairs[u].len()
            invariant
                0 <= u < n,
                pairs@.len() == n,
                0 <= k <= pairs@[u as int]@.len(),
                p@ == pairs@[u as int]@.subrange(0, k as int),
            decreases pairs@[u as int]@.len() - k,
        {
            let (x, y) = pairs[u][k];
            p.push((x, y));
            k += 1;
            proof {
                assert(p@ =~= pairs@[u as int]@.subrange(0, k as int));
            }
        }
        proof {
            assert(p@ =~= pairs@[u as int]@);
        }
        sort_pairs(&mut p);
        let mut row: Vec<usize> = Vec::new();
        let mut k: usize = 0;
        while k < p.len()
            invariant
                0 <= k <= p@.len(),
                row@ == p@.subrange(0, k as int).map_values(|x: (i64, usize)| x.1),
            decreases p@.len() - k,
        {
            row.push(p[k].1);
            k += 1;
            proof {
                assert(row@ =~= p@.subrange(0, k as int).map_values(|x: (i64, usize)| x.1));
            }
        }
        proof {
            assert(p@.subrange(0, p@.len() as int) =~= p@);
            assert(p@.to_multiset() == incident(a@, uv@, u as int, uv@.len() as int).to_multiset());
            assert(sorted_neighbours(a@, uv@, u as int, row@));
        }
        g.push(row);
        u += 1;
    }
    g
}

} // verus!
