//! The greedy construction: from the least beautiful free vertex, try every
//! simple path of free vertices down to a fixed length, hang the free
//! neighbours below its end for the remaining levels, and keep the best.
use vstd::prelude::*;
use crate::ahc041::input::Input;
use crate::ahc041::state::{
    State, graph, wsum, beauty, valid_forest, growing, unused, keyed, A_MAX, N_MAX, lemma_wsum_mark, lemma_unused_mark,
    lemma_grow_mark, lemma_wsum_bound, lemma_wsum_none, lemma_wsum_all, lemma_sorted_keys, lemma_every_key,
};
use crate::sorting::{sort_pairs, pair_le};

verus! {

/// The number of levels hung below the end of a path.
pub const REMAIN: usize = 5;

/// `route` is a simple path of free vertices of `g` from `root`.
pub open spec fn free_path(g: Seq<Seq<usize>>, used: Seq<bool>, root: usize, route: Seq<usize>) -> bool {
    &&& route.len() >= 1
    &&& route[0] == root
    &&& route.no_duplicates()
    &&& forall|k: int| 0 <= k < route.len() ==> (#[trigger] route[k]) < used.len() && !used[route[k] as int]
    &&& forall|k: int| 1 <= k < route.len() ==> g[route[k - 1] as int].contains(#[trigger] route[k])
}

/// `part` (vertex, parent) hangs free vertices, each once, at depths `dd`
/// within `hmax`: first a root, then each vertex under a vertex listed
/// before it, one level down, along an edge of `g`.
#[verifier::opaque]
pub open spec fn part_ok(g: Seq<Seq<usize>>, hmax: int, used: Seq<bool>, part: Seq<(usize, i32)>, dd: Seq<int>) -> bool {
    let n = used.len();
    &&& dd.len() == n
    &&& part.len() >= 1
    &&& part[0].1 == -1
    &&& forall|k: int| 0 <= k < part.len() ==> {
        &&& (#[trigger] part[k]).0 < n
        &&& !used[part[k].0 as int]
        &&& 0 <= dd[part[k].0 as int] <= hmax
    }
    &&& dd[part[0].0 as int] == 0
    &&& forall|k: int, j: int| 0 <= k < part.len() && 0 <= j < part.len() && k != j ==> (#[trigger] part[k]).0 != (#[trigger] part[j]).0
    &&& forall|k: int| 1 <= k < part.len() ==> {
        &&& 0 <= (#[trigger] part[k]).1 < n
        &&& (exists|j: int| 0 <= j < k && #[trigger] part[j].0 == part[k].1 as usize)
        &&& dd[part[k].0 as int] == dd[part[k].1 as int] + 1
        &&& g[part[k].1 as int].contains(part[k].0)
    }
}

/// The score of the first `k` entries of `part`: beauty times depth plus one.
pub open spec fn psum(a: Seq<i64>, part: Seq<(usize, i32)>, dd: Seq<int>, k: int) -> int
    decreases k,
{
    if k <= 0 { 0 } else { psum(a, part, dd, k - 1) + a[part[k - 1].0 as int] * (dd[part[k - 1].0 as int] + 1) }
}

impl Input {
    /// What the greedy needs besides `wf`: every beauty at least 1 (each
    /// round then gains something) and room for the path levels.
    pub open spec fn greedy_ok(&self) -> bool {
        &&& self.wf()
        &&& self.H >= REMAIN
        &&& forall|v: int| 0 <= v < self.N ==> 1 <= #[trigger] self.A@[v]
    }
}

/// The paths of a list of vertex lists.
pub open spec fn paths(s: Seq<Vec<usize>>) -> Seq<Seq<usize>> {
    s.map_values(|r: Vec<usize>| r@)
}

/// `route` continued by each of the first `k` neighbours of its end that is
/// free and not on it yet, in the order of the neighbour list.
pub open spec fn extensions(g: Seq<Seq<usize>>, used: Seq<bool>, route: Seq<usize>, k: int) -> Seq<Seq<usize>>
    decreases k,
{
    if k <= 0 {
        Seq::empty()
    } else {
        let prev = extensions(g, used, route, k - 1);
        let nxt = g[route.last() as int][k - 1];
        if !used[nxt as int] && !route.contains(nxt) { prev.push(route.push(nxt)) } else { prev }
    }
}

/// What the first `q` paths of `level` give: the paths that end there (of
/// `route_len` vertices, or with no way on) and the paths one vertex longer.
pub open spec fn level_step(g: Seq<Seq<usize>>, used: Seq<bool>, level: Seq<Seq<usize>>, route_len: int, q: int)
    -> (Seq<Seq<usize>>, Seq<Seq<usize>>)
    decreases q,
{
    if q <= 0 {
        (Seq::empty(), Seq::empty())
    } else {
        let (fin, next) = level_step(g, used, level, route_len, q - 1);
        let route = level[q - 1];
        if route.len() == route_len {
            (fin.push(route), next)
        } else {
            let ext = extensions(g, used, route, g[route.last() as int].len() as int);
            if ext.len() == 0 { (fin.push(route), next) } else { (fin, next + ext) }
        }
    }
}

/// The paths that end, level after level, starting from `level`, whose
/// paths have `len` vertices out of at most `n`.
pub open spec fn routes_from(g: Seq<Seq<usize>>, used: Seq<bool>, level: Seq<Seq<usize>>, len: int, route_len: int, n: int)
    -> Seq<Seq<usize>>
    decreases n + 1 - len,
{
    if level.len() == 0 || len > n {
        Seq::empty()
    } else {
        let (fin, next) = level_step(g, used, level, route_len, level.len() as int);
        fin + routes_from(g, used, next, len + 1, route_len, n)
    }
}

/// The simple paths of free vertices from `root` (of `route_len` vertices, or
/// shorter where no free neighbour continues them), listed level by level in
/// the order of a breadth-first search over paths.
fn enumerate_routes(input: &Input, used: &Vec<bool>, root: usize, route_len: usize) -> (routes: Vec<Vec<usize>>)
    requires
        input.wf(),
        used@.len() == input.N,
        root < input.N,
        !used@[root as int],
        route_len >= 1,
    ensures
        routes@.len() >= 1,
        forall|r: int| 0 <= r < routes@.len() ==> free_path(graph(input.G@), used@, root, (#[trigger] routes@[r])@)
            && routes@[r]@.len() <= route_len,
        paths(routes@) == routes_from(graph(input.G@), used@, seq![seq![root]], 1, route_len as int, input.N as int),
{
    let ghost g = graph(input.G@);
    let n = input.N;
    let mut routes: Vec<Vec<usize>> = Vec::new();
    let mut level: Vec<Vec<usize>> = Vec::new();
    let mut start: Vec<usize> = Vec::new();
    start.push(root);
    proof {
        assert(start@.no_duplicates());
    }
    level.push(start);
    let mut len: usize = 1;
    proof {
        assert(paths(level@) =~= seq![seq![root]]);
        assert(paths(routes@) =~= Seq::<Seq<usize>>::empty());
        assert(paths(routes@) + routes_from(g, used@, paths(level@), 1, route_len as int, n as int)
            =~= routes_from(g, used@, seq![seq![root]], 1, route_len as int, n as int));
    }
    while level.len() > 0
        invariant
            input.wf(),
            n == input.N,
            g == graph(input.G@),
            used@.len() == n,
            !used@[root as int],
            1 <= len,
            forall|r: int| 0 <= r < level@.len() ==> free_path(g, used@, root, (#[trigger] level@[r])@)
                && level@[r]@.len() == len,
            level@.len() > 0 ==> len <= n,
            len <= n + 1,
            forall|r: int| 0 <= r < routes@.len() ==> free_path(g, used@, root, (#[trigger] routes@[r])@)
                && routes@[r]@.len() <= route_len,
            route_len >= 1,
            level@.len() == 0 ==> routes@.len() >= 1,
            len == 1 ==> level@.len() == 1,
            level@.len() > 0 ==> len <= route_len,
            paths(routes@) + routes_from(g, used@, paths(level@), len as int, route_len as int, n as int)
                == routes_from(g, used@, seq![seq![root]], 1, route_len as int, n as int),
        decreases n + 1 - len,
    {
        let mut next: Vec<Vec<usize>> = Vec::new();
        let mut q: usize = 0;
        let ghost rl0 = routes@.len();
        let ghost r0 = paths(routes@);
        let ghost lv = paths(level@);
        while q < level.len()
            invariant
                input.wf(),
                n == input.N,
                g == graph(input.G@),
                used@.len() == n,
                1 <= len <= n,
                forall|r: int| 0 <= r < level@.len() ==> free_path(g, used@, root, (#[trigger] level@[r])@)
                    && level@[r]@.len() == len,
                forall|r: int| 0 <= r < next@.len() ==> free_path(g, used@, root, (#[trigger] next@[r])@)
                    && next@[r]@.len() == len + 1,
                forall|r: int| 0 <= r < routes@.len() ==> free_path(g, used@, root, (#[trigger] routes@[r])@)
                    && routes@[r]@.len() <= route_len,
                len <= route_len,
                next@.len() > 0 ==> len < route_len,
                0 <= q <= level@.len(),
                routes@.len() >= rl0,
                q > 0 ==> routes@.len() > rl0 || next@.len() > 0,
                lv == paths(level@),
                paths(routes@) == r0 + level_step(g, used@, lv, route_len as int, q as int).0,
                paths(next@) == level_step(g, used@, lv, route_len as int, q as int).1,
            decreases level@.len() - q,
        {
            let route = &level[q];
            let ghost rb = paths(routes@);
            proof {
                assert(lv[q as int] == route@);
            }
            if route.len() == route_len {
                routes.push(route.clone());
                proof {
                    assert(routes@.last()@ == route@);
                    assert(paths(routes@) =~= rb.push(route@));
                }
                q += 1;
                continue;
            }
            let pos = route[route.len() - 1];
            proof {
                assert(route@[route@.len() - 1] < n);
            }
            let mut exists = false;
            let mut k: usize = 0;
            let ghost nb = paths(next@);
            proof {
                assert(extensions(g, used@, route@, 0) =~= Seq::<Seq<usize>>::empty());
                assert(nb + extensions(g, used@, route@, 0) =~= nb);
            }
            while k < input.G[pos].len()
                invariant
                    input.wf(),
                    n == input.N,
                    g == graph(input.G@),
                    used@.len() == n,
                    pos < n,
                    route@.len() == len,
                    1 <= len <= n,
                    route@[len - 1] == pos,
                    free_path(g, used@, root, route@),
                    forall|r: int| 0 <= r < next@.len() ==> free_path(g, used@, root, (#[trigger] next@[r])@)
                        && next@[r]@.len() == len + 1,
                    len < route_len,
                    exists ==> next@.len() > 0,
                    0 <= k <= input.G@[pos as int]@.len(),
                    paths(next@) == nb + extensions(g, used@, route@, k as int),
                    exists == (extensions(g, used@, route@, k as int).len() > 0),
                    route@.last() == pos,
                decreases input.G@[pos as int]@.len() - k,
            {
                let ghost ek = extensions(g, used@, route@, k as int);
                let nxt = input.G[pos][k];
                proof {
                    assert(g[pos as int] == input.G@[pos as int]@);
                    assert(g[pos as int][k as int] == nxt);
                }
                if !used[nxt] && !contains(route, nxt) {
                    exists = true;
                    let mut next_route = route.clone();
                    proof {
                        assert(next_route@ =~= route@);
                    }
                    next_route.push(nxt);
                    proof {
                        let nr = next_route@;
                        assert(nr.no_duplicates()) by {
                            assert forall|i: int, j: int| 0 <= i < j < nr.len() implies nr[i] != nr[j] by {
                                if j == nr.len() - 1 {
                                    assert(nr[i] == route@[i]);
                                    assert(route@.contains(nr[i]));
                                }
                            }
                        }
                        assert(g[pos as int].contains(nxt));
                        assert forall|k2: int| 1 <= k2 < nr.len() implies g[nr[k2 - 1] as int].contains(#[trigger] nr[k2]) by {
                            if k2 < nr.len() - 1 {
                                assert(nr[k2] == route@[k2]);
                                assert(nr[k2 - 1] == route@[k2 - 1]);
                            }
                        }
                        assert(free_path(g, used@, root, nr));
                    }
                    let ghost nx = paths(next@);
                    next.push(next_route);
                    proof {
                        assert(paths(next@) =~= nx.push(route@.push(nxt)));
                        assert(extensions(g, used@, route@, k + 1) == ek.push(route@.push(nxt)));
                        assert(paths(next@) =~= nb + extensions(g, used@, route@, k + 1));
                    }
                } else {
                    proof {
                        assert(extensions(g, used@, route@, k + 1) == ek);
                    }
                }
                k += 1;
            }
            proof {
                assert(g[pos as int].len() == k);
            }
            if !exists {
                routes.push(route.clone());
                proof {
                    assert(routes@.last()@ == route@);
                    assert(paths(routes@) =~= rb.push(route@));
                    assert(nb + extensions(g, used@, route@, k as int) =~= nb);
                }
            } else {
                proof {
                    assert(paths(routes@) =~= rb);
                }
            }
            q += 1;
        }
        proof {
            if next@.len() > 0 {
                let r0 = next@[0]@;
                assert(free_path(g, used@, root, r0));
                lemma_path_len(r0, n as int);
            }
        }
        proof {
            assert(q == level@.len());
            assert(lv.len() == level@.len());
            let st = level_step(g, used@, lv, route_len as int, lv.len() as int);
            assert(routes_from(g, used@, lv, len as int, route_len as int, n as int)
                == st.0 + routes_from(g, used@, st.1, len + 1, route_len as int, n as int));
            assert(paths(routes@) + routes_from(g, used@, paths(next@), len + 1, route_len as int, n as int)
                =~= r0 + routes_from(g, used@, lv, len as int, route_len as int, n as int));
        }
        level = next;
        len = len + 1;
    }
    proof {
        assert(routes_from(g, used@, paths(level@), len as int, route_len as int, n as int) =~= Seq::<Seq<usize>>::empty());
        assert(paths(routes@) + routes_from(g, used@, paths(level@), len as int, route_len as int, n as int) =~= paths(routes@));
    }
    routes
}

/// A path without repeated vertices below `n` has at most `n` vertices.
proof fn lemma_path_len(r: Seq<usize>, n: int)
    requires
        0 <= n,
        r.no_duplicates(),
        forall|k: int| 0 <= k < r.len() ==> (#[trigger] r[k]) < n,
    ensures
        r.len() <= n,
{
    let s = r.to_set();
    r.unique_seq_to_set();
    lemma_finite_below(n);
    assert(s.subset_of(Set::new(|v: usize| v < n)));
    vstd::set_lib::lemma_len_subset(s, Set::new(|v: usize| v < n));
}

proof fn lemma_finite_below(n: int)
    requires
        0 <= n,
    ensures
        Set::new(|v: usize| v < n).finite(),
        Set::new(|v: usize| v < n).len() <= n,
    decreases n,
{
    if n == 0 {
        assert(Set::new(|v: usize| v < n) =~= Set::<usize>::empty());
    } else {
        lemma_finite_below(n - 1);
        let a = Set::new(|v: usize| v < n - 1);
        if n - 1 <= usize::MAX {
            assert(Set::new(|v: usize| v < n) =~= a.insert((n - 1) as usize));
        } else {
            assert(Set::new(|v: usize| v < n) =~= a);
        }
    }
}

/// Whether `v` is hung by `part`.
pub open spec fn in_part(part: Seq<(usize, i32)>, v: usize) -> bool {
    exists|k: int| 0 <= k < part.len() && #[trigger] part[k].0 == v
}

/// Hanging `x` at depth `dx` adds its term to the score of `part`.
proof fn lemma_psum_push(a: Seq<i64>, part: Seq<(usize, i32)>, x: (usize, i32), dd: Seq<int>, dx: int)
    requires
        forall|k: int| 0 <= k < part.len() ==> (#[trigger] part[k]).0 != x.0 && part[k].0 < dd.len(),
        x.0 < dd.len(),
    ensures
        psum(a, part.push(x), dd.update(x.0 as int, dx), part.len() as int + 1)
            == psum(a, part, dd, part.len() as int) + a[x.0 as int] * (dx + 1),
{
    let d2 = dd.update(x.0 as int, dx);
    let p2 = part.push(x);
    assert forall|j: int| 0 <= j < part.len() implies part[j] == p2[j] && dd[part[j].0 as int] == d2[p2[j].0 as int] by {
        assert(part[j].0 != x.0);
    }
    lemma_psum_ext(a, part, p2, dd, d2, part.len() as int);
}

proof fn lemma_psum_ext(a: Seq<i64>, p1: Seq<(usize, i32)>, p2: Seq<(usize, i32)>, d1: Seq<int>, d2: Seq<int>, k: int)
    requires
        0 <= k <= p1.len(),
        k <= p2.len(),
        forall|j: int| 0 <= j < k ==> p1[j] == p2[j] && d1[p1[j].0 as int] == d2[p2[j].0 as int],
    ensures
        psum(a, p1, d1, k) == psum(a, p2, d2, k),
    decreases k,
{
    if k > 0 {
        lemma_psum_ext(a, p1, p2, d1, d2, k - 1);
    }
}

proof fn lemma_psum_bound(a: Seq<i64>, part: Seq<(usize, i32)>, dd: Seq<int>, hmax: int, k: int)
    requires
        0 <= k <= part.len(),
        0 <= hmax,
        forall|j: int| 0 <= j < k ==> (#[trigger] part[j]).0 < a.len() && 0 <= a[part[j].0 as int] <= A_MAX
            && 0 <= dd[part[j].0 as int] <= hmax,
    ensures
        0 <= psum(a, part, dd, k) <= k * (A_MAX * (hmax + 1)),
    decreases k,
{
    if k > 0 {
        lemma_psum_bound(a, part, dd, hmax, k - 1);
        let v = part[k - 1].0 as int;
        assert(0 <= a[v] * (dd[v] + 1) <= A_MAX * (hmax + 1)) by (nonlinear_arith)
            requires 0 <= a[v] <= A_MAX, 0 <= dd[v] <= hmax;
        assert((k - 1) * (A_MAX * (hmax + 1)) + A_MAX * (hmax + 1) == k * (A_MAX * (hmax + 1))) by (nonlinear_arith);
    }
}

/// The state of the evaluation of a path: `part` hangs free vertices as
/// `part_ok` says, and `pu` marks the used vertices and those of `part`.
pub open spec fn eval_inv(g: Seq<Seq<usize>>, hmax: int, used: Seq<bool>, pu: Seq<bool>, part: Seq<(usize, i32)>, dd: Seq<int>) -> bool {
    &&& pu.len() == used.len()
    &&& part_ok(g, hmax, used, part, dd)
    &&& forall|v: int| 0 <= v < used.len() ==> #[trigger] pu[v] == (used[v] || in_part(part, v as usize))
}

/// Hanging an unmarked vertex `x` under a vertex `p` of the part, one level
/// down along an edge, keeps the evaluation state.
proof fn lemma_hang(g: Seq<Seq<usize>>, hmax: int, used: Seq<bool>, pu: Seq<bool>, part: Seq<(usize, i32)>, dd: Seq<int>,
    x: usize, p: usize, dx: int)
    requires
        eval_inv(g, hmax, used, pu, part, dd),
        used.len() <= usize::MAX,
        x < used.len(),
        !pu[x as int],
        p < used.len(),
        p <= i32::MAX,
        in_part(part, p),
        dx == dd[p as int] + 1,
        0 <= dx <= hmax,
        g[p as int].contains(x),
    ensures
        eval_inv(g, hmax, used, pu.update(x as int, true), part.push((x, p as i32)), dd.update(x as int, dx)),
        forall|k: int| 0 <= k < part.len() ==> (#[trigger] part[k]).0 != x && part[k].0 < dd.len(),
{
    reveal(eval_inv);
    reveal(part_ok);
    let n = used.len();
    let pu2 = pu.update(x as int, true);
    let part2 = part.push((x, p as i32));
    let dd2 = dd.update(x as int, dx);
    assert forall|k: int| 0 <= k < part.len() implies (#[trigger] part[k]).0 != x && part[k].0 < dd.len() by {
        if part[k].0 == x {
            assert(in_part(part, x));
            assert(pu[x as int]);
        }
    }
    assert(!used[x as int]);
    let jp = choose|j: int| 0 <= j < part.len() && #[trigger] part[j].0 == p;
    assert forall|k: int| 0 <= k < part2.len() implies {
        &&& (#[trigger] part2[k]).0 < n
        &&& !used[part2[k].0 as int]
        &&& 0 <= dd2[part2[k].0 as int] <= hmax
    } by {
        if k < part.len() {
            assert(part2[k] == part[k]);
        }
    }
    assert forall|k: int, j: int| 0 <= k < part2.len() && 0 <= j < part2.len() && k != j implies
        (#[trigger] part2[k]).0 != (#[trigger] part2[j]).0 by {
        if k < part.len() && j < part.len() {
            assert(part2[k] == part[k] && part2[j] == part[j]);
        } else if k < part.len() {
            assert(part2[k] == part[k]);
        } else {
            assert(part2[j] == part[j]);
        }
    }
    assert forall|k: int| 1 <= k < part2.len() implies {
        &&& 0 <= (#[trigger] part2[k]).1 < n
        &&& (exists|j: int| 0 <= j < k && #[trigger] part2[j].0 == part2[k].1 as usize)
        &&& dd2[part2[k].0 as int] == dd2[part2[k].1 as int] + 1
        &&& g[part2[k].1 as int].contains(part2[k].0)
    } by {
        if k < part.len() {
            assert(part2[k] == part[k]);
            let j = choose|j: int| 0 <= j < k && #[trigger] part[j].0 == part[k].1 as usize;
            assert(part2[j] == part[j]);
            assert(part[k].1 as usize != x) by {
                assert(part[j].0 != x);
            }
        } else {
            assert(part2[jp] == part[jp]);
            assert(p != x) by {
                assert(part[jp].0 != x);
            }
        }
    }
    assert(part2[0] == part[0]);
    assert(part[0].0 != x);
    assert forall|v: int| 0 <= v < n implies #[trigger] pu2[v] == (used[v] || in_part(part2, v as usize)) by {
        if v == x as int {
            assert(part2[part.len() as int].0 == x);
            assert(in_part(part2, x));
            assert(v as usize == x);
            assert(pu2[v]);
        } else {
            assert(pu2[v] == pu[v]);
            assert(pu[v] == (used[v] || in_part(part, v as usize)));
            if in_part(part, v as usize) {
                let k = choose|k: int| 0 <= k < part.len() && #[trigger] part[k].0 == v as usize;
                assert(part2[k] == part[k]);
            }
            if in_part(part2, v as usize) {
                let k = choose|k: int| 0 <= k < part2.len() && #[trigger] part2[k].0 == v as usize;
                if k < part.len() {
                    assert(part2[k] == part[k]);
                    assert(in_part(part, v as usize));
                } else {
                    assert(part2[k].0 == x);
                    assert(false);
                }
            }
        }
    }
}

proof fn lemma_part_len(part: Seq<(usize, i32)>, n: int)
    requires
        0 <= n,
        forall|k: int| 0 <= k < part.len() ==> (#[trigger] part[k]).0 < n,
        forall|k: int, j: int| 0 <= k < part.len() && 0 <= j < part.len() && k != j ==> (#[trigger] part[k]).0 != (#[trigger] part[j]).0,
    ensures
        part.len() <= n,
{
    let f = part.map_values(|x: (usize, i32)| x.0);
    assert(f.no_duplicates()) by {
        assert forall|i: int, j: int| 0 <= i < f.len() && 0 <= j < f.len() && i != j implies f[i] != f[j] by {
            assert(f[i] == part[i].0 && f[j] == part[j].0);
        }
    }
    assert forall|k: int| 0 <= k < f.len() implies (#[trigger] f[k]) < n by {
        assert(f[k] == part[k].0);
    }
    lemma_path_len(f, n);
}

/// The first `i` entries of `part` are the path `route[..i]`, at depths
/// `0..i`.
#[verifier::opaque]
pub open spec fn route_prefix(part: Seq<(usize, i32)>, dd: Seq<int>, route: Seq<usize>, i: int) -> bool {
    &&& part.len() == i
    &&& forall|k: int| 0 <= k < i ==> (#[trigger] part[k]).0 == route[k] && dd[route[k] as int] == k
}

proof fn lemma_prefix_extend(part: Seq<(usize, i32)>, dd: Seq<int>, route: Seq<usize>, i: int, p: i32)
    requires
        route_prefix(part, dd, route, i),
        route.no_duplicates(),
        0 <= i < route.len(),
        forall|k: int| 0 <= k < route.len() ==> (#[trigger] route[k]) < dd.len(),
    ensures
        route_prefix(part.push((route[i], p)), dd.update(route[i] as int, i), route, i + 1),
{
    reveal(route_prefix);
    let part2 = part.push((route[i], p));
    let dd2 = dd.update(route[i] as int, i);
    assert forall|k: int| 0 <= k < i + 1 implies (#[trigger] part2[k]).0 == route[k] && dd2[route[k] as int] == k by {
        if k < i {
            assert(part2[k] == part[k]);
            assert(route[k] != route[i]);
        }
    }
}

proof fn lemma_prefix_get(part: Seq<(usize, i32)>, dd: Seq<int>, route: Seq<usize>, i: int, k: int)
    requires
        route_prefix(part, dd, route, i),
        0 <= k < i,
    ensures
        part.len() == i,
        part[k].0 == route[k],
        dd[route[k] as int] == k,
{
    reveal(route_prefix);
    let e = part[k];
    assert(e.0 == route[k]);
    assert(dd[route[k] as int] == k);
}

/// What the evaluation state says, spelt out.
proof fn lemma_eval_facts(g: Seq<Seq<usize>>, hmax: int, used: Seq<bool>, pu: Seq<bool>, part: Seq<(usize, i32)>, dd: Seq<int>)
    requires
        eval_inv(g, hmax, used, pu, part, dd),
    ensures
        part_ok(g, hmax, used, part, dd),
        pu.len() == used.len(),
        dd.len() == used.len(),
        part.len() >= 1,
        forall|v: int| 0 <= v < used.len() ==> #[trigger] pu[v] == (used[v] || in_part(part, v as usize)),
        forall|k: int| 0 <= k < part.len() ==> (#[trigger] part[k]).0 < used.len() && !used[part[k].0 as int]
            && 0 <= dd[part[k].0 as int] <= hmax,
        forall|k: int, j: int| 0 <= k < part.len() && 0 <= j < part.len() && k != j ==> (#[trigger] part[k]).0 != (#[trigger] part[j]).0,
{
    reveal(eval_inv);
    reveal(part_ok);
}

/// One step along the path: vertex `route[i]` hangs under `route[i - 1]`
/// at depth `i`.
#[verifier::rlimit(100)]
proof fn lemma_route_step(input: &Input, g: Seq<Seq<usize>>, used: Seq<bool>, pu: Seq<bool>, part: Seq<(usize, i32)>,
    dd: Seq<int>, route: Seq<usize>, i: int)
    requires
        input.greedy_ok(),
        g == graph(input.G@),
        used.len() == input.N,
        free_path(g, used, route[0], route),
        1 <= i < route.len(),
        route.len() + REMAIN <= input.H + 1,
        route_prefix(part, dd, route, i),
        eval_inv(g, input.H as int, used, pu, part, dd),
    ensures
        !pu[route[i] as int],
        route[i - 1] <= i32::MAX,
        eval_inv(g, input.H as int, used, pu.update(route[i] as int, true), part.push((route[i], route[i - 1] as i32)),
            dd.update(route[i] as int, i)),
        psum(input.A@, part.push((route[i], route[i - 1] as i32)), dd.update(route[i] as int, i), i + 1)
            == psum(input.A@, part, dd, i) + input.A@[route[i] as int] * (i + 1),
        0 <= psum(input.A@, part.push((route[i], route[i - 1] as i32)), dd.update(route[i] as int, i), i + 1)
            <= N_MAX * (A_MAX * (N_MAX + 1)),
        0 <= input.A@[route[i] as int] * (i + 1) <= A_MAX * (N_MAX + 1),
        route_prefix(part.push((route[i], route[i - 1] as i32)), dd.update(route[i] as int, i), route, i + 1),
{
    let n = input.N;
    let hmax = input.H;
    let x = route[i];
    let p = route[i - 1];
    lemma_eval_facts(g, hmax as int, used, pu, part, dd);
    lemma_prefix_get(part, dd, route, i, i - 1);
    assert(part[i - 1].0 == p);
    assert(in_part(part, p));
    assert(!in_part(part, x)) by {
        if in_part(part, x) {
            let k = choose|k: int| 0 <= k < part.len() && #[trigger] part[k].0 == x;
            lemma_prefix_get(part, dd, route, i, k);
            assert(route[k] == route[i]);
        }
    }
    assert(pu[x as int] == (used[x as int] || in_part(part, x)));
    assert(g[p as int].contains(x));
    lemma_hang(g, hmax as int, used, pu, part, dd, x, p, i);
    lemma_psum_push(input.A@, part, (x, p as i32), dd, i);
    let part2 = part.push((x, p as i32));
    let dd2 = dd.update(x as int, i);
    lemma_eval_facts(g, hmax as int, used, pu.update(x as int, true), part2, dd2);
    lemma_part_len(part2, n as int);
    lemma_psum_bound(input.A@, part2, dd2, hmax as int, part2.len() as int);
    assert(part2.len() * (A_MAX * (hmax + 1)) <= N_MAX * (A_MAX * (N_MAX + 1))) by (nonlinear_arith)
        requires part2.len() <= n, n <= N_MAX, hmax <= N_MAX;
    assert(x < n);
    assert(0 <= input.A@[x as int] <= A_MAX);
    assert(i + 1 <= N_MAX + 1);
    assert(0 <= input.A@[x as int] * (i + 1) <= A_MAX * (N_MAX + 1)) by (nonlinear_arith)
        requires 0 <= input.A@[x as int] <= A_MAX, 0 <= i + 1 <= N_MAX + 1, A_MAX == 0x100_0000, N_MAX == 0x1_0000;
    assert forall|k: int| 0 <= k < route.len() implies (#[trigger] route[k]) < dd.len() by {}
    lemma_prefix_extend(part, dd, route, i, p as i32);
}

/// The path `route[..i]` as (vertex, parent) entries, the first a root.
pub open spec fn route_part(route: Seq<usize>, i: int) -> Seq<(usize, i32)>
    decreases i,
{
    if i <= 0 {
        Seq::empty()
    } else if i == 1 {
        seq![(route[0], -1i32)]
    } else {
        route_part(route, i - 1).push((route[i - 1], route[i - 2] as i32))
    }
}

/// The score of the path `route[..i]`: each beauty times its place along
/// the path, counted from one.
pub open spec fn route_score(a: Seq<i64>, route: Seq<usize>, i: int) -> int
    decreases i,
{
    if i <= 0 { 0 } else { route_score(a, route, i - 1) + a[route[i - 1] as int] * i }
}

/// The state of a hanging: the entries so far, the vertices hung on the
/// current level, the score so far.
pub type HangState = (Seq<(usize, i32)>, Seq<usize>, int);

/// Hanging under vertex `i`, at depth `dep`, each of its first `k`
/// neighbours that is free and not hung yet.
pub open spec fn hang_nbrs(a: Seq<i64>, g: Seq<Seq<usize>>, used: Seq<bool>, st: HangState, i: usize, dep: int, k: int) -> HangState
    decreases k,
{
    if k <= 0 {
        st
    } else {
        let s = hang_nbrs(a, g, used, st, i, dep, k - 1);
        let nxt = g[i as int][k - 1];
        if !used[nxt as int] && !in_part(s.0, nxt) {
            (s.0.push((nxt, i as i32)), s.1.push(nxt), s.2 + a[nxt as int] * (dep + 1))
        } else {
            s
        }
    }
}

/// Hanging at depth `dep` under each of the first `q` vertices of `now`.
pub open spec fn hang_level(a: Seq<i64>, g: Seq<Seq<usize>>, used: Seq<bool>, st: HangState, now: Seq<usize>, dep: int, q: int) -> HangState
    decreases q,
{
    if q <= 0 {
        st
    } else {
        let s = hang_level(a, g, used, st, now, dep, q - 1);
        hang_nbrs(a, g, used, s, now[q - 1], dep, g[now[q - 1] as int].len() as int)
    }
}

/// `r` more levels hung below the vertices `now`, the first at depth `dep`:
/// the entries and the score.
pub open spec fn hang_rounds(a: Seq<i64>, g: Seq<Seq<usize>>, used: Seq<bool>, part: Seq<(usize, i32)>, now: Seq<usize>,
    score: int, dep: int, r: int) -> (Seq<(usize, i32)>, int)
    decreases r,
{
    if r <= 0 {
        (part, score)
    } else {
        let s = hang_level(a, g, used, (part, Seq::empty(), score), now, dep, now.len() as int);
        hang_rounds(a, g, used, s.0, s.1, s.2, dep + 1, r - 1)
    }
}

/// The entries that the path `route` hangs (the path, then `REMAIN` levels
/// below its end) and the score they gain.
pub open spec fn evaluation(a: Seq<i64>, g: Seq<Seq<usize>>, used: Seq<bool>, route: Seq<usize>) -> (Seq<(usize, i32)>, int) {
    hang_rounds(a, g, used, route_part(route, route.len() as int), seq![route.last()],
        route_score(a, route, route.len() as int), route.len() as int, REMAIN as int)
}

/// The score gained by the path `route` and the levels hung below it, with
/// the vertices it hangs (vertex, parent) and their depths.
#[verifier::rlimit(60)]
fn evaluate_route(input: &Input, used: &Vec<bool>, route: &Vec<usize>, route_len: usize)
    -> (r: (i64, Vec<(usize, i32)>, Ghost<Seq<int>>))
    requires
        input.greedy_ok(),
        used@.len() == input.N,
        route@.len() >= 1,
        free_path(graph(input.G@), used@, route@[0], route@),
        route@.len() <= route_len,
        route_len + REMAIN == input.H + 1,
    ensures
        part_ok(graph(input.G@), input.H as int, used@, r.1@, r.2@),
        r.0 == psum(input.A@, r.1@, r.2@, r.1@.len() as int),
        r.0 >= 1,
        r.1@ == evaluation(input.A@, graph(input.G@), used@, route@).0,
        r.0 == evaluation(input.A@, graph(input.G@), used@, route@).1,
{
    let ghost g = graph(input.G@);
    let n = input.N;
    let hmax = input.H;
    let mut pu: Vec<bool> = Vec::new();
    let mut k: usize = 0;
    while k < n
        invariant
            0 <= k <= n,
            n == used@.len(),
            pu@ == used@.subrange(0, k as int),
        decreases n - k,
    {
        pu.push(used[k]);
        k += 1;
        proof {
            assert(pu@ =~= used@.subrange(0, k as int));
        }
    }
    proof {
        assert(pu@ =~= used@);
    }
    let root = route[0];
    let mut part: Vec<(usize, i32)> = Vec::new();
    part.push((root, -1));
    pu.set(root, true);
    let ghost mut dd: Seq<int> = Seq::new(n as nat, |v: int| 0int);
    let mut score: i64 = input.A[root];
    proof {
        assert(part@[0].0 == root);
        assert(in_part(part@, root));
        assert forall|v: int| 0 <= v < n implies #[trigger] pu@[v] == (used@[v] || in_part(part@, v as usize)) by {
            if in_part(part@, v as usize) {
                let k = choose|k: int| 0 <= k < part@.len() && #[trigger] part@[k].0 == v as usize;
                assert(k == 0);
            }
        }
        reveal(eval_inv);
        reveal(part_ok);
        reveal(route_prefix);
        assert(eval_inv(g, hmax as int, used@, pu@, part@, dd));
        assert(dd[root as int] == 0);
        assert(psum(input.A@, part@, dd, 0) == 0);
        assert(psum(input.A@, part@, dd, 1) == input.A@[root as int] * (0 + 1));
        assert(input.A@[root as int] * (0 + 1) == input.A@[root as int]) by (nonlinear_arith);
        assert(part@ =~= route_part(route@, 1));
        assert(route_score(input.A@, route@, 0) == 0);
        assert(route@[0] == root);
        assert(input.A@[root as int] * 1 == input.A@[root as int]);
        assert(route_score(input.A@, route@, 1) == input.A@[root as int]);
    }
    let mut i: usize = 1;
    while i < route.len()
        invariant
            input.greedy_ok(),
            n == input.N,
            hmax == input.H,
            g == graph(input.G@),
            used@.len() == n,
            free_path(g, used@, root, route@),
            route@.len() <= route_len,
            route_len + REMAIN == hmax + 1,
            1 <= i <= route@.len(),
            part@.len() == i,
            route_prefix(part@, dd, route@, i as int),
            eval_inv(g, hmax as int, used@, pu@, part@, dd),
            score == psum(input.A@, part@, dd, part@.len() as int),
            score >= 1,
            part@ == route_part(route@, i as int),
            score == route_score(input.A@, route@, i as int),
        decreases route@.len() - i,
    {
        let x = route[i];
        let p = route[i - 1];
        let ghost pb = part@;
        proof {
            lemma_route_step(input, g, used@, pu@, part@, dd, route@, i as int);
        }
        pu.set(x, true);
        part.push((x, p as i32));
        score = score + input.A[x] * (i as i64 + 1);
        proof {
            dd = dd.update(x as int, i as int);
            assert(part@ == route_part(route@, i + 1));
        }
        i += 1;
    }
    let len = route.len();
    let mut now: Vec<usize> = Vec::new();
    now.push(route[len - 1]);
    proof {
        lemma_prefix_get(part@, dd, route@, len as int, len - 1);
        assert(part@[len - 1].0 == route@[len - 1]);
        assert(now@[0] == route@[len - 1]);
        assert(in_part(part@, now@[0]));
        assert(now@ =~= seq![route@.last()]);
    }
    let mut r: usize = 0;
    while r < REMAIN
        invariant
            input.greedy_ok(),
            n == input.N,
            hmax == input.H,
            g == graph(input.G@),
            used@.len() == n,
            len <= route_len,
            len >= 1,
            route_len + REMAIN == hmax + 1,
            0 <= r <= REMAIN,
            forall|q: int| 0 <= q < now@.len() ==> (#[trigger] now@[q]) < n && in_part(part@, now@[q])
                && dd[now@[q] as int] == len - 1 + r,
            eval_inv(g, hmax as int, used@, pu@, part@, dd),
            score == psum(input.A@, part@, dd, part@.len() as int),
            score >= 1,
            hang_rounds(input.A@, g, used@, part@, now@, score as int, len + r, REMAIN - r)
                == evaluation(input.A@, g, used@, route@),
        decreases REMAIN - r,
    {
        let mut next: Vec<usize> = Vec::new();
        let mut q: usize = 0;
        let ghost st0: HangState = (part@, Seq::empty(), score as int);
        proof {
            assert(next@ =~= Seq::<usize>::empty());
        }
        while q < now.len()
            invariant
                input.greedy_ok(),
                n == input.N,
                hmax == input.H,
                g == graph(input.G@),
                used@.len() == n,
                len <= route_len,
                len >= 1,
                route_len + REMAIN == hmax + 1,
                0 <= r < REMAIN,
                forall|q: int| 0 <= q < now@.len() ==> (#[trigger] now@[q]) < n && in_part(part@, now@[q])
                    && dd[now@[q] as int] == len - 1 + r,
                forall|q: int| 0 <= q < next@.len() ==> (#[trigger] next@[q]) < n && in_part(part@, next@[q])
                    && dd[next@[q] as int] == len + r,
                eval_inv(g, hmax as int, used@, pu@, part@, dd),
                score == psum(input.A@, part@, dd, part@.len() as int),
                score >= 1,
                0 <= q <= now@.len(),
                (part@, next@, score as int) == hang_level(input.A@, g, used@, st0, now@, len + r, q as int),
            decreases now@.len() - q,
        {
            let i = now[q];
            let mut k: usize = 0;
            let ghost sq: HangState = (part@, next@, score as int);
            while k < input.G[i].len()
                invariant
                    input.greedy_ok(),
                    n == input.N,
                    hmax == input.H,
                    g == graph(input.G@),
                    used@.len() == n,
                    len <= route_len,
                    len >= 1,
                    route_len + REMAIN == hmax + 1,
                    0 <= r < REMAIN,
                    i < n,
                    in_part(part@, i),
                    dd[i as int] == len - 1 + r,
                    forall|q: int| 0 <= q < now@.len() ==> (#[trigger] now@[q]) < n && in_part(part@, now@[q])
                        && dd[now@[q] as int] == len - 1 + r,
                    forall|q: int| 0 <= q < next@.len() ==> (#[trigger] next@[q]) < n && in_part(part@, next@[q])
                        && dd[next@[q] as int] == len + r,
                    eval_inv(g, hmax as int, used@, pu@, part@, dd),
                    score == psum(input.A@, part@, dd, part@.len() as int),
                    score >= 1,
                    0 <= k <= input.G@[i as int]@.len(),
                    (part@, next@, score as int) == hang_nbrs(input.A@, g, used@, sq, i, len + r, k as int),
                decreases input.G@[i as int]@.len() - k,
            {
                let nxt = input.G[i][k];
                let ghost sk: HangState = (part@, next@, score as int);
                proof {
                    lemma_eval_facts(g, hmax as int, used@, pu@, part@, dd);
                    assert(pu@[nxt as int] == (used@[nxt as int] || in_part(part@, nxt)));
                }
                proof {
                    assert(g[i as int] == input.G@[i as int]@);
                    assert(g[i as int][k as int] == nxt);
                    assert(g[i as int].contains(nxt));
                }
                if !pu[nxt] {
                    proof {
                        lemma_eval_facts(g, hmax as int, used@, pu@, part@, dd);
                        lemma_hang(g, hmax as int, used@, pu@, part@, dd, nxt, i, len + r);
                        lemma_psum_push(input.A@, part@, (nxt, i as i32), dd, len + r);
                        let part2 = part@.push((nxt, i as i32));
                        let dd2 = dd.update(nxt as int, len + r);
                        lemma_eval_facts(g, hmax as int, used@, pu@.update(nxt as int, true), part2, dd2);
                        lemma_part_len(part2, n as int);
                        lemma_psum_bound(input.A@, part2, dd2, hmax as int, part2.len() as int);
                        assert(part2.len() * (A_MAX * (hmax + 1)) <= N_MAX * (A_MAX * (N_MAX + 1))) by (nonlinear_arith)
                            requires part2.len() <= n, n <= N_MAX, hmax <= N_MAX;
                        assert(0 <= input.A@[nxt as int] * (len + r + 1) <= A_MAX * (2 * N_MAX + 6)) by (nonlinear_arith)
                            requires 0 <= input.A@[nxt as int] <= A_MAX, 0 <= len + r + 1 <= 2 * N_MAX + 6,
                                A_MAX == 0x100_0000, N_MAX == 0x1_0000;
                    }
                    let ghost part0 = part@;
                    let ghost dd0 = dd;
                    pu.set(nxt, true);
                    part.push((nxt, i as i32));
                    score = score + input.A[nxt] * (len as i64 + r as i64 + 1);
                    next.push(nxt);
                    proof {
                        dd = dd.update(nxt as int, len + r);
                        assert(part@[part0.len() as int].0 == nxt);
                        assert forall|q2: int| 0 <= q2 < now@.len() implies (#[trigger] now@[q2]) < n && in_part(part@, now@[q2])
                            && dd[now@[q2] as int] == len - 1 + r by {
                            let kk = choose|kk: int| 0 <= kk < part0.len() && #[trigger] part0[kk].0 == now@[q2];
                            assert(part@[kk] == part0[kk]);
                            assert(now@[q2] != nxt);
                        }
                        assert forall|q2: int| 0 <= q2 < next@.len() implies (#[trigger] next@[q2]) < n && in_part(part@, next@[q2])
                            && dd[next@[q2] as int] == len + r by {
                            if q2 < next@.len() - 1 {
                                let kk = choose|kk: int| 0 <= kk < part0.len() && #[trigger] part0[kk].0 == next@[q2];
                                assert(part@[kk] == part0[kk]);
                                assert(next@[q2] != nxt);
                            }
                        }
                        assert(in_part(part@, i)) by {
                            let kk = choose|kk: int| 0 <= kk < part0.len() && #[trigger] part0[kk].0 == i;
                            assert(part@[kk] == part0[kk]);
                        }
                        assert(i != nxt);
                        assert((part@, next@, score as int) == hang_nbrs(input.A@, g, used@, sq, i, len + r, k + 1));
                    }
                } else {
                    proof {
                        assert(hang_nbrs(input.A@, g, used@, sq, i, len + r, k + 1) == sk);
                    }
                }
                k += 1;
            }
            proof {
                assert(now@[q as int] == i);
                assert(g[i as int].len() == k);
            }
            q += 1;
        }
        proof {
            assert(hang_level(input.A@, g, used@, st0, now@, len + r, now@.len() as int) == (part@, next@, score as int));
        }
        now = next;
        r += 1;
    }
    proof {
        assert(hang_rounds(input.A@, g, used@, part@, now@, score as int, len + r, REMAIN - r) == (part@, score as int));
    }
    proof {
        lemma_eval_facts(g, hmax as int, used@, pu@, part@, dd);
    }
    (score, part, Ghost(dd))
}

proof fn lemma_unused_all(used: Seq<bool>, k: int)
    requires
        0 <= k <= used.len(),
        forall|v: int| 0 <= v < k ==> !#[trigger] used[v],
    ensures
        unused(used, k) == k,
    decreases k,
{
    if k > 0 {
        lemma_unused_all(used, k - 1);
    }
}

/// What `part_ok` says, spelt out.
proof fn lemma_part_facts(g: Seq<Seq<usize>>, hmax: int, used: Seq<bool>, part: Seq<(usize, i32)>, dd: Seq<int>)
    requires
        part_ok(g, hmax, used, part, dd),
    ensures
        dd.len() == used.len(),
        part.len() >= 1,
        part[0].1 == -1,
        dd[part[0].0 as int] == 0,
        forall|k: int| 0 <= k < part.len() ==> (#[trigger] part[k]).0 < used.len() && !used[part[k].0 as int]
            && 0 <= dd[part[k].0 as int] <= hmax,
        forall|k: int, j: int| 0 <= k < part.len() && 0 <= j < part.len() && k != j ==> (#[trigger] part[k]).0 != (#[trigger] part[j]).0,
        forall|k: int| 1 <= k < part.len() ==> {
            &&& 0 <= (#[trigger] part[k]).1 < used.len()
            &&& (exists|j: int| 0 <= j < k && #[trigger] part[j].0 == part[k].1 as usize)
            &&& dd[part[k].0 as int] == dd[part[k].1 as int] + 1
            &&& g[part[k].1 as int].contains(part[k].0)
        },
{
    reveal(part_ok);
}

proof fn lemma_unused_zero(used: Seq<bool>, k: int)
    requires
        0 <= k <= used.len(),
        forall|v: int| 0 <= v < k ==> #[trigger] used[v],
    ensures
        unused(used, k) == 0,
    decreases k,
{
    if k > 0 {
        lemma_unused_zero(used, k - 1);
    }
}

proof fn lemma_unused_range(used: Seq<bool>, k: int)
    requires
        0 <= k <= used.len(),
    ensures
        0 <= unused(used, k) <= k,
    decreases k,
{
    if k > 0 {
        lemma_unused_range(used, k - 1);
    }
}

/// Vertex `u` comes before vertex `v` by beauty, then by index.
pub open spec fn key_before(a: Seq<i64>, u: int, v: int) -> bool {
    a[u] < a[v] || (a[u] == a[v] && u < v)
}

/// The free vertex that comes first by beauty, then by index.
pub open spec fn least_free(a: Seq<i64>, used: Seq<bool>) -> usize {
    choose|v: usize| (v as int) < used.len() && !used[v as int]
        && forall|u: int| 0 <= u < used.len() && !used[u] && u != v ==> #[trigger] key_before(a, v as int, u)
}

/// Of the first `q` paths of `routes`, the evaluation (entries, score) of
/// the first that scores most, or no entries and score 0 if `q` is 0.
pub open spec fn best_of(a: Seq<i64>, g: Seq<Seq<usize>>, used: Seq<bool>, routes: Seq<Seq<usize>>, q: int)
    -> (Seq<(usize, i32)>, int)
    decreases q,
{
    if q <= 0 {
        (Seq::empty(), 0)
    } else {
        let b = best_of(a, g, used, routes, q - 1);
        let e = evaluation(a, g, used, routes[q - 1]);
        if e.1 > b.1 { e } else { b }
    }
}

/// The marks and parents after the first `k` entries (vertex, parent) of
/// `part` are taken.
pub open spec fn apply_part(used: Seq<bool>, ans: Seq<i32>, part: Seq<(usize, i32)>, k: int) -> (Seq<bool>, Seq<i32>)
    decreases k,
{
    if k <= 0 {
        (used, ans)
    } else {
        let s = apply_part(used, ans, part, k - 1);
        (s.0.update(part[k - 1].0 as int, true), s.1.update(part[k - 1].0 as int, part[k - 1].1))
    }
}

/// The parents that the greedy rounds give from the marks `used` and the
/// parents `ans`: while a vertex is free, the least free vertex roots the
/// best of its paths, and the entries of that path are taken.
pub open spec fn greedy_rounds(a: Seq<i64>, g: Seq<Seq<usize>>, hmax: int, used: Seq<bool>, ans: Seq<i32>) -> Seq<i32>
    decreases unused(used, used.len() as int),
{
    let n = used.len() as int;
    if unused(used, n) <= 0 {
        ans
    } else {
        let root = least_free(a, used);
        let routes = routes_from(g, used, seq![seq![root]], 1, hmax + 1 - REMAIN, n);
        let best = best_of(a, g, used, routes, routes.len() as int).0;
        let s = apply_part(used, ans, best, best.len() as int);
        if s.0.len() == n && 0 <= unused(s.0, n) < unused(used, n) {
            greedy_rounds(a, g, hmax, s.0, s.1)
        } else {
            s.1
        }
    }
}

/// The parents of the greedy forest of a graph with beauties `a`, neighbour
/// lists `g` and height limit `hmax` (`-1`: a root).
pub open spec fn greedy_parents(a: Seq<i64>, g: Seq<Seq<usize>>, hmax: int) -> Seq<i32> {
    greedy_rounds(a, g, hmax, Seq::new(a.len(), |v: int| false), Seq::new(a.len(), |v: int| -1i32))
}

/// The first free vertex of a sorted `order` of (beauty, vertex) keys is
/// the least free vertex.
proof fn lemma_least_free(a: Seq<i64>, order: Seq<(i64, usize)>, used: Seq<bool>, root: usize, q: int)
    requires
        used.len() <= a.len(),
        used.len() <= usize::MAX,
        order.to_multiset() == keyed(a, used.len() as int).to_multiset(),
        forall|i: int, j: int| 0 <= i < j < order.len() ==> pair_le(#[trigger] order[i], #[trigger] order[j]),
        0 <= q < order.len(),
        order[q].1 == root,
        forall|j: int| 0 <= j < q ==> used[#[trigger] order[j].1 as int],
        root < used.len(),
        !used[root as int],
    ensures
        root == least_free(a, used),
{
    let n = used.len() as int;
    assert forall|u: int| 0 <= u < n && !used[u] && u != root implies #[trigger] key_before(a, root as int, u) by {
        lemma_every_key(a, order, n, u);
        let p = choose|p: int| 0 <= p < order.len() && #[trigger] order[p].1 == u;
        if p < q {
            assert(used[order[p].1 as int]);
        }
        assert(p != q);
        lemma_sorted_keys(a, order, n, p);
        lemma_sorted_keys(a, order, n, q);
        assert(pair_le(order[q], order[p]));
    }
    let v = least_free(a, used);
    assert((root as int) < used.len() && !used[root as int]
        && forall|u: int| 0 <= u < used.len() && !used[u] && u != root ==> #[trigger] key_before(a, root as int, u));
    if v != root {
        assert(key_before(a, v as int, root as int));
        assert(key_before(a, root as int, v as int));
    }
}

/// The first vertex of `order` that is not used.
fn first_unused(order: &Vec<(i64, usize)>, used: &Vec<bool>) -> (root: usize)
    requires
        forall|q: int| 0 <= q < order@.len() ==> (#[trigger] order@[q]).1 < used@.len(),
        exists|q: int| 0 <= q < order@.len() && !used@[#[trigger] order@[q].1 as int],
    ensures
        root < used@.len(),
        !used@[root as int],
        exists|q: int| 0 <= q < order@.len() && order@[q].1 == root
            && forall|j: int| 0 <= j < q ==> used@[#[trigger] order@[j].1 as int],
{
    let mut q: usize = 0;
    while q < order.len()
        invariant
            forall|q: int| 0 <= q < order@.len() ==> (#[trigger] order@[q]).1 < used@.len(),
            exists|q: int| 0 <= q < order@.len() && !used@[#[trigger] order@[q].1 as int],
            0 <= q <= order@.len(),
            forall|j: int| 0 <= j < q ==> used@[#[trigger] order@[j].1 as int],
        decreases order@.len() - q,
    {
        let i = order[q].1;
        if !used[i] {
            proof {
                assert(order@[q as int].1 == i);
            }
            return i;
        }
        q += 1;
    }
    proof {
        let q = choose|q: int| 0 <= q < order@.len() && !used@[#[trigger] order@[q].1 as int];
        assert(used@[order@[q].1 as int]);
    }
    0
}

impl State {
    /// The greedy forest: while a vertex is free, take the least beautiful
    /// free vertex as a root, try every simple path of free vertices from it
    /// (of `H + 1 - REMAIN` vertices, or shorter at dead ends) with the free
    /// neighbours hung below its end for `REMAIN` levels, and keep the first
    /// that scores most. Returns the score and the parent of each vertex
    /// (`-1`: a root): a valid forest and its score.
    #[verifier::rlimit(100)]
    #[verifier::spinoff_prover]
    pub fn greedy_forest(&self, input: &Input) -> (r: (i64, Vec<i32>))
        requires
            input.greedy_ok(),
        ensures
            r.1@.len() == input.N,
            exists|d: Seq<int>| valid_forest(graph(input.G@), input.H as int, r.1@, d) && r.0 == beauty(input.A@, d),
            r.1@ == greedy_parents(input.A@, graph(input.G@), input.H as int),
    {
        let n = input.N;
        let hmax = input.H;
        let ghost g = graph(input.G@);
        let mut used: Vec<bool> = Vec::new();
        let mut ans: Vec<i32> = Vec::new();
        let mut order: Vec<(i64, usize)> = Vec::new();
        let mut i: usize = 0;
        while i < n
            invariant
                input.greedy_ok(),
                n == input.N,
                0 <= i <= n,
                used@ == Seq::new(i as nat, |v: int| false),
                ans@ == Seq::new(i as nat, |v: int| -1i32),
                order@ == keyed(input.A@, i as int),
            decreases n - i,
        {
            used.push(false);
            ans.push(-1);
            order.push((input.A[i], i));
            i += 1;
            proof {
                assert(used@ =~= Seq::new(i as nat, |v: int| false));
                assert(ans@ =~= Seq::new(i as nat, |v: int| -1i32));
                assert(order@ =~= keyed(input.A@, i as int));
            }
        }
        sort_pairs(&mut order);
        proof {
            assert(used@ =~= Seq::new(input.A@.len(), |v: int| false));
            assert(ans@ =~= Seq::new(input.A@.len(), |v: int| -1i32));
        }
        let ghost mut d: Seq<int> = Seq::new(n as nat, |v: int| 0int);
        let mut score: i64 = 1;
        let mut used_cnt: usize = 0;
        let route_len = hmax + 1 - REMAIN;
        proof {
            lemma_wsum_none(input.A@, used@, d, n as int);
            assert forall|q: int| 0 <= q < order@.len() implies (#[trigger] order@[q]).1 < n by {
                lemma_sorted_keys(input.A@, order@, n as int, q);
            }
            assert(unused(used@, n as int) == n) by {
                lemma_unused_all(used@, n as int);
            }
        }
        while used_cnt < n
            invariant
                input.greedy_ok(),
                n == input.N,
                hmax == input.H,
                route_len + REMAIN == hmax + 1,
                g == graph(input.G@),
                order@.len() == n,
                order@.to_multiset() == keyed(input.A@, n as int).to_multiset(),
                forall|q: int| 0 <= q < order@.len() ==> (#[trigger] order@[q]).1 < n,
                used@.len() == n,
                growing(g, hmax as int, used@, ans@, d),
                score == 1 + wsum(input.A@, used@, d, n as int),
                used_cnt + unused(used@, n as int) == n,
                forall|i: int, j: int| 0 <= i < j < order@.len() ==> pair_le(#[trigger] order@[i], #[trigger] order@[j]),
                greedy_rounds(input.A@, g, hmax as int, used@, ans@) == greedy_parents(input.A@, g, hmax as int),
            decreases n - used_cnt,
        {
            proof {
                lemma_unused_range(used@, n as int);
                assert(exists|v: int| 0 <= v < n && !used@[v]) by {
                    if forall|v: int| 0 <= v < n ==> used@[v] {
                        lemma_unused_zero(used@, n as int);
                    }
                }
                let v = choose|v: int| 0 <= v < n && !used@[v];
                lemma_every_key(input.A@, order@, n as int, v);
                let q = choose|q: int| 0 <= q < order@.len() && #[trigger] order@[q].1 == v;
                assert(!used@[order@[q].1 as int]);
            }
            let root = first_unused(&order, &used);
            proof {
                let q = choose|q: int| 0 <= q < order@.len() && order@[q].1 == root
                    && forall|j: int| 0 <= j < q ==> used@[#[trigger] order@[j].1 as int];
                lemma_least_free(input.A@, order@, used@, root, q);
            }
            let routes = enumerate_routes(input, &used, root, route_len);
            let ghost rts = paths(routes@);
            let mut best_score: i64 = 0;
            let mut best_part: Vec<(usize, i32)> = Vec::new();
            let ghost mut best_dd: Seq<int> = Seq::empty();
            let mut q: usize = 0;
            while q < routes.len()
                invariant
                    input.greedy_ok(),
                    n == input.N,
                    hmax == input.H,
                    route_len + REMAIN == hmax + 1,
                    g == graph(input.G@),
                    used@.len() == n,
                    routes@.len() >= 1,
                    forall|r: int| 0 <= r < routes@.len() ==> free_path(g, used@, root, (#[trigger] routes@[r])@)
                        && routes@[r]@.len() <= route_len,
                    0 <= q <= routes@.len(),
                    q == 0 ==> best_score == 0,
                    q > 0 ==> best_score >= 1 && part_ok(g, hmax as int, used@, best_part@, best_dd)
                        && best_score == psum(input.A@, best_part@, best_dd, best_part@.len() as int),
                    rts == paths(routes@),
                    (best_part@, best_score as int) == best_of(input.A@, g, used@, rts, q as int),
                decreases routes@.len() - q,
            {
                proof {
                    assert(rts[q as int] == routes@[q as int]@);
                }
                let (ps, part, Ghost(dd)) = evaluate_route(input, &used, &routes[q], route_len);
                if ps > best_score {
                    best_score = ps;
                    best_part = part;
                    proof {
                        best_dd = dd;
                    }
                }
                q += 1;
            }
            let ghost dd = best_dd;
            let ghost ans0 = ans@;
            proof {
                assert(best_part@ == best_of(input.A@, g, used@, rts, rts.len() as int).0);
            }
            let ghost used0 = used@;
            let ghost d0 = d;
            let ghost w0 = wsum(input.A@, used@, d, n as int);
            proof {
                lemma_part_facts(g, hmax as int, used@, best_part@, dd);
            }
            let mut k: usize = 0;
            while k < best_part.len()
                invariant
                    input.greedy_ok(),
                    n == input.N,
                    hmax == input.H,
                    g == graph(input.G@),
                    used@.len() == n,
                    used0.len() == n,
                    dd.len() == n,
                    best_part@.len() >= 1,
                    best_part@[0].1 == -1,
                    dd[best_part@[0].0 as int] == 0,
                    forall|j: int| 0 <= j < best_part@.len() ==> (#[trigger] best_part@[j]).0 < n && !used0[best_part@[j].0 as int]
                        && 0 <= dd[best_part@[j].0 as int] <= hmax,
                    forall|j: int, l: int| 0 <= j < best_part@.len() && 0 <= l < best_part@.len() && j != l
                        ==> (#[trigger] best_part@[j]).0 != (#[trigger] best_part@[l]).0,
                    forall|j: int| 1 <= j < best_part@.len() ==> {
                        &&& 0 <= (#[trigger] best_part@[j]).1 < n
                        &&& (exists|l: int| 0 <= l < j && #[trigger] best_part@[l].0 == best_part@[j].1 as usize)
                        &&& dd[best_part@[j].0 as int] == dd[best_part@[j].1 as int] + 1
                        &&& g[best_part@[j].1 as int].contains(best_part@[j].0)
                    },
                    0 <= k <= best_part@.len(),
                    forall|j: int| 0 <= j < k ==> used@[(#[trigger] best_part@[j]).0 as int]
                        && d[best_part@[j].0 as int] == dd[best_part@[j].0 as int],
                    forall|j: int| k <= j < best_part@.len() ==> !used@[(#[trigger] best_part@[j]).0 as int],
                    growing(g, hmax as int, used@, ans@, d),
                    wsum(input.A@, used@, d, n as int) == w0 + psum(input.A@, best_part@, dd, k as int),
                    unused(used@, n as int) == unused(used0, n as int) - k,
                    (used@, ans@) == apply_part(used0, ans0, best_part@, k as int),
                decreases best_part@.len() - k,
            {
                let (c, p) = best_part[k];
                let ghost dc = dd[c as int];
                proof {
                    assert(best_part@[k as int] == (c, p));
                    assert(!used@[c as int]);
                    if k == 0 {
                        assert(p == -1 && dc == 0);
                    } else {
                        let l = choose|l: int| 0 <= l < k && #[trigger] best_part@[l].0 == best_part@[k as int].1 as usize;
                        assert(used@[best_part@[l].0 as int]);
                        assert(d[p as int] == dd[p as int]);
                        assert(best_part@[l].0 != c);
                    }
                    lemma_grow_mark(g, hmax as int, used@, ans@, d, c as int, p, dc);
                    lemma_wsum_mark(input.A@, used@, d, c as int, dc, n as int);
                    lemma_unused_mark(used@, c as int, n as int);
                }
                let ghost ub = used@;
                let ghost db = d;
                used.set(c, true);
                ans.set(c, p);
                proof {
                    d = d.update(c as int, dc);
                    assert forall|j: int| 0 <= j < k + 1 implies used@[(#[trigger] best_part@[j]).0 as int]
                        && d[best_part@[j].0 as int] == dd[best_part@[j].0 as int] by {
                        if j < k {
                            assert(ub[best_part@[j].0 as int] && db[best_part@[j].0 as int] == dd[best_part@[j].0 as int]);
                            assert(best_part@[j].0 != c);
                        }
                    }
                    assert forall|j: int| k + 1 <= j < best_part@.len() implies !used@[(#[trigger] best_part@[j]).0 as int] by {
                        assert(!ub[best_part@[j].0 as int]);
                        assert(best_part@[j].0 != c);
                    }
                }
                k += 1;
            }
            proof {
                lemma_wsum_bound(input.A@, used@, d, hmax as int, n as int);
                assert(n * (A_MAX * (hmax + 1)) <= N_MAX * (A_MAX * (N_MAX + 1))) by (nonlinear_arith)
                    requires n <= N_MAX, hmax <= N_MAX;
                lemma_unused_range(used@, n as int);
            }
            proof {
                assert(apply_part(used0, ans0, best_part@, best_part@.len() as int) == (used@, ans@));
                assert(greedy_rounds(input.A@, g, hmax as int, used0, ans0) == greedy_rounds(input.A@, g, hmax as int, used@, ans@));
            }
            score = score + best_score;
            used_cnt = used_cnt + best_part.len();
        }
        proof {
            lemma_unused_range(used@, n as int);
            assert(greedy_rounds(input.A@, g, hmax as int, used@, ans@) == ans@);
        }
        proof {
            assert forall|v: int| 0 <= v < n implies #[trigger] used@[v] by {
                if !used@[v] {
                    lemma_unused_mark(used@, v, n as int);
                }
            }
            lemma_wsum_all(input.A@, used@, d, n as int);
            assert forall|v: int| 0 <= v < n implies {
                &&& 0 <= #[trigger] d[v] <= hmax
                &&& if ans@[v] == -1 {
                    d[v] == 0
                } else {
                    0 <= ans@[v] < n && d[v] == d[ans@[v] as int] + 1 && g[ans@[v] as int].contains(v as usize)
                }
            } by {
                assert(used@[v]);
            }
            assert(valid_forest(g, hmax as int, ans@, d));
            assert(score == beauty(input.A@, d));
        }
        (score, ans)
    }
}

/// Whether `route` holds `v`.
fn contains(route: &Vec<usize>, v: usize) -> (b: bool)
    ensures
        b == route@.contains(v),
{
    let mut k: usize = 0;
    while k < route.len()
        invariant
            0 <= k <= route@.len(),
            forall|j: int| 0 <= j < k ==> route@[j] != v,
        decreases route@.len() - k,
    {
        if route[k] == v {
            return true;
        }
        k += 1;
    }
    false
}

} // verus!
