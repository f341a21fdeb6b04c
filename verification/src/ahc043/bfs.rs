//! Breadth-first and best-first searches on the city grid.
//!
//! A distance table holds `CANNOT_VISIT` on blocked squares, `NOT_VISITED`
//! on squares not reached yet, and a distance everywhere else.
use vstd::prelude::*;
use crate::coord::{Coord, dij5, dij_spec, wrap, manhattan_spec, calc_manhattan_dist};
use crate::grid::{view2, total, square_table, at, tget, tset, binary, lemma_total_binary, lemma_total_update};

verus! {

/// The mark of a square that no search has reached (`1 << 60` where `usize`
/// has 64 bits).
pub const NOT_VISITED: usize = usize::MAX / 16 + 1;

/// The mark of a square that a search must not enter (`!0`).
pub const CANNOT_VISIT: usize = usize::MAX;

/// `q` is one of the four squares next to `p`.
pub open spec fn adjacent(p: Coord, q: Coord) -> bool {
    manhattan_spec(p, q) == 1
}

/// A distance that some search has found.
pub open spec fn finite(v: usize) -> bool {
    v < NOT_VISITED
}

/// No step between two open squares of the table shortens a distance: the
/// table is a fixpoint of the relaxation `d(q) <= d(p) + 1`.
pub open spec fn consistent(g: Seq<Seq<usize>>, n: int) -> bool {
    forall|p: Coord, q: Coord|
        #![trigger at(g, p), at(g, q)]
        p.in_map_spec(n as usize) && q.in_map_spec(n as usize) && adjacent(p, q)
            && at(g, p) != CANNOT_VISIT && at(g, q) != CANNOT_VISIT
            ==> at(g, q) <= at(g, p) + 1
}

/// The index (0 Right, 1 Down, 2 Left, 3 Up) of the first of the four
/// directions in which the neighbour of `c` holds `v`, or 4 if none does.
pub open spec fn first_with(g: Seq<Seq<usize>>, n: int, c: Coord, v: int, k: int) -> int
    decreases 4 - k,
{
    if k >= 4 {
        4
    } else {
        let q = step(c, k);
        if q.in_map_spec(n as usize) && at(g, q) == v { k } else { first_with(g, n, c, v, k + 1) }
    }
}

/// The neighbour of `c` in direction `k` (with wrapping coordinates).
pub open spec fn step(c: Coord, k: int) -> Coord {
    Coord { i: wrap(c.i as int, dij_spec(k).0), j: wrap(c.j as int, dij_spec(k).1) }
}

/// Every finite non-zero distance is one more than that of some neighbour.
pub open spec fn descends(g: Seq<Seq<usize>>, n: int) -> bool {
    forall|c: Coord|
        #![trigger at(g, c)]
        c.in_map_spec(n as usize) && finite(at(g, c)) && at(g, c) > 0
            ==> first_with(g, n, c, at(g, c) - 1, 0) < 4
}

/// The path that walks down from `c` (at distance `d`) to a square at
/// distance 0, always to the first neighbour (Right, Down, Left, Up) one
/// closer, listed from that square to `c`.
pub open spec fn descent_path(g: Seq<Seq<usize>>, n: int, c: Coord, d: int) -> Seq<Coord>
    decreases d,
{
    if d <= 0 {
        seq![c]
    } else {
        descent_path(g, n, step(c, first_with(g, n, c, d - 1, 0)), d - 1).push(c)
    }
}

/// Stepping from a square of the board stays on the board exactly when the
/// integer coordinates do, and then they are the wrapped ones.
proof fn lemma_step(c: Coord, k: int, n: usize)
    requires
        c.in_map_spec(n),
        0 <= k < 4,
        1 <= n <= usize::MAX / 2,
    ensures
        step(c, k).in_map_spec(n) <==> (0 <= c.i + dij_spec(k).0 < n && 0 <= c.j + dij_spec(k).1 < n),
        step(c, k).in_map_spec(n) ==> step(c, k).i == c.i + dij_spec(k).0
            && step(c, k).j == c.j + dij_spec(k).1 && adjacent(c, step(c, k)),
{
}

/// The neighbour in direction `k` of a square of the board.
fn neighbor(c: Coord, k: usize) -> (q: Coord)
    requires
        k < 4,
    ensures
        q == step(c, k as int),
{
    c.add_wrapping(dij5(k))
}

proof fn lemma_first_with(g: Seq<Seq<usize>>, n: int, c: Coord, v: int, k: int)
    requires
        0 <= k <= 4,
        forall|m: int| 0 <= m < k ==> !(#[trigger] step(c, m).in_map_spec(n as usize) && at(g, step(c, m)) == v),
    ensures
        first_with(g, n, c, v, 0) == first_with(g, n, c, v, k),
    decreases k,
{
    if k > 0 {
        lemma_first_with(g, n, c, v, k - 1);
    }
}

proof fn lemma_first_with_found(g: Seq<Seq<usize>>, n: int, c: Coord, v: int, k: int)
    requires
        0 <= k <= 4,
    ensures
        first_with(g, n, c, v, k) < 4 ==> k <= first_with(g, n, c, v, k)
            && step(c, first_with(g, n, c, v, k)).in_map_spec(n as usize)
            && at(g, step(c, first_with(g, n, c, v, k))) == v,
    decreases 4 - k,
{
    if k < 4 {
        lemma_first_with_found(g, n, c, v, k + 1);
    }
}

/// Some direction `k..=m` holds `v` when direction `m` does.
proof fn lemma_first_with_exists(g: Seq<Seq<usize>>, n: int, c: Coord, v: int, k: int, m: int)
    requires
        0 <= k <= m < 4,
        step(c, m).in_map_spec(n as usize),
        at(g, step(c, m)) == v,
    ensures
        first_with(g, n, c, v, k) < 4,
    decreases m - k,
{
    if k < m {
        let q = step(c, k);
        if !(q.in_map_spec(n as usize) && at(g, q) == v) {
            lemma_first_with_exists(g, n, c, v, k + 1, m);
        }
    }
}

/// Multi-source breadth-first search: every start gets distance 0 and the
/// distances spread over the open squares until no step shortens any.
pub fn bfs_multi_start(starts: Vec<Coord>, dist: &mut Vec<Vec<usize>>)
    requires
        1 <= old(dist)@.len() <= usize::MAX / 2,
        square_table(view2(old(dist)@), old(dist)@.len() as int),
        forall|c: Coord| #![trigger at(view2(old(dist)@), c)] c.in_map_spec(old(dist)@.len() as usize)
            ==> at(view2(old(dist)@), c) == NOT_VISITED || at(view2(old(dist)@), c) == CANNOT_VISIT,
        forall|k: int| 0 <= k < starts@.len() ==> (#[trigger] starts@[k]).in_map_spec(old(dist)@.len() as usize),
    ensures
        final(dist)@.len() == old(dist)@.len(),
        square_table(view2(final(dist)@), old(dist)@.len() as int),
        forall|k: int| 0 <= k < starts@.len() ==> at(view2(final(dist)@), #[trigger] starts@[k]) == 0,
        forall|c: Coord| #![trigger at(view2(final(dist)@), c)] c.in_map_spec(old(dist)@.len() as usize)
            ==> at(view2(final(dist)@), c) <= at(view2(old(dist)@), c)
                || at(view2(final(dist)@), c) == 0,
        forall|c: Coord| #![trigger at(view2(final(dist)@), c)] c.in_map_spec(old(dist)@.len() as usize)
            && at(view2(old(dist)@), c) == CANNOT_VISIT && at(view2(final(dist)@), c) != 0
            ==> at(view2(final(dist)@), c) == CANNOT_VISIT,
        consistent(view2(final(dist)@), old(dist)@.len() as int),
        descends(view2(final(dist)@), old(dist)@.len() as int),
        forall|c: Coord| #![trigger at(view2(final(dist)@), c)] c.in_map_spec(old(dist)@.len() as usize)
            && at(view2(final(dist)@), c) == 0 ==> starts@.contains(c),
        forall|c: Coord| #![trigger at(view2(final(dist)@), c)] c.in_map_spec(old(dist)@.len() as usize)
            ==> at(view2(final(dist)@), c) == at(view2(old(dist)@), c) || finite(at(view2(final(dist)@), c)),
{
    let N = dist.len();
    let ghost n = N as int;
    let mut queue: std::collections::VecDeque<Coord> = std::collections::VecDeque::new();
    let mut s: usize = 0;
    while s < starts.len()
        invariant
            N == dist@.len(),
            n == N,
            1 <= N <= usize::MAX / 2,
            square_table(view2(dist@), n),
            forall|k: int| 0 <= k < starts@.len() ==> (#[trigger] starts@[k]).in_map_spec(N),
            0 <= s <= starts@.len(),
            queue@ == starts@.take(s as int),
            forall|k: int| 0 <= k < s ==> at(view2(dist@), #[trigger] starts@[k]) == 0,
            forall|c: Coord| #![trigger at(view2(dist@), c)] c.in_map_spec(N)
                ==> at(view2(dist@), c) == at(view2(old(dist)@), c) || at(view2(dist@), c) == 0,
            forall|c: Coord| #![trigger at(view2(dist@), c)] c.in_map_spec(N)
                ==> at(view2(dist@), c) <= NOT_VISITED || at(view2(dist@), c) == CANNOT_VISIT,
            forall|c: Coord| #![trigger at(view2(dist@), c)] c.in_map_spec(N) && at(view2(dist@), c) == 0
                ==> queue@.contains(c),
            forall|c: Coord| #![trigger at(view2(dist@), c)] c.in_map_spec(N) && at(view2(dist@), c) == 0
                ==> starts@.contains(c),
            forall|c: Coord| #![trigger at(view2(dist@), c)] c.in_map_spec(N)
                ==> at(view2(dist@), c) == at(view2(old(dist)@), c) || finite(at(view2(dist@), c)),
        decreases starts@.len() - s,
    {
        let start = starts[s];
        let ghost qb = queue@;
        let ghost tb0 = view2(dist@);
        tset(dist, start, 0);
        proof {
            assert(starts@[s as int] == start);
            assert forall|c: Coord| #![trigger at(view2(dist@), c)] c.in_map_spec(N) && at(view2(dist@), c) == 0
                implies starts@.contains(c) by {
                if c != start {
                    assert(at(view2(dist@), c) == at(tb0, c));
                }
            }
        }
        queue.push_back(start);
        proof {
            assert(starts@.take(s as int + 1) =~= starts@.take(s as int).push(start));
            assert(queue@.contains(start)) by { assert(queue@[qb.len() as int] == start); }
            assert forall|c: Coord| #![trigger queue@.contains(c)] qb.contains(c) implies queue@.contains(c) by {
                let w = choose|w: int| 0 <= w < qb.len() && qb[w] == c;
                assert(queue@[w] == c);
            }
        }
        s += 1;
    }
    proof {
        assert forall|p: Coord, q: Coord|
            #![trigger at(view2(dist@), p), at(view2(dist@), q)]
            p.in_map_spec(N) && q.in_map_spec(N) && adjacent(p, q)
                && at(view2(dist@), p) != CANNOT_VISIT && at(view2(dist@), q) != CANNOT_VISIT
                && !queue@.contains(p)
            implies at(view2(dist@), q) <= at(view2(dist@), p) + 1 by {
        }
    }
    proof {
        assert forall|c: Coord| #![trigger at(view2(dist@), c)] c.in_map_spec(N) && 0 < at(view2(dist@), c) < NOT_VISITED
            implies exists|p: Coord| #![trigger at(view2(dist@), p)] p.in_map_spec(N) && adjacent(c, p)
                && at(view2(dist@), p) + 1 <= at(view2(dist@), c) by {
            assert(at(view2(old(dist)@), c) == NOT_VISITED || at(view2(old(dist)@), c) == CANNOT_VISIT);
        }
    }
    while queue.len() > 0
        invariant
            N == dist@.len(),
            n == N,
            1 <= N <= usize::MAX / 2,
            square_table(view2(dist@), n),
            forall|k: int| 0 <= k < queue@.len() ==> (#[trigger] queue@[k]).in_map_spec(N),
            forall|k: int| 0 <= k < starts@.len() ==> at(view2(dist@), #[trigger] starts@[k]) == 0,
            forall|k: int| 0 <= k < starts@.len() ==> (#[trigger] starts@[k]).in_map_spec(N),
            forall|c: Coord| #![trigger at(view2(dist@), c)] c.in_map_spec(N)
                ==> at(view2(dist@), c) <= at(view2(old(dist)@), c) || at(view2(dist@), c) == 0,
            forall|c: Coord| #![trigger at(view2(dist@), c)] c.in_map_spec(N)
                && at(view2(old(dist)@), c) == CANNOT_VISIT && at(view2(dist@), c) != 0
                ==> at(view2(dist@), c) == CANNOT_VISIT,
            forall|c: Coord| #![trigger at(view2(dist@), c)] c.in_map_spec(N)
                ==> at(view2(dist@), c) <= NOT_VISITED || at(view2(dist@), c) == CANNOT_VISIT,
            forall|c: Coord| #![trigger at(view2(dist@), c)] c.in_map_spec(N) && 0 < at(view2(dist@), c) < NOT_VISITED
                ==> exists|p: Coord| #![trigger at(view2(dist@), p)] p.in_map_spec(N) && adjacent(c, p)
                    && at(view2(dist@), p) + 1 <= at(view2(dist@), c),
            forall|k: int| 0 <= k < queue@.len() ==> at(view2(dist@), #[trigger] queue@[k]) < NOT_VISITED,
            forall|p: Coord, q: Coord|
                #![trigger at(view2(dist@), p), at(view2(dist@), q)]
                p.in_map_spec(N) && q.in_map_spec(N) && adjacent(p, q)
                    && at(view2(dist@), p) != CANNOT_VISIT && at(view2(dist@), q) != CANNOT_VISIT
                    && !queue@.contains(p)
                    ==> at(view2(dist@), q) <= at(view2(dist@), p) + 1,
            forall|c: Coord| #![trigger at(view2(dist@), c)] c.in_map_spec(N) && at(view2(dist@), c) == 0
                ==> starts@.contains(c),
            forall|c: Coord| #![trigger at(view2(dist@), c)] c.in_map_spec(N)
                ==> at(view2(dist@), c) == at(view2(old(dist)@), c) || finite(at(view2(dist@), c)),
        decreases 5 * total(view2(dist@)) + queue@.len(),
    {
        let ghost whole = queue@;
        let pos = queue.pop_front().unwrap();
        let ghost popped_from = queue@;
        let ghost m0 = total(view2(dist@));
        let dp = tget(dist, pos);
        proof {
            assert(whole[0] == pos);
            assert forall|c: Coord| #![trigger popped_from.contains(c)] !popped_from.contains(c) && c != pos implies !whole.contains(c) by {
                if whole.contains(c) {
                    let w = choose|w: int| 0 <= w < whole.len() && whole[w] == c;
                    assert(w > 0);
                    assert(popped_from[w - 1] == c);
                }
            }
            assert forall|k: int| 0 <= k < popped_from.len() implies (#[trigger] popped_from[k]).in_map_spec(N) && at(view2(dist@), popped_from[k]) < NOT_VISITED by {
                assert(popped_from[k] == whole[k + 1]);
            }
        }
        let mut k: usize = 0;
        while k < 4
            invariant
                N == dist@.len(),
                n == N,
                1 <= N <= usize::MAX / 2,
                square_table(view2(dist@), n),
                pos.in_map_spec(N),
                dp == at(view2(dist@), pos),
                dp < NOT_VISITED,
                0 <= k <= 4,
                queue@.len() >= popped_from.len(),
                5 * total(view2(dist@)) + queue@.len() <= 5 * m0 + popped_from.len(),
                forall|k: int| 0 <= k < queue@.len() ==> (#[trigger] queue@[k]).in_map_spec(N),
                forall|k: int| 0 <= k < starts@.len() ==> at(view2(dist@), #[trigger] starts@[k]) == 0,
                forall|k: int| 0 <= k < starts@.len() ==> (#[trigger] starts@[k]).in_map_spec(N),
                forall|c: Coord| #![trigger at(view2(dist@), c)] c.in_map_spec(N)
                    ==> at(view2(dist@), c) <= at(view2(old(dist)@), c) || at(view2(dist@), c) == 0,
                forall|c: Coord| #![trigger at(view2(dist@), c)] c.in_map_spec(N)
                    && at(view2(old(dist)@), c) == CANNOT_VISIT && at(view2(dist@), c) != 0
                    ==> at(view2(dist@), c) == CANNOT_VISIT,
                forall|c: Coord| #![trigger at(view2(dist@), c)] c.in_map_spec(N)
                    ==> at(view2(dist@), c) <= NOT_VISITED || at(view2(dist@), c) == CANNOT_VISIT,
                forall|c: Coord| #![trigger at(view2(dist@), c)] c.in_map_spec(N) && 0 < at(view2(dist@), c) < NOT_VISITED
                    ==> exists|p: Coord| #![trigger at(view2(dist@), p)] p.in_map_spec(N) && adjacent(c, p)
                        && at(view2(dist@), p) + 1 <= at(view2(dist@), c),
                forall|k: int| 0 <= k < queue@.len() ==> at(view2(dist@), #[trigger] queue@[k]) < NOT_VISITED,
                forall|m: int| 0 <= m < k && (#[trigger] step(pos, m)).in_map_spec(N)
                    && at(view2(dist@), step(pos, m)) != CANNOT_VISIT
                    ==> at(view2(dist@), step(pos, m)) <= dp + 1,
                forall|p: Coord, q: Coord|
                    #![trigger at(view2(dist@), p), at(view2(dist@), q)]
                    p.in_map_spec(N) && q.in_map_spec(N) && adjacent(p, q)
                        && at(view2(dist@), p) != CANNOT_VISIT && at(view2(dist@), q) != CANNOT_VISIT
                        && !queue@.contains(p) && p != pos
                        ==> at(view2(dist@), q) <= at(view2(dist@), p) + 1,
                forall|c: Coord| #![trigger at(view2(dist@), c)] c.in_map_spec(N) && at(view2(dist@), c) == 0
                    ==> starts@.contains(c),
                forall|c: Coord| #![trigger at(view2(dist@), c)] c.in_map_spec(N)
                    ==> at(view2(dist@), c) == at(view2(old(dist)@), c) || finite(at(view2(dist@), c)),
            decreases 4 - k,
        {
            let next = neighbor(pos, k);
            proof {
                lemma_step(pos, k as int, N);
            }
            if next.in_map(N) && tget(dist, next) != CANNOT_VISIT && dp + 1 < tget(dist, next) {
                let ghost qb = queue@;
                let ghost tb = view2(dist@);
                tset(dist, next, dp + 1);
                proof {
                    assert(next != pos);
                    assert(adjacent(next, pos));
                    assert forall|c: Coord| #![trigger at(view2(dist@), c)] c.in_map_spec(N) && 0 < at(view2(dist@), c) < NOT_VISITED
                        implies exists|p: Coord| #![trigger at(view2(dist@), p)] p.in_map_spec(N) && adjacent(c, p)
                            && at(view2(dist@), p) + 1 <= at(view2(dist@), c) by {
                        if c == next {
                            assert(at(view2(dist@), pos) == dp);
                        } else {
                            assert(at(view2(dist@), c) == at(tb, c));
                            let p = choose|p: Coord| #![trigger at(tb, p)] p.in_map_spec(N) && adjacent(c, p) && at(tb, p) + 1 <= at(tb, c);
                            assert(at(view2(dist@), p) <= at(tb, p));
                        }
                    }
                    assert forall|c: Coord| #![trigger at(view2(dist@), c)] c.in_map_spec(N) && at(view2(dist@), c) == 0
                        implies starts@.contains(c) by {
                        if c != next {
                            assert(at(view2(dist@), c) == at(tb, c));
                        }
                    }
                    assert forall|c: Coord| #![trigger at(view2(dist@), c)] c.in_map_spec(N)
                        implies at(view2(dist@), c) == at(view2(old(dist)@), c) || finite(at(view2(dist@), c)) by {
                        if c != next {
                            assert(at(view2(dist@), c) == at(tb, c));
                        }
                    }
                    assert forall|k: int| 0 <= k < starts@.len() implies at(view2(dist@), #[trigger] starts@[k]) == 0 by {
                        assert(at(tb, starts@[k]) == 0);
                    }
                }
                queue.push_back(next);
                proof {
                    assert(queue@ == qb.push(next));
                    assert(queue@.contains(next)) by { assert(queue@[qb.len() as int] == next); }
                    assert forall|c: Coord| #![trigger queue@.contains(c)] qb.contains(c) implies queue@.contains(c) by {
                        let w = choose|w: int| 0 <= w < qb.len() && qb[w] == c;
                        assert(queue@[w] == c);
                    }
                }
            }
            k += 1;
        }
        proof {
            assert forall|p: Coord, q: Coord|
                #![trigger at(view2(dist@), p), at(view2(dist@), q)]
                p.in_map_spec(N) && q.in_map_spec(N) && adjacent(p, q)
                    && at(view2(dist@), p) != CANNOT_VISIT && at(view2(dist@), q) != CANNOT_VISIT
                    && !queue@.contains(p)
                implies at(view2(dist@), q) <= at(view2(dist@), p) + 1 by {
                if p == pos {
                    let di = q.i - p.i;
                    let dj = q.j - p.j;
                    let m: int = if di == 0 && dj == 1 { 0 } else if di == 1 && dj == 0 { 1 } else if di == 0 && dj == -1 { 2 } else { 3 };
                    lemma_step(pos, m, N);
                    assert(step(pos, m) == q);
                }
            }
        }
    }
    proof {
        let g = view2(dist@);
        assert forall|c: Coord| #![trigger at(g, c)] c.in_map_spec(N as usize) && finite(at(g, c)) && at(g, c) > 0
            implies first_with(g, n, c, at(g, c) - 1, 0) < 4 by {
            let p = choose|p: Coord| #![trigger at(g, p)] p.in_map_spec(N) && adjacent(c, p) && at(g, p) + 1 <= at(g, c);
            assert(at(g, p) != CANNOT_VISIT);
            assert(at(g, c) != CANNOT_VISIT);
            assert(adjacent(p, c));
            assert(at(g, c) <= at(g, p) + 1);
            let di = p.i - c.i;
            let dj = p.j - c.j;
            let m: int = if di == 0 && dj == 1 { 0 } else if di == 1 && dj == 0 { 1 } else if di == 0 && dj == -1 { 2 } else { 3 };
            lemma_step(c, m, N);
            assert(step(c, m) == p);
            lemma_first_with_exists(g, n, c, at(g, c) - 1, 0, m);
        }
    }
}


/// `w` walks over open squares of the board, one unit step at a time.
pub open spec fn open_walk(g: Seq<Seq<usize>>, n: int, w: Seq<Coord>) -> bool {
    &&& forall|k: int| 0 <= k < w.len() ==> (#[trigger] w[k]).in_map_spec(n as usize) && at(g, w[k]) != CANNOT_VISIT
    &&& forall|k: int| 0 <= k < w.len() - 1 ==> adjacent(#[trigger] w[k], w[k + 1])
}

/// In a table where no step shortens a distance (as `bfs_multi_start`
/// leaves it), no walk over open squares from a square at distance 0 is
/// shorter than the distance of its end: the distances are those of
/// shortest walks from the starts.
pub proof fn law_no_shorter_walk(g: Seq<Seq<usize>>, n: int, w: Seq<Coord>)
    requires
        consistent(g, n),
        w.len() >= 1,
        open_walk(g, n, w),
        at(g, w[0]) == 0,
    ensures
        at(g, w[w.len() - 1]) <= w.len() - 1,
    decreases w.len(),
{
    if w.len() > 1 {
        let v = w.drop_last();
        assert(open_walk(g, n, v)) by {
            assert forall|k: int| 0 <= k < v.len() implies (#[trigger] v[k]).in_map_spec(n as usize) && at(g, v[k]) != CANNOT_VISIT by {
                assert(v[k] == w[k]);
            }
            assert forall|k: int| 0 <= k < v.len() - 1 implies adjacent(#[trigger] v[k], v[k + 1]) by {
                assert(v[k] == w[k] && v[k + 1] == w[k + 1]);
            }
        }
        law_no_shorter_walk(g, n, v);
        let a = w[w.len() - 2];
        let b = w[w.len() - 1];
        assert(adjacent(w[w.len() - 2], w[w.len() - 1]));
        assert(at(g, b) <= at(g, a) + 1);
    }
}

/// The descent paths of the goals that the search reached, in the order of
/// the goals (see `descent_path`).
pub open spec fn routes_spec(g: Seq<Seq<usize>>, n: int, goals: Seq<Coord>, k: int) -> Seq<Seq<Coord>>
    decreases k,
{
    if k <= 0 {
        Seq::empty()
    } else {
        let rest = routes_spec(g, n, goals, k - 1);
        let goal = goals[k - 1];
        if at(g, goal) == NOT_VISITED { rest } else { rest.push(descent_path(g, n, goal, at(g, goal) as int)) }
    }
}

/// The reversed sequence.
fn reversed(v: &Vec<Coord>) -> (r: Vec<Coord>)
    ensures
        r@ == v@.reverse(),
{
    let mut r: Vec<Coord> = Vec::new();
    let mut k = v.len();
    while k > 0
        invariant
            0 <= k <= v@.len(),
            r@ == v@.subrange(k as int, v@.len() as int).reverse(),
        decreases k,
    {
        k -= 1;
        r.push(v[k]);
        proof {
            assert(v@.subrange(k as int, v@.len() as int).reverse() =~= v@.subrange(k as int + 1, v@.len() as int).reverse().push(v@[k as int]));
        }
    }
    proof {
        assert(v@.subrange(0, v@.len() as int) =~= v@);
    }
    r
}

/// For every goal that the search reached, the path down the distances to a
/// square at distance 0 (a start), stepping each time to the first
/// neighbour (Right, Down, Left, Up) one closer; listed from the start to the
/// goal.
pub fn bfs_multi_start_revert(goals: Vec<Coord>, dist: &Vec<Vec<usize>>) -> (routes: Vec<Vec<Coord>>)
    requires
        1 <= dist@.len() <= usize::MAX / 2,
        square_table(view2(dist@), dist@.len() as int),
        descends(view2(dist@), dist@.len() as int),
        forall|k: int| 0 <= k < goals@.len() ==> (#[trigger] goals@[k]).in_map_spec(dist@.len() as usize)
            && (finite(at(view2(dist@), goals@[k])) || at(view2(dist@), goals@[k]) == NOT_VISITED),
    ensures
        routes@.len() == routes_spec(view2(dist@), dist@.len() as int, goals@, goals@.len() as int).len(),
        forall|k: int| 0 <= k < routes@.len() ==> (#[trigger] routes@[k])@
            == routes_spec(view2(dist@), dist@.len() as int, goals@, goals@.len() as int)[k],
{
    let N = dist.len();
    let ghost g = view2(dist@);
    let ghost n = N as int;
    let mut routes: Vec<Vec<Coord>> = Vec::new();
    let mut t: usize = 0;
    while t < goals.len()
        invariant
            N == dist@.len(),
            g == view2(dist@),
            n == N,
            1 <= N <= usize::MAX / 2,
            square_table(g, n),
            descends(g, n),
            forall|k: int| 0 <= k < goals@.len() ==> (#[trigger] goals@[k]).in_map_spec(N)
                && (finite(at(g, goals@[k])) || at(g, goals@[k]) == NOT_VISITED),
            0 <= t <= goals@.len(),
            routes@.len() == routes_spec(g, n, goals@, t as int).len(),
            forall|k: int| 0 <= k < routes@.len() ==> (#[trigger] routes@[k])@ == routes_spec(g, n, goals@, t as int)[k],
        decreases goals@.len() - t,
    {
        let goal = goals[t];
        let gd = tget(dist, goal);
        if gd == NOT_VISITED {
            t += 1;
            continue;
        }
        let mut route: Vec<Coord> = Vec::new();
        route.push(goal);
        let mut pos = goal;
        let mut d = gd;
        while d > 0
            invariant
                N == dist@.len(),
                g == view2(dist@),
                n == N,
                1 <= N <= usize::MAX / 2,
                square_table(g, n),
                descends(g, n),
                pos.in_map_spec(N),
                at(g, pos) == d,
                finite(d),
                route@.len() >= 1,
                route@.last() == pos,
                descent_path(g, n, goal, gd as int) == descent_path(g, n, pos, d as int) + route@.reverse().drop_first(),
            decreases d,
        {
            let ghost f = first_with(g, n, pos, d - 1, 0);
            proof {
                assert(f < 4) by { assert(finite(at(g, pos)) && at(g, pos) > 0); }
            }
            let mut k: usize = 0;
            let mut moved = false;
            while k < 4 && !moved
                invariant
                    N == dist@.len(),
                    g == view2(dist@),
                    1 <= N <= usize::MAX / 2,
                    square_table(g, n),
                    n == N,
                    0 <= k <= 4,
                    descends(g, n),
                    pos.in_map_spec(N),
                    d > 0,
                    finite(d),
                    at(g, pos) == d,
                    f == first_with(g, n, pos, d - 1, 0),
                    f < 4,
                    !moved ==> forall|m: int| 0 <= m < k ==> !(#[trigger] step(pos, m).in_map_spec(N) && at(g, step(pos, m)) == d - 1),
                    moved ==> k == f + 1 && f < 4,
                decreases 4 - k,
            {
                let next = neighbor(pos, k);
                proof {
                    lemma_step(pos, k as int, N);
                }
                if next.in_map(N) && tget(dist, next) == d - 1 {
                    proof {
                        lemma_first_with(g, n, pos, d - 1, k as int);
                    }
                    moved = true;
                }
                k += 1;
            }
            proof {
                if !moved {
                    lemma_first_with(g, n, pos, d - 1, 4);
                }
                assert(moved);
                lemma_first_with_found(g, n, pos, d - 1, 0);
            }
            let next = neighbor(pos, k - 1);
            proof {
                lemma_step(pos, f, N);
                let old_route = route@;
                assert(descent_path(g, n, pos, d as int) == descent_path(g, n, next, d - 1).push(pos));
                assert((old_route.push(next)).reverse().drop_first() =~= seq![pos] + old_route.reverse().drop_first());
            }
            pos = next;
            d = d - 1;
            route.push(pos);
        }
        let r = reversed(&route);
        proof {
            assert(r@ =~= descent_path(g, n, goal, gd as int));
        }
        routes.push(r);
        t += 1;
    }
    routes
}

/// The squares at distance 0 are exactly `start`.
pub open spec fn only_start_zero(g: Seq<Seq<usize>>, n: int, start: Coord) -> bool {
    forall|c: Coord| #![trigger at(g, c)] c.in_map_spec(n as usize) && at(g, c) == 0 ==> c == start
}

/// A path down the distances from `goal` to `start`, listed from `start`:
/// consecutive squares are neighbours and the `k`-th square is at distance
/// `k`.
pub fn bfs_revert(start: Coord, goal: Coord, dist: &Vec<Vec<usize>>) -> (route: Vec<Coord>)
    requires
        1 <= dist@.len() <= usize::MAX / 2,
        square_table(view2(dist@), dist@.len() as int),
        descends(view2(dist@), dist@.len() as int),
        only_start_zero(view2(dist@), dist@.len() as int, start),
        start.in_map_spec(dist@.len() as usize),
        at(view2(dist@), start) == 0,
        goal.in_map_spec(dist@.len() as usize),
        finite(at(view2(dist@), goal)),
    ensures
        route@.len() == at(view2(dist@), goal) + 1,
        route@[0] == start,
        route@.last() == goal,
        forall|k: int| 0 <= k < route@.len() ==> (#[trigger] route@[k]).in_map_spec(dist@.len() as usize)
            && at(view2(dist@), route@[k]) == k,
        forall|k: int| 0 <= k < route@.len() - 1 ==> adjacent(#[trigger] route@[k], route@[k + 1]),
{
    let N = dist.len();
    let ghost g = view2(dist@);
    let ghost n = N as int;
    let mut ret: Vec<Coord> = Vec::new();
    ret.push(goal);
    let mut pos = goal;
    let mut now = tget(dist, goal);
    let ghost gd = now as int;
    while pos != start
        invariant
            N == dist@.len(),
            g == view2(dist@),
            n == N,
            1 <= N <= usize::MAX / 2,
            square_table(g, n),
            descends(g, n),
            only_start_zero(g, n, start),
            start.in_map_spec(N),
            at(g, start) == 0,
            pos.in_map_spec(N),
            at(g, pos) == now,
            finite(now),
            now <= gd,
            ret@.len() == gd - now + 1,
            ret@[0] == goal,
            ret@.last() == pos,
            forall|k: int| 0 <= k < ret@.len() ==> (#[trigger] ret@[k]).in_map_spec(N) && at(g, ret@[k]) == gd - k,
            forall|k: int| 0 <= k < ret@.len() - 1 ==> adjacent(#[trigger] ret@[k], ret@[k + 1]),
        decreases now,
    {
        let ghost now0 = now;
        let ghost p0 = pos;
        proof {
            assert(now > 0);
        }
        let ghost f = first_with(g, n, pos, now - 1, 0);
        proof {
            assert(f < 4) by { assert(finite(at(g, pos)) && at(g, pos) > 0); }
        }
        let mut k: usize = 0;
        while k < 4 && pos != start
            invariant
                N == dist@.len(),
                g == view2(dist@),
                n == N,
                1 <= N <= usize::MAX / 2,
                square_table(g, n),
                only_start_zero(g, n, start),
                start.in_map_spec(N),
                at(g, start) == 0,
                0 <= k <= 4,
                now <= now0,
                at(g, p0) == now0,
                pos == p0 ==> now == now0 && f == first_with(g, n, p0, now0 - 1, 0) && f < 4
                    && forall|m: int| 0 <= m < k ==> !(#[trigger] step(p0, m).in_map_spec(N) && at(g, step(p0, m)) == now0 - 1),
                pos != p0 ==> now < now0,
                pos.in_map_spec(N),
                at(g, pos) == now,
                finite(now),
                now <= gd,
                ret@.len() == gd - now + 1,
                ret@[0] == goal,
                ret@.last() == pos,
                forall|k: int| 0 <= k < ret@.len() ==> (#[trigger] ret@[k]).in_map_spec(N) && at(g, ret@[k]) == gd - k,
                forall|k: int| 0 <= k < ret@.len() - 1 ==> adjacent(#[trigger] ret@[k], ret@[k + 1]),
            decreases 4 - k,
        {
            let next = neighbor(pos, k);
            proof {
                lemma_step(pos, k as int, N);
            }
            if next.in_map(N) && tget(dist, next) == now - 1 {
                let ghost rb = ret@;
                proof {
                    assert(next != pos);
                    assert(next != p0);
                }
                pos = next;
                now = now - 1;
                ret.push(pos);
                proof {
                    assert(ret@ == rb.push(next));
                    assert(ret@[rb.len() - 1] == rb[rb.len() - 1]);
                }
            } else {
                proof {
                    if pos == p0 {
                        assert(next == step(p0, k as int));
                        assert(!(step(p0, k as int).in_map_spec(N) && at(g, step(p0, k as int)) == now0 - 1));
                    }
                }
            }
            k += 1;
        }
        proof {
            if pos == p0 {
                lemma_first_with(g, n, p0, now0 - 1, 4);
            }
        }
    }
    let route = reversed(&ret);
    proof {
        assert forall|k: int| 0 <= k < route@.len() - 1 implies adjacent(#[trigger] route@[k], route@[k + 1]) by {
            let a = ret@.len() - 1 - k;
            assert(route@[k] == ret@[a]);
            assert(route@[k + 1] == ret@[a - 1]);
            assert(adjacent(ret@[a - 1], ret@[a]));
        }
        assert forall|k: int| 0 <= k < route@.len() implies (#[trigger] route@[k]).in_map_spec(N) && at(g, route@[k]) == k by {
            assert(route@[k] == ret@[ret@.len() - 1 - k]);
        }
    }
    route
}


/// The order in which the best-first search takes its entries `(f, d, pos)`:
/// the smaller estimate `f` first, then the larger distance `d`, then the
/// larger square.
pub open spec fn before(a: (usize, usize, Coord), b: (usize, usize, Coord)) -> bool {
    a.0 < b.0 || (a.0 == b.0 && (a.1 > b.1 || (a.1 == b.1 && (a.2.i > b.2.i || (a.2.i == b.2.i && a.2.j > b.2.j)))))
}

/// Removes and returns the entry that comes first in the search order.
fn pop_best(heap: &mut Vec<(usize, usize, Coord)>) -> (e: (usize, usize, Coord))
    requires
        old(heap)@.len() > 0,
    ensures
        exists|k: int| 0 <= k < old(heap)@.len() && old(heap)@[k] == e && final(heap)@ == old(heap)@.remove(k),
        forall|k: int| 0 <= k < old(heap)@.len() ==> !before(#[trigger] old(heap)@[k], e),
{
    let mut best: usize = 0;
    let mut k: usize = 1;
    while k < heap.len()
        invariant
            heap@.len() > 0,
            0 <= best < heap@.len(),
            1 <= k <= heap@.len(),
            forall|m: int| 0 <= m < k ==> !before(#[trigger] heap@[m], heap@[best as int]),
        decreases heap@.len() - k,
    {
        let a = heap[k];
        let b = heap[best];
        if a.0 < b.0 || (a.0 == b.0 && (a.1 > b.1 || (a.1 == b.1 && (a.2.i > b.2.i || (a.2.i == b.2.i && a.2.j > b.2.j))))) {
            best = k;
        }
        k += 1;
    }
    let ghost h = heap@;
    let e = heap.remove(best);
    proof {
        assert(h[best as int] == e);
    }
    e
}

/// No open neighbour of `c` lies more than one step further than `c`.
pub open spec fn settled(g: Seq<Seq<usize>>, n: int, c: Coord) -> bool {
    forall|q: Coord| #![trigger at(g, q)] q.in_map_spec(n as usize) && adjacent(c, q) && at(g, q) != CANNOT_VISIT
        ==> at(g, q) <= at(g, c) + 1
}

/// Every finite square (but `skip`) has an entry on the queue `q` at its
/// distance, or is settled.
#[verifier::opaque]
pub open spec fn queued_or_settled(g: Seq<Seq<usize>>, n: int, q: Seq<(usize, usize, Coord)>, skip: Option<Coord>) -> bool {
    forall|c: Coord| #![trigger at(g, c)] c.in_map_spec(n as usize) && finite(at(g, c)) && skip != Some(c)
        ==> (exists|k: int| 0 <= k < q.len() && (#[trigger] q[k]).2 == c && q[k].1 == at(g, c)) || settled(g, n, c)
}

/// Taking entry `w` (of square `pos` at `d`) off the queue leaves every
/// other finite square queued_or_settled.
proof fn lemma_after_pop(g: Seq<Seq<usize>>, n: int, qa: Seq<(usize, usize, Coord)>, q: Seq<(usize, usize, Coord)>, w: int, pos: Coord, d: usize)
    requires
        0 <= w < qa.len(),
        q == qa.remove(w),
        qa[w].1 == d,
        qa[w].2 == pos,
        queued_or_settled(g, n, qa, None),
    ensures
        queued_or_settled(g, n, q, Some(pos)),
        at(g, pos) != d ==> queued_or_settled(g, n, q, None),
{
    reveal(queued_or_settled);
    assert forall|c: Coord| #![trigger at(g, c)] c.in_map_spec(n as usize) && finite(at(g, c)) && !(c == pos && at(g, c) == d)
        implies (exists|k: int| 0 <= k < q.len() && (#[trigger] q[k]).2 == c && q[k].1 == at(g, c)) || settled(g, n, c) by {
        if !settled(g, n, c) {
            let j = choose|j: int| 0 <= j < qa.len() && (#[trigger] qa[j]).2 == c && qa[j].1 == at(g, c);
            assert(j != w);
            if j < w {
                assert(q[j] == qa[j]);
            } else {
                assert(q[j - 1] == qa[j]);
            }
        }
    }
}

/// At the start, only `start` is finite and it has its entry.
proof fn lemma_qs_start(g0: Seq<Seq<usize>>, g: Seq<Seq<usize>>, n: int, q: Seq<(usize, usize, Coord)>, start: Coord)
    requires
        q.len() == 1,
        q[0].1 == 0,
        q[0].2 == start,
        at(g, start) == 0,
        forall|c: Coord| #![trigger at(g, c)] c.in_map_spec(n as usize) && c != start ==> at(g, c) == at(g0, c),
        forall|c: Coord| #![trigger at(g0, c)] c.in_map_spec(n as usize)
            ==> at(g0, c) == NOT_VISITED || at(g0, c) == CANNOT_VISIT,
    ensures
        queued_or_settled(g, n, q, None),
{
    reveal(queued_or_settled);
    assert forall|c: Coord| #![trigger at(g, c)] c.in_map_spec(n as usize) && finite(at(g, c)) && None::<Coord> != Some(c)
        implies (exists|k: int| 0 <= k < q.len() && (#[trigger] q[k]).2 == c && q[k].1 == at(g, c)) || settled(g, n, c) by {
        if c != start {
            assert(at(g, c) == at(g0, c));
        } else {
            assert(q[0].2 == c);
        }
    }
}

/// Lowering square `next` and queueing it keeps everything but `pos`
/// queued_or_settled.
proof fn lemma_qs_relax(
    tb: Seq<Seq<usize>>,
    g: Seq<Seq<usize>>,
    n: int,
    qb: Seq<(usize, usize, Coord)>,
    q: Seq<(usize, usize, Coord)>,
    pos: Coord,
    next: Coord,
    e: (usize, usize, Coord),
)
    requires
        queued_or_settled(tb, n, qb, Some(pos)),
        q == qb.push(e),
        e.2 == next,
        e.1 == at(g, next),
        at(g, next) <= at(tb, next),
        at(tb, next) != CANNOT_VISIT,
        forall|c: Coord| #![trigger at(g, c)] c.in_map_spec(n as usize) && c != next ==> at(g, c) == at(tb, c),
    ensures
        queued_or_settled(g, n, q, Some(pos)),
{
    reveal(queued_or_settled);
    assert forall|c: Coord| #![trigger at(g, c)] c.in_map_spec(n as usize) && finite(at(g, c)) && Some(pos) != Some(c)
        implies (exists|k: int| 0 <= k < q.len() && (#[trigger] q[k]).2 == c && q[k].1 == at(g, c)) || settled(g, n, c) by {
        if c == next {
            assert(q[qb.len() as int].2 == c);
        } else {
            assert(at(g, c) == at(tb, c));
            if settled(tb, n, c) {
                assert forall|x: Coord| #![trigger at(g, x)] x.in_map_spec(n as usize) && adjacent(c, x)
                    && at(g, x) != CANNOT_VISIT implies at(g, x) <= at(g, c) + 1 by {
                    if x != next {
                        assert(at(g, x) == at(tb, x));
                    }
                }
            } else {
                let j = choose|j: int| 0 <= j < qb.len() && (#[trigger] qb[j]).2 == c && qb[j].1 == at(tb, c);
                assert(q[j] == qb[j]);
            }
        }
    }
}

/// Tracking all but `pos`, with `pos` settled, is tracking of all.
proof fn lemma_qs_settle(g: Seq<Seq<usize>>, n: int, q: Seq<(usize, usize, Coord)>, pos: Coord)
    requires
        queued_or_settled(g, n, q, Some(pos)),
        settled(g, n, pos),
    ensures
        queued_or_settled(g, n, q, None),
{
    reveal(queued_or_settled);
}

/// With an empty queue, every finite square is settled.
proof fn lemma_qs_empty(g: Seq<Seq<usize>>, n: int, q: Seq<(usize, usize, Coord)>)
    requires
        queued_or_settled(g, n, q, None),
        q.len() == 0,
    ensures
        forall|c: Coord| #![trigger at(g, c)] c.in_map_spec(n as usize) && finite(at(g, c)) ==> settled(g, n, c),
{
    reveal(queued_or_settled);
}

/// A square at `d` whose four open neighbours (those on the board) lie
/// within `d + 1` is settled.
proof fn lemma_settle(g: Seq<Seq<usize>>, n: int, pos: Coord, d: int)
    requires
        1 <= n <= usize::MAX / 2,
        pos.in_map_spec(n as usize),
        at(g, pos) == d,
        forall|m: int| 0 <= m < 4 && (#[trigger] step(pos, m)).in_map_spec(n as usize)
            && at(g, step(pos, m)) != CANNOT_VISIT ==> at(g, step(pos, m)) <= d + 1,
    ensures
        settled(g, n, pos),
{
    assert forall|q: Coord| #![trigger at(g, q)] q.in_map_spec(n as usize) && adjacent(pos, q)
        && at(g, q) != CANNOT_VISIT implies at(g, q) <= at(g, pos) + 1 by {
        let di = q.i - pos.i;
        let dj = q.j - pos.j;
        let m: int = if di == 0 && dj == 1 { 0 } else if di == 1 && dj == 0 { 1 } else if di == 0 && dj == -1 { 2 } else { 3 };
        lemma_step(pos, m, n as usize);
        assert(step(pos, m) == q);
    }
}

/// `w` walks from `start`, one unit step at a time, over squares of the
/// board that are open in `g` (`start` itself may be closed).
pub open spec fn walk_from(g: Seq<Seq<usize>>, n: int, start: Coord, w: Seq<Coord>) -> bool {
    &&& w.len() >= 1
    &&& w[0] == start
    &&& forall|k: int| 0 <= k < w.len() ==> (#[trigger] w[k]).in_map_spec(n as usize)
    &&& forall|k: int| 1 <= k < w.len() ==> at(g, #[trigger] w[k]) != CANNOT_VISIT
    &&& forall|k: int| 0 <= k < w.len() - 1 ==> adjacent(#[trigger] w[k], w[k + 1])
}

/// No walk from `start` to `p` over squares open in `g0` is shorter than the
/// distance of `p` in `g`.
#[verifier::opaque]
pub open spec fn optimal(g0: Seq<Seq<usize>>, g: Seq<Seq<usize>>, n: int, start: Coord, p: Coord) -> bool {
    forall|w: Seq<Coord>| #![trigger walk_from(g0, n, start, w)]
        walk_from(g0, n, start, w) && w.len() <= NOT_VISITED && w.last() == p ==> at(g, p) <= w.len() - 1
}

/// Every finite square but `start` lies one step beyond a neighbour whose
/// distance no walk beats.
#[verifier::opaque]
pub open spec fn anchored(g0: Seq<Seq<usize>>, g: Seq<Seq<usize>>, n: int, start: Coord) -> bool {
    forall|c: Coord| #![trigger finite(at(g, c))] c.in_map_spec(n as usize) && c != start && finite(at(g, c))
        ==> exists|p: Coord| #![trigger at(g, p)] p.in_map_spec(n as usize) && adjacent(c, p) && at(g, p) + 1 == at(g, c)
            && optimal(g0, g, n, start, p)
}

/// Every finite square but `start` has a neighbour at least one step closer.
#[verifier::opaque]
pub open spec fn chained(g: Seq<Seq<usize>>, n: int, start: Coord) -> bool {
    forall|x: Coord| #![trigger finite(at(g, x))] x.in_map_spec(n as usize) && x != start && finite(at(g, x))
        ==> exists|p: Coord| #![trigger at(g, p)] p.in_map_spec(n as usize)
            && adjacent(x, p) && at(g, p) + 1 <= at(g, x)
}

/// The part of a walk from its `k`-th square on is at least as long as the
/// Manhattan distance it covers.
proof fn lemma_walk_span(w: Seq<Coord>, k: int)
    requires
        0 <= k < w.len(),
        forall|m: int| 0 <= m < w.len() - 1 ==> adjacent(#[trigger] w[m], w[m + 1]),
    ensures
        manhattan_spec(w[k], w.last()) <= w.len() - 1 - k,
    decreases w.len() - k,
{
    if k < w.len() - 1 {
        lemma_walk_span(w, k + 1);
        assert(adjacent(w[k], w[k + 1]));
    }
}

/// Following the neighbours that are one step or more closer, from a finite
/// square `c` back to `start`, gives a walk no longer than the distance of `c`.
proof fn lemma_chain_walk(g0: Seq<Seq<usize>>, g: Seq<Seq<usize>>, n: int, start: Coord, c: Coord) -> (w: Seq<Coord>)
    requires
        c.in_map_spec(n as usize),
        start.in_map_spec(n as usize),
        finite(at(g, c)),
        chained(g, n, start),
        forall|x: Coord| #![trigger at(g, x)] x.in_map_spec(n as usize) && x != start
            && at(g0, x) == CANNOT_VISIT ==> at(g, x) == CANNOT_VISIT,
    ensures
        walk_from(g0, n, start, w),
        w.last() == c,
        w.len() <= at(g, c) + 1,
    decreases at(g, c),
{
    if c == start {
        seq![start]
    } else {
        reveal(chained);
        let p = choose|p: Coord| #![trigger at(g, p)] p.in_map_spec(n as usize) && adjacent(c, p) && at(g, p) + 1 <= at(g, c);
        let v = lemma_chain_walk(g0, g, n, start, p);
        let w = v.push(c);
        assert(at(g0, c) != CANNOT_VISIT);
        assert(adjacent(p, c));
        assert forall|k: int| 0 <= k < w.len() implies (#[trigger] w[k]).in_map_spec(n as usize) by {
            if k < v.len() { assert(w[k] == v[k]); }
        }
        assert forall|k: int| 1 <= k < w.len() implies at(g0, #[trigger] w[k]) != CANNOT_VISIT by {
            if k < v.len() { assert(w[k] == v[k]); }
        }
        assert forall|k: int| 0 <= k < w.len() - 1 implies adjacent(#[trigger] w[k], w[k + 1]) by {
            if k < v.len() - 1 { assert(w[k] == v[k] && w[k + 1] == v[k + 1]); } else { assert(w[k] == v.last()); }
        }
        w
    }
}

/// Along a walk from `start` to `pos`, at the moment `pos` is taken off the
/// queue at distance `d`: either `d` is within the walk's length or the
/// `k`-th square lies within `k`.
proof fn lemma_pop_prefix(g0: Seq<Seq<usize>>, g: Seq<Seq<usize>>, n: int, start: Coord, goal: Coord,
    qa: Seq<(usize, usize, Coord)>, pos: Coord, d: int, w: Seq<Coord>, k: int)
    requires
        queued_or_settled(g, n, qa, None),
        forall|j: int| 0 <= j < qa.len() ==> (#[trigger] qa[j]).0 == qa[j].1 + manhattan_spec(qa[j].2, goal)
            && qa[j].0 >= d + manhattan_spec(pos, goal),
        at(g, pos) == d,
        at(g, start) == 0,
        walk_from(g0, n, start, w),
        w.len() <= NOT_VISITED,
        w.last() == pos,
        forall|c: Coord| #![trigger at(g, c)] c.in_map_spec(n as usize) && c != start && at(g0, c) != CANNOT_VISIT
            ==> at(g, c) != CANNOT_VISIT,
        0 <= k < w.len(),
    ensures
        d <= w.len() - 1 || at(g, w[k]) <= k,
    decreases k,
{
    if k > 0 {
        lemma_pop_prefix(g0, g, n, start, goal, qa, pos, d, w, k - 1);
        if !(d <= w.len() - 1) {
            let c = w[k - 1];
            let q = w[k];
            assert(c.in_map_spec(n as usize) && q.in_map_spec(n as usize));
            assert(adjacent(c, q));
            assert(finite(at(g, c)));
            if c == pos {
                assert(false);
            }
            reveal(queued_or_settled);
            if !settled(g, n, c) {
                let j = choose|j: int| 0 <= j < qa.len() && (#[trigger] qa[j]).2 == c && qa[j].1 == at(g, c);
                assert(qa[j].0 == qa[j].1 + manhattan_spec(c, goal));
                lemma_walk_span(w, k - 1);
                assert(manhattan_spec(c, goal) <= manhattan_spec(c, pos) + manhattan_spec(pos, goal));
                assert(false);
            } else {
                if q != start {
                    assert(at(g0, q) != CANNOT_VISIT);
                }
            }
        }
    }
}

/// A square taken off the queue (in the search order, at its current
/// distance) has a distance that no walk beats.
proof fn lemma_pop_optimal(g0: Seq<Seq<usize>>, g: Seq<Seq<usize>>, n: int, start: Coord, goal: Coord,
    qa: Seq<(usize, usize, Coord)>, pos: Coord, d: int)
    requires
        queued_or_settled(g, n, qa, None),
        forall|j: int| 0 <= j < qa.len() ==> (#[trigger] qa[j]).0 == qa[j].1 + manhattan_spec(qa[j].2, goal)
            && qa[j].0 >= d + manhattan_spec(pos, goal),
        at(g, pos) == d,
        at(g, start) == 0,
        forall|c: Coord| #![trigger at(g, c)] c.in_map_spec(n as usize) && c != start && at(g0, c) != CANNOT_VISIT
            ==> at(g, c) != CANNOT_VISIT,
    ensures
        optimal(g0, g, n, start, pos),
{
    reveal(optimal);
    assert forall|w: Seq<Coord>| #![trigger walk_from(g0, n, start, w)]
        walk_from(g0, n, start, w) && w.len() <= NOT_VISITED && w.last() == pos implies at(g, pos) <= w.len() - 1 by {
        lemma_pop_prefix(g0, g, n, start, goal, qa, pos, d, w, w.len() - 1);
    }
}

/// Whether a distance is optimal depends on the distance alone.
proof fn lemma_optimal_same(g0: Seq<Seq<usize>>, tb: Seq<Seq<usize>>, g: Seq<Seq<usize>>, n: int, start: Coord, p: Coord)
    requires
        optimal(g0, tb, n, start, p),
        at(g, p) == at(tb, p),
    ensures
        optimal(g0, g, n, start, p),
{
    reveal(optimal);
}

/// The entry `(f, d, pos)` that comes first in the search order, taken at
/// the current distance of `pos`: no walk beats that distance.
proof fn lemma_pop_best_optimal(g0: Seq<Seq<usize>>, g: Seq<Seq<usize>>, n: int, start: Coord, goal: Coord,
    qa: Seq<(usize, usize, Coord)>, f: usize, d: usize, pos: Coord)
    requires
        queued_or_settled(g, n, qa, None),
        search_inv(g0, g, n, start, goal, qa),
        forall|k: int| 0 <= k < qa.len() ==> !before(#[trigger] qa[k], (f, d, pos)),
        exists|k: int| 0 <= k < qa.len() && qa[k] == (f, d, pos),
        at(g, pos) == d,
        at(g, start) == 0,
    ensures
        optimal(g0, g, n, start, pos),
{
    reveal(search_inv);
    let w = choose|k: int| 0 <= k < qa.len() && qa[k] == (f, d, pos);
    assert(f == d + manhattan_spec(pos, goal));
    assert forall|j: int| 0 <= j < qa.len() implies (#[trigger] qa[j]).0 == qa[j].1 + manhattan_spec(qa[j].2, goal)
        && qa[j].0 >= d + manhattan_spec(pos, goal) by {
        assert(!before(qa[j], (f, d, pos)));
    }
    assert forall|c: Coord| #![trigger at(g, c)] c.in_map_spec(n as usize) && c != start && at(g0, c) != CANNOT_VISIT
        implies at(g, c) != CANNOT_VISIT by {
        assert(at(g, c) <= at(g0, c));
    }
    lemma_pop_optimal(g0, g, n, start, goal, qa, pos, d as int);
}

/// Taking an entry off the queue keeps the bookkeeping.
proof fn lemma_search_pop(g0: Seq<Seq<usize>>, g: Seq<Seq<usize>>, n: int, start: Coord, goal: Coord,
    qa: Seq<(usize, usize, Coord)>, q: Seq<(usize, usize, Coord)>, w: int)
    requires
        search_inv(g0, g, n, start, goal, qa),
        0 <= w < qa.len(),
        q == qa.remove(w),
    ensures
        search_inv(g0, g, n, start, goal, q),
        qa[w].2.in_map_spec(n as usize),
        qa[w].1 < NOT_VISITED,
        at(g, qa[w].2) <= qa[w].1,
{
    reveal(search_inv);
    assert forall|k: int| 0 <= k < q.len() implies (#[trigger] q[k]).2.in_map_spec(n as usize)
        && q[k].1 < NOT_VISITED && at(g, q[k].2) <= q[k].1 && q[k].0 == q[k].1 + manhattan_spec(q[k].2, goal) by {
        if k < w { assert(q[k] == qa[k]); } else { assert(q[k] == qa[k + 1]); }
    }
}

/// Lowering `next` to one step beyond `pos`, whose distance no walk beats,
/// keeps every finite square anchored.
proof fn lemma_anchor_relax(g0: Seq<Seq<usize>>, tb: Seq<Seq<usize>>, g: Seq<Seq<usize>>, n: int, start: Coord,
    pos: Coord, next: Coord)
    requires
        anchored(g0, tb, n, start),
        optimal(g0, tb, n, start, pos),
        pos.in_map_spec(n as usize),
        next.in_map_spec(n as usize),
        start.in_map_spec(n as usize),
        adjacent(pos, next),
        next != start,
        finite(at(tb, pos)),
        at(g, next) == at(tb, pos) + 1,
        at(g, next) < at(tb, next),
        at(tb, next) <= NOT_VISITED,
        forall|c: Coord| #![trigger at(g, c)] c.in_map_spec(n as usize) && c != next ==> at(g, c) == at(tb, c),
        chained(tb, n, start),
        forall|x: Coord| #![trigger at(tb, x)] x.in_map_spec(n as usize) && x != start
            && at(g0, x) == CANNOT_VISIT ==> at(tb, x) == CANNOT_VISIT,
    ensures
        anchored(g0, g, n, start),
        optimal(g0, g, n, start, pos),
{
    reveal(anchored);
    assert(pos != next);
    assert(at(g, pos) == at(tb, pos));
    lemma_optimal_same(g0, tb, g, n, start, pos);
    assert forall|c: Coord| #![trigger at(g, c)] c.in_map_spec(n as usize) && c != start && finite(at(g, c))
        implies exists|p: Coord| #![trigger at(g, p)] p.in_map_spec(n as usize) && adjacent(c, p) && at(g, p) + 1 == at(g, c)
            && optimal(g0, g, n, start, p) by {
        if c == next {
            assert(adjacent(next, pos));
            assert(at(g, pos) + 1 == at(g, c));
        } else {
            assert(at(g, c) == at(tb, c));
            assert(finite(at(tb, c)));
            let p = choose|p: Coord| #![trigger at(tb, p)] p.in_map_spec(n as usize) && adjacent(c, p) && at(tb, p) + 1 == at(tb, c)
                && optimal(g0, tb, n, start, p);
            if p == next {
                reveal(optimal);
                let v = lemma_chain_walk(g0, tb, n, start, pos);
                let w = v.push(next);
                assert(at(g0, next) != CANNOT_VISIT);
                assert forall|k: int| 0 <= k < w.len() implies (#[trigger] w[k]).in_map_spec(n as usize) by {
                    if k < v.len() { assert(w[k] == v[k]); }
                }
                assert forall|k: int| 1 <= k < w.len() implies at(g0, #[trigger] w[k]) != CANNOT_VISIT by {
                    if k < v.len() { assert(w[k] == v[k]); }
                }
                assert forall|k: int| 0 <= k < w.len() - 1 implies adjacent(#[trigger] w[k], w[k + 1]) by {
                    if k < v.len() - 1 { assert(w[k] == v[k] && w[k + 1] == v[k + 1]); } else { assert(w[k] == v.last()); }
                }
                assert(walk_from(g0, n, start, w));
                assert(false);
            }
            assert(at(g, p) == at(tb, p));
            lemma_optimal_same(g0, tb, g, n, start, p);
        }
    }
}

/// A table anchored at `start` descends.
proof fn lemma_anchored_descends(g0: Seq<Seq<usize>>, g: Seq<Seq<usize>>, n: int, start: Coord)
    requires
        anchored(g0, g, n, start),
        1 <= n <= usize::MAX / 2,
        at(g, start) == 0,
    ensures
        descends(g, n),
{
    reveal(anchored);
    assert forall|c: Coord| #![trigger at(g, c)] c.in_map_spec(n as usize) && finite(at(g, c)) && at(g, c) > 0
        implies first_with(g, n, c, at(g, c) - 1, 0) < 4 by {
        assert(c != start);
        let p = choose|p: Coord| #![trigger at(g, p)] p.in_map_spec(n as usize) && adjacent(c, p) && at(g, p) + 1 == at(g, c)
            && optimal(g0, g, n, start, p);
        let di = p.i - c.i;
        let dj = p.j - c.j;
        let m: int = if di == 0 && dj == 1 { 0 } else if di == 1 && dj == 0 { 1 } else if di == 0 && dj == -1 { 2 } else { 3 };
        lemma_step(c, m, n as usize);
        assert(step(c, m) == p);
        lemma_first_with_exists(g, n, c, at(g, c) - 1, 0, m);
    }
}

/// What a finished search gives at `goal`: its distance is that of a walk
/// from `start`, and the table descends.
proof fn lemma_a_star_done(g0: Seq<Seq<usize>>, g: Seq<Seq<usize>>, n: int, start: Coord, goal: Coord)
    requires
        anchored(g0, g, n, start),
        optimal(g0, g, n, start, goal),
        chained(g, n, start),
        1 <= n <= usize::MAX / 2,
        start.in_map_spec(n as usize),
        goal.in_map_spec(n as usize),
        at(g, start) == 0,
        forall|x: Coord| #![trigger at(g, x)] x.in_map_spec(n as usize) && x != start
            && at(g0, x) == CANNOT_VISIT ==> at(g, x) == CANNOT_VISIT,
    ensures
        finite(at(g, goal)) ==> exists|w: Seq<Coord>| #![trigger walk_from(g0, n, start, w)]
            walk_from(g0, n, start, w) && w.last() == goal && w.len() == at(g, goal) + 1,
        descends(g, n),
{
    lemma_anchored_descends(g0, g, n, start);
    if finite(at(g, goal)) {
        let w = lemma_chain_walk(g0, g, n, start, goal);
        assert(w.len() <= NOT_VISITED);
        reveal(optimal);
        assert(at(g, goal) <= w.len() - 1);
    }
}

/// Where every finite square is settled, no walk from `start` beats a
/// distance.
proof fn lemma_all_settled_optimal(g0: Seq<Seq<usize>>, g: Seq<Seq<usize>>, n: int, start: Coord, goal: Coord)
    requires
        at(g, start) == 0,
        forall|c: Coord| #![trigger at(g, c)] c.in_map_spec(n as usize) && finite(at(g, c)) ==> settled(g, n, c),
        forall|c: Coord| #![trigger at(g, c)] c.in_map_spec(n as usize) && c != start && at(g0, c) != CANNOT_VISIT
            ==> at(g, c) != CANNOT_VISIT,
    ensures
        optimal(g0, g, n, start, goal),
{
    reveal(optimal);
    assert forall|w: Seq<Coord>| #![trigger walk_from(g0, n, start, w)]
        walk_from(g0, n, start, w) && w.len() <= NOT_VISITED && w.last() == goal implies at(g, goal) <= w.len() - 1 by {
        lemma_walk_settled(g0, g, n, start, w, w.len() - 1);
    }
}

/// Along a walk from `start` (at distance 0) over squares that are all
/// settled once finite, the `k`-th square lies within `k`.
proof fn lemma_walk_settled(g0: Seq<Seq<usize>>, g: Seq<Seq<usize>>, n: int, start: Coord, w: Seq<Coord>, k: int)
    requires
        walk_from(g0, n, start, w),
        w.len() <= NOT_VISITED,
        at(g, start) == 0,
        0 <= k < w.len(),
        forall|c: Coord| #![trigger at(g, c)] c.in_map_spec(n as usize) && finite(at(g, c)) ==> settled(g, n, c),
        forall|c: Coord| #![trigger at(g, c)] c.in_map_spec(n as usize) && c != start && at(g0, c) != CANNOT_VISIT
            ==> at(g, c) != CANNOT_VISIT,
    ensures
        at(g, w[k]) <= k,
    decreases k,
{
    if k > 0 {
        lemma_walk_settled(g0, g, n, start, w, k - 1);
        let c = w[k - 1];
        let q = w[k];
        assert(adjacent(c, q));
        assert(c.in_map_spec(n as usize) && q.in_map_spec(n as usize));
        if q != start {
            assert(at(g0, q) != CANNOT_VISIT);
            assert(at(g, q) != CANNOT_VISIT);
        }
        assert(finite(at(g, c)));
        assert(settled(g, n, c));
    }
}

/// The bookkeeping of the best-first search from `start` towards `goal`
/// over a table that was `g0`: each queue entry `(f, d, pos)` has a square of
/// the board, a finite `d` no smaller than the distance of `pos`, and
/// `f = d + |pos - goal|`; no distance but that of `start` has grown, closed
/// squares stay closed, every finite square but `start` has a neighbour at
/// least one step closer, only `start` is at 0, and every square keeps its
/// old value or is finite.
#[verifier::opaque]
pub open spec fn search_inv(g0: Seq<Seq<usize>>, g: Seq<Seq<usize>>, n: int, start: Coord, goal: Coord,
    queue: Seq<(usize, usize, Coord)>) -> bool {
    &&& forall|k: int| 0 <= k < queue.len() ==> (#[trigger] queue[k]).2.in_map_spec(n as usize)
        && queue[k].1 < NOT_VISITED && at(g, queue[k].2) <= queue[k].1
        && queue[k].0 == queue[k].1 + manhattan_spec(queue[k].2, goal)
    &&& forall|c: Coord| #![trigger at(g, c)] c.in_map_spec(n as usize) && c != start ==> at(g, c) <= at(g0, c)
    &&& forall|c: Coord| #![trigger at(g, c)] c.in_map_spec(n as usize) && c != start
        && at(g0, c) == CANNOT_VISIT ==> at(g, c) == CANNOT_VISIT
    &&& forall|c: Coord| #![trigger at(g, c)] c.in_map_spec(n as usize)
        ==> at(g, c) <= NOT_VISITED || at(g, c) == CANNOT_VISIT
    &&& forall|c: Coord| #![trigger at(g, c)] c.in_map_spec(n as usize) && c != start && finite(at(g, c))
        ==> exists|p: Coord| #![trigger at(g, p)] p.in_map_spec(n as usize) && adjacent(c, p) && at(g, p) + 1 <= at(g, c)
    &&& only_start_zero(g, n, start)
    &&& forall|c: Coord| #![trigger at(g, c)] c.in_map_spec(n as usize) ==> at(g, c) == at(g0, c) || finite(at(g, c))
}

/// Lowers each open neighbour of `pos` (taken off the queue at its current
/// distance `d`) that lies more than one step beyond it, and queues it;
/// `pos` is then settled.
#[verifier::rlimit(100)]
#[verifier::spinoff_prover]
fn relax_around(dist: &mut Vec<Vec<usize>>, queue: &mut Vec<(usize, usize, Coord)>, pos: Coord, d: usize, start: Coord,
    goal: Coord, g0: Ghost<Seq<Seq<usize>>>)
    requires
        1 <= old(dist)@.len() <= usize::MAX / 8,
        square_table(view2(old(dist)@), old(dist)@.len() as int),
        start.in_map_spec(old(dist)@.len() as usize),
        goal.in_map_spec(old(dist)@.len() as usize),
        at(view2(old(dist)@), start) == 0,
        pos.in_map_spec(old(dist)@.len() as usize),
        at(view2(old(dist)@), pos) == d,
        d < NOT_VISITED,
        pos != goal,
        search_inv(g0@, view2(old(dist)@), old(dist)@.len() as int, start, goal, old(queue)@),
        queued_or_settled(view2(old(dist)@), old(dist)@.len() as int, old(queue)@, Some(pos)),
        anchored(g0@, view2(old(dist)@), old(dist)@.len() as int, start),
        optimal(g0@, view2(old(dist)@), old(dist)@.len() as int, start, pos),
    ensures
        final(dist)@.len() == old(dist)@.len(),
        square_table(view2(final(dist)@), old(dist)@.len() as int),
        at(view2(final(dist)@), start) == 0,
        search_inv(g0@, view2(final(dist)@), old(dist)@.len() as int, start, goal, final(queue)@),
        queued_or_settled(view2(final(dist)@), old(dist)@.len() as int, final(queue)@, None),
        anchored(g0@, view2(final(dist)@), old(dist)@.len() as int, start),
        5 * total(view2(final(dist)@)) + final(queue)@.len() <= 5 * total(view2(old(dist)@)) + old(queue)@.len(),
{
    let N = dist.len();
    let ghost n = N as int;
    let ghost m0 = total(view2(dist@));
    let ghost q0 = queue@;
    proof {
        reveal(search_inv);
    }
    let mut k: usize = 0;
    while k < 4
        invariant
            N == dist@.len(),
            n == N,
            1 <= N <= usize::MAX / 8,
            square_table(view2(dist@), n),
            start.in_map_spec(N),
            goal.in_map_spec(N),
            at(view2(dist@), start) == 0,
            pos.in_map_spec(N),
            at(view2(dist@), pos) == d,
            d < NOT_VISITED,
            0 <= k <= 4,
            queue@.len() >= q0.len(),
            5 * total(view2(dist@)) + queue@.len() <= 5 * m0 + q0.len(),
            forall|k: int| 0 <= k < queue@.len() ==> (#[trigger] queue@[k]).2.in_map_spec(N)
                && queue@[k].1 < NOT_VISITED && at(view2(dist@), queue@[k].2) <= queue@[k].1,
            forall|c: Coord| #![trigger at(view2(dist@), c)] c.in_map_spec(N) && c != start
                ==> at(view2(dist@), c) <= at(g0@, c),
            forall|c: Coord| #![trigger at(view2(dist@), c)] c.in_map_spec(N) && c != start
                && at(g0@, c) == CANNOT_VISIT ==> at(view2(dist@), c) == CANNOT_VISIT,
            forall|c: Coord| #![trigger at(view2(dist@), c)] c.in_map_spec(N)
                ==> at(view2(dist@), c) <= NOT_VISITED || at(view2(dist@), c) == CANNOT_VISIT,
            forall|c: Coord| #![trigger at(view2(dist@), c)] c.in_map_spec(N) && c != start
                && finite(at(view2(dist@), c))
                ==> exists|p: Coord| #![trigger at(view2(dist@), p)] p.in_map_spec(N)
                    && adjacent(c, p) && at(view2(dist@), p) + 1 <= at(view2(dist@), c),
            only_start_zero(view2(dist@), n, start),
            forall|c: Coord| #![trigger at(view2(dist@), c)] c.in_map_spec(N)
                ==> at(view2(dist@), c) == at(g0@, c) || finite(at(view2(dist@), c)),
            queued_or_settled(view2(dist@), n, queue@, Some(pos)),
            forall|m: int| 0 <= m < k && (#[trigger] step(pos, m)).in_map_spec(N)
                && at(view2(dist@), step(pos, m)) != CANNOT_VISIT
                ==> at(view2(dist@), step(pos, m)) <= d + 1,
            pos != goal,
            forall|k: int| 0 <= k < queue@.len() ==> (#[trigger] queue@[k]).0 == queue@[k].1 + manhattan_spec(queue@[k].2, goal),
            anchored(g0@, view2(dist@), n, start),
            optimal(g0@, view2(dist@), n, start, pos),
        decreases 4 - k,
    {
        let next = neighbor(pos, k);
        proof {
            lemma_step(pos, k as int, N);
        }
        if next.in_map(N) && tget(dist, next) != CANNOT_VISIT && d + 1 < tget(dist, next) {
            let ghost tb = view2(dist@);
            let ghost qb = queue@;
            tset(dist, next, d + 1);
            let h = calc_manhattan_dist(next, goal);
            queue.push((d + 1 + h, d + 1, next));
            proof {
                assert(next != pos);
                assert(at(tb, start) == 0);
                assert(next != start);
                assert(chained(tb, n, start)) by { reveal(chained); }
                lemma_anchor_relax(g0@, tb, view2(dist@), n, start, pos, next);
                assert forall|k: int| 0 <= k < queue@.len() implies (#[trigger] queue@[k]).0 == queue@[k].1 + manhattan_spec(queue@[k].2, goal) by {
                    if k < qb.len() {
                        assert(queue@[k] == qb[k]);
                    }
                }
                assert forall|k: int| 0 <= k < queue@.len() implies (#[trigger] queue@[k]).2.in_map_spec(N)
                    && queue@[k].1 < NOT_VISITED && at(view2(dist@), queue@[k].2) <= queue@[k].1 by {
                    if k < qb.len() {
                        assert(queue@[k] == qb[k]);
                        assert(at(tb, qb[k].2) <= qb[k].1);
                    }
                }
                assert forall|c: Coord| #![trigger at(view2(dist@), c)] c.in_map_spec(N) && c != start
                    && finite(at(view2(dist@), c))
                    implies exists|p: Coord| #![trigger at(view2(dist@), p)] p.in_map_spec(N)
                        && adjacent(c, p) && at(view2(dist@), p) + 1 <= at(view2(dist@), c) by {
                    if c == next {
                        assert(adjacent(next, pos));
                        assert(at(view2(dist@), pos) + 1 <= at(view2(dist@), c));
                    } else {
                        assert(finite(at(tb, c)));
                        let p = choose|p: Coord| #![trigger at(tb, p)] p.in_map_spec(N)
                            && adjacent(c, p) && at(tb, p) + 1 <= at(tb, c);
                        assert(at(view2(dist@), p) <= at(tb, p));
                    }
                }
                assert forall|c: Coord| #![trigger at(view2(dist@), c)] c.in_map_spec(N) && at(view2(dist@), c) == 0
                    implies c == start by {
                    if c != next {
                        assert(at(view2(dist@), c) == at(tb, c));
                    }
                }
                assert forall|c: Coord| #![trigger at(view2(dist@), c)] c.in_map_spec(N)
                    implies at(view2(dist@), c) == at(g0@, c) || finite(at(view2(dist@), c)) by {
                    if c != next {
                        assert(at(view2(dist@), c) == at(tb, c));
                    }
                }
                lemma_qs_relax(tb, view2(dist@), n, qb, queue@, pos, next, queue@[qb.len() as int]);
                assert forall|m: int| 0 <= m < k + 1 && (#[trigger] step(pos, m)).in_map_spec(N)
                    && at(view2(dist@), step(pos, m)) != CANNOT_VISIT
                    implies at(view2(dist@), step(pos, m)) <= d + 1 by {
                    if step(pos, m) != next {
                        assert(at(view2(dist@), step(pos, m)) == at(tb, step(pos, m)));
                    }
                }
            }
        }
        k += 1;
    }
    proof {
        lemma_settle(view2(dist@), n, pos, d as int);
        lemma_qs_settle(view2(dist@), n, queue@, pos);
        reveal(search_inv);
    }
}

/// Best-first search from `start` towards `goal` with the Manhattan distance
/// as estimate: distances spread over the open squares until `goal` is taken
/// or nothing is left to take. Afterwards `start` is the one square at 0, the
/// distance of `goal` is that of a shortest walk to it over open squares
/// (unchanged where there is none), and the table descends, so that
/// `bfs_revert` walks back from `goal` to `start`.
#[allow(non_snake_case)]
#[verifier::rlimit(100)]
#[verifier::spinoff_prover]
pub fn A_star(start: Coord, goal: Coord, dist: &mut Vec<Vec<usize>>)
    requires
        1 <= old(dist)@.len() <= usize::MAX / 8,
        square_table(view2(old(dist)@), old(dist)@.len() as int),
        forall|c: Coord| #![trigger at(view2(old(dist)@), c)] c.in_map_spec(old(dist)@.len() as usize)
            ==> at(view2(old(dist)@), c) == NOT_VISITED || at(view2(old(dist)@), c) == CANNOT_VISIT,
        start.in_map_spec(old(dist)@.len() as usize),
        goal.in_map_spec(old(dist)@.len() as usize),
    ensures
        final(dist)@.len() == old(dist)@.len(),
        square_table(view2(final(dist)@), old(dist)@.len() as int),
        at(view2(final(dist)@), start) == 0,
        forall|c: Coord| #![trigger at(view2(final(dist)@), c)] c.in_map_spec(old(dist)@.len() as usize) && c != start
            ==> at(view2(final(dist)@), c) <= at(view2(old(dist)@), c),
        forall|c: Coord| #![trigger at(view2(final(dist)@), c)] c.in_map_spec(old(dist)@.len() as usize) && c != start
            && at(view2(old(dist)@), c) == CANNOT_VISIT ==> at(view2(final(dist)@), c) == CANNOT_VISIT,
        forall|c: Coord| #![trigger at(view2(final(dist)@), c)] c.in_map_spec(old(dist)@.len() as usize) && c != start
            && finite(at(view2(final(dist)@), c))
            ==> exists|p: Coord| #![trigger at(view2(final(dist)@), p)] p.in_map_spec(old(dist)@.len() as usize)
                && adjacent(c, p) && at(view2(final(dist)@), p) + 1 <= at(view2(final(dist)@), c),
        only_start_zero(view2(final(dist)@), old(dist)@.len() as int, start),
        forall|c: Coord| #![trigger at(view2(final(dist)@), c)] c.in_map_spec(old(dist)@.len() as usize)
            ==> at(view2(final(dist)@), c) == at(view2(old(dist)@), c) || finite(at(view2(final(dist)@), c)),
        optimal(view2(old(dist)@), view2(final(dist)@), old(dist)@.len() as int, start, goal),
        finite(at(view2(final(dist)@), goal)) ==> exists|w: Seq<Coord>| #![trigger walk_from(view2(old(dist)@), old(dist)@.len() as int, start, w)]
            walk_from(view2(old(dist)@), old(dist)@.len() as int, start, w) && w.last() == goal
            && w.len() == at(view2(final(dist)@), goal) + 1,
        descends(view2(final(dist)@), old(dist)@.len() as int),
{
    let N = dist.len();
    let ghost n = N as int;
    let mut queue: Vec<(usize, usize, Coord)> = Vec::new();
    let ghost t0 = view2(dist@);
    tset(dist, start, 0);
    queue.push((calc_manhattan_dist(start, goal), 0, start));
    proof {
        assert forall|c: Coord| #![trigger at(view2(dist@), c)] c.in_map_spec(N) && at(view2(dist@), c) == 0
            implies c == start by {
            if c != start {
                assert(at(view2(dist@), c) == at(t0, c));
            }
        }
        assert forall|c: Coord| #![trigger at(view2(dist@), c)] c.in_map_spec(N)
            implies at(view2(dist@), c) == at(view2(old(dist)@), c) || finite(at(view2(dist@), c)) by {
            if c != start {
                assert(at(view2(dist@), c) == at(t0, c));
            }
        }
        lemma_qs_start(t0, view2(dist@), n, queue@, start);
        reveal(anchored);
        assert forall|c: Coord| #![trigger at(view2(dist@), c)] c.in_map_spec(N) && c != start
            implies !finite(at(view2(dist@), c)) by {
            assert(at(view2(dist@), c) == at(t0, c));
        }
        assert(anchored(view2(old(dist)@), view2(dist@), n, start));
        reveal(search_inv);
        assert(search_inv(view2(old(dist)@), view2(dist@), n, start, goal, queue@));
    }
    while queue.len() > 0
        invariant
            N == dist@.len(),
            N == old(dist)@.len(),
            n == N,
            1 <= N <= usize::MAX / 8,
            square_table(view2(dist@), n),
            start.in_map_spec(N),
            goal.in_map_spec(N),
            at(view2(dist@), start) == 0,
            search_inv(view2(old(dist)@), view2(dist@), n, start, goal, queue@),
            queued_or_settled(view2(dist@), n, queue@, None),
            anchored(view2(old(dist)@), view2(dist@), n, start),
        decreases 5 * total(view2(dist@)) + queue@.len(),
    {
        let ghost qa = queue@;
        let (f, d, pos) = pop_best(&mut queue);
        let ghost m0 = total(view2(dist@));
        let ghost q0 = queue@;
        proof {
            let w = choose|w: int| 0 <= w < qa.len() && qa[w] == (f, d, pos) && queue@ == qa.remove(w);
            lemma_search_pop(view2(old(dist)@), view2(dist@), n, start, goal, qa, queue@, w);
            lemma_after_pop(view2(dist@), n, qa, queue@, w, pos, d);
        }
        if tget(dist, pos) < d {
            continue;
        }
        proof {
            lemma_pop_best_optimal(view2(old(dist)@), view2(dist@), n, start, goal, qa, f, d, pos);
        }
        if pos == goal {
            proof {
                let g = view2(dist@);
                reveal(search_inv);
                assert(chained(g, n, start)) by { reveal(chained); }
                lemma_a_star_done(view2(old(dist)@), g, n, start, goal);
            }
            return;
        }
        relax_around(dist, &mut queue, pos, d, start, goal, Ghost(view2(old(dist)@)));
    }
    proof {
        let g = view2(dist@);
        reveal(search_inv);
        lemma_qs_empty(g, n, queue@);
        assert forall|c: Coord| #![trigger at(g, c)] c.in_map_spec(N) && c != start && at(view2(old(dist)@), c) != CANNOT_VISIT
            implies at(g, c) != CANNOT_VISIT by {
            assert(at(g, c) <= at(view2(old(dist)@), c));
        }
        lemma_all_settled_optimal(view2(old(dist)@), g, n, start, goal);
        assert(chained(g, n, start)) by { reveal(chained); }
        lemma_a_star_done(view2(old(dist)@), g, n, start, goal);
    }
}


/// One for the squares that the search numbered `cnt` may still enter, zero
/// for the others.
pub open spec fn marks(g: Seq<Seq<usize>>, cnt: usize) -> Seq<Seq<usize>> {
    g.map_values(|row: Seq<usize>| row.map_values(|x: usize| if x != cnt && x != CANNOT_VISIT { 1usize } else { 0usize }))
}

/// How many squares the search numbered `cnt` may still enter.
pub open spec fn unmarked(g: Seq<Seq<usize>>, cnt: usize) -> nat {
    total(marks(g, cnt))
}

proof fn lemma_marks_square(g: Seq<Seq<usize>>, cnt: usize, n: int)
    requires
        square_table(g, n),
    ensures
        square_table(marks(g, cnt), n),
        binary(marks(g, cnt)),
{
}

proof fn lemma_mark(g: Seq<Seq<usize>>, cnt: usize, n: int, c: Coord)
    requires
        square_table(g, n),
        c.in_map_spec(n as usize),
        at(g, c) != cnt,
        at(g, c) != CANNOT_VISIT,
    ensures
        unmarked(g.update(c.i as int, g[c.i as int].update(c.j as int, cnt)), cnt) == unmarked(g, cnt) - 1,
{
    let m = marks(g, cnt);
    let g2 = g.update(c.i as int, g[c.i as int].update(c.j as int, cnt));
    assert(marks(g2, cnt) =~~= m.update(c.i as int, m[c.i as int].update(c.j as int, 0)));
    lemma_total_update(m, c.i as int, c.j as int, 0);
}

/// The table and queue after the square `c` (at distance `d`) marks with
/// `cnt` and queues one farther each of its neighbours in the first `k`
/// directions (Right, Down, Left, Up) that lies on the board, is open and is
/// not marked yet.
pub open spec fn gen_nbrs(g: Seq<Seq<usize>>, q: Seq<(Coord, usize)>, n: int, cnt: usize, c: Coord, d: usize, k: int)
    -> (Seq<Seq<usize>>, Seq<(Coord, usize)>)
    decreases k,
{
    if k <= 0 {
        (g, q)
    } else {
        let s = gen_nbrs(g, q, n, cnt, c, d, k - 1);
        let nx = step(c, k - 1);
        if nx.in_map_spec(n as usize) && at(s.0, nx) != CANNOT_VISIT && at(s.0, nx) != cnt {
            (s.0.update(nx.i as int, s.0[nx.i as int].update(nx.j as int, cnt)), s.1.push((nx, (d + 1) as usize)))
        } else {
            s
        }
    }
}

/// The search numbered `cnt` run from table `g` and queue `q` until it
/// takes out a square off the border of the `n x n` board or runs dry: the
/// table, the queue, and that square with its distance (`None` when dry).
/// Each square taken out first marks and queues its neighbours (`gen_nbrs`).
pub open spec fn gen_run(g: Seq<Seq<usize>>, q: Seq<(Coord, usize)>, n: int, cnt: usize)
    -> (Seq<Seq<usize>>, Seq<(Coord, usize)>, Option<(Coord, usize)>)
    decreases 5 * unmarked(g, cnt) + q.len(),
{
    if q.len() == 0 {
        (g, q, None)
    } else {
        let c = q[0].0;
        let d = q[0].1;
        let s = gen_nbrs(g, q.drop_first(), n, cnt, c, d, 4);
        if c.i != 0 && c.i != n - 1 && c.j != 0 && c.j != n - 1 {
            (s.0, s.1, Some((c, d)))
        } else if 5 * unmarked(s.0, cnt) + s.1.len() < 5 * unmarked(g, cnt) + q.len() {
            gen_run(s.0, s.1, n, cnt)
        } else {
            (s.0, s.1, None)
        }
    }
}

/// The distances on the queue `q` never fall, and the last lies within one
/// step of the first.
pub open spec fn layered(q: Seq<(Coord, usize)>) -> bool {
    &&& forall|i: int, j: int| 0 <= i < j < q.len() ==> (#[trigger] q[i]).1 <= (#[trigger] q[j]).1
    &&& q.len() > 0 ==> q.last().1 <= q[0].1 + 1
}

/// The queue entries lie on the board, and their distances stay in range
/// however far the search numbered `cnt` still spreads.
pub open spec fn queue_in_range(g: Seq<Seq<usize>>, q: Seq<(Coord, usize)>, n: int, cnt: usize) -> bool {
    forall|k: int| 0 <= k < q.len() ==> (#[trigger] q[k]).0.in_map_spec(n as usize) && q[k].1 + unmarked(g, cnt) <= usize::MAX
}

/// Queueing the neighbours of a square at distance `d` behind entries at
/// `d` or `d + 1` leaves the entries in order, at `d` or `d + 1`.
proof fn lemma_nbrs_order(g: Seq<Seq<usize>>, q: Seq<(Coord, usize)>, n: int, cnt: usize, c: Coord, d: usize, k: int)
    requires
        1 <= n <= usize::MAX / 2,
        square_table(g, n),
        c.in_map_spec(n as usize),
        0 <= k <= 4,
        forall|i: int, j: int| 0 <= i < j < q.len() ==> (#[trigger] q[i]).1 <= (#[trigger] q[j]).1,
        forall|i: int| 0 <= i < q.len() ==> d <= (#[trigger] q[i]).1 <= d + 1,
        queue_in_range(g, q, n, cnt),
        d + unmarked(g, cnt) <= usize::MAX,
    ensures
        ({
            let s = gen_nbrs(g, q, n, cnt, c, d, k);
            &&& square_table(s.0, n)
            &&& unmarked(s.0, cnt) <= unmarked(g, cnt)
            &&& unmarked(s.0, cnt) + s.1.len() == unmarked(g, cnt) + q.len()
            &&& forall|i: int, j: int| 0 <= i < j < s.1.len() ==> (#[trigger] s.1[i]).1 <= (#[trigger] s.1[j]).1
            &&& forall|i: int| 0 <= i < s.1.len() ==> d <= (#[trigger] s.1[i]).1 <= d + 1
            &&& queue_in_range(s.0, s.1, n, cnt)
        }),
    decreases k,
{
    if k > 0 {
        lemma_nbrs_order(g, q, n, cnt, c, d, k - 1);
        let p = gen_nbrs(g, q, n, cnt, c, d, k - 1);
        let nx = step(c, k - 1);
        if nx.in_map_spec(n as usize) && at(p.0, nx) != CANNOT_VISIT && at(p.0, nx) != cnt {
            lemma_mark(p.0, cnt, n, nx);
            lemma_marks_square(p.0, cnt, n);
            lemma_total_binary(marks(p.0, cnt), n);
            let g2 = p.0.update(nx.i as int, p.0[nx.i as int].update(nx.j as int, cnt));
            let q2 = p.1.push((nx, (d + 1) as usize));
            assert(square_table(g2, n));
            assert(unmarked(p.0, cnt) >= 1);
            assert forall|i: int, j: int| 0 <= i < j < q2.len() implies (#[trigger] q2[i]).1 <= (#[trigger] q2[j]).1 by {
                if j < p.1.len() {
                    assert(q2[i] == p.1[i] && q2[j] == p.1[j]);
                } else {
                    assert(q2[i] == p.1[i]);
                }
            }
            assert forall|i: int| 0 <= i < q2.len() implies d <= (#[trigger] q2[i]).1 <= d + 1 by {
                if i < p.1.len() {
                    assert(q2[i] == p.1[i]);
                }
            }
            assert forall|i: int| 0 <= i < q2.len() implies (#[trigger] q2[i]).0.in_map_spec(n as usize)
                && q2[i].1 + unmarked(g2, cnt) <= usize::MAX by {
                if i < p.1.len() {
                    assert(q2[i] == p.1[i]);
                }
            }
        }
    }
}

/// One call of `BfsGenerator::next` (`gen_run`) on a queue in order keeps
/// it in order, and the square it hands out is no nearer than the first
/// entry before it and no farther than any entry left: so the squares come
/// out nearest first, call after call. It hands out nothing only once the
/// queue is empty, and from then on every call hands out nothing.
pub proof fn law_next_in_order(g: Seq<Seq<usize>>, q: Seq<(Coord, usize)>, n: int, cnt: usize)
    requires
        1 <= n <= usize::MAX / 2,
        square_table(g, n),
        layered(q),
        queue_in_range(g, q, n, cnt),
    ensures
        ({
            let r = gen_run(g, q, n, cnt);
            &&& square_table(r.0, n)
            &&& layered(r.1)
            &&& queue_in_range(r.0, r.1, n, cnt)
            &&& (r.2 matches Some(e) ==> q.len() > 0 && q[0].1 <= e.1
                && forall|k: int| 0 <= k < r.1.len() ==> e.1 <= (#[trigger] r.1[k]).1)
            &&& (r.2 is None ==> r.1.len() == 0)
        }),
    decreases 5 * unmarked(g, cnt) + q.len(),
{
    if q.len() > 0 {
        let c = q[0].0;
        let d = q[0].1;
        let qd = q.drop_first();
        assert forall|i: int, j: int| 0 <= i < j < qd.len() implies (#[trigger] qd[i]).1 <= (#[trigger] qd[j]).1 by {
            assert(qd[i] == q[i + 1] && qd[j] == q[j + 1]);
        }
        assert forall|i: int| 0 <= i < qd.len() implies d <= (#[trigger] qd[i]).1 <= d + 1 by {
            assert(qd[i] == q[i + 1]);
            assert(q[0].1 <= q[i + 1].1 <= q.last().1);
        }
        assert(queue_in_range(g, qd, n, cnt)) by {
            assert forall|k: int| 0 <= k < qd.len() implies (#[trigger] qd[k]).0.in_map_spec(n as usize)
                && qd[k].1 + unmarked(g, cnt) <= usize::MAX by {
                assert(qd[k] == q[k + 1]);
            }
        }
        assert(q[0].0.in_map_spec(n as usize) && q[0].1 + unmarked(g, cnt) <= usize::MAX);
        lemma_nbrs_order(g, qd, n, cnt, c, d, 4);
        let s = gen_nbrs(g, qd, n, cnt, c, d, 4);
        if s.1.len() > 0 {
            assert(s.1.last() == s.1[s.1.len() - 1]);
        }
        if !(c.i != 0 && c.i != n - 1 && c.j != 0 && c.j != n - 1)
            && 5 * unmarked(s.0, cnt) + s.1.len() < 5 * unmarked(g, cnt) + q.len() {
            law_next_in_order(s.0, s.1, n, cnt);
            if s.1.len() > 0 {
                assert(d <= s.1[0].1);
            }
        }
    }
}

/// A breadth-first search that hands out the reachable squares one at a
/// time, nearest first.
pub struct BfsGenerator {
    queue: std::collections::VecDeque<(Coord, usize)>,
}

impl BfsGenerator {
    /// The squares with their distances that are waiting to be handed out,
    /// in order.
    pub closed spec fn pending(&self) -> Seq<(Coord, usize)> {
        self.queue@
    }

    /// The waiting squares lie on the `n x n` table `g` and their distances
    /// stay in range however far the search numbered `cnt` spreads.
    pub open spec fn wf(&self, g: Seq<Seq<usize>>, n: int, cnt: usize) -> bool {
        &&& 1 <= n <= usize::MAX / 2
        &&& square_table(g, n)
        &&& forall|k: int| 0 <= k < self.pending().len() ==> (#[trigger] self.pending()[k]).0.in_map_spec(n as usize)
            && self.pending()[k].1 + unmarked(g, cnt) <= usize::MAX
    }

    /// Starts search number `*bfs_cnt + 1` at `start`: bumps the counter and
    /// marks `start` with it.
    pub fn new(start: Coord, bfs_cnt: &mut usize, visited: &mut Vec<Vec<usize>>) -> (b: BfsGenerator)
        requires
            1 <= old(visited)@.len() <= usize::MAX / 2,
            old(visited)@.len() * old(visited)@.len() <= usize::MAX,
            square_table(view2(old(visited)@), old(visited)@.len() as int),
            start.in_map_spec(old(visited)@.len() as usize),
            *old(bfs_cnt) < usize::MAX,
        ensures
            *final(bfs_cnt) == *old(bfs_cnt) + 1,
            final(visited)@.len() == old(visited)@.len(),
            view2(final(visited)@) == view2(old(visited)@).update(start.i as int,
                view2(old(visited)@)[start.i as int].update(start.j as int, *final(bfs_cnt))),
            b.pending() == seq![(start, 0usize)],
            b.wf(view2(final(visited)@), old(visited)@.len() as int, *final(bfs_cnt)),
    {
        let mut queue = std::collections::VecDeque::new();
        queue.push_back((start, 0));
        *bfs_cnt += 1;
        tset(visited, start, *bfs_cnt);
        let b = BfsGenerator { queue };
        proof {
            let n = visited@.len() as int;
            lemma_marks_square(view2(visited@), *bfs_cnt, n);
            lemma_total_binary(marks(view2(visited@), *bfs_cnt), n);
            assert(b.pending() == seq![(start, 0usize)]);
        }
        b
    }

    /// Hands out the next square that is not on the border of the table,
    /// with its distance, or `None` once the search is exhausted. Every square
    /// taken out of the queue first marks its open, unmarked neighbours with
    /// `bfs_cnt` and queues them one farther.
    pub fn next(&mut self, bfs_cnt: usize, visited: &mut Vec<Vec<usize>>) -> (r: Option<(Coord, usize)>)
        requires
            old(self).wf(view2(old(visited)@), old(visited)@.len() as int, bfs_cnt),
        ensures
            final(visited)@.len() == old(visited)@.len(),
            final(self).wf(view2(final(visited)@), old(visited)@.len() as int, bfs_cnt),
            forall|c: Coord| #![trigger at(view2(final(visited)@), c)] c.in_map_spec(old(visited)@.len() as usize)
                ==> at(view2(final(visited)@), c) == at(view2(old(visited)@), c)
                    || (at(view2(final(visited)@), c) == bfs_cnt && at(view2(old(visited)@), c) != CANNOT_VISIT),
            (view2(final(visited)@), final(self).pending(), r)
                == gen_run(view2(old(visited)@), old(self).pending(), old(visited)@.len() as int, bfs_cnt),
            match r {
                Some((c, d)) => c.in_map_spec(old(visited)@.len() as usize)
                    && 1 <= c.i < old(visited)@.len() - 1 && 1 <= c.j < old(visited)@.len() - 1,
                None => final(self).pending().len() == 0,
            },
    {
        let N = visited.len();
        let ghost n = N as int;
        proof {
            assert(self.pending() == self.queue@);
        }
        while self.queue.len() > 0
            invariant
                N == visited@.len(),
                N == old(visited)@.len(),
                n == N,
                self.wf(view2(visited@), n, bfs_cnt),
                forall|c: Coord| #![trigger at(view2(visited@), c)] c.in_map_spec(N)
                    ==> at(view2(visited@), c) == at(view2(old(visited)@), c)
                        || (at(view2(visited@), c) == bfs_cnt && at(view2(old(visited)@), c) != CANNOT_VISIT),
            gen_run(view2(visited@), self.queue@, n, bfs_cnt) == gen_run(view2(old(visited)@), old(self).pending(), n, bfs_cnt),
            decreases 5 * unmarked(view2(visited@), bfs_cnt) + self.queue@.len(),
        {
            let ghost whole = self.queue@;
            let ghost g0 = view2(visited@);
            let ghost pend = self.pending();
            proof {
                assert(pend == whole);
                assert(pend[0].0.in_map_spec(N));
            }
            let (coord, dist) = self.queue.pop_front().unwrap();
            let ghost u0 = unmarked(view2(visited@), bfs_cnt);
            let ghost q0 = self.queue@;
            proof {
                assert(whole[0] == (coord, dist));
                assert(q0 =~= whole.drop_first());
                assert(gen_nbrs(g0, q0, n, bfs_cnt, coord, dist, 0) == (g0, q0));
                assert forall|k: int| 0 <= k < q0.len() implies (#[trigger] q0[k]).0.in_map_spec(N)
                    && q0[k].1 + unmarked(view2(visited@), bfs_cnt) <= usize::MAX by {
                    assert(q0[k] == whole[k + 1]);
                    assert(pend[k + 1].0.in_map_spec(N));
                }
            }
            let mut k: usize = 0;
            while k < 4
                invariant
                    N == visited@.len(),
                    N == old(visited)@.len(),
                    n == N,
                    1 <= N <= usize::MAX / 2,
                    square_table(view2(visited@), n),
                    coord.in_map_spec(N),
                    dist + unmarked(view2(visited@), bfs_cnt) <= usize::MAX,
                    0 <= k <= 4,
                    self.queue@.len() >= q0.len(),
                    5 * unmarked(view2(visited@), bfs_cnt) + self.queue@.len() <= 5 * u0 + q0.len(),
                    forall|k: int| 0 <= k < self.queue@.len() ==> (#[trigger] self.queue@[k]).0.in_map_spec(N)
                        && self.queue@[k].1 + unmarked(view2(visited@), bfs_cnt) <= usize::MAX,
                    forall|c: Coord| #![trigger at(view2(visited@), c)] c.in_map_spec(N)
                        ==> at(view2(visited@), c) == at(view2(old(visited)@), c)
                            || (at(view2(visited@), c) == bfs_cnt && at(view2(old(visited)@), c) != CANNOT_VISIT),
                    (view2(visited@), self.queue@) == gen_nbrs(g0, q0, n, bfs_cnt, coord, dist, k as int),
                decreases 4 - k,
            {
                let next = neighbor(coord, k);
                let ghost sk = (view2(visited@), self.queue@);
                proof {
                    lemma_step(coord, k as int, N);
                }
                if next.in_map(N) && tget(visited, next) != CANNOT_VISIT && tget(visited, next) != bfs_cnt {
                    let ghost tb = view2(visited@);
                    let ghost qb = self.queue@;
                    proof {
                        lemma_mark(tb, bfs_cnt, n, next);
                        lemma_marks_square(tb, bfs_cnt, n);
                    }
                    self.queue.push_back((next, dist + 1));
                    tset(visited, next, bfs_cnt);
                    proof {
                        assert forall|k: int| 0 <= k < self.queue@.len() implies (#[trigger] self.queue@[k]).0.in_map_spec(N)
                            && self.queue@[k].1 + unmarked(view2(visited@), bfs_cnt) <= usize::MAX by {
                            if k < qb.len() {
                                assert(self.queue@[k] == qb[k]);
                            }
                        }
                        assert forall|c: Coord| #![trigger at(view2(visited@), c)] c.in_map_spec(N)
                            implies at(view2(visited@), c) == at(view2(old(visited)@), c)
                                || (at(view2(visited@), c) == bfs_cnt && at(view2(old(visited)@), c) != CANNOT_VISIT) by {
                            if c != next {
                                assert(at(view2(visited@), c) == at(tb, c));
                            } else {
                                assert(at(tb, c) != CANNOT_VISIT);
                            }
                        }
                        assert(self.queue@ == qb.push((next, (dist + 1) as usize)));
                        assert((view2(visited@), self.queue@) == gen_nbrs(g0, q0, n, bfs_cnt, coord, dist, k + 1));
                    }
                } else {
                    proof {
                        assert(gen_nbrs(g0, q0, n, bfs_cnt, coord, dist, k + 1) == sk);
                    }
                }
                k += 1;
            }
            if coord.i != 0 && coord.i != N - 1 && coord.j != 0 && coord.j != N - 1 {
                return Some((coord, dist));
            }
            proof {
                assert(gen_run(g0, whole, n, bfs_cnt) == gen_run(view2(visited@), self.queue@, n, bfs_cnt));
            }
        }
        None
    }
}

} // verus!
