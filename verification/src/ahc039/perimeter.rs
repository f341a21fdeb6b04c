//! How the perimeter of the polygon changes when one cell flips.
use vstd::prelude::*;
use crate::ahc039::coord::{Coord, nb, lemma_nb, dxy4_spec};
use crate::ahc039::common::ind;
use crate::ahc039::polygon::square_bool;
use crate::ahc039::state::{
    across, alike, alike_count, border_sides, border_count, sum_rows, sum_row, flipped, lemma_sum_ext, lemma_sum_point,
};

verus! {

/// `f` where `s` holds the point, `h` elsewhere.
pub open spec fn mix(f: spec_fn(int, int) -> int, h: spec_fn(int, int) -> int, s: Set<(int, int)>) -> spec_fn(int, int) -> int {
    |x: int, y: int| if s.contains((x, y)) { f(x, y) } else { h(x, y) }
}

/// Taking one more point `p` from `f` changes the sum by the difference at `p`.
proof fn lemma_mix_add(f: spec_fn(int, int) -> int, h: spec_fn(int, int) -> int, s: Set<(int, int)>, p: (int, int), n: int)
    requires
        0 <= n,
        0 <= p.0 < n,
        0 <= p.1 < n,
        !s.contains(p),
    ensures
        sum_rows(mix(f, h, s.insert(p)), n, n) == sum_rows(mix(f, h, s), n, n) + f(p.0, p.1) - h(p.0, p.1),
{
    let a = mix(f, h, s);
    let b = mix(f, h, s.insert(p));
    assert forall|x: int, y: int| 0 <= x < n && 0 <= y < n && !(x == p.0 && y == p.1) implies #[trigger] a(x, y) == b(x, y) by {
        assert(s.insert(p).contains((x, y)) == s.contains((x, y)));
    }
    lemma_sum_point(a, b, n, n, p.0, p.1);
    assert(s.insert(p).contains(p));
}

/// The neighbour in direction `k` of the neighbour of `c` in the opposite
/// direction is `c` again, and no other direction leads back to `c`.
proof fn lemma_back(c: Coord, k: int, n: usize)
    requires
        c.in_map_spec(n),
        0 <= k < 4,
        n <= usize::MAX / 2,
        nb(c, k).in_map_spec(n),
    ensures
        nb(nb(c, k), (k + 2) % 4) == c,
        forall|j: int| 0 <= j < 4 && j != (k + 2) % 4 && #[trigger] nb(nb(c, k), j).in_map_spec(n) ==> nb(nb(c, k), j) != c,
{
    let q = nb(c, k);
    lemma_nb(c, k, n);
    lemma_nb(q, (k + 2) % 4, n);
    assert forall|j: int| 0 <= j < 4 && j != (k + 2) % 4 && #[trigger] nb(q, j).in_map_spec(n) implies nb(q, j) != c by {
        lemma_nb(q, j, n);
    }
}

/// A cell of the grid that is neither `c` nor one of its neighbours has no
/// neighbour `c`.
proof fn lemma_far(p: Coord, c: Coord, n: usize, j: int)
    requires
        c.in_map_spec(n),
        p.in_map_spec(n),
        n <= usize::MAX / 2,
        p != c,
        forall|k: int| 0 <= k < 4 ==> nb(c, k) != p,
        0 <= j < 4,
        nb(p, j).in_map_spec(n),
    ensures
        nb(p, j) != c,
{
    lemma_nb(p, j, n);
    lemma_nb(c, (j + 2) % 4, n);
    if nb(p, j) == c {
        assert(nb(c, (j + 2) % 4) == p);
    }
}

/// Flipping `c` leaves every cell that is neither `c` nor a neighbour of it
/// with the same outline sides.
proof fn lemma_far_same(g: Seq<Seq<bool>>, n: usize, c: Coord, p: Coord)
    requires
        square_bool(g, n as int),
        n <= usize::MAX / 2,
        c.in_map_spec(n),
        p.in_map_spec(n),
        p != c,
        forall|k: int| 0 <= k < 4 ==> nb(c, k) != p,
    ensures
        border_sides(flipped(g, c.x as int, c.y as int), n, p.x as int, p.y as int) == border_sides(g, n, p.x as int, p.y as int),
{
    let g2 = flipped(g, c.x as int, c.y as int);
    assert(g2[p.x as int][p.y as int] == g[p.x as int][p.y as int]);
    assert forall|j: int| 0 <= j < 4 implies #[trigger] across(g2, n, p, j) == across(g, n, p, j) by {
        let q = nb(p, j);
        if q.in_map_spec(n) {
            lemma_far(p, c, n, j);
            assert(g2[q.x as int][q.y as int] == g[q.x as int][q.y as int]);
        }
    }
    assert(Coord { x: p.x as int as usize, y: p.y as int as usize } == p);
}

/// The change of the outline sides of the neighbour `q` of `c` (direction
/// `k`) when `c` flips: none if `q` is empty; else one more if `c` was
/// filled, one fewer if it was empty.
proof fn lemma_near_change(g: Seq<Seq<bool>>, n: usize, c: Coord, k: int)
    requires
        square_bool(g, n as int),
        n <= usize::MAX / 2,
        c.in_map_spec(n),
        0 <= k < 4,
        nb(c, k).in_map_spec(n),
    ensures
        ({
            let q = nb(c, k);
            let g2 = flipped(g, c.x as int, c.y as int);
            border_sides(g2, n, q.x as int, q.y as int) - border_sides(g, n, q.x as int, q.y as int)
                == if !g[q.x as int][q.y as int] { 0int } else if g[c.x as int][c.y as int] { 1int } else { -1int }
        }),
{
    let q = nb(c, k);
    let g2 = flipped(g, c.x as int, c.y as int);
    lemma_back(c, k, n);
    lemma_nb(c, k, n);
    assert(q != c);
    assert(g2[q.x as int][q.y as int] == g[q.x as int][q.y as int]);
    let back = (k + 2) % 4;
    assert forall|j: int| 0 <= j < 4 && j != back implies #[trigger] across(g2, n, q, j) == across(g, n, q, j) by {
        let r = nb(q, j);
        if r.in_map_spec(n) {
            assert(r != c);
            assert(g2[r.x as int][r.y as int] == g[r.x as int][r.y as int]);
        }
    }
    assert(nb(q, back) == c);
    assert(g2[c.x as int][c.y as int] == !g[c.x as int][c.y as int]);
    assert(across(g2, n, q, back) == (g[q.x as int][q.y as int] != !g[c.x as int][c.y as int]));
    assert(across(g, n, q, back) == (g[q.x as int][q.y as int] != g[c.x as int][c.y as int]));
    assert(Coord { x: q.x as int as usize, y: q.y as int as usize } == q);
}

/// The outline sides of `c` itself: before the flip as many as its sides
/// that are not `alike`, if filled; after it, as many as its `alike` sides,
/// if it was empty.
proof fn lemma_self_change(g: Seq<Seq<bool>>, n: usize, c: Coord)
    requires
        square_bool(g, n as int),
        n <= usize::MAX / 2,
        c.in_map_spec(n),
    ensures
        ({
            let g2 = flipped(g, c.x as int, c.y as int);
            let filled = g[c.x as int][c.y as int];
            &&& border_sides(g, n, c.x as int, c.y as int) == if filled { 4 - alike_count(g, n, c) } else { 0 }
            &&& border_sides(g2, n, c.x as int, c.y as int) == if filled { 0 } else { alike_count(g, n, c) }
        }),
{
    let g2 = flipped(g, c.x as int, c.y as int);
    assert(Coord { x: c.x as int as usize, y: c.y as int as usize } == c);
    assert forall|k: int| 0 <= k < 4 implies #[trigger] across(g, n, c, k) == !alike(g, n, c, k) by {}
    assert forall|k: int| 0 <= k < 4 implies #[trigger] across(g2, n, c, k) == alike(g, n, c, k) by {
        let q = nb(c, k);
        lemma_nb(c, k, n);
        if q.in_map_spec(n) {
            assert(q != c);
            assert(g2[q.x as int][q.y as int] == g[q.x as int][q.y as int]);
        }
    }
}

/// The number of filled neighbours of `c` on the grid, among the first `k`
/// directions.
pub open spec fn filled_near(g: Seq<Seq<bool>>, n: usize, c: Coord, k: int) -> int
    decreases k,
{
    if k <= 0 {
        0
    } else {
        let q = nb(c, k - 1);
        filled_near(g, n, c, k - 1) + if q.in_map_spec(n) && g[q.x as int][q.y as int] { 1int } else { 0 }
    }
}

/// The cell `c` and its neighbours on the grid in the first `k` directions,
/// as integer pairs.
pub open spec fn near_set(n: usize, c: Coord, k: int) -> Set<(int, int)>
    decreases k,
{
    if k <= 0 {
        Set::empty().insert((c.x as int, c.y as int))
    } else {
        let q = nb(c, k - 1);
        if q.in_map_spec(n) { near_set(n, c, k - 1).insert((q.x as int, q.y as int)) } else { near_set(n, c, k - 1) }
    }
}

proof fn lemma_near_set(n: usize, c: Coord, k: int, p: (int, int))
    requires
        0 <= k <= 4,
    ensures
        near_set(n, c, k).contains(p) <==> (p == (c.x as int, c.y as int) || exists|j: int| 0 <= j < k
            && #[trigger] nb(c, j).in_map_spec(n) && p == (nb(c, j).x as int, nb(c, j).y as int)),
    decreases k,
{
    if k > 0 {
        lemma_near_set(n, c, k - 1, p);
        if p == (nb(c, k - 1).x as int, nb(c, k - 1).y as int) && nb(c, k - 1).in_map_spec(n) {
            assert(near_set(n, c, k).contains(p));
        }
        if exists|j: int| 0 <= j < k && #[trigger] nb(c, j).in_map_spec(n) && p == (nb(c, j).x as int, nb(c, j).y as int) {
            let j = choose|j: int| 0 <= j < k && #[trigger] nb(c, j).in_map_spec(n) && p == (nb(c, j).x as int, nb(c, j).y as int);
            if j < k - 1 {
                assert(exists|j2: int| 0 <= j2 < k - 1 && #[trigger] nb(c, j2).in_map_spec(n) && p == (nb(c, j2).x as int, nb(c, j2).y as int));
            }
        }
    }
}

/// Taking the changed cells one direction at a time.
proof fn lemma_chain(g: Seq<Seq<bool>>, n: usize, c: Coord, k: int)
    requires
        square_bool(g, n as int),
        n <= usize::MAX / 2,
        c.in_map_spec(n),
        0 <= k <= 4,
    ensures
        ({
            let g2 = flipped(g, c.x as int, c.y as int);
            let f0 = border_count(g, n);
            let f1 = border_count(g2, n);
            let filled = g[c.x as int][c.y as int];
            sum_rows(mix(f1, f0, near_set(n, c, k)), n as int, n as int) == sum_rows(f0, n as int, n as int)
                + f1(c.x as int, c.y as int) - f0(c.x as int, c.y as int)
                + (if filled { filled_near(g, n, c, k) } else { -filled_near(g, n, c, k) })
        }),
    decreases k,
{
    let g2 = flipped(g, c.x as int, c.y as int);
    let f0 = border_count(g, n);
    let f1 = border_count(g2, n);
    let ni = n as int;
    let pc = (c.x as int, c.y as int);
    if k == 0 {
        let s0 = Set::<(int, int)>::empty();
        assert(mix(f1, f0, s0) =~= f0) by {
            assert forall|x: int, y: int| #[trigger] mix(f1, f0, s0)(x, y) == f0(x, y) by {}
        }
        lemma_mix_add(f1, f0, s0, pc, ni);
        assert(near_set(n, c, 0) == s0.insert(pc));
    } else {
        lemma_chain(g, n, c, k - 1);
        let q = nb(c, k - 1);
        lemma_nb(c, k - 1, n);
        if q.in_map_spec(n) {
            let pq = (q.x as int, q.y as int);
            let s = near_set(n, c, k - 1);
            assert(!s.contains(pq)) by {
                lemma_near_set(n, c, k - 1, pq);
                if s.contains(pq) {
                    if pq == pc {
                        assert(q == c);
                    } else {
                        let j = choose|j: int| 0 <= j < k - 1 && #[trigger] nb(c, j).in_map_spec(n) && pq == (nb(c, j).x as int, nb(c, j).y as int);
                        lemma_nb(c, j, n);
                    }
                }
            }
            lemma_mix_add(f1, f0, s, pq, ni);
            lemma_near_change(g, n, c, k - 1);
        }
    }
}

/// Flipping cell `c` changes the number of outline sides of the polygon by
/// `2 * alike_count - 4`: the sides of `c` on the outline trade places with
/// those that were not.
pub proof fn law_flip_perimeter(g: Seq<Seq<bool>>, n: usize, c: Coord)
    requires
        square_bool(g, n as int),
        n <= usize::MAX / 2,
        c.in_map_spec(n),
    ensures
        sum_rows(border_count(flipped(g, c.x as int, c.y as int), n), n as int, n as int)
            == sum_rows(border_count(g, n), n as int, n as int) + 2 * alike_count(g, n, c) - 4,
{
    let g2 = flipped(g, c.x as int, c.y as int);
    let f0 = border_count(g, n);
    let f1 = border_count(g2, n);
    let ni = n as int;
    let filled = g[c.x as int][c.y as int];
    lemma_chain(g, n, c, 4);
    lemma_self_change(g, n, c);
    let s = near_set(n, c, 4);
    assert forall|x: int, y: int| 0 <= x < ni && 0 <= y < ni implies #[trigger] mix(f1, f0, s)(x, y) == f1(x, y) by {
        if !s.contains((x, y)) {
            let p = Coord { x: x as usize, y: y as usize };
            lemma_near_set(n, c, 4, (x, y));
            assert((p.x as int, p.y as int) == (x, y));
            assert(p != c);
            assert forall|j: int| 0 <= j < 4 implies nb(c, j) != p by {
                lemma_nb(c, j, n);
                if nb(c, j) == p {
                    assert(nb(c, j).in_map_spec(n));
                }
            }
            lemma_far_same(g, n, c, p);
        }
    }
    lemma_sum_ext(mix(f1, f0, s), f1, ni, ni);
    assert(filled_near(g, n, c, 4) == if filled { alike_count(g, n, c) } else { 4 - alike_count(g, n, c) }) by {
        reveal_with_fuel(filled_near, 5);
        assert forall|j: int| 0 <= j < 4 implies #[trigger] alike(g, n, c, j) == if filled {
            nb(c, j).in_map_spec(n) && g[nb(c, j).x as int][nb(c, j).y as int]
        } else {
            !(nb(c, j).in_map_spec(n) && g[nb(c, j).x as int][nb(c, j).y as int])
        } by {}
    }
}

/// When one to three neighbours of `c` lie on its side of the outline, the
/// change that `calc_diff_length` gives for cells of side `dl` is exactly
/// `dl` times the change of the number of outline sides. (With none or all
/// four alike it gives 0 while the outline changes by four sides.)
pub proof fn law_diff_length_exact(g: Seq<Seq<bool>>, n: usize, c: Coord, dl: int)
    requires
        square_bool(g, n as int),
        n <= usize::MAX / 2,
        c.in_map_spec(n),
        1 <= alike_count(g, n, c) <= 3,
    ensures
        dl * (sum_rows(border_count(flipped(g, c.x as int, c.y as int), n), n as int, n as int)
            - sum_rows(border_count(g, n), n as int, n as int))
            == if alike_count(g, n, c) == 1 { -2 * dl } else if alike_count(g, n, c) == 3 { 2 * dl } else { 0 },
{
    law_flip_perimeter(g, n, c);
    let a = alike_count(g, n, c);
    assert(dl * (2 * a - 4) == if a == 1 { -2 * dl } else if a == 3 { 2 * dl } else { 0 }) by (nonlinear_arith)
        requires 1 <= a <= 3;
}

} // verus!
