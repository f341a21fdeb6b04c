//! Clusters of mackerels and the rectangles drawn around them.
use vstd::prelude::*;
use rustc_hash::FxHashSet;
use crate::coord::wrap;
use crate::ahc039::coord::Coord;
use crate::ahc039::state::Input;
use crate::fxset::index_set_items;

verus! {

/// `num` clusters: the centre of each and the mackerels (by index) in it.
pub struct KMeans {
    pub num: usize,
    pub centers: Vec<Coord>,
    pub clusters: Vec<FxHashSet<usize>>,
}

/// `v` is the smallest `x` among the mackerels `s`.
pub open spec fn is_min_x(saba: Seq<Coord>, s: Set<usize>, v: usize) -> bool {
    &&& exists|i: usize| s.contains(i) && #[trigger] saba[i as int].x == v
    &&& forall|i: usize| s.contains(i) ==> v <= #[trigger] saba[i as int].x
}

/// `v` is the largest `x` among the mackerels `s`.
pub open spec fn is_max_x(saba: Seq<Coord>, s: Set<usize>, v: usize) -> bool {
    &&& exists|i: usize| s.contains(i) && #[trigger] saba[i as int].x == v
    &&& forall|i: usize| s.contains(i) ==> #[trigger] saba[i as int].x <= v
}

/// `v` is the smallest `y` among the mackerels `s`.
pub open spec fn is_min_y(saba: Seq<Coord>, s: Set<usize>, v: usize) -> bool {
    &&& exists|i: usize| s.contains(i) && #[trigger] saba[i as int].y == v
    &&& forall|i: usize| s.contains(i) ==> v <= #[trigger] saba[i as int].y
}

/// `v` is the largest `y` among the mackerels `s`.
pub open spec fn is_max_y(saba: Seq<Coord>, s: Set<usize>, v: usize) -> bool {
    &&& exists|i: usize| s.contains(i) && #[trigger] saba[i as int].y == v
    &&& forall|i: usize| s.contains(i) ==> #[trigger] saba[i as int].y <= v
}

/// `q` is the bounding box of the mackerels `s`, corners counter-clockwise
/// from the lower left.
pub open spec fn is_bounding_box(saba: Seq<Coord>, s: Set<usize>, q: Seq<Coord>) -> bool {
    &&& q.len() == 4
    &&& is_min_x(saba, s, q[0].x)
    &&& is_min_y(saba, s, q[0].y)
    &&& is_max_x(saba, s, q[2].x)
    &&& is_max_y(saba, s, q[2].y)
    &&& q[1] == Coord { x: q[2].x, y: q[0].y }
    &&& q[3] == Coord { x: q[0].x, y: q[2].y }
}

/// The corner of a square of half side `d` around `c` on the low side:
/// `c - d`, or 0 when that leaves the ground.
pub open spec fn low_end(c: usize, d: int, size: usize) -> usize {
    let v = wrap(c as int, -d);
    if v > size { 0 } else { v }
}

/// The corner on the high side: `c + d`, or `cap` when that leaves the
/// ground of side `size`.
pub open spec fn high_end(c: usize, d: int, size: usize, cap: usize) -> usize {
    if c + d > size { cap } else { (c + d) as usize }
}

/// The square tried in round `cnt` around `(cx, cy)`: half side `500 * cnt`,
/// clipped to the ground (the upper `y` side is clipped to `n`).
pub open spec fn round_square(cx: usize, cy: usize, cnt: int, size: usize, n: usize) -> Seq<Coord> {
    let d = 500 * cnt;
    let lx = low_end(cx, d, size);
    let ly = low_end(cy, d, size);
    let ux = high_end(cx, d, size, size);
    let uy = high_end(cy, d, size, n);
    seq![Coord { x: lx, y: ly }, Coord { x: ux, y: ly }, Coord { x: ux, y: uy }, Coord { x: lx, y: uy }]
}

/// How many of the fish `f[..k]` lie in the closed box from `lo` to `hi`.
pub open spec fn count_box(f: Seq<Coord>, lo: Coord, hi: Coord, k: int) -> nat
    decreases k,
{
    if k <= 0 {
        0
    } else {
        let p = f[k - 1];
        count_box(f, lo, hi, k - 1) + if lo.x <= p.x <= hi.x && lo.y <= p.y <= hi.y { 1nat } else { 0 }
    }
}

/// The score of a square: mackerels minus sardines inside, if positive.
pub open spec fn box_score(input: &Input, q: Seq<Coord>) -> nat {
    let s = count_box(input.saba@, q[0], q[2], input.saba@.len() as int);
    let w = count_box(input.iwashi@, q[0], q[2], input.iwashi@.len() as int);
    if s > w { (s - w) as nat } else { 0 }
}

/// Whether round `cnt` reaches the bounding box `lim` on some side.
pub open spec fn reaches(q: Seq<Coord>, lim: Seq<Coord>) -> bool {
    q[0].x <= lim[0].x || q[0].y <= lim[0].y || q[2].x >= lim[2].x || q[2].y >= lim[2].y
}

/// The square of no corner.
pub open spec fn far_square() -> Seq<Coord> {
    seq![
        Coord { x: usize::MAX, y: usize::MAX },
        Coord { x: usize::MAX, y: usize::MAX },
        Coord { x: usize::MAX, y: usize::MAX },
        Coord { x: usize::MAX, y: usize::MAX },
    ]
}

/// The best score and square after rounds `1..=t`: a square replaces the
/// best one when it scores more; while the best score is 0 every new square
/// replaces it.
pub open spec fn scan(input: &Input, cx: usize, cy: usize, t: int) -> (nat, Seq<Coord>)
    decreases t,
{
    if t <= 0 {
        (0, far_square())
    } else {
        let (bs, bq) = scan(input, cx, cy, t - 1);
        let q = round_square(cx, cy, t, input.size, input.N);
        let sc = box_score(input, q);
        let bq1 = if bs == 0 { q } else { bq };
        if sc > bs { (sc, q) } else { (bs, bq1) }
    }
}

/// The first round from `t` on whose square reaches `lim`.
pub open spec fn first_reach(input: &Input, cx: usize, cy: usize, lim: Seq<Coord>, t: int) -> int
    decreases cx / 500 + 2 - t,
{
    if t >= cx / 500 + 2 || reaches(round_square(cx, cy, t, input.size, input.N), lim) {
        t
    } else {
        first_reach(input, cx, cy, lim, t + 1)
    }
}

proof fn lemma_first_reach(input: &Input, cx: usize, cy: usize, lim: Seq<Coord>, t: int)
    requires
        1 <= t,
        t <= cx / 500 + 2,
    ensures
        t <= first_reach(input, cx, cy, lim, t) <= cx / 500 + 2,
    decreases cx / 500 + 2 - t,
{
    if !(t >= cx / 500 + 2 || reaches(round_square(cx, cy, t, input.size, input.N), lim)) {
        lemma_first_reach(input, cx, cy, lim, t + 1);
    }
}

/// The number of fish of `f` in the closed box from `lo` to `hi`:
/// `count_box`.
fn count_in_box(f: &Vec<Coord>, lo: Coord, hi: Coord) -> (c: usize)
    ensures
        c == count_box(f@, lo, hi, f@.len() as int),
{
    let mut c: usize = 0;
    let mut k: usize = 0;
    while k < f.len()
        invariant
            0 <= k <= f@.len(),
            c == count_box(f@, lo, hi, k as int),
            c <= k,
        decreases f@.len() - k,
    {
        let p = f[k];
        if lo.x <= p.x && p.x <= hi.x && lo.y <= p.y && p.y <= hi.y {
            c += 1;
        }
        k += 1;
    }
    c
}

impl KMeans {
    /// The bounding box of cluster `cluster_num`, corners counter-clockwise
    /// from the lower left; `None` for an empty cluster.
    pub fn calc_square(&self, cluster_num: usize, input: &Input) -> (r: Option<[Coord; 4]>)
        requires
            cluster_num < self.clusters@.len(),
            forall|i: usize| self.clusters@[cluster_num as int]@.contains(i) ==> i < input.saba@.len(),
        ensures
            match r {
                None => self.clusters@[cluster_num as int]@ == Set::<usize>::empty(),
                Some(q) => self.clusters@[cluster_num as int]@ != Set::<usize>::empty()
                    && is_bounding_box(input.saba@, self.clusters@[cluster_num as int]@, q@),
            },
    {
        let ghost s = self.clusters@[cluster_num as int]@;
        let items = index_set_items(&self.clusters[cluster_num]);
        proof {
            assert forall|i: usize| s.contains(i) <==> items@.contains(i) by {
                assert(items@.to_set().contains(i) <==> items@.contains(i));
            }
        }
        if items.len() == 0 {
            proof {
                assert(s =~= Set::<usize>::empty()) by {
                    assert forall|i: usize| !s.contains(i) by {
                        if s.contains(i) {
                            assert(items@.contains(i));
                        }
                    }
                }
            }
            return None;
        }
        proof {
            assert(items@.contains(items@[0]));
            assert(s.contains(items@[0]));
            assert(s != Set::<usize>::empty()) by {
                assert(!Set::<usize>::empty().contains(items@[0]));
            }
        }
        let first = input.saba[items[0]];
        let mut xmin = first.x;
        let mut xmax = first.x;
        let mut ymin = first.y;
        let mut ymax = first.y;
        let ghost mut ixn: usize = items@[0];
        let ghost mut ixx: usize = items@[0];
        let ghost mut iyn: usize = items@[0];
        let ghost mut iyx: usize = items@[0];
        let mut k: usize = 1;
        while k < items.len()
            invariant
                forall|i: usize| s.contains(i) <==> items@.contains(i),
                forall|i: usize| s.contains(i) ==> i < input.saba@.len(),
                1 <= k <= items@.len(),
                s.contains(ixn) && input.saba@[ixn as int].x == xmin,
                s.contains(ixx) && input.saba@[ixx as int].x == xmax,
                s.contains(iyn) && input.saba@[iyn as int].y == ymin,
                s.contains(iyx) && input.saba@[iyx as int].y == ymax,
                forall|m: int| 0 <= m < k ==> xmin <= #[trigger] input.saba@[items@[m] as int].x <= xmax
                    && ymin <= input.saba@[items@[m] as int].y <= ymax,
            decreases items@.len() - k,
        {
            proof {
                assert(items@.contains(items@[k as int]));
                assert(s.contains(items@[k as int]));
            }
            let p = input.saba[items[k]];
            if p.x < xmin {
                xmin = p.x;
                proof { ixn = items@[k as int]; }
            }
            if p.x > xmax {
                xmax = p.x;
                proof { ixx = items@[k as int]; }
            }
            if p.y < ymin {
                ymin = p.y;
                proof { iyn = items@[k as int]; }
            }
            if p.y > ymax {
                ymax = p.y;
                proof { iyx = items@[k as int]; }
            }
            k += 1;
        }
        proof {
            assert(input.saba@[ixn as int].x == xmin);
            assert(input.saba@[ixx as int].x == xmax);
            assert(input.saba@[iyn as int].y == ymin);
            assert(input.saba@[iyx as int].y == ymax);
            assert forall|i: usize| #![trigger input.saba@[i as int]] s.contains(i) implies xmin <= input.saba@[i as int].x <= xmax
                && ymin <= input.saba@[i as int].y <= ymax by {
                assert(items@.contains(i));
                let m = choose|m: int| 0 <= m < items@.len() && items@[m] == i;
                assert(xmin <= input.saba@[items@[m] as int].x);
            }
        }
        let q = [Coord::new(xmin, ymin), Coord::new(xmax, ymin), Coord::new(xmax, ymax), Coord::new(xmin, ymax)];
        proof {
            assert(q@[0] == Coord { x: xmin, y: ymin });
            assert(q@[2] == Coord { x: xmax, y: ymax });
            assert(q@[1] == Coord { x: xmax, y: ymin });
            assert(q@[3] == Coord { x: xmin, y: ymax });
            assert(forall|i: usize| s.contains(i) ==> input.saba@[i as int].y <= ymax);
            assert(is_max_y(input.saba@, s, q@[2].y));
            assert(is_bounding_box(input.saba@, s, q@));
        }
        Some(q)
    }

    /// A square around the centre of cluster `cluster_num` (rounded down to
    /// a multiple of 1000) that holds many more mackerels than sardines: it
    /// grows by 500 on each side per round until it reaches the cluster's
    /// bounding box, and the best round is kept (`scan` up to `first_reach`);
    /// `None` for an empty cluster.
    pub fn calc_good_square(&self, cluster_num: usize, input: &Input) -> (r: Option<[Coord; 4]>)
        requires
            cluster_num < self.clusters@.len(),
            cluster_num < self.centers@.len(),
            forall|i: usize| self.clusters@[cluster_num as int]@.contains(i) ==> i < input.saba@.len(),
            self.centers@[cluster_num as int].x <= usize::MAX / 4,
            self.centers@[cluster_num as int].y <= usize::MAX / 4,
            input.size <= usize::MAX / 4,
        ensures
            match r {
                None => self.clusters@[cluster_num as int]@ == Set::<usize>::empty(),
                Some(q) => {
                    let c = self.centers@[cluster_num as int];
                    let cx = (c.x / 1000 * 1000) as usize;
                    let cy = (c.y / 1000 * 1000) as usize;
                    exists|lim: Seq<Coord>| is_bounding_box(input.saba@, self.clusters@[cluster_num as int]@, lim)
                        && q@ == scan(input, cx, cy, first_reach(input, cx, cy, lim, 1)).1
                },
            },
    {
        let limit = match self.calc_square(cluster_num, input) {
            None => { return None; },
            Some(q) => q,
        };
        let delta: usize = 500;
        let mut best_score: usize = 0;
        let mut best_square = [
            Coord::new(usize::MAX, usize::MAX),
            Coord::new(usize::MAX, usize::MAX),
            Coord::new(usize::MAX, usize::MAX),
            Coord::new(usize::MAX, usize::MAX),
        ];
        let c = self.centers[cluster_num];
        let cx = c.x / 1000 * 1000;
        let cy = c.y / 1000 * 1000;
        let ghost lim = limit@;
        let ghost stop = first_reach(input, cx, cy, lim, 1);
        proof {
            lemma_first_reach(input, cx, cy, lim, 1);
            assert(best_square@ =~= far_square());
        }
        let mut cnt: usize = 0;
        loop
            invariant_except_break
                0 <= cnt < stop,
                first_reach(input, cx, cy, lim, cnt + 1) == stop,
            invariant
                1 <= stop <= cx / 500 + 2,
                cx <= usize::MAX / 4,
                cy <= usize::MAX / 4,
                input.size <= usize::MAX / 4,
                lim == limit@,
                (best_score as nat, best_square@) == scan(input, cx, cy, cnt as int),
                best_score <= input.saba@.len(),
                delta == 500,
            ensures
                cnt == stop,
                (best_score as nat, best_square@) == scan(input, cx, cy, cnt as int),
            decreases cx / 500 + 2 - cnt,
        {
            cnt += 1;
            proof {
                assert(500 * cnt <= cx + 1000) by (nonlinear_arith)
                    requires cnt <= cx / 500 + 2;
            }
            let d = delta * cnt;
            let lx0 = cx.wrapping_sub(d);
            let ly0 = cy.wrapping_sub(d);
            let lx = if lx0 > input.size { 0 } else { lx0 };
            let ly = if ly0 > input.size { 0 } else { ly0 };
            let ux = if cx + d > input.size { input.size } else { cx + d };
            let uy = if cy + d > input.size { input.N } else { cy + d };
            let next_square = [Coord::new(lx, ly), Coord::new(ux, ly), Coord::new(ux, uy), Coord::new(lx, uy)];
            proof {
                assert(next_square@ =~= round_square(cx, cy, cnt as int, input.size, input.N));
            }
            let saba_cnt = count_in_box(&input.saba, next_square[0], next_square[2]);
            let iwashi_cnt = count_in_box(&input.iwashi, next_square[0], next_square[2]);
            let score = if saba_cnt > iwashi_cnt { saba_cnt - iwashi_cnt } else { 0 };
            proof {
                lemma_count_box_le(input.saba@, next_square[0], next_square[2], input.saba@.len() as int);
            }
            if best_score == 0 {
                best_square = next_square;
            }
            if score > best_score {
                best_score = score;
                best_square = next_square;
            }
            proof {
                assert((best_score as nat, best_square@) == scan(input, cx, cy, cnt as int));
            }
            if next_square[0].x <= limit[0].x || next_square[0].y <= limit[0].y || next_square[2].x >= limit[2].x
                || next_square[2].y >= limit[2].y {
                proof {
                    assert(reaches(round_square(cx, cy, cnt as int, input.size, input.N), lim));
                    assert(first_reach(input, cx, cy, lim, cnt as int) == cnt);
                    assert(cnt == stop);
                }
                break;
            }
            proof {
                assert(!reaches(round_square(cx, cy, cnt as int, input.size, input.N), lim));
                assert(d <= cx);
                assert(cnt <= cx / 500) by (nonlinear_arith)
                    requires 500 * cnt <= cx;
                assert(first_reach(input, cx, cy, lim, cnt as int) == first_reach(input, cx, cy, lim, cnt + 1));
                lemma_first_reach(input, cx, cy, lim, cnt + 1);
            }
        }
        proof {
            assert(cnt == stop);
        }
        Some(best_square)
    }
}

proof fn lemma_count_box_le(f: Seq<Coord>, lo: Coord, hi: Coord, k: int)
    requires
        0 <= k,
    ensures
        count_box(f, lo, hi, k) <= k,
    decreases k,
{
    if k > 0 {
        lemma_count_box_le(f, lo, hi, k - 1);
    }
}

} // verus!
