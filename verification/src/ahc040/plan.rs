//! Planning the measurements: which box lies in the middle of the line, and
//! for a choice of turns, the layout of one measurement (the first part of
//! the boxes in a row, the rest in a column beside the widest of them) and
//! what it measures.
use vstd::prelude::*;
use crate::ahc040::measure::side;

verus! {

/// The largest side that a box in the middle may have.
pub const CENTER_LIMIT: i64 = 70_000;

/// The `k`-th box that the search for the middle box looks at: the middle
/// `n / 2`, then `n / 2 + d` and `n / 2 - d` for `d = 1, 2, ...` (the middle
/// twice at the start).
pub open spec fn probe(n: int, k: int) -> int {
    if k % 2 == 0 { n / 2 + k / 2 } else { n / 2 - k / 2 }
}

/// From the `k`-th probe on, the first box with both sides below
/// `CENTER_LIMIT`, or `None` where a probe leaves the list first.
pub open spec fn first_small(wh: Seq<(i64, i64)>, k: int) -> Option<usize>
    decreases 2 * wh.len() + 2 - k,
{
    if k < 0 || k > 2 * wh.len() + 1 {
        None
    } else {
        let i = probe(wh.len() as int, k);
        if i < 0 || i >= wh.len() {
            None
        } else if wh[i].0 < CENTER_LIMIT && wh[i].1 < CENTER_LIMIT {
            Some(i as usize)
        } else {
            first_small(wh, k + 1)
        }
    }
}

/// The box in the middle of the line: the first probe with both sides
/// below `CENTER_LIMIT`; `None` where the probes leave the list first (there
/// is no such box near enough to the middle).
pub fn center_index(wh2: &Vec<(i64, i64)>) -> (r: Option<usize>)
    ensures
        r == first_small(wh2@, 0),
{
    let n = wh2.len();
    let half = n / 2;
    let mut d: usize = 0;
    while d <= n
        invariant
            n == wh2@.len(),
            half == n / 2,
            0 <= d <= n + 1,
            first_small(wh2@, 0) == first_small(wh2@, 2 * d as int),
        decreases n + 1 - d,
    {
        let k: Ghost<int> = Ghost(2 * d as int);
        proof {
            assert(k@ % 2 == 0 && k@ / 2 == d);
            assert((k@ + 1) % 2 == 1 && (k@ + 1) / 2 == d);
            assert(probe(n as int, k@) == half + d);
            assert(probe(n as int, k@ + 1) == half - d);
        }
        if d >= n - half {
            return None;
        }
        let (w, h) = wh2[half + d];
        if w < CENTER_LIMIT && h < CENTER_LIMIT {
            return Some(half + d);
        }
        proof {
            assert(first_small(wh2@, k@) == first_small(wh2@, k@ + 1));
        }
        if d > half {
            return None;
        }
        let (w, h) = wh2[half - d];
        if w < CENTER_LIMIT && h < CENTER_LIMIT {
            return Some(half - d);
        }
        proof {
            assert(first_small(wh2@, k@ + 1) == first_small(wh2@, k@ + 2));
        }
        d += 1;
    }
    proof {
        assert(first_small(wh2@, 2 * d as int) == None::<usize>);
    }
    None
}

/// The side that box `x` shows along the line, turned as `rot[x]` says.
pub open spec fn shown(wh: Seq<(i64, i64)>, rot: Seq<bool>, x: int) -> int {
    side(wh[x], rot[x])
}

/// Of boxes `0..k` (`k >= 1`), the last one whose shown side is largest.
pub open spec fn widest(wh: Seq<(i64, i64)>, rot: Seq<bool>, k: int) -> int
    decreases k,
{
    if k <= 1 {
        0
    } else {
        let m = widest(wh, rot, k - 1);
        if shown(wh, rot, k - 1) >= shown(wh, rot, m) { k - 1 } else { m }
    }
}

/// A measurement laid out: for each box (index, turned, the box it is laid
/// against, `-1` for the edge), and the two measured lines as (index,
/// turned) lists: the row, and the column (turns as seen along it).
pub struct Plan {
    pub lines: Vec<(usize, bool, i64)>,
    pub row: Vec<(usize, bool)>,
    pub column: Vec<(usize, bool)>,
}

/// The layout lines of a measurement with `center` boxes in the row and the
/// column laid against box `m - 1`'s edge.
pub open spec fn plan_lines(n: int, center: int, m: int, rot: Seq<bool>) -> Seq<(usize, bool, i64)> {
    Seq::new(n as nat, |x: int| (x as usize, rot[x], if x < center { (x - 1) as i64 } else { (m - 1) as i64 }))
}

/// The row of a measurement: boxes `0..center` as they are turned.
pub open spec fn plan_row(center: int, rot: Seq<bool>) -> Seq<(usize, bool)> {
    Seq::new(center as nat, |x: int| (x as usize, rot[x]))
}

/// The column of a measurement: box `m` turned the other way, then boxes
/// `center..n`, each turned the other way.
pub open spec fn plan_column(n: int, center: int, m: int, rot: Seq<bool>) -> Seq<(usize, bool)> {
    seq![(m as usize, !rot[m])] + Seq::new((n - center) as nat, |k: int| ((center + k) as usize, !rot[center + k]))
}

/// One measurement for the turns `rot`: boxes before `center` in a row,
/// the rest in a column laid against the widest of the row (but its last);
/// made only when that widest side exceeds the first side of the column by
/// more than `sigma`.
pub fn plan_measurement(wh2: &Vec<(i64, i64)>, center: usize, rot: &Vec<bool>, sigma: i64) -> (r: Option<Plan>)
    requires
        2 <= center < wh2@.len(),
        rot@.len() == wh2@.len(),
        wh2@.len() <= i64::MAX,
        i64::MIN <= shown(wh2@, rot@, widest(wh2@, rot@, center - 1)) - shown(wh2@, rot@, center as int) <= i64::MAX,
    ensures
        ({
            let m = widest(wh2@, rot@, center - 1);
            &&& (r is Some) == (shown(wh2@, rot@, m) - shown(wh2@, rot@, center as int) > sigma)
            &&& r is Some ==> {
                &&& r->Some_0.lines@ == plan_lines(wh2@.len() as int, center as int, m, rot@)
                &&& r->Some_0.row@ == plan_row(center as int, rot@)
                &&& r->Some_0.column@ == plan_column(wh2@.len() as int, center as int, m, rot@)
            }
        }),
{
    let n = wh2.len();
    let mut m: usize = 0;
    let mut x: usize = 1;
    while x < center - 1
        invariant
            2 <= center < n,
            n == wh2@.len(),
            rot@.len() == n,
            1 <= x <= center - 1,
            m == widest(wh2@, rot@, x as int),
            m < x,
        decreases center - 1 - x,
    {
        let wx = if rot[x] { wh2[x].1 } else { wh2[x].0 };
        let wm = if rot[m] { wh2[m].1 } else { wh2[m].0 };
        if wx >= wm {
            m = x;
        }
        x += 1;
    }
    let max_width = if rot[m] { wh2[m].1 } else { wh2[m].0 };
    let first_width = if rot[center] { wh2[center].1 } else { wh2[center].0 };
    if max_width - first_width <= sigma {
        return None;
    }
    let mut lines: Vec<(usize, bool, i64)> = Vec::new();
    let mut row: Vec<(usize, bool)> = Vec::new();
    let mut k: usize = 0;
    while k < center
        invariant
            2 <= center < n,
            n == wh2@.len(),
            n <= i64::MAX,
            rot@.len() == n,
            0 <= k <= center,
            lines@ == plan_lines(n as int, center as int, m as int, rot@).take(k as int),
            row@ == plan_row(center as int, rot@).take(k as int),
        decreases center - k,
    {
        let base: i64 = if k == 0 { -1 } else { (k - 1) as i64 };
        lines.push((k, rot[k], base));
        row.push((k, rot[k]));
        k += 1;
        proof {
            assert(lines@ =~= plan_lines(n as int, center as int, m as int, rot@).take(k as int));
            assert(row@ =~= plan_row(center as int, rot@).take(k as int));
        }
    }
    proof {
        assert(row@ =~= plan_row(center as int, rot@));
    }
    let mut column: Vec<(usize, bool)> = Vec::new();
    column.push((m, !rot[m]));
    proof {
        assert(column@ =~= plan_column(n as int, center as int, m as int, rot@).take(1));
    }
    let base: i64 = m as i64 - 1;
    while k < n
        invariant
            2 <= center < n,
            n == wh2@.len(),
            n <= i64::MAX,
            rot@.len() == n,
            m < center,
            base == m - 1,
            center <= k <= n,
            lines@ == plan_lines(n as int, center as int, m as int, rot@).take(k as int),
            row@ == plan_row(center as int, rot@),
            column@ == plan_column(n as int, center as int, m as int, rot@).take(k - center + 1),
        decreases n - k,
    {
        lines.push((k, rot[k], base));
        column.push((k, !rot[k]));
        k += 1;
        proof {
            assert(lines@ =~= plan_lines(n as int, center as int, m as int, rot@).take(k as int));
            assert(column@ =~= plan_column(n as int, center as int, m as int, rot@).take(k - center + 1));
        }
    }
    proof {
        assert(lines@ =~= plan_lines(n as int, center as int, m as int, rot@));
        assert(column@ =~= plan_column(n as int, center as int, m as int, rot@));
    }
    Some(Plan { lines, row, column })
}

} // verus!
