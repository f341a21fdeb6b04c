//! Where a pushed box lands: against the nearest placed box in its way,
//! overlapping none of them.
use vstd::prelude::*;
use crate::ahc040::input::{Input, MAX};
use crate::ahc040::state::{State, Op, Pos, overlaps, top_y, right_x};

verus! {

/// Placed box `q` lies across the `y` range `(y1, y2)`.
pub open spec fn across_rows(q: Pos, y1: i32, y2: i32) -> bool {
    q.t >= 0 && (if y1 >= q.y1 { y1 } else { q.y1 }) < (if y2 <= q.y2 { y2 } else { q.y2 })
}

/// Placed box `q` lies across the `x` range `(x1, x2)`.
pub open spec fn across_columns(q: Pos, x1: i32, x2: i32) -> bool {
    q.t >= 0 && (if x1 >= q.x1 { x1 } else { q.x1 }) < (if x2 <= q.x2 { x2 } else { q.x2 })
}

/// Of the boxes `pos[..k]` across the rows `(y1, y2)`, the right sides are
/// all at most the value found, and one of them is that value; with none,
/// nothing is found.
proof fn lemma_right_x(pos: Seq<Pos>, y1: i32, y2: i32, k: int)
    requires
        0 <= k <= pos.len(),
    ensures
        right_x(pos, y1, y2, k) is None <==> forall|m: int| 0 <= m < k ==> !across_rows(#[trigger] pos[m], y1, y2),
        right_x(pos, y1, y2, k) matches Some(v) ==> {
            &&& forall|m: int| 0 <= m < k && across_rows(#[trigger] pos[m], y1, y2) ==> pos[m].x2 <= v
            &&& exists|m: int| 0 <= m < k && across_rows(#[trigger] pos[m], y1, y2) && pos[m].x2 == v
        },
    decreases k,
{
    if k > 0 {
        lemma_right_x(pos, y1, y2, k - 1);
        let q = pos[k - 1];
        assert(overlaps(y1, y2, q.y1, q.y2) == across_rows(q, y1, y2) || q.t < 0);
        let rest = right_x(pos, y1, y2, k - 1);
        if across_rows(q, y1, y2) {
            match rest {
                None => {}
                Some(m) => {
                    let w = choose|w: int| 0 <= w < k - 1 && across_rows(#[trigger] pos[w], y1, y2) && pos[w].x2 == m;
                }
            }
        } else {
            if rest is None {
                assert forall|m: int| 0 <= m < k implies !across_rows(#[trigger] pos[m], y1, y2) by {}
            }
        }
    }
}

/// Of the boxes `pos[..k]` across the columns `(x1, x2)`, the bottom sides
/// are all at most the value found, and one of them is that value; with
/// none, nothing is found.
proof fn lemma_top_y(pos: Seq<Pos>, x1: i32, x2: i32, k: int)
    requires
        0 <= k <= pos.len(),
    ensures
        top_y(pos, x1, x2, k) is None <==> forall|m: int| 0 <= m < k ==> !across_columns(#[trigger] pos[m], x1, x2),
        top_y(pos, x1, x2, k) matches Some(v) ==> {
            &&& forall|m: int| 0 <= m < k && across_columns(#[trigger] pos[m], x1, x2) ==> pos[m].y2 <= v
            &&& exists|m: int| 0 <= m < k && across_columns(#[trigger] pos[m], x1, x2) && pos[m].y2 == v
        },
    decreases k,
{
    if k > 0 {
        lemma_top_y(pos, x1, x2, k - 1);
        let q = pos[k - 1];
        let rest = top_y(pos, x1, x2, k - 1);
        if across_columns(q, x1, x2) {
            match rest {
                None => {}
                Some(m) => {
                    let w = choose|w: int| 0 <= w < k - 1 && across_columns(#[trigger] pos[w], x1, x2) && pos[w].y2 == m;
                }
            }
        } else {
            if rest is None {
                assert forall|m: int| 0 <= m < k implies !across_columns(#[trigger] pos[m], x1, x2) by {}
            }
        }
    }
}

/// A box pushed left (`c.d != 'U'`) stops against the placed box in its
/// rows that reaches furthest right: every placed box across its rows ends
/// at or left of its left side, and one of them ends exactly there; with
/// none, it reaches the wall (`x1 == 0`).
pub proof fn law_pushed_left_lands(s: State, c: Op, input: &Input)
    requires
        c.d != 'U',
    ensures
        ({
            let p = s.placed(c, input);
            &&& forall|m: int| 0 <= m < s.pos@.len() && across_rows(#[trigger] s.pos@[m], p.y1, p.y2) ==> s.pos@[m].x2 <= p.x1
            &&& (exists|m: int| 0 <= m < s.pos@.len() && across_rows(#[trigger] s.pos@[m], p.y1, p.y2) && s.pos@[m].x2 == p.x1)
                || (p.x1 == 0 && forall|m: int| 0 <= m < s.pos@.len() ==> !across_rows(#[trigger] s.pos@[m], p.y1, p.y2))
        }),
{
    let p = s.placed(c, input);
    lemma_right_x(s.pos@, p.y1, p.y2, s.pos@.len() as int);
}

/// A box pushed up (`c.d == 'U'`) stops against the placed box in its
/// columns that reaches furthest down: every placed box across its columns
/// ends at or above its top side, and one of them ends exactly there; with
/// none, it reaches the wall (`y1 == 0`).
pub proof fn law_pushed_up_lands(s: State, c: Op, input: &Input)
    requires
        c.d == 'U',
    ensures
        ({
            let p = s.placed(c, input);
            &&& forall|m: int| 0 <= m < s.pos@.len() && across_columns(#[trigger] s.pos@[m], p.x1, p.x2) ==> s.pos@[m].y2 <= p.y1
            &&& (exists|m: int| 0 <= m < s.pos@.len() && across_columns(#[trigger] s.pos@[m], p.x1, p.x2) && s.pos@[m].y2 == p.y1)
                || (p.y1 == 0 && forall|m: int| 0 <= m < s.pos@.len() ==> !across_columns(#[trigger] s.pos@[m], p.x1, p.x2))
        }),
{
    let p = s.placed(c, input);
    lemma_top_y(s.pos@, p.x1, p.x2, s.pos@.len() as int);
}

/// A placed box keeps its size (its sides swapped when it is turned), and
/// starts where it is pushed from: pushed up, its left side is the right
/// side of box `c.b` (or the wall); pushed left, its top is the bottom of
/// box `c.b` (or the wall). It is box `c.p`, turned as `c.r` says.
pub proof fn law_placed_box(s: State, c: Op, input: &Input)
    requires
        s.wf(input),
        s.can_place(c, input),
    ensures
        ({
            let p = s.placed(c, input);
            let (w0, h0) = input.wh2@[c.p as int];
            &&& p.x2 - p.x1 == (if c.r { h0 } else { w0 })
            &&& p.y2 - p.y1 == (if c.r { w0 } else { h0 })
            &&& p.t == c.p && p.r == c.r
            &&& c.d == 'U' ==> p.x1 == (if c.b < 0 { 0 } else { s.pos@[c.b as int].x2 })
            &&& c.d != 'U' ==> p.y1 == (if c.b < 0 { 0 } else { s.pos@[c.b as int].y2 })
        }),
{
    let k = s.pos@.len() as int;
    let lim = k * MAX;
    assert(k * MAX + MAX <= 10000 * 100000) by (nonlinear_arith)
        requires k < 10000, MAX == 100000;
    if c.b >= 0 {
        let q = s.pos@[c.b as int];
        assert(0 <= q.x2 <= lim && 0 <= q.y2 <= lim);
    }
    let (w, h) = if c.r { (input.wh2@[c.p as int].1, input.wh2@[c.p as int].0) } else { input.wh2@[c.p as int] };
    if c.d == 'U' {
        let x1: int = if c.b < 0 { 0 } else { s.pos@[c.b as int].x2 as int };
        let x2: int = x1 + w;
        lemma_top_y(s.pos@, x1 as i32, x2 as i32, k);
        match top_y(s.pos@, x1 as i32, x2 as i32, k) {
            Some(v) => {
                let m = choose|m: int| 0 <= m < k && across_columns(#[trigger] s.pos@[m], x1 as i32, x2 as i32) && s.pos@[m].y2 == v;
                assert(0 <= s.pos@[m].y2 <= lim);
            }
            None => {}
        }
    } else {
        let y1: int = if c.b < 0 { 0 } else { s.pos@[c.b as int].y2 as int };
        let y2: int = y1 + h;
        lemma_right_x(s.pos@, y1 as i32, y2 as i32, k);
        match right_x(s.pos@, y1 as i32, y2 as i32, k) {
            Some(v) => {
                let m = choose|m: int| 0 <= m < k && across_rows(#[trigger] s.pos@[m], y1 as i32, y2 as i32) && s.pos@[m].x2 == v;
                assert(0 <= s.pos@[m].x2 <= lim);
            }
            None => {}
        }
    }
}

} // verus!
