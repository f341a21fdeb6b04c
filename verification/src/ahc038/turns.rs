//! What a candidate turn does when it is carried out (`State::apply`): the
//! base stays on the board, grabs take takoyaki that lie on the board, and
//! releases drop them on empty squares.
use vstd::prelude::*;
use crate::coord::{Coord, dij_coord};
use crate::ahc038::input::{Input, rows};
use crate::ahc038::moves::{can_act, first_turn, tip_pick, base_action, pick_sum, lemma_picks};
use crate::ahc038::state::{
    State, Direction, MoveAction, FingerAction, FingerHas, move_action_to_direction_spec, to_move_direction_spec,
    is_base_move, field_after,
};

verus! {

/// Every grab of `acts` is on a square of the board that holds a takoyaki
/// in `field`, every release on a square of the board that holds none.
pub open spec fn acts_fit(field: Set<(usize, usize)>, n: usize, acts: Seq<(FingerAction, FingerHas, Coord)>) -> bool {
    forall|m: int| 0 <= m < acts.len() ==> {
        &&& ((#[trigger] acts[m]).0 == FingerAction::Grab ==> acts[m].2.in_map_spec(n) && field.contains((acts[m].2.i, acts[m].2.j)))
        &&& (acts[m].0 == FingerAction::Release ==> acts[m].2.in_map_spec(n) && !field.contains((acts[m].2.i, acts[m].2.j)))
    }
}

/// Every grab of `acts` is on a square that is no target (`'0'` in `t`),
/// every release on a target square (`'1'`).
pub open spec fn acts_on_targets(t: Seq<Seq<char>>, acts: Seq<(FingerAction, FingerHas, Coord)>) -> bool {
    forall|m: int| 0 <= m < acts.len() ==> {
        &&& ((#[trigger] acts[m]).0 == FingerAction::Grab ==> t[acts[m].2.i as int][acts[m].2.j as int] == '0')
        &&& (acts[m].0 == FingerAction::Release ==> t[acts[m].2.i as int][acts[m].2.j as int] == '1')
    }
}

/// Some grab or release among `acts[..k]` is on square `q`.
pub open spec fn touched(acts: Seq<(FingerAction, FingerHas, Coord)>, q: (usize, usize), k: int) -> bool {
    exists|m: int| 0 <= m < k && ((#[trigger] acts[m]).0 == FingerAction::Grab || acts[m].0 == FingerAction::Release)
        && (acts[m].2.i, acts[m].2.j) == q
}

/// The base move that an action list starts with takes the base to.
pub open spec fn base_after(root: Coord, actions: Seq<(MoveAction, Direction)>) -> Coord {
    root.add_spec(dij_coord(move_action_to_direction_spec(actions[0].0).index_spec()))
}

/// A candidate starts with the base move `i` and its fingertip actions fit
/// the board.
pub open spec fn cand_fits(s: &State, input: &Input, i: int,
    c: (usize, usize, Seq<(MoveAction, Direction)>, Seq<(FingerAction, FingerHas, Coord)>, bool)) -> bool {
    &&& c.2.len() >= 1
    &&& c.2[0] == base_action(i)[0]
    &&& acts_fit(s.field@, input.N, c.3)
    &&& acts_on_targets(rows(input.T@), c.3)
}

/// A fingertip acts only where it can.
proof fn lemma_first_turn_acts(field: Set<(usize, usize)>, t: Seq<Seq<char>>, n: usize, fp: Coord, dir: Direction,
    len: usize, fa: FingerAction, has: FingerHas, k: int)
    ensures
        first_turn(field, t, n, fp, dir, len, fa, has, k) matches Some(i)
            ==> can_act(field, t, n, has, crate::ahc038::arm::stride(fp, crate::ahc038::arm::turned(dir, 0, i), len)),
    decreases 4 - k,
{
    if k < 4 {
        lemma_first_turn_acts(field, t, n, fp, dir, len, fa, has, k + 1);
    }
}

/// What each fingertip does fits the board.
proof fn lemma_picks_fit(s: &State, input: &Input, fp: Coord, rotate: int, m: int)
    requires
        0 <= m <= input.arm.fingers@.len(),
    ensures
        acts_fit(s.field@, input.N, s.picks(input, fp, rotate, m).map_values(
            |p: (usize, (MoveAction, Direction), (FingerAction, FingerHas, Coord))| p.2)),
        acts_on_targets(rows(input.T@), s.picks(input, fp, rotate, m).map_values(
            |p: (usize, (MoveAction, Direction), (FingerAction, FingerHas, Coord))| p.2)),
    decreases m,
{
    if m > 0 {
        lemma_picks_fit(s, input, fp, rotate, m - 1);
        let ps = s.picks(input, fp, rotate, m);
        let prev = s.picks(input, fp, rotate, m - 1);
        let idx = input.arm.fingers@[m - 1] as int;
        let dir = crate::ahc038::arm::turned(s.arm_direction@[idx], rotate, 0);
        let fa = s.finger_status@[idx].0;
        let has = s.finger_status@[idx].1;
        let len = input.arm.lengths@[idx];
        lemma_first_turn_acts(s.field@, rows(input.T@), input.N, fp, dir, len, fa, has, 0);
        let a = ps.map_values(|p: (usize, (MoveAction, Direction), (FingerAction, FingerHas, Coord))| p.2);
        let b = prev.map_values(|p: (usize, (MoveAction, Direction), (FingerAction, FingerHas, Coord))| p.2);
        assert forall|q: int| 0 <= q < a.len() implies {
            &&& ((#[trigger] a[q]).0 == FingerAction::Grab ==> a[q].2.in_map_spec(input.N) && s.field@.contains((a[q].2.i, a[q].2.j)))
            &&& (a[q].0 == FingerAction::Release ==> a[q].2.in_map_spec(input.N) && !s.field@.contains((a[q].2.i, a[q].2.j)))
        } by {
            if q < b.len() {
                assert(a[q] == b[q]);
            }
        }
        let t = rows(input.T@);
        assert forall|q: int| 0 <= q < a.len() implies {
            &&& ((#[trigger] a[q]).0 == FingerAction::Grab ==> t[a[q].2.i as int][a[q].2.j as int] == '0')
            &&& (a[q].0 == FingerAction::Release ==> t[a[q].2.i as int][a[q].2.j as int] == '1')
        } by {
            if q < b.len() {
                assert(a[q] == b[q]);
            }
        }
    }
}

/// Every candidate of base move `i` starts with that move and fits the board.
proof fn lemma_move_cands_fit(s: &State, input: &Input, tv: Seq<(Coord, Seq<(MoveAction, Direction)>)>, i: int, k: int)
    requires
        0 <= k <= tv.len(),
    ensures
        forall|j: int| 0 <= j < s.move_cands(input, tv, i, k).len() ==> cand_fits(s, input, i, #[trigger] s.move_cands(input, tv, i, k)[j]),
    decreases k,
{
    if k > 0 {
        lemma_move_cands_fit(s, input, tv, i, k - 1);
        let rest = s.move_cands(input, tv, i, k - 1);
        let all = s.move_cands(input, tv, i, k);
        let c = s.full_cand(input, i, tv[k - 1]);
        let e = tv[k - 1];
        let root_next = s.root.add_spec(dij_coord(i));
        let fpp = s.root.add_spec(e.0).add_spec(dij_coord(i));
        let rotate = crate::ahc038::arm::rot_sum(e.1, e.1.len() as int);
        let ps = s.picks(input, fpp, rotate, input.arm.fingers@.len() as int);
        lemma_picks_fit(s, input, fpp, rotate, input.arm.fingers@.len() as int);
        let pa = ps.map_values(|p: (usize, (MoveAction, Direction), (FingerAction, FingerHas, Coord))| p.2);
        let nf = input.arm.not_finger_arm_num as nat;
        let idle = Seq::new(nf, |q: int| (FingerAction::Idle, FingerHas::NotHas, crate::ahc038::moves::nowhere()));
        assert(c.3 == idle + pa);
        assert(cand_fits(s, input, i, c)) by {
            assert forall|m: int| 0 <= m < c.3.len() implies {
                &&& ((#[trigger] c.3[m]).0 == FingerAction::Grab ==> c.3[m].2.in_map_spec(input.N) && s.field@.contains((c.3[m].2.i, c.3[m].2.j)))
                &&& (c.3[m].0 == FingerAction::Release ==> c.3[m].2.in_map_spec(input.N) && !s.field@.contains((c.3[m].2.i, c.3[m].2.j)))
            } by {
                if m >= nf {
                    assert(c.3[m] == pa[m - nf]);
                }
            }
            let t = rows(input.T@);
            assert forall|m: int| 0 <= m < c.3.len() implies {
                &&& ((#[trigger] c.3[m]).0 == FingerAction::Grab ==> t[c.3[m].2.i as int][c.3[m].2.j as int] == '0')
                &&& (c.3[m].0 == FingerAction::Release ==> t[c.3[m].2.i as int][c.3[m].2.j as int] == '1')
            } by {
                if m >= nf {
                    assert(c.3[m] == pa[m - nf]);
                }
            }
            assert(c.2[0] == base_action(i)[0]);
        }
        let ic = s.idle_cand(input, i);
        assert(cand_fits(s, input, i, ic)) by {
            assert(ic.2[0] == base_action(i)[0]);
        }
        assert forall|j: int| 0 <= j < all.len() implies cand_fits(s, input, i, #[trigger] all[j]) by {
            if j < rest.len() {
                assert(all[j] == rest[j]);
            }
        }
    }
}

/// A candidate starts with one of the base moves `< k` that keep the base
/// on the board, and fits the board.
pub open spec fn fits_some(s: &State, input: &Input, k: int,
    c: (usize, usize, Seq<(MoveAction, Direction)>, Seq<(FingerAction, FingerHas, Coord)>, bool)) -> bool {
    exists|i: int| 0 <= i < k && s.root.add_spec(dij_coord(i)).in_map_spec(input.N) && #[trigger] cand_fits(s, input, i, c)
}

/// Every candidate of the base moves `< k` starts with a move that keeps the
/// base on the board and fits the board.
proof fn lemma_cands_upto_fit(s: &State, input: &Input, tv: Seq<(Coord, Seq<(MoveAction, Direction)>)>, k: int)
    requires
        0 <= k <= 5,
    ensures
        forall|j: int| 0 <= j < s.cands_upto(input, tv, k).len() ==> fits_some(s, input, k, #[trigger] s.cands_upto(input, tv, k)[j]),
    decreases k,
{
    if k > 0 {
        lemma_cands_upto_fit(s, input, tv, k - 1);
        let rest = s.cands_upto(input, tv, k - 1);
        let all = s.cands_upto(input, tv, k);
        if s.root.add_spec(dij_coord(k - 1)).in_map_spec(input.N) {
            let mc = s.move_cands(input, tv, k - 1, tv.len() as int);
            lemma_move_cands_fit(s, input, tv, k - 1, tv.len() as int);
            assert forall|j: int| 0 <= j < all.len() implies fits_some(s, input, k, #[trigger] all[j]) by {
                if j < rest.len() {
                    assert(all[j] == rest[j]);
                    assert(fits_some(s, input, k - 1, rest[j]));
                    let i = choose|i: int| 0 <= i < k - 1 && s.root.add_spec(dij_coord(i)).in_map_spec(input.N)
                        && #[trigger] cand_fits(s, input, i, rest[j]);
                    assert(cand_fits(s, input, i, all[j]));
                } else {
                    assert(all[j] == mc[j - rest.len()]);
                    assert(cand_fits(s, input, k - 1, mc[j - rest.len()]));
                    assert(cand_fits(s, input, k - 1, all[j]));
                }
            }
        } else {
            assert forall|j: int| 0 <= j < all.len() implies fits_some(s, input, k, #[trigger] all[j]) by {
                assert(all[j] == rest[j]);
                assert(fits_some(s, input, k - 1, rest[j]));
                let i = choose|i: int| 0 <= i < k - 1 && s.root.add_spec(dij_coord(i)).in_map_spec(input.N)
                    && #[trigger] cand_fits(s, input, i, rest[j]);
                assert(cand_fits(s, input, i, all[j]));
            }
        }
    }
}

/// Carrying out acts that fit `f`: a touched square ends empty if it held a
/// takoyaki and filled if it held none; the other squares keep their state.
proof fn lemma_field_after(f: Set<(usize, usize)>, n: usize, acts: Seq<(FingerAction, FingerHas, Coord)>, k: int,
    q: (usize, usize))
    requires
        acts_fit(f, n, acts),
        0 <= k <= acts.len(),
    ensures
        field_after(f, acts, k).contains(q) == if touched(acts, q, k) { !f.contains(q) } else { f.contains(q) },
    decreases k,
{
    if k > 0 {
        lemma_field_after(f, n, acts, k - 1, q);
        let a = acts[k - 1];
        let p = (a.2.i, a.2.j);
        if (a.0 == FingerAction::Grab || a.0 == FingerAction::Release) && p == q {
            assert(touched(acts, q, k));
        } else {
            if touched(acts, q, k) {
                let m = choose|m: int| 0 <= m < k && ((#[trigger] acts[m]).0 == FingerAction::Grab || acts[m].0 == FingerAction::Release)
                    && (acts[m].2.i, acts[m].2.j) == q;
                assert(m != k - 1);
                assert(touched(acts, q, k - 1));
            }
            if touched(acts, q, k - 1) {
                let m = choose|m: int| 0 <= m < k - 1 && ((#[trigger] acts[m]).0 == FingerAction::Grab || acts[m].0 == FingerAction::Release)
                    && (acts[m].2.i, acts[m].2.j) == q;
                assert(touched(acts, q, k));
            }
        }
    }
}

/// Carrying out a candidate turn of `s` (what `apply` does with it): the
/// base moves to a square of the board; every grab takes a takoyaki that lay
/// on its square, off a square that is no target, and leaves the square
/// empty, every release fills a target square that was empty, and the squares that no fingertip acts on keep their
/// state.
pub proof fn law_turn_fits(s: &State, input: &Input, j: int, q: (usize, usize))
    requires
        0 <= j < s.cands_spec(input).len(),
    ensures
        ({
            let c = s.cands_spec(input)[j];
            let after = field_after(s.field@, c.3, c.3.len() as int);
            &&& c.2.len() >= 1
            &&& is_base_move(c.2[0].0)
            &&& base_after(s.root, c.2).in_map_spec(input.N)
            &&& acts_fit(s.field@, input.N, c.3)
            &&& acts_on_targets(rows(input.T@), c.3)
            &&& after.contains(q) == if touched(c.3, q, c.3.len() as int) { !s.field@.contains(q) } else { s.field@.contains(q) }
        }),
{
    let tv = s.chain_ends(input);
    lemma_cands_upto_fit(s, input, tv, 5);
    let c = s.cands_spec(input)[j];
    assert(fits_some(s, input, 5, c));
    let i = choose|i: int| 0 <= i < 5 && s.root.add_spec(dij_coord(i)).in_map_spec(input.N) && #[trigger] cand_fits(s, input, i, c);
    assert(c.2[0] == base_action(i)[0]);
    assert(c.2[0].0 == to_move_direction_spec(i));
    assert(move_action_to_direction_spec(to_move_direction_spec(i)).index_spec() == i);
    lemma_field_after(s.field@, input.N, c.3, c.3.len() as int, q);
}

/// What the fingertip actions `acts[..k]` score: `g` for each grab and `r`
/// for each release.
pub open spec fn act_score(acts: Seq<(FingerAction, FingerHas, Coord)>, g: usize, r: usize, k: int) -> int
    decreases k,
{
    if k <= 0 {
        0
    } else {
        act_score(acts, g, r, k - 1) + if acts[k - 1].0 == FingerAction::Grab {
            g as int
        } else if acts[k - 1].0 == FingerAction::Release {
            r as int
        } else {
            0
        }
    }
}

proof fn lemma_act_score_prefix(a: Seq<(FingerAction, FingerHas, Coord)>, b: Seq<(FingerAction, FingerHas, Coord)>, g: usize,
    r: usize, k: int)
    requires
        0 <= k <= a.len(),
        k <= b.len(),
        forall|j: int| 0 <= j < k ==> #[trigger] a[j] == b[j],
    ensures
        act_score(a, g, r, k) == act_score(b, g, r, k),
    decreases k,
{
    if k > 0 {
        lemma_act_score_prefix(a, b, g, r, k - 1);
    }
}

proof fn lemma_score_after_idle(p: Seq<(FingerAction, FingerHas, Coord)>, b: Seq<(FingerAction, FingerHas, Coord)>, g: usize,
    r: usize, k: int)
    requires
        forall|j: int| 0 <= j < p.len() ==> (#[trigger] p[j]).0 == FingerAction::Idle,
        0 <= k <= b.len(),
    ensures
        act_score(p + b, g, r, p.len() + k) == act_score(b, g, r, k),
    decreases k,
{
    if k > 0 {
        lemma_score_after_idle(p, b, g, r, k - 1);
        assert((p + b)[p.len() + k - 1] == b[k - 1]);
    } else {
        lemma_idle_score(p + b, g, r, p.len() as int);
    }
}

proof fn lemma_idle_score(a: Seq<(FingerAction, FingerHas, Coord)>, g: usize, r: usize, k: int)
    requires
        0 <= k <= a.len(),
        forall|j: int| 0 <= j < k ==> (#[trigger] a[j]).0 == FingerAction::Idle,
    ensures
        act_score(a, g, r, k) == 0,
    decreases k,
{
    if k > 0 {
        lemma_idle_score(a, g, r, k - 1);
    }
}

/// The picks score what their actions score.
proof fn lemma_picks_score(s: &State, input: &Input, fp: Coord, rotate: int, m: int)
    requires
        0 <= m <= input.arm.fingers@.len(),
    ensures
        pick_sum(s.picks(input, fp, rotate, m)) == act_score(s.picks(input, fp, rotate, m).map_values(
            |p: (usize, (MoveAction, Direction), (FingerAction, FingerHas, Coord))| p.2), input.grab_score, input.release_score, m),
    decreases m,
{
    if m > 0 {
        lemma_picks_score(s, input, fp, rotate, m - 1);
        lemma_picks(s, input, fp, rotate, m);
        lemma_picks(s, input, fp, rotate, m - 1);
        let ps = s.picks(input, fp, rotate, m);
        let prev = s.picks(input, fp, rotate, m - 1);
        assert(ps.drop_last() == prev);
        let a = ps.map_values(|p: (usize, (MoveAction, Direction), (FingerAction, FingerHas, Coord))| p.2);
        let b = prev.map_values(|p: (usize, (MoveAction, Direction), (FingerAction, FingerHas, Coord))| p.2);
        lemma_act_score_prefix(a, b, input.grab_score, input.release_score, m - 1);
    }
}

/// The candidates of base move `i` score what their fingertip actions do.
proof fn lemma_move_cands_score(s: &State, input: &Input, tv: Seq<(Coord, Seq<(MoveAction, Direction)>)>, i: int, k: int)
    requires
        0 <= k <= tv.len(),
        input.arm.fingers@.len() * (input.grab_score + input.release_score) <= usize::MAX,
    ensures
        forall|j: int| 0 <= j < s.move_cands(input, tv, i, k).len() ==> (#[trigger] s.move_cands(input, tv, i, k)[j]).0 as int
            == act_score(s.move_cands(input, tv, i, k)[j].3, input.grab_score, input.release_score,
                s.move_cands(input, tv, i, k)[j].3.len() as int),
    decreases k,
{
    if k > 0 {
        lemma_move_cands_score(s, input, tv, i, k - 1);
        let rest = s.move_cands(input, tv, i, k - 1);
        let all = s.move_cands(input, tv, i, k);
        let g = input.grab_score;
        let r = input.release_score;
        let c = s.full_cand(input, i, tv[k - 1]);
        let e = tv[k - 1];
        let fpp = s.root.add_spec(e.0).add_spec(dij_coord(i));
        let rotate = crate::ahc038::arm::rot_sum(e.1, e.1.len() as int);
        let f = input.arm.fingers@.len() as int;
        let ps = s.picks(input, fpp, rotate, f);
        lemma_picks_score(s, input, fpp, rotate, f);
        lemma_picks(s, input, fpp, rotate, f);
        assert(f * (g + r) <= usize::MAX);
        let pa = ps.map_values(|p: (usize, (MoveAction, Direction), (FingerAction, FingerHas, Coord))| p.2);
        let nf = input.arm.not_finger_arm_num as nat;
        let idle = Seq::new(nf, |q: int| (FingerAction::Idle, FingerHas::NotHas, crate::ahc038::moves::nowhere()));
        assert(c.3 == idle + pa);
        lemma_score_after_idle(idle, pa, g, r, pa.len() as int);
        let ic = s.idle_cand(input, i);
        assert forall|q: int| 0 <= q < ic.3.len() implies (#[trigger] ic.3[q]).0 == FingerAction::Idle by {}
        lemma_idle_score(ic.3, g, r, ic.3.len() as int);
        assert forall|j: int| 0 <= j < all.len() implies (#[trigger] all[j]).0 as int == act_score(all[j].3, g, r, all[j].3.len() as int) by {
            if j < rest.len() {
                assert(all[j] == rest[j]);
            }
        }
    }
}

/// Every candidate turn scores what its fingertip actions do: the grab
/// score for each grab and the release score for each release.
pub proof fn law_turn_score(s: &State, input: &Input, j: int)
    requires
        0 <= j < s.cands_spec(input).len(),
        input.arm.fingers@.len() * (input.grab_score + input.release_score) <= usize::MAX,
    ensures
        s.cands_spec(input)[j].0 as int == act_score(s.cands_spec(input)[j].3, input.grab_score, input.release_score,
            s.cands_spec(input)[j].3.len() as int),
{
    let tv = s.chain_ends(input);
    lemma_cands_upto_score(s, input, tv, 5);
}

proof fn lemma_cands_upto_score(s: &State, input: &Input, tv: Seq<(Coord, Seq<(MoveAction, Direction)>)>, k: int)
    requires
        0 <= k <= 5,
        input.arm.fingers@.len() * (input.grab_score + input.release_score) <= usize::MAX,
    ensures
        forall|j: int| 0 <= j < s.cands_upto(input, tv, k).len() ==> (#[trigger] s.cands_upto(input, tv, k)[j]).0 as int
            == act_score(s.cands_upto(input, tv, k)[j].3, input.grab_score, input.release_score,
                s.cands_upto(input, tv, k)[j].3.len() as int),
    decreases k,
{
    if k > 0 {
        lemma_cands_upto_score(s, input, tv, k - 1);
        let rest = s.cands_upto(input, tv, k - 1);
        let all = s.cands_upto(input, tv, k);
        if s.root.add_spec(dij_coord(k - 1)).in_map_spec(input.N) {
            let mc = s.move_cands(input, tv, k - 1, tv.len() as int);
            lemma_move_cands_score(s, input, tv, k - 1, tv.len() as int);
            assert forall|j: int| 0 <= j < all.len() implies (#[trigger] all[j]).0 as int
                == act_score(all[j].3, input.grab_score, input.release_score, all[j].3.len() as int) by {
                if j < rest.len() {
                    assert(all[j] == rest[j]);
                } else {
                    assert(all[j] == mc[j - rest.len()]);
                }
            }
        }
    }
}

} // verus!
