//! The shape of the candidates of a turn: one action for the base and one
//! for each segment, every segment pointing in one of the four directions,
//! the base staying on the board, and grabs and releases on the board.
use vstd::prelude::*;
use crate::coord::{Coord, dij_coord};
use crate::a::arm::Arm;
use crate::a::state::{
    State, Direction, MoveAction, FingerAction, FingerHas, board, root_moves, all_root_moves, first_act, finger_pick,
    can_act, to_move_direction_spec, move_action_to_direction_spec, is_base_move, pick_sum, nowhere,
};
use crate::a::beam::acts_on_board;
use crate::ahc038::arm::{tips_from, branches, turned, stride};

verus! {

/// One of the four directions (not `Neutral`).
pub open spec fn is_real(d: Direction) -> bool {
    d.index_spec() < 4
}

/// Every action of `a` turns its segment to one of the four directions.
pub open spec fn all_real(a: Seq<(MoveAction, Direction)>) -> bool {
    forall|k: int| 0 <= k < a.len() ==> is_real((#[trigger] a[k]).1)
}

/// The arm: the chain segments and the fingertips together make up the
/// segments, and each fingertip is a segment.
pub open spec fn arm_ok(arm: &Arm) -> bool {
    &&& arm.not_finger_arm_num + arm.fingers@.len() == arm.lengths@.len()
    &&& forall|m: int| 0 <= m < arm.fingers@.len() ==> #[trigger] arm.fingers@[m] < arm.lengths@.len()
    &&& arm.fingers@.len() * 2 <= usize::MAX
}

/// The chain ends reached from `depth` on with `actions` so far: each
/// carries one more action per remaining chain segment, each turning to one
/// of the four directions.
pub proof fn lemma_tips_shape(
    nf: usize,
    ls: Seq<usize>,
    dirs: Seq<Direction>,
    opposite: bool,
    pos: Coord,
    rotate: int,
    depth: int,
    actions: Seq<(MoveAction, Direction)>,
)
    requires
        0 <= depth <= nf,
        ls.len() >= nf,
        dirs.len() >= nf,
        all_real(actions),
    ensures
        forall|j: int| 0 <= j < tips_from(nf, ls, dirs, opposite, pos, rotate, depth, actions).len() ==> {
            let a = (#[trigger] tips_from(nf, ls, dirs, opposite, pos, rotate, depth, actions)[j]).1;
            a.len() == actions.len() + nf - depth && all_real(a)
        },
    decreases nf - depth, 5int,
{
    if depth < nf {
        lemma_branches_shape(nf, ls, dirs, opposite, pos, rotate, depth, actions, 4);
        assert(tips_from(nf, ls, dirs, opposite, pos, rotate, depth, actions)
            == branches(nf, ls, dirs, opposite, pos, rotate, depth, actions, 4));
    } else {
        assert(tips_from(nf, ls, dirs, opposite, pos, rotate, depth, actions) == seq![(pos, actions)]);
    }
}

/// `lemma_tips_shape` for the rotations `< k` of segment `depth`.
pub proof fn lemma_branches_shape(
    nf: usize,
    ls: Seq<usize>,
    dirs: Seq<Direction>,
    opposite: bool,
    pos: Coord,
    rotate: int,
    depth: int,
    actions: Seq<(MoveAction, Direction)>,
    k: int,
)
    requires
        0 <= depth < nf,
        ls.len() >= nf,
        dirs.len() >= nf,
        all_real(actions),
    ensures
        forall|j: int| 0 <= j < branches(nf, ls, dirs, opposite, pos, rotate, depth, actions, k).len() ==> {
            let a = (#[trigger] branches(nf, ls, dirs, opposite, pos, rotate, depth, actions, k)[j]).1;
            a.len() == actions.len() + nf - depth && all_real(a)
        },
    decreases nf - depth, k,
{
    if k > 0 {
        let i = k - 1;
        lemma_branches_shape(nf, ls, dirs, opposite, pos, rotate, depth, actions, k - 1);
        let rest = branches(nf, ls, dirs, opposite, pos, rotate, depth, actions, k - 1);
        if !(i == 2 && !opposite) {
            let nd = turned(dirs[depth], rotate, i);
            let na = actions.push((crate::a::state::to_rotate_direction_spec(i), nd));
            assert(is_real(nd));
            assert(all_real(na)) by {
                assert forall|q: int| 0 <= q < na.len() implies is_real((#[trigger] na[q]).1) by {
                    if q < actions.len() {
                        assert(na[q] == actions[q]);
                    }
                }
            }
            let sub = tips_from(nf, ls, dirs, opposite, stride(pos, nd, ls[depth]), (rotate + i) % 4, depth + 1, na);
            lemma_tips_shape(nf, ls, dirs, opposite, stride(pos, nd, ls[depth]), (rotate + i) % 4, depth + 1, na);
            let all = branches(nf, ls, dirs, opposite, pos, rotate, depth, actions, k);
            assert(all == sub + rest);
            assert forall|j: int| 0 <= j < all.len() implies {
                let a = (#[trigger] all[j]).1;
                a.len() == actions.len() + nf - depth && all_real(a)
            } by {
                if j < sub.len() {
                    assert(all[j] == sub[j]);
                } else {
                    assert(all[j] == rest[j - sub.len()]);
                }
            }
        }
    }
}

/// A base move `q` (a unit step, or staying put) moves the base along
/// `dij_coord(q)`.
pub proof fn lemma_move_direction(q: int)
    requires
        0 <= q < 5,
    ensures
        is_base_move(to_move_direction_spec(q)),
        move_action_to_direction_spec(to_move_direction_spec(q)).index_spec() == q,
{
}

/// What an entry of the base moves of a chain end looks like: one of the
/// moves that keeps the base on the board, put in front of the chain end's
/// actions.
pub open spec fn moved(root: Coord, n: usize, tip: Seq<(MoveAction, Direction)>, a: Seq<(MoveAction, Direction)>) -> bool {
    exists|q: int| 0 <= q < 5 && root.add_spec(dij_coord(q)).in_map_spec(n)
        && a == seq![(to_move_direction_spec(q), Direction::Neutral)] + tip
}

pub proof fn lemma_root_moves_shape(root: Coord, n: usize, tip: (Coord, Seq<(MoveAction, Direction)>), k: int)
    requires
        k <= 5,
    ensures
        forall|j: int| 0 <= j < root_moves(root, n, tip, k).len() ==> moved(root, n, tip.1, (#[trigger] root_moves(root, n, tip, k)[j]).1),
    decreases k,
{
    if k > 0 {
        lemma_root_moves_shape(root, n, tip, k - 1);
        let rest = root_moves(root, n, tip, k - 1);
        let all = root_moves(root, n, tip, k);
        assert forall|j: int| 0 <= j < all.len() implies moved(root, n, tip.1, (#[trigger] all[j]).1) by {
            if j < rest.len() {
                assert(all[j] == rest[j]);
            } else {
                assert(moved(root, n, tip.1, all[j].1)) by {
                    let q = k - 1;
                    assert(0 <= q < 5 && root.add_spec(dij_coord(q)).in_map_spec(n));
                }
            }
        }
    }
}

/// Each base move of the chain ends `tips[..t]` is one of `root_moves` of
/// one of them.
pub proof fn lemma_all_root_moves_shape(root: Coord, n: usize, tips: Seq<(Coord, Seq<(MoveAction, Direction)>)>, t: int)
    requires
        0 <= t <= tips.len(),
    ensures
        forall|j: int| 0 <= j < all_root_moves(root, n, tips, t).len() ==> exists|u: int| 0 <= u < t
            && moved(root, n, tips[u].1, (#[trigger] all_root_moves(root, n, tips, t)[j]).1),
    decreases t,
{
    if t > 0 {
        lemma_all_root_moves_shape(root, n, tips, t - 1);
        lemma_root_moves_shape(root, n, tips[t - 1], 5);
        let rest = all_root_moves(root, n, tips, t - 1);
        let more = root_moves(root, n, tips[t - 1], 5);
        let all = all_root_moves(root, n, tips, t);
        assert forall|j: int| 0 <= j < all.len() implies exists|u: int| 0 <= u < t
            && moved(root, n, tips[u].1, (#[trigger] all[j]).1) by {
            if j < rest.len() {
                assert(all[j] == rest[j]);
                let u = choose|u: int| 0 <= u < t - 1 && moved(root, n, tips[u].1, rest[j].1);
            } else {
                assert(all[j] == more[j - rest.len()]);
                assert(moved(root, n, tips[t - 1].1, more[j - rest.len()].1));
            }
        }
    }
}

/// The first rotation at which a fingertip can act is one at which it can.
pub proof fn lemma_first_act(
    s: Seq<Seq<char>>,
    t: Seq<Seq<char>>,
    n: usize,
    fp: Coord,
    dir: Direction,
    len: usize,
    fa: FingerAction,
    has: FingerHas,
    k: int,
)
    requires
        0 <= k,
    ensures
        match first_act(s, t, n, fp, dir, len, fa, has, k) {
            Some(i) => 0 <= i < 4 && can_act(s, t, n, has, stride(fp, turned(dir, 0, i), len)),
            None => true,
        },
    decreases 4 - k,
{
    if k < 4 {
        lemma_first_act(s, t, n, fp, dir, len, fa, has, k + 1);
    }
}

/// A fingertip turns to one of the four directions, and grabs or releases
/// only on the board.
pub proof fn lemma_finger_pick_shape(
    s: Seq<Seq<char>>,
    t: Seq<Seq<char>>,
    n: usize,
    fp: Coord,
    dir: Direction,
    len: usize,
    fa: FingerAction,
    has: FingerHas,
)
    requires
        is_real(dir),
    ensures
        ({
            let p = finger_pick(s, t, n, fp, dir, len, fa, has);
            &&& is_real(p.1.1)
            &&& (p.2.0 == FingerAction::Grab || p.2.0 == FingerAction::Release) ==> p.2.2.in_map_spec(n)
            &&& p.0 <= 2
        }),
{
    lemma_first_act(s, t, n, fp, dir, len, fa, has, 0);
}

/// The picks of the fingertips `fingers[..m]`: one each, each turning to
/// one of the four directions, grabbing or releasing only on the board, with
/// a score of at most 2.
pub proof fn lemma_picks_shape(st: &State, arm: &Arm, t: Seq<Seq<char>>, fp: Coord, rotate: int, m: int)
    requires
        0 <= m <= arm.fingers@.len(),
    ensures
        st.picks(arm, t, fp, rotate, m).len() == m,
        forall|j: int| 0 <= j < m ==> {
            let p = #[trigger] st.picks(arm, t, fp, rotate, m)[j];
            &&& is_real(p.1.1)
            &&& (p.2.0 == FingerAction::Grab || p.2.0 == FingerAction::Release) ==> p.2.2.in_map_spec(st.S@.len() as usize)
            &&& p.0 <= 2
        },
        pick_sum(st.picks(arm, t, fp, rotate, m)) <= 2 * m,
    decreases m,
{
    if m > 0 {
        lemma_picks_shape(st, arm, t, fp, rotate, m - 1);
        let idx = arm.fingers@[m - 1] as int;
        let dir = turned(st.arm_direction@[idx], rotate, 0);
        lemma_finger_pick_shape(board(st.S@), t, st.S@.len() as usize, fp, dir, arm.lengths@[idx],
            st.finger_status@[idx].0, st.finger_status@[idx].1);
        let ps = st.picks(arm, t, fp, rotate, m);
        assert(ps.drop_last() == st.picks(arm, t, fp, rotate, m - 1));
        assert forall|j: int| 0 <= j < m implies {
            let p = #[trigger] ps[j];
            &&& is_real(p.1.1)
            &&& (p.2.0 == FingerAction::Grab || p.2.0 == FingerAction::Release) ==> p.2.2.in_map_spec(st.S@.len() as usize)
            &&& p.0 <= 2
        } by {
            if j < m - 1 {
                assert(ps[j] == st.picks(arm, t, fp, rotate, m - 1)[j]);
            }
        }
    }
}

/// What every candidate of a turn looks like, for a state with `l` segments
/// on an `n x n` board: an action for the base (a move that keeps it on the
/// board) and one per segment, each segment turned to one of the four
/// directions; one fingertip action per segment, grabs and releases on the
/// board; and a score of at most `2 * l`.
pub open spec fn cand_shape(
    root: Coord,
    n: usize,
    l: int,
    c: (usize, Seq<(MoveAction, Direction)>, Seq<(FingerAction, FingerHas, Coord)>),
) -> bool {
    &&& c.1.len() == l + 1
    &&& c.2.len() == l
    &&& exists|q: int| 0 <= q < 5 && root.add_spec(dij_coord(q)).in_map_spec(n)
        && c.1[0] == (to_move_direction_spec(q), Direction::Neutral)
    &&& forall|k: int| 1 <= k < c.1.len() ==> is_real((#[trigger] c.1[k]).1)
    &&& acts_on_board(c.2, n as int)
    &&& c.0 <= 2 * l
}

/// A state the candidates can be drawn from: an `n x n` board, a target
/// board that covers it, one direction (of the four) and one fingertip
/// status per segment.
pub open spec fn state_ok(st: &State, arm: &Arm, t: Seq<Seq<char>>) -> bool {
    let n = st.S@.len();
    &&& forall|a: int| 0 <= a < n ==> (#[trigger] st.S@[a])@.len() == n
    &&& t.len() >= n
    &&& forall|a: int| 0 <= a < n ==> (#[trigger] t[a]).len() >= n
    &&& arm_ok(arm)
    &&& st.arm_direction@.len() == arm.lengths@.len()
    &&& st.finger_status@.len() == arm.lengths@.len()
    &&& all_real(st.arm_direction@.map_values(|d: Direction| (MoveAction::Stay, d)))
}

/// Every candidate of `cands_spec` has the shape of `cand_shape`.
pub proof fn lemma_cands_shape(st: &State, arm: &Arm, t: Seq<Seq<char>>)
    requires
        state_ok(st, arm, t),
    ensures
        st.cand_ready(arm, t),
        forall|j: int| 0 <= j < st.cands_spec(arm, t).len() ==>
            cand_shape(st.root, st.S@.len() as usize, arm.lengths@.len() as int, #[trigger] st.cands_spec(arm, t)[j]),
{
    let n = st.S@.len() as usize;
    let l = arm.lengths@.len() as int;
    let nf = arm.not_finger_arm_num;
    let f = arm.fingers@.len() as int;
    let tips = tips_from(nf, arm.lengths@, st.arm_direction@, false, st.root, 0, 0, Seq::empty());
    let moves = all_root_moves(st.root, n, tips, tips.len() as int);
    let cs = moves.map_values(|m: (Coord, Seq<(MoveAction, Direction)>)| st.cand_of(arm, t, m));
    lemma_tips_shape(nf, arm.lengths@, st.arm_direction@, false, st.root, 0, 0, Seq::empty());
    lemma_all_root_moves_shape(st.root, n, tips, tips.len() as int);
    assert forall|j: int| 0 <= j < cs.len() implies cand_shape(st.root, n, l, #[trigger] cs[j]) by {
        let m = moves[j];
        let u = choose|u: int| 0 <= u < tips.len() && moved(st.root, n, tips[u].1, m.1);
        let q = choose|q: int| 0 <= q < 5 && st.root.add_spec(dij_coord(q)).in_map_spec(n)
            && m.1 == seq![(to_move_direction_spec(q), Direction::Neutral)] + tips[u].1;
        let tu = tips[u].1;
        assert(tu.len() == nf && all_real(tu));
        let rotate = crate::a::state::rot_tail(m.1, m.1.len() as int);
        let ps = st.picks(arm, t, m.0, rotate, f);
        lemma_picks_shape(st, arm, t, m.0, rotate, f);
        let c = st.cand_of(arm, t, m);
        assert(cs[j] == c);
        let a1 = m.1 + ps.map_values(|p: (usize, (MoveAction, Direction), (FingerAction, FingerHas, Coord))| p.1);
        assert(c.1 == a1);
        assert(c.1[0] == (to_move_direction_spec(q), Direction::Neutral));
        assert forall|k: int| 1 <= k < c.1.len() implies is_real((#[trigger] c.1[k]).1) by {
            if k < m.1.len() {
                assert(c.1[k] == m.1[k]);
                assert(m.1[k] == tu[k - 1]);
            } else {
                assert(c.1[k] == ps[k - m.1.len()].1);
            }
        }
        let a2 = Seq::new(nf as nat, |k: int| (FingerAction::Idle, FingerHas::NotHas, nowhere()))
            + ps.map_values(|p: (usize, (MoveAction, Direction), (FingerAction, FingerHas, Coord))| p.2);
        assert(c.2 == a2);
        assert forall|k: int| 0 <= k < c.2.len() && ((#[trigger] c.2[k]).0 == FingerAction::Grab || c.2[k].0 == FingerAction::Release)
            implies c.2[k].2.i < n && c.2[k].2.j < n by {
            if k >= nf {
                assert(c.2[k] == ps[k - nf].2);
            }
        }
        assert(2 * f <= 2 * l);
    }
    let idle = st.idle_moves(4);
    lemma_idle_shape(st, arm, t, 4);
}

/// `lemma_cands_shape` for the moves of the base alone.
pub proof fn lemma_idle_shape(st: &State, arm: &Arm, t: Seq<Seq<char>>, k: int)
    requires
        state_ok(st, arm, t),
        k <= 5,
    ensures
        forall|j: int| 0 <= j < st.idle_moves(k).len() ==>
            cand_shape(st.root, st.S@.len() as usize, arm.lengths@.len() as int, #[trigger] st.idle_moves(k)[j]),
    decreases k,
{
    if k > 0 {
        lemma_idle_shape(st, arm, t, k - 1);
        let n = st.S@.len() as usize;
        let l = arm.lengths@.len() as int;
        let rest = st.idle_moves(k - 1);
        let all = st.idle_moves(k);
        assert forall|j: int| 0 <= j < all.len() implies cand_shape(st.root, n, l, #[trigger] all[j]) by {
            if j < rest.len() {
                assert(all[j] == rest[j]);
            } else {
                let c = all[j];
                let q = k - 1;
                let dirs = st.arm_direction@.map_values(|d: Direction| (MoveAction::Stay, d));
                assert(c.1 == seq![(to_move_direction_spec(q), Direction::Neutral)] + dirs);
                assert forall|m: int| 1 <= m < c.1.len() implies is_real((#[trigger] c.1[m]).1) by {
                    assert(c.1[m] == dirs[m - 1]);
                }
                assert(c.1[0] == (to_move_direction_spec(q), Direction::Neutral));
            }
        }
    }
}

} // verus!
