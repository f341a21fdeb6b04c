//! The fingertip actions of every candidate turn are legal moves of the
//! takoyaki: grabs take a takoyaki off a square that is not a target,
//! releases drop one on an empty target square.
use vstd::prelude::*;
use crate::coord::Coord;
use crate::a::arm::Arm;
use crate::a::state::{State, Direction, MoveAction, FingerAction, FingerHas, board, finger_pick, nowhere, pick_sum,
    GRAB_SCORE, RELEASE_SCORE};
use crate::ahc038::arm::turned;
use crate::a::beam::board_after;

verus! {

/// Every grab of `acts` is on a square of the `n x n` board that holds a
/// takoyaki (`'1'` in `s`) and is no target (`'0'` in `t`); every release
/// on a square that holds none and is a target.
pub open spec fn acts_legal(s: Seq<Seq<char>>, t: Seq<Seq<char>>, n: usize, acts: Seq<(FingerAction, FingerHas, Coord)>) -> bool {
    forall|k: int| 0 <= k < acts.len() ==> {
        let a = #[trigger] acts[k];
        let p = a.2;
        &&& (a.0 == FingerAction::Grab ==> p.in_map_spec(n) && s[p.i as int][p.j as int] == '1' && t[p.i as int][p.j as int] == '0')
        &&& (a.0 == FingerAction::Release ==> p.in_map_spec(n) && s[p.i as int][p.j as int] == '0'
            && t[p.i as int][p.j as int] == '1')
    }
}

/// The action a fingertip picks is legal.
proof fn lemma_pick_legal(s: Seq<Seq<char>>, t: Seq<Seq<char>>, n: usize, fp: Coord, dir: Direction, len: usize,
    fa: FingerAction, has: FingerHas)
    ensures
        acts_legal(s, t, n, seq![finger_pick(s, t, n, fp, dir, len, fa, has).2]),
{
    crate::a::shape::lemma_first_act(s, t, n, fp, dir, len, fa, has, 0);
    let a = finger_pick(s, t, n, fp, dir, len, fa, has).2;
    assert(seq![a][0] == a);
}

/// The actions the fingertips `fingers[..m]` pick are legal.
proof fn lemma_picks_legal(st: &State, arm: &Arm, t: Seq<Seq<char>>, fp: Coord, rotate: int, m: int)
    requires
        0 <= m <= arm.fingers@.len(),
    ensures
        acts_legal(board(st.S@), t, st.S@.len() as usize, st.picks(arm, t, fp, rotate, m).map_values(
            |p: (usize, (MoveAction, Direction), (FingerAction, FingerHas, Coord))| p.2)),
    decreases m,
{
    if m > 0 {
        lemma_picks_legal(st, arm, t, fp, rotate, m - 1);
        let idx = arm.fingers@[m - 1] as int;
        let dir = turned(st.arm_direction@[idx], rotate, 0);
        let s = board(st.S@);
        let n = st.S@.len() as usize;
        lemma_pick_legal(s, t, n, fp, dir, arm.lengths@[idx], st.finger_status@[idx].0, st.finger_status@[idx].1);
        let last = finger_pick(s, t, n, fp, dir, arm.lengths@[idx], st.finger_status@[idx].0, st.finger_status@[idx].1).2;
        assert(seq![last][0] == last);
        let ps = st.picks(arm, t, fp, rotate, m);
        let prev = st.picks(arm, t, fp, rotate, m - 1);
        let a = ps.map_values(|p: (usize, (MoveAction, Direction), (FingerAction, FingerHas, Coord))| p.2);
        let b = prev.map_values(|p: (usize, (MoveAction, Direction), (FingerAction, FingerHas, Coord))| p.2);
        assert forall|k: int| 0 <= k < a.len() implies {
            let x = #[trigger] a[k];
            let p = x.2;
            &&& (x.0 == FingerAction::Grab ==> p.in_map_spec(n) && s[p.i as int][p.j as int] == '1' && t[p.i as int][p.j as int] == '0')
            &&& (x.0 == FingerAction::Release ==> p.in_map_spec(n) && s[p.i as int][p.j as int] == '0'
                && t[p.i as int][p.j as int] == '1')
        } by {
            if k < b.len() {
                assert(a[k] == b[k]);
            } else {
                assert(a[k] == last);
            }
        }
    }
}

/// The moves of the base alone take no fingertip action.
proof fn lemma_idle_legal(st: &State, t: Seq<Seq<char>>, k: int)
    ensures
        forall|j: int| 0 <= j < st.idle_moves(k).len() ==> acts_legal(board(st.S@), t, st.S@.len() as usize,
            (#[trigger] st.idle_moves(k)[j]).2),
    decreases k,
{
    if k > 0 {
        lemma_idle_legal(st, t, k - 1);
        let rest = st.idle_moves(k - 1);
        let all = st.idle_moves(k);
        assert forall|j: int| 0 <= j < all.len() implies acts_legal(board(st.S@), t, st.S@.len() as usize, (#[trigger] all[j]).2) by {
            if j < rest.len() {
                assert(all[j] == rest[j]);
            } else {
                let acts = all[j].2;
                assert(acts == st.finger_status@.map_values(|f: (FingerAction, FingerHas)| (FingerAction::Idle, f.1, nowhere())));
                assert forall|q: int| 0 <= q < acts.len() implies (#[trigger] acts[q]).0 == FingerAction::Idle by {}
            }
        }
    }
}

/// Every candidate turn (`cands_spec`, what `cand` returns) moves the
/// takoyaki legally: a fingertip grabs only on a square of the board that
/// holds a takoyaki and is no target (`S == '1'`, `T == '0'`), and releases
/// only on a square of the board that holds none and is a target
/// (`S == '0'`, `T == '1'`).
pub proof fn law_cands_act_legally(st: &State, arm: &Arm, t: Seq<Seq<char>>, j: int)
    requires
        0 <= j < st.cands_spec(arm, t).len(),
    ensures
        acts_legal(board(st.S@), t, st.S@.len() as usize, st.cands_spec(arm, t)[j].2),
{
    let n = st.S@.len() as usize;
    let s = board(st.S@);
    let tips = crate::ahc038::arm::tips_from(arm.not_finger_arm_num, arm.lengths@, st.arm_direction@, false, st.root, 0, 0,
        Seq::empty());
    let moves = crate::a::state::all_root_moves(st.root, n, tips, tips.len() as int);
    let cs = moves.map_values(|m: (Coord, Seq<(MoveAction, Direction)>)| st.cand_of(arm, t, m));
    if exists|k: int| 0 <= k < cs.len() && #[trigger] cs[k].0 > 0 {
        let m = moves[j];
        assert(cs[j] == st.cand_of(arm, t, m));
        let rotate = crate::a::state::rot_tail(m.1, m.1.len() as int);
        let f = arm.fingers@.len() as int;
        let ps = st.picks(arm, t, m.0, rotate, f);
        lemma_picks_legal(st, arm, t, m.0, rotate, f);
        let nf = arm.not_finger_arm_num as nat;
        let pa = ps.map_values(|p: (usize, (MoveAction, Direction), (FingerAction, FingerHas, Coord))| p.2);
        let acts = Seq::new(nf, |k: int| (FingerAction::Idle, FingerHas::NotHas, nowhere())) + pa;
        assert(cs[j].2 == acts);
        assert forall|k: int| 0 <= k < acts.len() implies {
            let x = #[trigger] acts[k];
            let p = x.2;
            &&& (x.0 == FingerAction::Grab ==> p.in_map_spec(n) && s[p.i as int][p.j as int] == '1' && t[p.i as int][p.j as int] == '0')
            &&& (x.0 == FingerAction::Release ==> p.in_map_spec(n) && s[p.i as int][p.j as int] == '0'
                && t[p.i as int][p.j as int] == '1')
        } by {
            if k >= nf {
                assert(acts[k] == pa[k - nf]);
            }
        }
    } else {
        lemma_idle_legal(st, t, 4);
    }
}

/// Some grab or release among `acts[..k]` is on square `(a, b)`.
pub open spec fn touched(acts: Seq<(FingerAction, FingerHas, Coord)>, a: int, b: int, k: int) -> bool {
    exists|m: int| 0 <= m < k && ((#[trigger] acts[m]).0 == FingerAction::Grab || acts[m].0 == FingerAction::Release)
        && acts[m].2.i == a && acts[m].2.j == b
}

/// Carrying out legal fingertip actions on an `n x n` board turns over every
/// square acted on (a takoyaki is taken off, or put down on an empty square)
/// and leaves every other square as it was.
pub proof fn law_legal_acts_move_takoyaki(s: Seq<Seq<char>>, t: Seq<Seq<char>>, n: usize,
    acts: Seq<(FingerAction, FingerHas, Coord)>, a: int, b: int)
    requires
        acts_legal(s, t, n, acts),
        s.len() == n,
        forall|r: int| 0 <= r < n ==> (#[trigger] s[r]).len() == n,
        0 <= a < n,
        0 <= b < n,
    ensures
        board_after(s, acts, acts.len() as int)[a][b] == if touched(acts, a, b, acts.len() as int) {
            if s[a][b] == '1' { '0' } else { '1' }
        } else {
            s[a][b]
        },
{
    lemma_acts_move(s, t, n, acts, a, b, acts.len() as int);
}

proof fn lemma_acts_move(s: Seq<Seq<char>>, t: Seq<Seq<char>>, n: usize, acts: Seq<(FingerAction, FingerHas, Coord)>,
    a: int, b: int, k: int)
    requires
        acts_legal(s, t, n, acts),
        s.len() == n,
        forall|r: int| 0 <= r < n ==> (#[trigger] s[r]).len() == n,
        0 <= a < n,
        0 <= b < n,
        0 <= k <= acts.len(),
    ensures
        board_after(s, acts, k).len() == n,
        forall|r: int| 0 <= r < n ==> (#[trigger] board_after(s, acts, k)[r]).len() == n,
        board_after(s, acts, k)[a][b] == if touched(acts, a, b, k) {
            if s[a][b] == '1' { '0' } else { '1' }
        } else {
            s[a][b]
        },
    decreases k,
{
    if k > 0 {
        lemma_acts_move(s, t, n, acts, a, b, k - 1);
        let x = acts[k - 1];
        let g = board_after(s, acts, k - 1);
        let g2 = board_after(s, acts, k);
        if x.0 == FingerAction::Grab || x.0 == FingerAction::Release {
            assert(x.2.in_map_spec(n));
            assert forall|r: int| 0 <= r < n implies (#[trigger] g2[r]).len() == n by {
                assert(g[r].len() == n);
            }
        }
        if (x.0 == FingerAction::Grab || x.0 == FingerAction::Release) && x.2.i == a && x.2.j == b {
            assert(touched(acts, a, b, k));
            if touched(acts, a, b, k - 1) {
                let m = choose|m: int| 0 <= m < k - 1 && ((#[trigger] acts[m]).0 == FingerAction::Grab || acts[m].0 == FingerAction::Release)
                    && acts[m].2.i == a && acts[m].2.j == b;
                assert(acts_legal(s, t, n, acts));
                assert(acts[m] == acts[m]);
            }
        } else {
            if touched(acts, a, b, k) {
                let m = choose|m: int| 0 <= m < k && ((#[trigger] acts[m]).0 == FingerAction::Grab || acts[m].0 == FingerAction::Release)
                    && acts[m].2.i == a && acts[m].2.j == b;
                assert(m != k - 1);
                assert(touched(acts, a, b, k - 1));
            }
            if touched(acts, a, b, k - 1) {
                let m = choose|m: int| 0 <= m < k - 1 && ((#[trigger] acts[m]).0 == FingerAction::Grab || acts[m].0 == FingerAction::Release)
                    && acts[m].2.i == a && acts[m].2.j == b;
                assert(touched(acts, a, b, k));
            }
        }
    }
}

/// What the fingertip actions `acts[..k]` score: `GRAB_SCORE` for each grab
/// and `RELEASE_SCORE` for each release.
pub open spec fn act_score(acts: Seq<(FingerAction, FingerHas, Coord)>, k: int) -> int
    decreases k,
{
    if k <= 0 {
        0
    } else {
        act_score(acts, k - 1) + if acts[k - 1].0 == FingerAction::Grab {
            GRAB_SCORE as int
        } else if acts[k - 1].0 == FingerAction::Release {
            RELEASE_SCORE as int
        } else {
            0
        }
    }
}

/// The picks score what their actions score.
proof fn lemma_picks_score(st: &State, arm: &Arm, t: Seq<Seq<char>>, fp: Coord, rotate: int, m: int)
    requires
        0 <= m <= arm.fingers@.len(),
    ensures
        pick_sum(st.picks(arm, t, fp, rotate, m)) == act_score(st.picks(arm, t, fp, rotate, m).map_values(
            |p: (usize, (MoveAction, Direction), (FingerAction, FingerHas, Coord))| p.2), m),
        st.picks(arm, t, fp, rotate, m).len() == m,
    decreases m,
{
    if m > 0 {
        lemma_picks_score(st, arm, t, fp, rotate, m - 1);
        let ps = st.picks(arm, t, fp, rotate, m);
        let prev = st.picks(arm, t, fp, rotate, m - 1);
        assert(ps.drop_last() == prev);
        let a = ps.map_values(|p: (usize, (MoveAction, Direction), (FingerAction, FingerHas, Coord))| p.2);
        let b = prev.map_values(|p: (usize, (MoveAction, Direction), (FingerAction, FingerHas, Coord))| p.2);
        lemma_act_score_prefix(a, b, m - 1);
    }
}

/// `act_score` of a prefix depends on the prefix alone.
proof fn lemma_act_score_prefix(a: Seq<(FingerAction, FingerHas, Coord)>, b: Seq<(FingerAction, FingerHas, Coord)>, k: int)
    requires
        0 <= k <= a.len(),
        k <= b.len(),
        forall|j: int| 0 <= j < k ==> #[trigger] a[j] == b[j],
    ensures
        act_score(a, k) == act_score(b, k),
    decreases k,
{
    if k > 0 {
        lemma_act_score_prefix(a, b, k - 1);
    }
}

/// Idle actions score nothing.
proof fn lemma_idle_score(a: Seq<(FingerAction, FingerHas, Coord)>, k: int)
    requires
        0 <= k <= a.len(),
        forall|j: int| 0 <= j < k ==> (#[trigger] a[j]).0 == FingerAction::Idle,
    ensures
        act_score(a, k) == 0,
    decreases k,
{
    if k > 0 {
        lemma_idle_score(a, k - 1);
    }
}

/// `act_score` over idle actions followed by `b` is `act_score` of `b`.
proof fn lemma_score_after_idle(p: Seq<(FingerAction, FingerHas, Coord)>, b: Seq<(FingerAction, FingerHas, Coord)>, k: int)
    requires
        forall|j: int| 0 <= j < p.len() ==> (#[trigger] p[j]).0 == FingerAction::Idle,
        0 <= k <= b.len(),
    ensures
        act_score(p + b, p.len() + k) == act_score(b, k),
    decreases k,
{
    if k > 0 {
        lemma_score_after_idle(p, b, k - 1);
        assert((p + b)[p.len() + k - 1] == b[k - 1]);
    } else {
        lemma_idle_score(p + b, p.len() as int);
    }
}

/// Every candidate turn scores what its fingertip actions do: `GRAB_SCORE`
/// per grab and `RELEASE_SCORE` per release.
pub proof fn law_cand_score(st: &State, arm: &Arm, t: Seq<Seq<char>>, j: int)
    requires
        0 <= j < st.cands_spec(arm, t).len(),
        arm.fingers@.len() * 2 <= usize::MAX,
    ensures
        st.cands_spec(arm, t)[j].0 as int == act_score(st.cands_spec(arm, t)[j].2, st.cands_spec(arm, t)[j].2.len() as int),
{
    let n = st.S@.len() as usize;
    let tips = crate::ahc038::arm::tips_from(arm.not_finger_arm_num, arm.lengths@, st.arm_direction@, false, st.root, 0, 0,
        Seq::empty());
    let moves = crate::a::state::all_root_moves(st.root, n, tips, tips.len() as int);
    let cs = moves.map_values(|m: (Coord, Seq<(MoveAction, Direction)>)| st.cand_of(arm, t, m));
    if exists|k: int| 0 <= k < cs.len() && #[trigger] cs[k].0 > 0 {
        let m = moves[j];
        assert(cs[j] == st.cand_of(arm, t, m));
        let rotate = crate::a::state::rot_tail(m.1, m.1.len() as int);
        let f = arm.fingers@.len() as int;
        let ps = st.picks(arm, t, m.0, rotate, f);
        lemma_picks_score(st, arm, t, m.0, rotate, f);
        crate::a::shape::lemma_picks_shape(st, arm, t, m.0, rotate, f);
        let nf = arm.not_finger_arm_num as nat;
        let pa = ps.map_values(|p: (usize, (MoveAction, Direction), (FingerAction, FingerHas, Coord))| p.2);
        let idle = Seq::new(nf, |k: int| (FingerAction::Idle, FingerHas::NotHas, nowhere()));
        assert(cs[j].2 == idle + pa);
        lemma_score_after_idle(idle, pa, pa.len() as int);
        assert(pick_sum(ps) <= 2 * f);
    } else {
        lemma_idle_scores(st, t, 4);
    }
}

/// The moves of the base alone score nothing.
proof fn lemma_idle_scores(st: &State, t: Seq<Seq<char>>, k: int)
    ensures
        forall|j: int| 0 <= j < st.idle_moves(k).len() ==> (#[trigger] st.idle_moves(k)[j]).0 as int
            == act_score(st.idle_moves(k)[j].2, st.idle_moves(k)[j].2.len() as int),
    decreases k,
{
    if k > 0 {
        lemma_idle_scores(st, t, k - 1);
        let rest = st.idle_moves(k - 1);
        let all = st.idle_moves(k);
        assert forall|j: int| 0 <= j < all.len() implies (#[trigger] all[j]).0 as int == act_score(all[j].2, all[j].2.len() as int) by {
            if j < rest.len() {
                assert(all[j] == rest[j]);
            } else {
                let acts = all[j].2;
                assert(acts == st.finger_status@.map_values(|f: (FingerAction, FingerHas)| (FingerAction::Idle, f.1, nowhere())));
                lemma_idle_score(acts, acts.len() as int);
            }
        }
    }
}

} // verus!
