//! The candidate moves of one turn of the arm search: every base move, every
//! way of turning the chain, and for each fingertip the best grab or
//! release within one rotation.
use vstd::prelude::*;
use crate::coord::{Coord, dij5, dij_coord};
use crate::ahc038::arm::{tips_from, branches, tip_views, stride, turned, rot_sum};
use crate::ahc038::hash::min_len;
use crate::ahc038::input::{Input, rows};
use crate::ahc038::state::{
    State, Op, Direction, MoveAction, FingerAction, FingerHas, to_direction, to_rotate_direction, to_move_direction,
    to_direction_spec, to_rotate_direction_spec, to_move_direction_spec,
};
use crate::fxset::square_set_contains;

verus! {

/// Whether a fingertip holding `has` can act on square `p`: release onto an
/// empty target square, or grab a takoyaki that is not on a target square.
pub open spec fn can_act(field: Set<(usize, usize)>, t: Seq<Seq<char>>, n: usize, has: FingerHas, p: Coord) -> bool {
    &&& p.in_map_spec(n)
    &&& if has == FingerHas::Has {
        !field.contains((p.i, p.j)) && t[p.i as int][p.j as int] == '1'
    } else {
        field.contains((p.i, p.j)) && t[p.i as int][p.j as int] == '0'
    }
}

/// The first rotation `i` in `k..4` (not the opposite one after an action)
/// after which the fingertip of a segment of length `len` from `fp`
/// pointing to `dir` can act.
pub open spec fn first_turn(
    field: Set<(usize, usize)>,
    t: Seq<Seq<char>>,
    n: usize,
    fp: Coord,
    dir: Direction,
    len: usize,
    fa: FingerAction,
    has: FingerHas,
    k: int,
) -> Option<int>
    decreases 4 - k,
{
    if k >= 4 {
        None
    } else if !(k == 2 && fa != FingerAction::Idle) && can_act(field, t, n, has, stride(fp, turned(dir, 0, k), len)) {
        Some(k)
    } else {
        first_turn(field, t, n, fp, dir, len, fa, has, k + 1)
    }
}

/// The square that stands for no square.
pub open spec fn nowhere() -> Coord {
    Coord { i: usize::MAX, j: usize::MAX }
}

/// What a fingertip does: at the first rotation after which it can act it
/// releases (scoring `release`) or grabs (scoring `grab`), if that score is
/// positive; otherwise it stays. The score, the rotation with the new
/// direction, and the action with what it then holds and where.
pub open spec fn tip_pick(
    field: Set<(usize, usize)>,
    t: Seq<Seq<char>>,
    n: usize,
    fp: Coord,
    dir: Direction,
    len: usize,
    fa: FingerAction,
    has: FingerHas,
    grab: usize,
    release: usize,
) -> (usize, (MoveAction, Direction), (FingerAction, FingerHas, Coord)) {
    let sc = if has == FingerHas::Has { release } else { grab };
    let stay = (0usize, (MoveAction::Stay, dir), (FingerAction::Idle, has, stride(fp, dir, len)));
    match first_turn(field, t, n, fp, dir, len, fa, has, 0) {
        None => stay,
        Some(i) => if sc == 0 {
            stay
        } else {
            let nd = turned(dir, 0, i);
            let p = stride(fp, nd, len);
            if has == FingerHas::Has {
                (sc, (to_rotate_direction_spec(i), nd), (FingerAction::Release, FingerHas::NotHas, p))
            } else {
                (sc, (to_rotate_direction_spec(i), nd), (FingerAction::Grab, FingerHas::Has, p))
            }
        },
    }
}

pub open spec fn pick_sum(picks: Seq<(usize, (MoveAction, Direction), (FingerAction, FingerHas, Coord))>) -> nat
    decreases picks.len(),
{
    if picks.len() == 0 { 0 } else { pick_sum(picks.drop_last()) + picks.last().0 as nat }
}

/// The squares of the grabs and releases among `acts[..k]`.
pub open spec fn changed(acts: Seq<(FingerAction, FingerHas, Coord)>, k: int) -> Seq<Coord>
    decreases k,
{
    if k <= 0 {
        seq![]
    } else {
        let a = acts[k - 1];
        if a.0 == FingerAction::Grab || a.0 == FingerAction::Release {
            changed(acts, k - 1).push(a.2)
        } else {
            changed(acts, k - 1)
        }
    }
}

/// Every action of the list points to one of the four directions.
pub open spec fn dirs_ok(actions: Seq<(MoveAction, Direction)>) -> bool {
    forall|k: int| 0 <= k < actions.len() ==> (#[trigger] actions[k]).1.index_spec() < 4
}

/// A candidate as values.
pub open spec fn cand_views(c: Seq<(usize, usize, Op, bool)>)
    -> Seq<(usize, usize, Seq<(MoveAction, Direction)>, Seq<(FingerAction, FingerHas, Coord)>, bool)> {
    c.map_values(|x: (usize, usize, Op, bool)| (x.0, x.1, x.2.move_actions@, x.2.finger_actions@, x.3))
}

/// The move `i` of the base, as the first action.
pub open spec fn base_action(i: int) -> Seq<(MoveAction, Direction)> {
    seq![(to_move_direction_spec(i), Direction::Neutral)]
}

impl State {
    /// No fingertip acted in the last turn, so a segment may turn around.
    pub open spec fn all_idle(&self) -> bool {
        forall|k: int| 0 <= k < self.finger_status@.len() ==> (#[trigger] self.finger_status@[k]).0 == FingerAction::Idle
    }

    /// What the fingertips `fingers[..m]` do when the end of the chain is
    /// at `fp` with `rotate` quarter turns inherited: `tip_pick` each.
    pub open spec fn picks(&self, input: &Input, fp: Coord, rotate: int, m: int)
        -> Seq<(usize, (MoveAction, Direction), (FingerAction, FingerHas, Coord))>
        decreases m,
    {
        if m <= 0 {
            seq![]
        } else {
            let idx = input.arm.fingers@[m - 1] as int;
            self.picks(input, fp, rotate, m - 1).push(tip_pick(
                self.field@,
                rows(input.T@),
                input.N,
                fp,
                turned(self.arm_direction@[idx], rotate, 0),
                input.arm.lengths@[idx],
                self.finger_status@[idx].0,
                self.finger_status@[idx].1,
                input.grab_score,
                input.release_score,
            ))
        }
    }

    /// The candidate for base move `i` and chain end `e` (relative position
    /// and chain actions): the fingertip scores summed, the actions (base
    /// move, chain, fingertips), the fingertip actions (idle for the chain
    /// segments), the hash updated for the changed squares, the base move
    /// and the turned segments, and whether the task is then complete.
    pub open spec fn full_cand(&self, input: &Input, i: int, e: (Coord, Seq<(MoveAction, Direction)>))
        -> (usize, usize, Seq<(MoveAction, Direction)>, Seq<(FingerAction, FingerHas, Coord)>, bool) {
        let root_next = self.root.add_spec(dij_coord(i));
        let fpp = self.root.add_spec(e.0).add_spec(dij_coord(i));
        let rotate = rot_sum(e.1, e.1.len() as int);
        let ps = self.picks(input, fpp, rotate, input.arm.fingers@.len() as int);
        let score = pick_sum(ps);
        let ra = base_action(i) + e.1 + ps.map_values(|p: (usize, (MoveAction, Direction), (FingerAction, FingerHas, Coord))| p.1);
        let fa = Seq::new(input.arm.not_finger_arm_num as nat, |k: int| (FingerAction::Idle, FingerHas::NotHas, nowhere()))
            + ps.map_values(|p: (usize, (MoveAction, Direction), (FingerAction, FingerHas, Coord))| p.2);
        let adc = Seq::new(
            min_len(ra.len() - 1, self.arm_direction@.len() as int) as nat,
            |q: int| (ra[q + 1].1, self.arm_direction@[q]),
        );
        let hash = input.calc_hash.calc_spec(self.hash, changed(fa, fa.len() as int), self.root, root_next, adc);
        (score as usize, hash, ra, fa, self.score + score == input.necessary_score)
    }

    /// The candidate for base move `i` that turns nothing and acts nowhere.
    pub open spec fn idle_cand(&self, input: &Input, i: int)
        -> (usize, usize, Seq<(MoveAction, Direction)>, Seq<(FingerAction, FingerHas, Coord)>, bool) {
        let root_next = self.root.add_spec(dij_coord(i));
        let roots = input.calc_hash.roots();
        (
            0usize,
            (self.hash ^ roots[self.root.i as int][self.root.j as int]) ^ roots[root_next.i as int][root_next.j as int],
            base_action(i) + self.arm_direction@.map_values(|d: Direction| (MoveAction::Stay, d)),
            self.finger_status@.map_values(|f: (FingerAction, FingerHas)| (FingerAction::Idle, f.1, nowhere())),
            self.score == input.necessary_score,
        )
    }

    /// The candidates of base move `i` for the chain ends `tv[..k]`: the
    /// full candidate of each end that scores, and, in place of the first
    /// end that scores nothing, the idle candidate (the others that score
    /// nothing are left out).
    pub open spec fn move_cands(&self, input: &Input, tv: Seq<(Coord, Seq<(MoveAction, Direction)>)>, i: int, k: int)
        -> Seq<(usize, usize, Seq<(MoveAction, Direction)>, Seq<(FingerAction, FingerHas, Coord)>, bool)>
        decreases k,
    {
        if k <= 0 {
            seq![]
        } else {
            let rest = self.move_cands(input, tv, i, k - 1);
            let c = self.full_cand(input, i, tv[k - 1]);
            if c.0 > 0 {
                rest.push(c)
            } else if forall|j: int| 0 <= j < k - 1 ==> #[trigger] self.full_cand(input, i, tv[j]).0 > 0 {
                rest.push(self.idle_cand(input, i))
            } else {
                rest
            }
        }
    }

    /// The candidates of the base moves `< k` that keep the base on the
    /// board.
    pub open spec fn cands_upto(&self, input: &Input, tv: Seq<(Coord, Seq<(MoveAction, Direction)>)>, k: int)
        -> Seq<(usize, usize, Seq<(MoveAction, Direction)>, Seq<(FingerAction, FingerHas, Coord)>, bool)>
        decreases k,
    {
        if k <= 0 {
            seq![]
        } else if self.root.add_spec(dij_coord(k - 1)).in_map_spec(input.N) {
            self.cands_upto(input, tv, k - 1) + self.move_cands(input, tv, k - 1, tv.len() as int)
        } else {
            self.cands_upto(input, tv, k - 1)
        }
    }

    /// The chain ends of this turn relative to the base (with the opposite
    /// rotation when `all_idle`).
    pub open spec fn chain_ends(&self, input: &Input) -> Seq<(Coord, Seq<(MoveAction, Direction)>)> {
        tips_from(
            input.arm.not_finger_arm_num,
            input.arm.lengths@,
            self.arm_direction@,
            self.all_idle(),
            Coord { i: 0, j: 0 },
            0,
            0,
            Seq::empty(),
        )
    }

    /// The candidates of a turn, base move by base move (Right, Down, Left,
    /// Up, stay).
    pub open spec fn cands_spec(&self, input: &Input)
        -> Seq<(usize, usize, Seq<(MoveAction, Direction)>, Seq<(FingerAction, FingerHas, Coord)>, bool)> {
        self.cands_upto(input, self.chain_ends(input), 5)
    }

    /// What `cand` needs: the base on the board, square tables of the
    /// board's size, directions for all segments, fingertips that are
    /// segments, and scores that fit.
    pub open spec fn cand_ready(&self, input: &Input) -> bool {
        let n = input.N;
        &&& self.root.in_map_spec(n)
        &&& input.calc_hash.wf(n, input.V)
        &&& input.T@.len() >= n
        &&& forall|a: int| 0 <= a < n ==> (#[trigger] input.T@[a])@.len() >= n
        &&& input.arm.wf()
        &&& self.arm_direction@.len() >= input.arm.lengths@.len()
        &&& self.finger_status@.len() >= input.arm.lengths@.len()
        &&& forall|k: int| 0 <= k < self.arm_direction@.len() ==> (#[trigger] self.arm_direction@[k]).index_spec() < 4
        &&& self.score + input.arm.fingers@.len() * (input.grab_score + input.release_score) <= usize::MAX
    }
}

proof fn lemma_first_turn(
    field: Set<(usize, usize)>,
    t: Seq<Seq<char>>,
    n: usize,
    fp: Coord,
    dir: Direction,
    len: usize,
    fa: FingerAction,
    has: FingerHas,
    k: int,
)
    ensures
        match first_turn(field, t, n, fp, dir, len, fa, has, k) {
            Some(i) => k <= i < 4 && can_act(field, t, n, has, stride(fp, turned(dir, 0, i), len)),
            None => true,
        },
    decreases 4 - k,
{
    if k < 4 {
        lemma_first_turn(field, t, n, fp, dir, len, fa, has, k + 1);
    }
}

proof fn lemma_turned(dir: Direction, rotate: int, i: int)
    ensures
        turned(dir, rotate, i).index_spec() < 4,
{
}

/// A fingertip action that changes a square does so on the board, and
/// every direction is one of the four.
pub open spec fn pick_ok(p: (usize, (MoveAction, Direction), (FingerAction, FingerHas, Coord)), n: usize, g: usize, r: usize) -> bool {
    &&& p.0 <= g + r
    &&& p.1.1.index_spec() < 4
    &&& (p.2.0 == FingerAction::Grab || p.2.0 == FingerAction::Release) ==> p.2.2.in_map_spec(n)
}

pub(crate) proof fn lemma_picks(state: &State, input: &Input, fp: Coord, rotate: int, m: int)
    requires
        0 <= m <= input.arm.fingers@.len(),
    ensures
        state.picks(input, fp, rotate, m).len() == m,
        pick_sum(state.picks(input, fp, rotate, m)) <= m * (input.grab_score + input.release_score),
        forall|q: int| 0 <= q < m ==> pick_ok(#[trigger] state.picks(input, fp, rotate, m)[q], input.N,
            input.grab_score, input.release_score),
    decreases m,
{
    if m > 0 {
        lemma_picks(state, input, fp, rotate, m - 1);
        let ps = state.picks(input, fp, rotate, m);
        assert(ps.drop_last() =~= state.picks(input, fp, rotate, m - 1));
        let idx = input.arm.fingers@[m - 1] as int;
        let dir = turned(state.arm_direction@[idx], rotate, 0);
        lemma_turned(state.arm_direction@[idx], rotate, 0);
        lemma_first_turn(state.field@, rows(input.T@), input.N, fp, dir, input.arm.lengths@[idx],
            state.finger_status@[idx].0, state.finger_status@[idx].1, 0);
        match first_turn(state.field@, rows(input.T@), input.N, fp, dir, input.arm.lengths@[idx],
            state.finger_status@[idx].0, state.finger_status@[idx].1, 0) {
            Some(i) => { lemma_turned(dir, 0, i); },
            None => {},
        }
        assert((m - 1) * (input.grab_score + input.release_score) + (input.grab_score + input.release_score)
            == m * (input.grab_score + input.release_score)) by (nonlinear_arith);
    }
}

proof fn lemma_tips_dirs(nf: usize, ls: Seq<usize>, dirs: Seq<Direction>, opposite: bool, pos: Coord, rotate: int,
    depth: int, actions: Seq<(MoveAction, Direction)>)
    requires
        dirs_ok(actions),
    ensures
        forall|k: int| 0 <= k < tips_from(nf, ls, dirs, opposite, pos, rotate, depth, actions).len()
            ==> dirs_ok(#[trigger] tips_from(nf, ls, dirs, opposite, pos, rotate, depth, actions)[k].1),
    decreases nf - depth, 5int,
{
    let whole = tips_from(nf, ls, dirs, opposite, pos, rotate, depth, actions);
    if depth < nf {
        lemma_branches_dirs(nf, ls, dirs, opposite, pos, rotate, depth, actions, 4);
        assert(whole == branches(nf, ls, dirs, opposite, pos, rotate, depth, actions, 4));
    } else {
        assert(whole == seq![(pos, actions)]);
        assert forall|k: int| 0 <= k < whole.len() implies dirs_ok(#[trigger] whole[k].1) by {
            assert(whole[k] == (pos, actions));
        }
    }
}

proof fn lemma_branches_dirs(nf: usize, ls: Seq<usize>, dirs: Seq<Direction>, opposite: bool, pos: Coord, rotate: int,
    depth: int, actions: Seq<(MoveAction, Direction)>, k: int)
    requires
        dirs_ok(actions),
        depth < nf,
        0 <= k <= 4,
    ensures
        forall|q: int| 0 <= q < branches(nf, ls, dirs, opposite, pos, rotate, depth, actions, k).len()
            ==> dirs_ok(#[trigger] branches(nf, ls, dirs, opposite, pos, rotate, depth, actions, k)[q].1),
    decreases nf - depth, k,
{
    if k > 0 {
        lemma_branches_dirs(nf, ls, dirs, opposite, pos, rotate, depth, actions, k - 1);
        let i = k - 1;
        if !(i == 2 && !opposite) {
            let nd = turned(dirs[depth], rotate, i);
            lemma_turned(dirs[depth], rotate, i);
            let na = actions.push((to_rotate_direction_spec(i), nd));
            assert(dirs_ok(na)) by {
                assert forall|q: int| 0 <= q < na.len() implies (#[trigger] na[q]).1.index_spec() < 4 by {
                    if q < actions.len() {
                        assert(na[q] == actions[q]);
                    }
                }
            }
            lemma_tips_dirs(nf, ls, dirs, opposite, stride(pos, nd, ls[depth]), (rotate + i) % 4, depth + 1, na);
            let a = tips_from(nf, ls, dirs, opposite, stride(pos, nd, ls[depth]), (rotate + i) % 4, depth + 1, na);
            let rest = branches(nf, ls, dirs, opposite, pos, rotate, depth, actions, k - 1);
            let whole = branches(nf, ls, dirs, opposite, pos, rotate, depth, actions, k);
            assert(whole == a + rest);
            assert forall|q: int| 0 <= q < whole.len() implies dirs_ok(#[trigger] whole[q].1) by {
                if q < a.len() {
                    assert(whole[q] == a[q]);
                } else {
                    assert(whole[q] == rest[q - a.len()]);
                }
            }
        }
    }
}

proof fn lemma_changed(acts: Seq<(FingerAction, FingerHas, Coord)>, n: usize, k: int)
    requires
        0 <= k <= acts.len(),
        forall|j: int| 0 <= j < acts.len() && ((#[trigger] acts[j]).0 == FingerAction::Grab || acts[j].0 == FingerAction::Release)
            ==> acts[j].2.in_map_spec(n),
    ensures
        forall|q: int| 0 <= q < changed(acts, k).len() ==> (#[trigger] changed(acts, k)[q]).in_map_spec(n),
    decreases k,
{
    if k > 0 {
        lemma_changed(acts, n, k - 1);
        let c = changed(acts, k);
        let p = changed(acts, k - 1);
        assert forall|q: int| 0 <= q < c.len() implies (#[trigger] c[q]).in_map_spec(n) by {
            if q < p.len() {
                assert(c[q] == p[q]);
            }
        }
    }
}

impl State {
    /// What the fingertip of segment `idx` does: `tip_pick`.
    fn pick_tip(&self, input: &Input, fp: Coord, rotate: usize, idx: usize)
        -> (r: (usize, (MoveAction, Direction), (FingerAction, FingerHas, Coord)))
        requires
            self.cand_ready(input),
            idx < input.arm.lengths@.len(),
            rotate < 4,
        ensures
            r == tip_pick(
                self.field@,
                rows(input.T@),
                input.N,
                fp,
                turned(self.arm_direction@[idx as int], rotate as int, 0),
                input.arm.lengths@[idx as int],
                self.finger_status@[idx as int].0,
                self.finger_status@[idx as int].1,
                input.grab_score,
                input.release_score,
            ),
    {
        let ghost t = rows(input.T@);
        let ghost field = self.field@;
        let n = input.N;
        let len = input.arm.lengths[idx];
        let dir = to_direction((self.arm_direction[idx].index() + rotate) % 4);
        let (finger_action, finger_has) = self.finger_status[idx];
        let mut best_score: usize = 0;
        let mut best_rotate_action = MoveAction::Stay;
        let mut best_finger_direction = dir;
        let mut best_finger_action = FingerAction::Idle;
        let mut best_finger_has = finger_has;
        let mut best_finger_coord = fp.add_wrapping(dij5(dir.index()).mul_wrapping(Coord::new(len, len)));
        let ghost sc = if finger_has == FingerHas::Has { input.release_score } else { input.grab_score };
        let ghost mut found: Option<int> = None;
        let mut i: usize = 0;
        while i < 4
            invariant
                self.cand_ready(input),
                t == rows(input.T@),
                field == self.field@,
                n == input.N,
                sc == if finger_has == FingerHas::Has { input.release_score } else { input.grab_score },
                0 <= i <= 4,
                first_turn(field, t, n, fp, dir, len, finger_action, finger_has, 0) == match found {
                    None => first_turn(field, t, n, fp, dir, len, finger_action, finger_has, i as int),
                    Some(j) => Some(j),
                },
                match found {
                    None => best_score == 0 && best_rotate_action == MoveAction::Stay && best_finger_direction == dir
                        && best_finger_action == FingerAction::Idle && best_finger_has == finger_has
                        && best_finger_coord == stride(fp, dir, len),
                    Some(j) => 0 <= j < i && ({
                        let nd = turned(dir, 0, j);
                        if sc == 0 {
                            best_score == 0 && best_rotate_action == MoveAction::Stay && best_finger_direction == dir
                                && best_finger_action == FingerAction::Idle && best_finger_has == finger_has
                                && best_finger_coord == stride(fp, dir, len)
                        } else {
                            &&& best_score == sc
                            &&& best_rotate_action == to_rotate_direction_spec(j)
                            &&& best_finger_direction == nd
                            &&& best_finger_coord == stride(fp, nd, len)
                            &&& if finger_has == FingerHas::Has {
                                best_finger_action == FingerAction::Release && best_finger_has == FingerHas::NotHas
                            } else {
                                best_finger_action == FingerAction::Grab && best_finger_has == FingerHas::Has
                            }
                        }
                    }),
                },
            decreases 4 - i,
        {
            if i == 2 && finger_action != FingerAction::Idle {
                i += 1;
                continue;
            }
            let next_dir = to_direction((dir.index() + i) % 4);
            let finger_pos = fp.add_wrapping(dij5(next_dir.index()).mul_wrapping(Coord::new(len, len)));
            let inside = finger_pos.in_map(n);
            let (held, tc) = if inside {
                proof {
                    assert(t[finger_pos.i as int] == input.T@[finger_pos.i as int]@);
                }
                (square_set_contains(&self.field, (finger_pos.i, finger_pos.j)), input.T[finger_pos.i][finger_pos.j])
            } else {
                (false, '0')
            };
            let hit = inside && if finger_has == FingerHas::Has { !held && tc == '1' } else { held && tc == '0' };
            proof {
                assert(hit == can_act(field, t, n, finger_has, finger_pos));
                if found is None && hit {
                    found = Some(i as int);
                }
            }
            if finger_has == FingerHas::Has && inside && !held && tc == '1' && best_score < input.release_score {
                best_score = input.release_score;
                best_rotate_action = to_rotate_direction(i);
                best_finger_direction = next_dir;
                best_finger_action = FingerAction::Release;
                best_finger_has = FingerHas::NotHas;
                best_finger_coord = finger_pos;
            } else if finger_has == FingerHas::NotHas && inside && held && tc == '0' && best_score < input.grab_score {
                best_score = input.grab_score;
                best_rotate_action = to_rotate_direction(i);
                best_finger_direction = next_dir;
                best_finger_action = FingerAction::Grab;
                best_finger_has = FingerHas::Has;
                best_finger_coord = finger_pos;
            }
            i += 1;
        }
        (best_score, (best_rotate_action, best_finger_direction), (best_finger_action, best_finger_has, best_finger_coord))
    }
}

impl State {
    /// The candidates of a turn: `cands_spec`, each with its score, hash,
    /// operation and whether it completes the task.
    pub fn cand(&self, input: &Input) -> (r: Vec<(usize, usize, Op, bool)>)
        requires
            self.cand_ready(input),
        ensures
            cand_views(r@) == self.cands_spec(input),
    {
        let n = input.N;
        let mut opposite = true;
        let mut k: usize = 0;
        while k < self.finger_status.len()
            invariant
                0 <= k <= self.finger_status@.len(),
                opposite == forall|q: int| 0 <= q < k ==> (#[trigger] self.finger_status@[q]).0 == FingerAction::Idle,
            decreases self.finger_status@.len() - k,
        {
            if self.finger_status[k].0 != FingerAction::Idle {
                opposite = false;
            }
            k += 1;
        }
        let fpr = input.arm.finger_parent_relative_position(&self.arm_direction, opposite);
        let ghost tv = self.chain_ends(input);
        proof {
            lemma_tips_dirs(input.arm.not_finger_arm_num, input.arm.lengths@, self.arm_direction@, opposite,
                Coord { i: 0, j: 0 }, 0, 0, Seq::empty());
        }
        let mut cands: Vec<(usize, usize, Op, bool)> = Vec::new();
        let mut i: usize = 0;
        while i < 5
            invariant
                self.cand_ready(input),
                n == input.N,
                tip_views(fpr@) == tv,
                tv == self.chain_ends(input),
                forall|q: int| 0 <= q < tv.len() ==> dirs_ok(#[trigger] tv[q].1),
                0 <= i <= 5,
                cand_views(cands@) == self.cands_upto(input, tv, i as int),
            decreases 5 - i,
        {
            let delta = dij5(i);
            let root_next = self.root.add_wrapping(delta);
            if !root_next.in_map(n) {
                i += 1;
                continue;
            }
            let ghost base = cand_views(cands@);
            proof {
                assert(tv.len() == fpr@.len());
                assert forall|q: int| 0 <= q < fpr@.len() implies dirs_ok((#[trigger] fpr@[q]).1@) by {
                    assert(tv[q] == (fpr@[q].0, fpr@[q].1@));
                    assert(dirs_ok(tv[q].1));
                }
            }
            self.push_move_cands(input, i, &fpr, &mut cands);
            proof {
                assert(cand_views(cands@) =~= self.cands_upto(input, tv, i + 1));
            }
            i += 1;
        }
        cands
    }

    /// Appends `move_cands` of base move `i` over all chain ends `fpr`.
    #[verifier::rlimit(40)]
    fn push_move_cands(
        &self,
        input: &Input,
        i: usize,
        fpr: &Vec<(Coord, Vec<(MoveAction, Direction)>)>,
        cands: &mut Vec<(usize, usize, Op, bool)>,
    )
        requires
            self.cand_ready(input),
            i < 5,
            self.root.add_spec(dij_coord(i as int)).in_map_spec(input.N),
            forall|q: int| 0 <= q < fpr@.len() ==> dirs_ok((#[trigger] fpr@[q]).1@),
        ensures
            cand_views(final(cands)@) == cand_views(old(cands)@) + self.move_cands(input, tip_views(fpr@), i as int, fpr@.len() as int),
    {
        let ghost tv = tip_views(fpr@);
        let ghost base = cand_views(cands@);
        let n = input.N;
        let mut score_is_zero = false;
        let mut k: usize = 0;
        proof {
            assert(base =~= base + self.move_cands(input, tv, i as int, 0));
        }
        while k < fpr.len()
            invariant
                self.cand_ready(input),
                n == input.N,
                tv == tip_views(fpr@),
                forall|q: int| 0 <= q < fpr@.len() ==> dirs_ok((#[trigger] fpr@[q]).1@),
                0 <= i < 5,
                self.root.add_spec(dij_coord(i as int)).in_map_spec(n),
                0 <= k <= fpr@.len(),
                cand_views(cands@) == base + self.move_cands(input, tv, i as int, k as int),
                score_is_zero == !(forall|j: int| 0 <= j < k ==> #[trigger] self.full_cand(input, i as int, tv[j]).0 > 0),
            decreases fpr@.len() - k,
        {
            proof {
                assert(tv[k as int] == (fpr@[k as int].0, fpr@[k as int].1@));
            }
            let ghost c = self.full_cand(input, i as int, tv[k as int]);
            let ghost before = cands@;
            let ok = self.push_cand(input, i, &fpr[k].0, &fpr[k].1, score_is_zero, cands);
            proof {
                assert(cand_views(cands@) =~= base + self.move_cands(input, tv, i as int, k + 1));
            }
            if !ok {
                score_is_zero = true;
            }
            k += 1;
        }
    }

    /// Appends the candidate of base move `i` and chain end `(frp, fpa)`:
    /// the full candidate when it scores, else the idle candidate unless
    /// one was already given (`score_is_zero`). Returns whether it scored.
    fn push_cand(
        &self,
        input: &Input,
        i: usize,
        frp: &Coord,
        fpa: &Vec<(MoveAction, Direction)>,
        score_is_zero: bool,
        out: &mut Vec<(usize, usize, Op, bool)>,
    ) -> (scored: bool)
        requires
            self.cand_ready(input),
            i < 5,
            self.root.add_spec(dij_coord(i as int)).in_map_spec(input.N),
            dirs_ok(fpa@),
        ensures
            scored == (self.full_cand(input, i as int, (*frp, fpa@)).0 > 0),
            cand_views(final(out)@) == if scored {
                cand_views(old(out)@).push(self.full_cand(input, i as int, (*frp, fpa@)))
            } else if !score_is_zero {
                cand_views(old(out)@).push(self.idle_cand(input, i as int))
            } else {
                cand_views(old(out)@)
            },
    {
        let ghost c = self.full_cand(input, i as int, (*frp, fpa@));
        let n = input.N;
        let delta = dij5(i);
        let move_action = to_move_direction(i);
        let root_next = self.root.add_wrapping(delta);
        let fpp = self.root.add_wrapping(*frp).add_wrapping(delta);
        let mut rotate: usize = 0;
        let mut q: usize = 0;
        while q < fpa.len()
            invariant
                0 <= q <= fpa@.len(),
                rotate == rot_sum(fpa@, q as int),
                rotate < 4,
            decreases fpa@.len() - q,
        {
            rotate = (rotate + fpa[q].0.index()) % 4;
            q += 1;
        }
        let ghost ps = self.picks(input, fpp, rotate as int, input.arm.fingers@.len() as int);
        proof {
            lemma_picks(self, input, fpp, rotate as int, input.arm.fingers@.len() as int);
        }
        let nf = input.arm.not_finger_arm_num;
        let mut score: usize = 0;
        let mut rot_pairs: Vec<(MoveAction, Direction)> = Vec::new();
        let mut finger_actions: Vec<(FingerAction, FingerHas, Coord)> = Vec::new();
        let mut z: usize = 0;
        while z < nf
            invariant
                0 <= z <= nf,
                finger_actions@ == Seq::new(z as nat, |k: int| (FingerAction::Idle, FingerHas::NotHas, nowhere())),
            decreases nf - z,
        {
            finger_actions.push((FingerAction::Idle, FingerHas::NotHas, Coord::new(usize::MAX, usize::MAX)));
            z += 1;
            proof {
                assert(finger_actions@ =~= Seq::new(z as nat, |k: int| (FingerAction::Idle, FingerHas::NotHas, nowhere())));
            }
        }
        let ghost idle = finger_actions@;
        let mut m: usize = 0;
        while m < input.arm.fingers.len()
            invariant
                self.cand_ready(input),
                rotate < 4,
                ps == self.picks(input, fpp, rotate as int, input.arm.fingers@.len() as int),
                0 <= m <= input.arm.fingers@.len(),
                score == pick_sum(self.picks(input, fpp, rotate as int, m as int)),
                score <= m * (input.grab_score + input.release_score),
                rot_pairs@ == self.picks(input, fpp, rotate as int, m as int).map_values(
                    |p: (usize, (MoveAction, Direction), (FingerAction, FingerHas, Coord))| p.1),
                finger_actions@ == idle + self.picks(input, fpp, rotate as int, m as int).map_values(
                    |p: (usize, (MoveAction, Direction), (FingerAction, FingerHas, Coord))| p.2),
            decreases input.arm.fingers@.len() - m,
        {
            let idx = input.arm.fingers[m];
            let p = self.pick_tip(input, fpp, rotate, idx);
            proof {
                lemma_picks(self, input, fpp, rotate as int, m + 1);
                let pm = self.picks(input, fpp, rotate as int, m + 1);
                assert(pm.drop_last() =~= self.picks(input, fpp, rotate as int, m as int));
                assert((m + 1) * (input.grab_score + input.release_score) <= input.arm.fingers@.len() * (input.grab_score + input.release_score))
                    by (nonlinear_arith) requires m + 1 <= input.arm.fingers@.len();
                assert(pm[m as int] == p);
                assert(pick_ok(self.picks(input, fpp, rotate as int, m + 1)[m as int], input.N, input.grab_score, input.release_score));
                assert(m * (input.grab_score + input.release_score) + (input.grab_score + input.release_score)
                    == (m + 1) * (input.grab_score + input.release_score)) by (nonlinear_arith);
            }
            score = score + p.0;
            rot_pairs.push(p.1);
            finger_actions.push(p.2);
            proof {
                let pm = self.picks(input, fpp, rotate as int, m + 1);
                assert(rot_pairs@ =~= pm.map_values(|p: (usize, (MoveAction, Direction), (FingerAction, FingerHas, Coord))| p.1));
                assert(finger_actions@ =~= idle + pm.map_values(
                    |p: (usize, (MoveAction, Direction), (FingerAction, FingerHas, Coord))| p.2));
            }
            m += 1;
        }
        proof {
            assert(score == c.0);
        }
        if score == 0 {
            if !score_is_zero {
                let mut acts: Vec<(MoveAction, Direction)> = Vec::new();
                acts.push((move_action, Direction::Neutral));
                let mut q: usize = 0;
                while q < self.arm_direction.len()
                    invariant
                        0 <= q <= self.arm_direction@.len(),
                        acts@ == base_action(i as int)
                            + self.arm_direction@.subrange(0, q as int).map_values(|d: Direction| (MoveAction::Stay, d)),
                    decreases self.arm_direction@.len() - q,
                {
                    acts.push((MoveAction::Stay, self.arm_direction[q]));
                    q += 1;
                    proof {
                        assert(acts@ =~= base_action(i as int)
                            + self.arm_direction@.subrange(0, q as int).map_values(|d: Direction| (MoveAction::Stay, d)));
                    }
                }
                let mut fas: Vec<(FingerAction, FingerHas, Coord)> = Vec::new();
                let mut q: usize = 0;
                while q < self.finger_status.len()
                    invariant
                        0 <= q <= self.finger_status@.len(),
                        fas@ == self.finger_status@.subrange(0, q as int).map_values(
                            |f: (FingerAction, FingerHas)| (FingerAction::Idle, f.1, nowhere())),
                    decreases self.finger_status@.len() - q,
                {
                    let (_, has) = self.finger_status[q];
                    fas.push((FingerAction::Idle, has, Coord::new(usize::MAX, usize::MAX)));
                    q += 1;
                    proof {
                        assert(fas@ =~= self.finger_status@.subrange(0, q as int).map_values(
                            |f: (FingerAction, FingerHas)| (FingerAction::Idle, f.1, nowhere())));
                    }
                }
                proof {
                    assert(self.arm_direction@.subrange(0, self.arm_direction@.len() as int) =~= self.arm_direction@);
                    assert(self.finger_status@.subrange(0, self.finger_status@.len() as int) =~= self.finger_status@);
                    assert(input.calc_hash.roots()[self.root.i as int] == input.calc_hash.root_position_hash_map@[self.root.i as int]@);
                    assert(input.calc_hash.roots()[root_next.i as int] == input.calc_hash.root_position_hash_map@[root_next.i as int]@);
                }
                let hash = input.calc_hash.calc_root_position(self.hash, self.root, root_next);
                let done = self.is_done(input, self.score);
                let ghost iv = self.idle_cand(input, i as int);
                proof {
                    assert(iv == (0usize, hash, acts@, fas@, done));
                }
                let ghost before = out@;
                out.push((0, hash, Op { move_actions: acts, finger_actions: fas }, done));
                proof {
                    assert(cand_views(out@) =~= cand_views(before).push(iv));
                }
            }
            return false;
        }
        let mut rotate_actions: Vec<(MoveAction, Direction)> = Vec::new();
        rotate_actions.push((move_action, Direction::Neutral));
        let mut q: usize = 0;
        while q < fpa.len()
            invariant
                0 <= q <= fpa@.len(),
                rotate_actions@ == base_action(i as int) + fpa@.subrange(0, q as int),
            decreases fpa@.len() - q,
        {
            rotate_actions.push(fpa[q]);
            q += 1;
            proof {
                assert(rotate_actions@ =~= base_action(i as int) + fpa@.subrange(0, q as int));
            }
        }
        proof {
            assert(fpa@.subrange(0, fpa@.len() as int) =~= fpa@);
        }
        let ghost ra0 = rotate_actions@;
        let mut q: usize = 0;
        while q < rot_pairs.len()
            invariant
                0 <= q <= rot_pairs@.len(),
                rotate_actions@ == ra0 + rot_pairs@.subrange(0, q as int),
            decreases rot_pairs@.len() - q,
        {
            rotate_actions.push(rot_pairs[q]);
            q += 1;
            proof {
                assert(rotate_actions@ =~= ra0 + rot_pairs@.subrange(0, q as int));
            }
        }
        proof {
            assert(rot_pairs@.subrange(0, rot_pairs@.len() as int) =~= rot_pairs@);
            assert(rotate_actions@ =~= c.2);
            assert(finger_actions@ =~= c.3);
        }
        let mut coords: Vec<Coord> = Vec::new();
        let mut q: usize = 0;
        while q < finger_actions.len()
            invariant
                0 <= q <= finger_actions@.len(),
                coords@ == changed(finger_actions@, q as int),
            decreases finger_actions@.len() - q,
        {
            let (fa, _, cc) = finger_actions[q];
            if fa == FingerAction::Grab || fa == FingerAction::Release {
                coords.push(cc);
            }
            q += 1;
        }
        let la = rotate_actions.len() - 1;
        let lim = if la < self.arm_direction.len() { la } else { self.arm_direction.len() };
        let mut adc: Vec<(Direction, Direction)> = Vec::new();
        let mut q: usize = 0;
        while q < lim
            invariant
                lim == min_len(rotate_actions@.len() - 1, self.arm_direction@.len() as int),
                0 <= q <= lim,
                adc@ == Seq::new(q as nat, |k: int| (rotate_actions@[k + 1].1, self.arm_direction@[k])),
            decreases lim - q,
        {
            adc.push((rotate_actions[q + 1].1, self.arm_direction[q]));
            q += 1;
            proof {
                assert(adc@ =~= Seq::new(q as nat, |k: int| (rotate_actions@[k + 1].1, self.arm_direction@[k])));
            }
        }
        proof {
            let fa = finger_actions@;
            assert forall|j: int| 0 <= j < fa.len() && ((#[trigger] fa[j]).0 == FingerAction::Grab || fa[j].0 == FingerAction::Release)
                implies fa[j].2.in_map_spec(n) by {
                if j >= nf {
                    assert(fa[j] == ps[j - nf].2);
                    assert(pick_ok(ps[j - nf], n, input.grab_score, input.release_score));
                }
            }
            lemma_changed(fa, n, fa.len() as int);
            assert forall|k: int| 0 <= k < coords@.len() implies (#[trigger] coords@[k]).i < input.calc_hash.field_status_hash_map@.len()
                && coords@[k].j < input.calc_hash.field_status_hash_map@[coords@[k].i as int]@.len() by {
                assert(coords@[k].in_map_spec(n));
            }
            let ra = rotate_actions@;
            assert forall|k: int| 0 <= k < min_len(adc@.len() as int, input.calc_hash.arm_direction_hash_map@.len() as int)
                implies (#[trigger] adc@[k]).0.index_spec() < input.calc_hash.arm_direction_hash_map@[k]@.len()
                && adc@[k].1.index_spec() < input.calc_hash.arm_direction_hash_map@[k]@.len() by {
                assert(adc@[k] == (ra[k + 1].1, self.arm_direction@[k]));
                let l1 = fpa@.len() as int;
                if k + 1 <= l1 {
                    assert(ra[k + 1] == fpa@[k]);
                } else {
                    assert(ra[k + 1] == rot_pairs@[k - l1]);
                    assert(pick_ok(ps[k - l1], n, input.grab_score, input.release_score));
                }
            }
        }
        let hash = input.calc_hash.calc(self.hash, &coords, self.root, root_next, &adc);
        let done = self.is_done(input, self.score + score);
        proof {
            assert(adc@ =~= Seq::new(
                min_len(c.2.len() - 1, self.arm_direction@.len() as int) as nat,
                |q: int| (c.2[q + 1].1, self.arm_direction@[q]),
            ));
            assert(c == (score, hash, rotate_actions@, finger_actions@, done));
        }
        let ghost before = out@;
        out.push((score, hash, Op { move_actions: rotate_actions, finger_actions }, done));
        proof {
            assert(cand_views(out@) =~= cand_views(before).push(c));
        }
        true
    }
}

} // verus!
