//! The search state of the first arm solver: where the base is, where each
//! segment points, what each fingertip holds, and the board; and the moves
//! of one turn.
use vstd::prelude::*;
use crate::coord::{Coord, dij5, dij_coord};
use crate::a::arm::Arm;
use crate::a::input::Input;
use crate::ahc038::arm::{tips_from, tip_views, stride, turned, rot_sum, collect_tips};
pub use crate::ahc038::state::{
    Direction, MoveAction, FingerAction, FingerHas, to_direction, to_rotate_direction, to_move_direction,
    to_direction_spec, to_rotate_direction_spec, to_move_direction_spec, move_action_to_direction_spec, is_base_move,
};

verus! {

/// The direction in which a base move goes (`Neutral` for staying put).
pub fn move_action_to_directon(x: MoveAction) -> (d: Direction)
    requires
        is_base_move(x),
    ensures
        d == move_action_to_direction_spec(x),
{
    match x {
        MoveAction::Right => Direction::Right,
        MoveAction::Down => Direction::Down,
        MoveAction::Left => Direction::Left,
        MoveAction::Up => Direction::Up,
        _ => Direction::Neutral,
    }
}

/// The score of grabbing and of releasing a takoyaki.
pub const GRAB_SCORE: usize = 1;
pub const RELEASE_SCORE: usize = 2;

/// The base on `root`, segment `k` pointing to `arm_direction[k]`, fingertip
/// `k` in `finger_status[k]`, and the board `S` (`'1'`: a takoyaki).
#[derive(Debug, Clone)]
pub struct State {
    pub root: Coord,
    pub arm_direction: Vec<Direction>,
    pub finger_status: Vec<(FingerAction, FingerHas)>,
    pub S: Vec<Vec<char>>,
}

/// The rows of a board as values.
pub open spec fn board(s: Seq<Vec<char>>) -> Seq<Seq<char>> {
    s.map_values(|r: Vec<char>| r@)
}

/// A copy of a board.
pub fn copy_board(s: &Vec<Vec<char>>) -> (r: Vec<Vec<char>>)
    ensures
        board(r@) == board(s@),
        r@.len() == s@.len(),
{
    let mut r: Vec<Vec<char>> = Vec::new();
    let mut i: usize = 0;
    while i < s.len()
        invariant
            0 <= i <= s@.len(),
            r@.len() == i,
            forall|a: int| 0 <= a < i ==> (#[trigger] r@[a])@ == s@[a]@,
        decreases s@.len() - i,
    {
        let mut row: Vec<char> = Vec::new();
        let mut j: usize = 0;
        while j < s[i].len()
            invariant
                0 <= i < s@.len(),
                0 <= j <= s@[i as int]@.len(),
                row@ == s@[i as int]@.subrange(0, j as int),
            decreases s@[i as int]@.len() - j,
        {
            row.push(s[i][j]);
            j += 1;
            proof {
                assert(row@ =~= s@[i as int]@.subrange(0, j as int));
            }
        }
        proof {
            assert(row@ =~= s@[i as int]@);
        }
        r.push(row);
        i += 1;
    }
    proof {
        assert(board(r@) =~= board(s@));
    }
    r
}

/// The position of the end of the first `k` chain segments from `root`.
pub open spec fn chain_pos(root: Coord, ls: Seq<usize>, dirs: Seq<Direction>, k: int) -> Coord
    decreases k,
{
    if k <= 0 { root } else { stride(chain_pos(root, ls, dirs, k - 1), dirs[k - 1], ls[k - 1]) }
}

/// The five base moves from a chain end at `tip` with `actions`: each
/// unit step (and staying put) that keeps the base `root` on an `n x n`
/// board, with the move put in front of the actions.
pub open spec fn root_moves(root: Coord, n: usize, tip: (Coord, Seq<(MoveAction, Direction)>), k: int)
    -> Seq<(Coord, Seq<(MoveAction, Direction)>)>
    decreases k,
{
    if k <= 0 {
        seq![]
    } else {
        let rest = root_moves(root, n, tip, k - 1);
        let d = dij_coord(k - 1);
        if root.add_spec(d).in_map_spec(n) {
            rest.push((tip.0.add_spec(d), seq![(to_move_direction_spec(k - 1), Direction::Neutral)] + tip.1))
        } else {
            rest
        }
    }
}

/// `root_moves` of the first `t` chain ends.
pub open spec fn all_root_moves(root: Coord, n: usize, tips: Seq<(Coord, Seq<(MoveAction, Direction)>)>, t: int)
    -> Seq<(Coord, Seq<(MoveAction, Direction)>)>
    decreases t,
{
    if t <= 0 { seq![] } else { all_root_moves(root, n, tips, t - 1) + root_moves(root, n, tips[t - 1], 5) }
}

/// Whether a fingertip holding `has` can act on square `p` of board `s`
/// with target `t`: release onto an empty target square, or grab a
/// takoyaki that is not on a target square.
pub open spec fn can_act(s: Seq<Seq<char>>, t: Seq<Seq<char>>, n: usize, has: FingerHas, p: Coord) -> bool {
    &&& p.in_map_spec(n)
    &&& if has == FingerHas::Has {
        s[p.i as int][p.j as int] == '0' && t[p.i as int][p.j as int] == '1'
    } else {
        s[p.i as int][p.j as int] == '1' && t[p.i as int][p.j as int] == '0'
    }
}

/// The first rotation `i` in `k..4` (not the opposite one after an action)
/// after which the fingertip of a segment of length `len` from `fp`
/// pointing to `dir` can act.
pub open spec fn first_act(
    s: Seq<Seq<char>>,
    t: Seq<Seq<char>>,
    n: usize,
    fp: Coord,
    dir: Direction,
    len: usize,
    fa: FingerAction,
    has: FingerHas,
    k: int,
) -> Option<int>
    decreases 4 - k,
{
    if k >= 4 {
        None
    } else if !(k == 2 && fa != FingerAction::Idle) && can_act(s, t, n, has, stride(fp, turned(dir, 0, k), len)) {
        Some(k)
    } else {
        first_act(s, t, n, fp, dir, len, fa, has, k + 1)
    }
}

/// What a fingertip does: at the first rotation after which it can act,
/// it releases (score 2) or grabs (score 1); when there is none it stays.
/// The score, the rotation with the new direction, and the action with
/// what it then holds and where.
pub open spec fn finger_pick(
    s: Seq<Seq<char>>,
    t: Seq<Seq<char>>,
    n: usize,
    fp: Coord,
    dir: Direction,
    len: usize,
    fa: FingerAction,
    has: FingerHas,
) -> (usize, (MoveAction, Direction), (FingerAction, FingerHas, Coord)) {
    match first_act(s, t, n, fp, dir, len, fa, has, 0) {
        None => (0, (MoveAction::Stay, dir), (FingerAction::Idle, has, stride(fp, dir, len))),
        Some(i) => {
            let nd = turned(dir, 0, i);
            let p = stride(fp, nd, len);
            if has == FingerHas::Has {
                (RELEASE_SCORE, (to_rotate_direction_spec(i), nd), (FingerAction::Release, FingerHas::NotHas, p))
            } else {
                (GRAB_SCORE, (to_rotate_direction_spec(i), nd), (FingerAction::Grab, FingerHas::Has, p))
            }
        },
    }
}

/// The sum of the scores of `picks`.
pub open spec fn pick_sum(picks: Seq<(usize, (MoveAction, Direction), (FingerAction, FingerHas, Coord))>) -> nat
    decreases picks.len(),
{
    if picks.len() == 0 { 0 } else { pick_sum(picks.drop_last()) + picks.last().0 as nat }
}

/// The quarter turns that the actions `1..k` add up to (action 0 is the
/// move of the base).
pub open spec fn rot_tail(actions: Seq<(MoveAction, Direction)>, k: int) -> int
    decreases k,
{
    if k <= 1 { 0 } else { (rot_tail(actions, k - 1) + actions[k - 1].0.index_spec()) % 4 }
}

/// The square that stands for no square.
pub open spec fn nowhere() -> Coord {
    Coord { i: usize::MAX, j: usize::MAX }
}

/// A candidate as values: score, segment actions, fingertip actions.
pub open spec fn cand_views(c: Seq<(usize, Vec<(MoveAction, Direction)>, Vec<(FingerAction, FingerHas, Coord)>)>)
    -> Seq<(usize, Seq<(MoveAction, Direction)>, Seq<(FingerAction, FingerHas, Coord)>)> {
    c.map_values(|x: (usize, Vec<(MoveAction, Direction)>, Vec<(FingerAction, FingerHas, Coord)>)| (x.0, x.1@, x.2@))
}

impl State {
    /// The start: the base on the arm's start square, every segment
    /// pointing Right, every fingertip fresh and empty, the start board.
    pub fn new(arm: &Arm, input: &Input) -> (s: State)
        ensures
            s.root == arm.start,
            s.arm_direction@ == Seq::new(arm.lengths@.len(), |k: int| Direction::Right),
            s.finger_status@ == Seq::new(arm.lengths@.len(), |k: int| (FingerAction::Init, FingerHas::NotHas)),
            board(s.S@) == board(input.S@),
            s.S@.len() == input.S@.len(),
    {
        let mut arm_direction: Vec<Direction> = Vec::new();
        let mut finger_status: Vec<(FingerAction, FingerHas)> = Vec::new();
        let mut k: usize = 0;
        while k < arm.lengths.len()
            invariant
                0 <= k <= arm.lengths@.len(),
                arm_direction@ == Seq::new(k as nat, |q: int| Direction::Right),
                finger_status@ == Seq::new(k as nat, |q: int| (FingerAction::Init, FingerHas::NotHas)),
            decreases arm.lengths@.len() - k,
        {
            arm_direction.push(Direction::Right);
            finger_status.push((FingerAction::Init, FingerHas::NotHas));
            k += 1;
            proof {
                assert(arm_direction@ =~= Seq::new(k as nat, |q: int| Direction::Right));
                assert(finger_status@ =~= Seq::new(k as nat, |q: int| (FingerAction::Init, FingerHas::NotHas)));
            }
        }
        State { root: arm.start, arm_direction, finger_status, S: copy_board(&input.S) }
    }

    /// The score of moving all `M` takoyaki: a grab and a release each.
    pub fn necessary_score(&self, M: usize) -> (s: usize)
        requires
            M * 3 <= usize::MAX,
        ensures
            s == M * (GRAB_SCORE + RELEASE_SCORE),
    {
        M * (GRAB_SCORE + RELEASE_SCORE)
    }

    /// Where the tip of each segment lies: the chain segments one after the
    /// other from the base, the fingertip segments from the end of the
    /// chain.
    pub fn position(&self, arm: &Arm) -> (p: Vec<Coord>)
        requires
            arm.not_finger_arm_num <= arm.lengths@.len(),
            self.arm_direction@.len() >= arm.lengths@.len(),
            forall|k: int| 0 <= k < arm.lengths@.len() ==> (#[trigger] self.arm_direction@[k]).index_spec() < 4,
        ensures
            p@.len() == arm.lengths@.len(),
            forall|k: int| 0 <= k < arm.not_finger_arm_num ==> #[trigger] p@[k]
                == chain_pos(self.root, arm.lengths@, self.arm_direction@, k + 1),
            forall|k: int| arm.not_finger_arm_num <= k < arm.lengths@.len() ==> #[trigger] p@[k]
                == stride(chain_pos(self.root, arm.lengths@, self.arm_direction@, arm.not_finger_arm_num as int),
                    self.arm_direction@[k], arm.lengths@[k]),
    {
        let nf = arm.not_finger_arm_num;
        let mut position: Vec<Coord> = Vec::new();
        let mut pos = self.root;
        let mut idx: usize = 0;
        while idx < nf
            invariant
                nf == arm.not_finger_arm_num,
                nf <= arm.lengths@.len(),
                self.arm_direction@.len() >= arm.lengths@.len(),
                forall|k: int| 0 <= k < arm.lengths@.len() ==> (#[trigger] self.arm_direction@[k]).index_spec() < 4,
                0 <= idx <= nf,
                pos == chain_pos(self.root, arm.lengths@, self.arm_direction@, idx as int),
                position@.len() == idx,
                forall|k: int| 0 <= k < idx ==> #[trigger] position@[k] == chain_pos(self.root, arm.lengths@, self.arm_direction@, k + 1),
            decreases nf - idx,
        {
            let len = arm.lengths[idx];
            let dir = self.arm_direction[idx];
            let delta = dij5(dir.index()).mul_wrapping(Coord::new(len, len));
            pos = pos.add_wrapping(delta);
            position.push(pos);
            idx += 1;
        }
        let mut idx: usize = nf;
        while idx < arm.lengths.len()
            invariant
                nf == arm.not_finger_arm_num,
                nf <= arm.lengths@.len(),
                self.arm_direction@.len() >= arm.lengths@.len(),
                forall|k: int| 0 <= k < arm.lengths@.len() ==> (#[trigger] self.arm_direction@[k]).index_spec() < 4,
                nf <= idx <= arm.lengths@.len(),
                pos == chain_pos(self.root, arm.lengths@, self.arm_direction@, nf as int),
                position@.len() == idx,
                forall|k: int| 0 <= k < nf ==> #[trigger] position@[k] == chain_pos(self.root, arm.lengths@, self.arm_direction@, k + 1),
                forall|k: int| nf <= k < idx ==> #[trigger] position@[k] == stride(pos, self.arm_direction@[k], arm.lengths@[k]),
            decreases arm.lengths@.len() - idx,
        {
            let len = arm.lengths[idx];
            let dir = self.arm_direction[idx];
            let delta = dij5(dir.index()).mul_wrapping(Coord::new(len, len));
            position.push(pos.add_wrapping(delta));
            idx += 1;
        }
        position
    }

    /// Where the end of the chain can get to in one turn, with the actions
    /// that take it there: every chain segment rotates by 0, 1 or 3 quarter
    /// turns (`tips_from` without the opposite rotation, from the base),
    /// then the base makes each of its moves that keep it on the board
    /// (`all_root_moves`), the move put in front of the actions.
    pub fn next_finger_parent_position(&self, arm: &Arm) -> (r: Vec<(Coord, Vec<(MoveAction, Direction)>)>)
        requires
            arm.not_finger_arm_num <= arm.lengths@.len(),
            self.arm_direction@.len() >= arm.not_finger_arm_num,
        ensures
            ({
                let tips = tips_from(arm.not_finger_arm_num, arm.lengths@, self.arm_direction@, false, self.root, 0, 0, Seq::empty());
                tip_views(r@) == all_root_moves(self.root, self.S@.len() as usize, tips, tips.len() as int)
            }),
    {
        let n = self.S.len();
        let mut tips: Vec<(Coord, Vec<(MoveAction, Direction)>)> = Vec::new();
        let empty: Vec<(MoveAction, Direction)> = Vec::new();
        collect_tips(arm.not_finger_arm_num, &arm.lengths, &self.arm_direction, false, self.root, 0, 0, &empty, &mut tips);
        let ghost tv = tips_from(arm.not_finger_arm_num, arm.lengths@, self.arm_direction@, false, self.root, 0, 0, Seq::empty());
        proof {
            assert(tip_views(tips@) =~= tv);
        }
        let mut cands: Vec<(Coord, Vec<(MoveAction, Direction)>)> = Vec::new();
        let mut t: usize = 0;
        while t < tips.len()
            invariant
                n == self.S@.len(),
                tip_views(tips@) == tv,
                0 <= t <= tips@.len(),
                tip_views(cands@) == all_root_moves(self.root, n, tv, t as int),
            decreases tips@.len() - t,
        {
            let pos = tips[t].0;
            let actions = &tips[t].1;
            proof {
                assert(tv[t as int] == (pos, actions@));
            }
            let ghost base = tip_views(cands@);
            let mut i: usize = 0;
            while i < 5
                invariant
                    n == self.S@.len(),
                    tv[t as int] == (pos, actions@),
                    0 <= i <= 5,
                    tip_views(cands@) == base + root_moves(self.root, n, tv[t as int], i as int),
                decreases 5 - i,
            {
                let delta = dij5(i);
                let root_next = self.root.add_wrapping(delta);
                if root_next.in_map(n) {
                    let mut next_actions: Vec<(MoveAction, Direction)> = Vec::new();
                    next_actions.push((to_move_direction(i), Direction::Neutral));
                    let mut q: usize = 0;
                    while q < actions.len()
                        invariant
                            0 <= q <= actions@.len(),
                            next_actions@ == seq![(to_move_direction_spec(i as int), Direction::Neutral)] + actions@.subrange(0, q as int),
                        decreases actions@.len() - q,
                    {
                        next_actions.push(actions[q]);
                        q += 1;
                        proof {
                            assert(next_actions@ =~= seq![(to_move_direction_spec(i as int), Direction::Neutral)]
                                + actions@.subrange(0, q as int));
                        }
                    }
                    proof {
                        assert(actions@.subrange(0, actions@.len() as int) =~= actions@);
                    }
                    let ghost before = cands@;
                    cands.push((pos.add_wrapping(delta), next_actions));
                    proof {
                        assert(tip_views(cands@) =~= tip_views(before).push((pos.add_spec(dij_coord(i as int)), next_actions@)));
                        assert(tip_views(cands@) =~= base + root_moves(self.root, n, tv[t as int], i + 1));
                    }
                } else {
                    proof {
                        assert(tip_views(cands@) =~= base + root_moves(self.root, n, tv[t as int], i + 1));
                    }
                }
                i += 1;
            }
            t += 1;
        }
        cands
    }
}

impl State {
    /// What the fingertips `fingers[..m]` do when the end of the chain is
    /// at `fp` with `rotate` quarter turns inherited: `finger_pick` each.
    pub open spec fn picks(&self, arm: &Arm, t: Seq<Seq<char>>, fp: Coord, rotate: int, m: int)
        -> Seq<(usize, (MoveAction, Direction), (FingerAction, FingerHas, Coord))>
        decreases m,
    {
        if m <= 0 {
            seq![]
        } else {
            let idx = arm.fingers@[m - 1] as int;
            self.picks(arm, t, fp, rotate, m - 1).push(finger_pick(
                board(self.S@),
                t,
                self.S@.len() as usize,
                fp,
                turned(self.arm_direction@[idx], rotate, 0),
                arm.lengths@[idx],
                self.finger_status@[idx].0,
                self.finger_status@[idx].1,
            ))
        }
    }

    /// The candidate for one entry `(fp, actions)` of
    /// `next_finger_parent_position`: the sum of the fingertip scores, the
    /// actions followed by each fingertip's rotation, and idle actions for
    /// the chain segments followed by each fingertip's action.
    pub open spec fn cand_of(&self, arm: &Arm, t: Seq<Seq<char>>, tip: (Coord, Seq<(MoveAction, Direction)>))
        -> (usize, Seq<(MoveAction, Direction)>, Seq<(FingerAction, FingerHas, Coord)>) {
        let rotate = rot_tail(tip.1, tip.1.len() as int);
        let ps = self.picks(arm, t, tip.0, rotate, arm.fingers@.len() as int);
        (
            pick_sum(ps) as usize,
            tip.1 + ps.map_values(|p: (usize, (MoveAction, Direction), (FingerAction, FingerHas, Coord))| p.1),
            Seq::new(arm.not_finger_arm_num as nat, |k: int| (FingerAction::Idle, FingerHas::NotHas, nowhere()))
                + ps.map_values(|p: (usize, (MoveAction, Direction), (FingerAction, FingerHas, Coord))| p.2),
        )
    }

    /// The moves of the base alone (no rotation, no fingertip action), for
    /// each unit step `< k` that keeps it on the board.
    pub open spec fn idle_moves(&self, k: int) -> Seq<(usize, Seq<(MoveAction, Direction)>, Seq<(FingerAction, FingerHas, Coord)>)>
        decreases k,
    {
        if k <= 0 {
            seq![]
        } else {
            let rest = self.idle_moves(k - 1);
            if self.root.add_spec(dij_coord(k - 1)).in_map_spec(self.S@.len() as usize) {
                rest.push((
                    0usize,
                    seq![(to_move_direction_spec(k - 1), Direction::Neutral)]
                        + self.arm_direction@.map_values(|d: Direction| (MoveAction::Stay, d)),
                    self.finger_status@.map_values(|f: (FingerAction, FingerHas)| (FingerAction::Idle, f.1, nowhere())),
                ))
            } else {
                rest
            }
        }
    }

    /// The candidates of a turn: `cand_of` each entry of
    /// `next_finger_parent_position` when one of them scores; otherwise the
    /// plain moves of the base (`idle_moves` over the four steps).
    pub open spec fn cands_spec(&self, arm: &Arm, t: Seq<Seq<char>>) -> Seq<(usize, Seq<(MoveAction, Direction)>, Seq<(FingerAction, FingerHas, Coord)>)> {
        let tips = tips_from(arm.not_finger_arm_num, arm.lengths@, self.arm_direction@, false, self.root, 0, 0, Seq::empty());
        let moves = all_root_moves(self.root, self.S@.len() as usize, tips, tips.len() as int);
        let cs = moves.map_values(|m: (Coord, Seq<(MoveAction, Direction)>)| self.cand_of(arm, t, m));
        if exists|k: int| 0 <= k < cs.len() && #[trigger] cs[k].0 > 0 { cs } else { self.idle_moves(4) }
    }

    /// What `cand` needs: the board is square, the target covers it, every
    /// segment has a direction and a fingertip status, and the fingertips
    /// are segments of the arm.
    pub open spec fn cand_ready(&self, arm: &Arm, t: Seq<Seq<char>>) -> bool {
        let n = self.S@.len();
        &&& forall|a: int| 0 <= a < n ==> (#[trigger] self.S@[a])@.len() == n
        &&& t.len() >= n
        &&& forall|a: int| 0 <= a < n ==> (#[trigger] t[a]).len() >= n
        &&& arm.not_finger_arm_num <= arm.lengths@.len()
        &&& self.arm_direction@.len() >= arm.lengths@.len()
        &&& self.finger_status@.len() >= arm.lengths@.len()
        &&& forall|m: int| 0 <= m < arm.fingers@.len() ==> #[trigger] arm.fingers@[m] < arm.lengths@.len()
        &&& arm.fingers@.len() * 2 <= usize::MAX
    }

    /// What the fingertip of segment `idx` does: `finger_pick`.
    fn pick_finger(&self, arm: &Arm, T: &Vec<Vec<char>>, fp: Coord, rotate: usize, idx: usize)
        -> (r: (usize, (MoveAction, Direction), (FingerAction, FingerHas, Coord)))
        requires
            self.cand_ready(arm, board(T@)),
            idx < arm.lengths@.len(),
            rotate < 4,
        ensures
            r == finger_pick(
                board(self.S@),
                board(T@),
                self.S@.len() as usize,
                fp,
                turned(self.arm_direction@[idx as int], rotate as int, 0),
                arm.lengths@[idx as int],
                self.finger_status@[idx as int].0,
                self.finger_status@[idx as int].1,
            ),
    {
        let ghost s = board(self.S@);
        let ghost t = board(T@);
        let n = self.S.len();
        let len = arm.lengths[idx];
        let dir = to_direction((self.arm_direction[idx].index() + rotate) % 4);
        let (finger_action, finger_has) = self.finger_status[idx];
        let mut best_score: usize = 0;
        let mut best_rotate_action = MoveAction::Stay;
        let mut best_finger_direction = dir;
        let mut best_finger_action = FingerAction::Idle;
        let mut best_finger_has = finger_has;
        let mut best_finger_coord = fp.add_wrapping(dij5(dir.index()).mul_wrapping(Coord::new(len, len)));
        let ghost mut found: Option<int> = None;
        let mut i: usize = 0;
        while i < 4
            invariant
                self.cand_ready(arm, t),
                s == board(self.S@),
                t == board(T@),
                n == self.S@.len(),
                0 <= i <= 4,
                first_act(s, t, n, fp, dir, len, finger_action, finger_has, 0) == match found {
                    None => first_act(s, t, n, fp, dir, len, finger_action, finger_has, i as int),
                    Some(j) => Some(j),
                },
                match found {
                    None => best_score == 0 && best_rotate_action == MoveAction::Stay && best_finger_direction == dir
                        && best_finger_action == FingerAction::Idle && best_finger_has == finger_has
                        && best_finger_coord == stride(fp, dir, len),
                    Some(j) => 0 <= j < i && ({
                        let nd = turned(dir, 0, j);
                        &&& best_rotate_action == to_rotate_direction_spec(j)
                        &&& best_finger_direction == nd
                        &&& best_finger_coord == stride(fp, nd, len)
                        &&& if finger_has == FingerHas::Has {
                            best_score == RELEASE_SCORE && best_finger_action == FingerAction::Release
                                && best_finger_has == FingerHas::NotHas
                        } else {
                            best_score == GRAB_SCORE && best_finger_action == FingerAction::Grab && best_finger_has == FingerHas::Has
                        }
                    }),
                },
            decreases 4 - i,
        {
            if i == 2 && finger_action != FingerAction::Idle {
                i += 1;
                continue;
            }
            let next_dir = to_direction((dir.index() + i) % 4);
            let finger_pos = fp.add_wrapping(dij5(next_dir.index()).mul_wrapping(Coord::new(len, len)));
            let inside = finger_pos.in_map(n);
            let (sc, tc) = if inside {
                proof {
                    assert(s[finger_pos.i as int] == self.S@[finger_pos.i as int]@);
                    assert(t[finger_pos.i as int] == T@[finger_pos.i as int]@);
                }
                (self.S[finger_pos.i][finger_pos.j], T[finger_pos.i][finger_pos.j])
            } else {
                ('0', '0')
            };
            if finger_has == FingerHas::Has && inside && sc == '0' && tc == '1' && best_score < RELEASE_SCORE {
                best_score = RELEASE_SCORE;
                best_rotate_action = to_rotate_direction(i);
                best_finger_direction = next_dir;
                best_finger_action = FingerAction::Release;
                best_finger_has = FingerHas::NotHas;
                best_finger_coord = finger_pos;
                proof {
                    found = Some(i as int);
                }
            } else if finger_has == FingerHas::NotHas && inside && sc == '1' && tc == '0' && best_score < GRAB_SCORE {
                best_score = GRAB_SCORE;
                best_rotate_action = to_rotate_direction(i);
                best_finger_direction = next_dir;
                best_finger_action = FingerAction::Grab;
                best_finger_has = FingerHas::Has;
                best_finger_coord = finger_pos;
                proof {
                    found = Some(i as int);
                }
            }
            i += 1;
        }
        (best_score, (best_rotate_action, best_finger_direction), (best_finger_action, best_finger_has, best_finger_coord))
    }
}

proof fn lemma_picks(state: &State, arm: &Arm, t: Seq<Seq<char>>, fp: Coord, rotate: int, m: int)
    requires
        0 <= m,
    ensures
        state.picks(arm, t, fp, rotate, m).len() == m,
        pick_sum(state.picks(arm, t, fp, rotate, m)) <= 2 * m,
    decreases m,
{
    if m > 0 {
        lemma_picks(state, arm, t, fp, rotate, m - 1);
        assert(state.picks(arm, t, fp, rotate, m).drop_last() =~= state.picks(arm, t, fp, rotate, m - 1));
    }
}

impl State {
    /// The candidates of a turn: `cands_spec`.
    pub fn cand(&self, arm: &Arm, T: &Vec<Vec<char>>)
        -> (r: Vec<(usize, Vec<(MoveAction, Direction)>, Vec<(FingerAction, FingerHas, Coord)>)>)
        requires
            self.cand_ready(arm, board(T@)),
        ensures
            cand_views(r@) == self.cands_spec(arm, board(T@)),
    {
        let ghost t = board(T@);
        let nfpp = self.next_finger_parent_position(arm);
        let ghost tips = tips_from(arm.not_finger_arm_num, arm.lengths@, self.arm_direction@, false, self.root, 0, 0, Seq::empty());
        let ghost moves = all_root_moves(self.root, self.S@.len() as usize, tips, tips.len() as int);
        let ghost cs = moves.map_values(|m: (Coord, Seq<(MoveAction, Direction)>)| self.cand_of(arm, t, m));
        let mut cands: Vec<(usize, Vec<(MoveAction, Direction)>, Vec<(FingerAction, FingerHas, Coord)>)> = Vec::new();
        let mut score_more_than_zero = false;
        let nf = arm.not_finger_arm_num;
        let mut k: usize = 0;
        while k < nfpp.len()
            invariant
                self.cand_ready(arm, t),
                t == board(T@),
                nf == arm.not_finger_arm_num,
                tip_views(nfpp@) == moves,
                cs == moves.map_values(|m: (Coord, Seq<(MoveAction, Direction)>)| self.cand_of(arm, t, m)),
                0 <= k <= nfpp@.len(),
                cand_views(cands@) == cs.subrange(0, k as int),
                score_more_than_zero == exists|q: int| 0 <= q < k && #[trigger] cs[q].0 > 0,
            decreases nfpp@.len() - k,
        {
            let fp = nfpp[k].0;
            let actions = &nfpp[k].1;
            proof {
                assert(moves[k as int] == (fp, actions@));
            }
            let mut rotate: usize = 0;
            let mut q: usize = 1;
            while q < actions.len()
                invariant
                    1 <= q,
                    q <= actions@.len() || q == 1,
                    rotate == rot_tail(actions@, q as int),
                    rotate < 4,
                decreases actions@.len() - q,
            {
                rotate = (rotate + actions[q].0.index()) % 4;
                q += 1;
            }
            proof {
                assert(rotate == rot_tail(actions@, q as int));
                if actions@.len() == 0 {
                    assert(rot_tail(actions@, 1) == 0);
                    assert(rot_tail(actions@, 0) == 0);
                } else {
                    assert(q == actions@.len());
                }
                assert(rotate == rot_tail(actions@, actions@.len() as int));
            }
            let ghost ps = self.picks(arm, t, fp, rotate as int, arm.fingers@.len() as int);
            proof {
                lemma_picks(self, arm, t, fp, rotate as int, arm.fingers@.len() as int);
            }
            let mut score: usize = 0;
            let mut rot_pairs: Vec<(MoveAction, Direction)> = Vec::new();
            let mut finger_actions: Vec<(FingerAction, FingerHas, Coord)> = Vec::new();
            let mut z: usize = 0;
            while z < nf
                invariant
                    0 <= z <= nf,
                    finger_actions@ == Seq::new(z as nat, |k: int| (FingerAction::Idle, FingerHas::NotHas, nowhere())),
                decreases nf - z,
            {
                finger_actions.push((FingerAction::Idle, FingerHas::NotHas, Coord::new(usize::MAX, usize::MAX)));
                z += 1;
                proof {
                    assert(finger_actions@ =~= Seq::new(z as nat, |k: int| (FingerAction::Idle, FingerHas::NotHas, nowhere())));
                }
            }
            let ghost idle = finger_actions@;
            let mut m: usize = 0;
            while m < arm.fingers.len()
                invariant
                    self.cand_ready(arm, t),
                    t == board(T@),
                    rotate < 4,
                    ps == self.picks(arm, t, fp, rotate as int, arm.fingers@.len() as int),
                    0 <= m <= arm.fingers@.len(),
                    score == pick_sum(self.picks(arm, t, fp, rotate as int, m as int)),
                    score <= 2 * m,
                    rot_pairs@ == self.picks(arm, t, fp, rotate as int, m as int).map_values(
                        |p: (usize, (MoveAction, Direction), (FingerAction, FingerHas, Coord))| p.1),
                    finger_actions@ == idle + self.picks(arm, t, fp, rotate as int, m as int).map_values(
                        |p: (usize, (MoveAction, Direction), (FingerAction, FingerHas, Coord))| p.2),
                decreases arm.fingers@.len() - m,
            {
                let idx = arm.fingers[m];
                let p = self.pick_finger(arm, T, fp, rotate, idx);
                proof {
                    let pm = self.picks(arm, t, fp, rotate as int, m + 1);
                    assert(pm.drop_last() =~= self.picks(arm, t, fp, rotate as int, m as int));
                    assert(p.0 <= 2);
                }
                score = score + p.0;
                rot_pairs.push(p.1);
                finger_actions.push(p.2);
                proof {
                    let pm = self.picks(arm, t, fp, rotate as int, m + 1);
                    assert(rot_pairs@ =~= pm.map_values(|p: (usize, (MoveAction, Direction), (FingerAction, FingerHas, Coord))| p.1));
                    assert(finger_actions@ =~= idle + pm.map_values(
                        |p: (usize, (MoveAction, Direction), (FingerAction, FingerHas, Coord))| p.2));
                }
                m += 1;
            }
            if score > 0 {
                score_more_than_zero = true;
            }
            let mut rotate_actions: Vec<(MoveAction, Direction)> = Vec::new();
            let mut q: usize = 0;
            while q < actions.len()
                invariant
                    0 <= q <= actions@.len(),
                    rotate_actions@ == actions@.subrange(0, q as int),
                decreases actions@.len() - q,
            {
                rotate_actions.push(actions[q]);
                q += 1;
                proof {
                    assert(rotate_actions@ =~= actions@.subrange(0, q as int));
                }
            }
            let mut q: usize = 0;
            while q < rot_pairs.len()
                invariant
                    0 <= q <= rot_pairs@.len(),
                    rotate_actions@ == actions@ + rot_pairs@.subrange(0, q as int),
                decreases rot_pairs@.len() - q,
            {
                rotate_actions.push(rot_pairs[q]);
                q += 1;
                proof {
                    assert(rotate_actions@ =~= actions@ + rot_pairs@.subrange(0, q as int));
                }
            }
            proof {
                assert(rot_pairs@.subrange(0, rot_pairs@.len() as int) =~= rot_pairs@);
                assert(actions@.subrange(0, actions@.len() as int) =~= actions@);
            }
            let ghost before = cands@;
            let ghost sv = (score, rotate_actions@, finger_actions@);
            proof {
                assert(cs[k as int] == self.cand_of(arm, t, moves[k as int]));
                assert(cs[k as int] == sv);
            }
            cands.push((score, rotate_actions, finger_actions));
            proof {
                assert(cand_views(cands@) =~= cand_views(before).push(sv));
                assert(cand_views(cands@) =~= cs.subrange(0, k + 1));
                if score > 0 {
                    assert(cs[k as int].0 > 0);
                }
            }
            k += 1;
        }
        proof {
            assert(cs.subrange(0, cs.len() as int) =~= cs);
        }
        if score_more_than_zero {
            return cands;
        }
        let n = self.S.len();
        let mut ret: Vec<(usize, Vec<(MoveAction, Direction)>, Vec<(FingerAction, FingerHas, Coord)>)> = Vec::new();
        let mut i: usize = 0;
        while i < 4
            invariant
                0 <= i <= 4,
                n == self.S@.len(),
                cand_views(ret@) == self.idle_moves(i as int),
            decreases 4 - i,
        {
            let delta = dij5(i);
            let root_next = self.root.add_wrapping(delta);
            if root_next.in_map(n) {
                let mut acts: Vec<(MoveAction, Direction)> = Vec::new();
                acts.push((to_move_direction(i), Direction::Neutral));
                let mut q: usize = 0;
                while q < self.arm_direction.len()
                    invariant
                        0 <= q <= self.arm_direction@.len(),
                        acts@ == seq![(to_move_direction_spec(i as int), Direction::Neutral)]
                            + self.arm_direction@.subrange(0, q as int).map_values(|d: Direction| (MoveAction::Stay, d)),
                    decreases self.arm_direction@.len() - q,
                {
                    acts.push((MoveAction::Stay, self.arm_direction[q]));
                    q += 1;
                    proof {
                        assert(acts@ =~= seq![(to_move_direction_spec(i as int), Direction::Neutral)]
                            + self.arm_direction@.subrange(0, q as int).map_values(|d: Direction| (MoveAction::Stay, d)));
                    }
                }
                let mut fas: Vec<(FingerAction, FingerHas, Coord)> = Vec::new();
                let mut q: usize = 0;
                while q < self.finger_status.len()
                    invariant
                        0 <= q <= self.finger_status@.len(),
                        fas@ == self.finger_status@.subrange(0, q as int).map_values(
                            |f: (FingerAction, FingerHas)| (FingerAction::Idle, f.1, nowhere())),
                    decreases self.finger_status@.len() - q,
                {
                    let (_, has) = self.finger_status[q];
                    fas.push((FingerAction::Idle, has, Coord::new(usize::MAX, usize::MAX)));
                    q += 1;
                    proof {
                        assert(fas@ =~= self.finger_status@.subrange(0, q as int).map_values(
                            |f: (FingerAction, FingerHas)| (FingerAction::Idle, f.1, nowhere())));
                    }
                }
                proof {
                    assert(self.arm_direction@.subrange(0, self.arm_direction@.len() as int) =~= self.arm_direction@);
                    assert(self.finger_status@.subrange(0, self.finger_status@.len() as int) =~= self.finger_status@);
                }
                let ghost before = ret@;
                ret.push((0, acts, fas));
                proof {
                    assert(cand_views(ret@) =~= self.idle_moves(i + 1));
                }
            } else {
                proof {
                    assert(cand_views(ret@) =~= self.idle_moves(i + 1));
                }
            }
            i += 1;
        }
        ret
    }
}

} // verus!
