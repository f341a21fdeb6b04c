//! The arm: a chain of segments from the base, the last of which carries
//! the fingertip segments, and the squares that its fingertips can reach.
use vstd::prelude::*;
use crate::coord::{Coord, dij5, dij_coord, manhattan_spec, calc_manhattan_dist};
use crate::grid::view2;
use crate::text::{decimal, push_decimal, chars_to_string};
use crate::ahc038::state::{
    Direction, MoveAction, to_direction, to_direction_spec, to_rotate_direction, to_rotate_direction_spec,
};

verus! {

pub open spec fn pow2(k: nat) -> nat
    decreases k,
{
    if k == 0 { 1 } else { 2 * pow2((k - 1) as nat) }
}

pub open spec fn pow4(k: nat) -> nat
    decreases k,
{
    if k == 0 { 1 } else { 4 * pow4((k - 1) as nat) }
}

/// The arm on an `N x N` board. Segment `k` (0-based) has length
/// `lengths[k]` and hangs from node `parents[k]` (node 0 is the base).
/// The first `not_finger_arm_num` segments form a chain; the segments listed
/// in `fingers` all hang from its end and carry the fingertips.
#[derive(Debug)]
pub struct Arm {
    pub N: usize,
    pub start: Coord,
    pub not_finger_arm_num: usize,
    pub finger_num: usize,
    pub lengths: Vec<usize>,
    pub fingers: Vec<usize>,
    pub parents: Vec<usize>,
}

/// The direction of a segment pointing to `dir`, after `rotate` quarter
/// turns inherited from the segments above it and `i` of its own.
pub open spec fn turned(dir: Direction, rotate: int, i: int) -> Direction {
    to_direction_spec((dir.index_spec() + rotate + i) % 4)
}

/// `pos` moved `len` squares in direction `d` (wrapping).
pub open spec fn stride(pos: Coord, d: Direction, len: usize) -> Coord {
    pos.add_spec(dij_coord(d.index_spec()).mul_spec(Coord { i: len, j: len }))
}

/// The positions and action lists as values.
pub open spec fn tip_views(s: Seq<(Coord, Vec<(MoveAction, Direction)>)>) -> Seq<(Coord, Seq<(MoveAction, Direction)>)> {
    s.map_values(|p: (Coord, Vec<(MoveAction, Direction)>)| (p.0, p.1@))
}

/// A copy of an action list.
fn copy_actions(v: &Vec<(MoveAction, Direction)>) -> (r: Vec<(MoveAction, Direction)>)
    ensures
        r@ == v@,
{
    let mut r: Vec<(MoveAction, Direction)> = Vec::new();
    let mut k: usize = 0;
    while k < v.len()
        invariant
            0 <= k <= v@.len(),
            r@ == v@.subrange(0, k as int),
        decreases v@.len() - k,
    {
        let (a, d) = v[k];
        r.push((a, d));
        proof {
            assert(r@ =~= v@.subrange(0, k + 1));
        }
        k += 1;
    }
    proof {
        assert(r@ =~= v@);
    }
    r
}

/// Where the end of the chain can get to in one turn, relative to the
/// base, starting from segment `depth` at `pos` with `rotate` quarter
/// turns inherited and `actions` taken so far: every segment rotates by 0,
/// 1 or 3 quarter turns (also 2 when `opposite`), and the results are
/// listed as a depth-first search with a stack lists them (the largest
/// rotation first).
pub open spec fn tips_from(
    nf: usize,
    ls: Seq<usize>,
    dirs: Seq<Direction>,
    opposite: bool,
    pos: Coord,
    rotate: int,
    depth: int,
    actions: Seq<(MoveAction, Direction)>,
) -> Seq<(Coord, Seq<(MoveAction, Direction)>)>
    decreases nf - depth, 5int,
{
    if depth >= nf {
        seq![(pos, actions)]
    } else {
        branches(nf, ls, dirs, opposite, pos, rotate, depth, actions, 4)
    }
}

/// The part of `tips_from` that comes from the rotations `i < k` of
/// segment `depth`, largest first.
pub open spec fn branches(
    nf: usize,
    ls: Seq<usize>,
    dirs: Seq<Direction>,
    opposite: bool,
    pos: Coord,
    rotate: int,
    depth: int,
    actions: Seq<(MoveAction, Direction)>,
    k: int,
) -> Seq<(Coord, Seq<(MoveAction, Direction)>)>
    decreases nf - depth, k,
{
    if k <= 0 || depth >= nf {
        seq![]
    } else {
        let i = k - 1;
        let rest = branches(nf, ls, dirs, opposite, pos, rotate, depth, actions, k - 1);
        if i == 2 && !opposite {
            rest
        } else {
            let nd = turned(dirs[depth], rotate, i);
            tips_from(nf, 
                ls,
                dirs,
                opposite,
                stride(pos, nd, ls[depth]),
                (rotate + i) % 4,
                depth + 1,
                actions.push((to_rotate_direction_spec(i), nd)),
            ) + rest
        }
    }
}

/// The squares within one unit step of the fingertip at `tip` (steps
/// `< k`, Right, Down, Left, Up, stay) that are on the board, the step
/// being one that the base could also make from the start.
pub open spec fn cell_hits(n: usize, start: Coord, tip: Coord, k: int) -> Seq<Coord>
    decreases k,
{
    if k <= 0 {
        seq![]
    } else {
        let rest = cell_hits(n, start, tip, k - 1);
        let d = dij_coord(k - 1);
        let p = tip.add_spec(d);
        if start.add_spec(d).in_map_spec(n) && p.in_map_spec(n) { rest.push(p) } else { rest }
    }
}

/// `cell_hits` of the fingertip of a segment of length `len` from
/// `parent` pointing to `dir` after each rotation `i < k` (not 2 unless
/// `opposite`).
pub open spec fn rot_hits(n: usize, start: Coord, parent: Coord, len: usize, dir: Direction, opposite: bool, k: int) -> Seq<Coord>
    decreases k,
{
    if k <= 0 {
        seq![]
    } else {
        let rest = rot_hits(n, start, parent, len, dir, opposite, k - 1);
        if k - 1 == 2 && !opposite {
            rest
        } else {
            rest + cell_hits(n, start, stride(parent, turned(dir, 0, k - 1), len), 5)
        }
    }
}

/// `rot_hits` of the fingertip segments `fingers[..m]`, which start out
/// pointing Right and inherit `rotate` quarter turns.
pub open spec fn finger_hits(n: usize, start: Coord, fingers: Seq<usize>, ls: Seq<usize>, parent: Coord, rotate: int, opposite: bool, m: int) -> Seq<Coord>
    decreases m,
{
    if m <= 0 {
        seq![]
    } else {
        finger_hits(n, start, fingers, ls, parent, rotate, opposite, m - 1) + rot_hits(n, start, 
            parent,
            ls[fingers[m - 1] as int],
            turned(Direction::Right, rotate, 0),
            opposite,
            4,
        )
    }
}

/// `finger_hits` of every fingertip segment for the first `t` chain ends
/// of `tips`.
pub open spec fn reach_hits(n: usize, start: Coord, fingers: Seq<usize>, ls: Seq<usize>, tips: Seq<(Coord, Seq<(MoveAction, Direction)>)>, opposite: bool, t: int) -> Seq<Coord>
    decreases t,
{
    if t <= 0 {
        seq![]
    } else {
        let tip = tips[t - 1];
        reach_hits(n, start, fingers, ls, tips, opposite, t - 1) + finger_hits(n, start, fingers, 
            ls,
            start.add_spec(tip.0),
            rot_sum(tip.1, tip.1.len() as int),
            opposite,
            fingers.len() as int,
        )
    }
}

/// Appends `tips_from(dirs, opposite, pos, rotate, depth, actions)` to `out`.
pub(crate) fn collect_tips(
    nf: usize,
    lengths: &Vec<usize>,
    dirs: &Vec<Direction>,
    opposite: bool,
    pos: Coord,
    rotate: usize,
    depth: usize,
    actions: &Vec<(MoveAction, Direction)>,
    out: &mut Vec<(Coord, Vec<(MoveAction, Direction)>)>,
)
    requires
        nf <= lengths@.len(),
        dirs@.len() >= nf,
        depth <= nf,
        rotate < 4,
    ensures
        tip_views(final(out)@) == tip_views(old(out)@) + tips_from(
            nf,
            lengths@,
            dirs@,
            opposite,
            pos,
            rotate as int,
            depth as int,
            actions@,
        ),
    decreases nf - depth, 5int,
{
    if depth == nf {
        let ghost before = out@;
        out.push((pos, copy_actions(actions)));
        proof {
            assert(tip_views(out@) =~= tip_views(before) + seq![(pos, actions@)]);
        }
    } else {
        collect_branches(nf, lengths, dirs, opposite, pos, rotate, depth, actions, 4, out);
    }
}

/// Appends `branches(dirs, opposite, pos, rotate, depth, actions, k)` to `out`.
#[verifier::rlimit(30)]
fn collect_branches(
    nf: usize,
    lengths: &Vec<usize>,
    dirs: &Vec<Direction>,
    opposite: bool,
    pos: Coord,
    rotate: usize,
    depth: usize,
    actions: &Vec<(MoveAction, Direction)>,
    k: usize,
    out: &mut Vec<(Coord, Vec<(MoveAction, Direction)>)>,
)
    requires
        nf <= lengths@.len(),
        dirs@.len() >= nf,
        depth < nf,
        rotate < 4,
        k <= 4,
    ensures
        tip_views(final(out)@) == tip_views(old(out)@) + branches(
            nf,
            lengths@,
            dirs@,
            opposite,
            pos,
            rotate as int,
            depth as int,
            actions@,
            k as int,
        ),
    decreases nf - depth, k,
{
    if k == 0 {
        proof {
            assert(tip_views(out@) =~= tip_views(out@) + Seq::<(Coord, Seq<(MoveAction, Direction)>)>::empty());
        }
        return;
    }
    let i = k - 1;
    let ghost before = tip_views(out@);
    let ghost rest = branches(nf, lengths@, dirs@, opposite, pos, rotate as int, depth as int, actions@, k - 1);
    let ghost whole = branches(nf, lengths@, dirs@, opposite, pos, rotate as int, depth as int, actions@, k as int);
    if !(i == 2 && !opposite) {
        let len = lengths[depth];
        let dir = dirs[depth];
        let nd = to_direction((dir.index() + rotate + i) % 4);
        let mut next_actions = copy_actions(actions);
        next_actions.push((to_rotate_direction(i), nd));
        let delta = dij5(nd.index()).mul_wrapping(Coord::new(len, len));
        let next = pos.add_wrapping(delta);
        let ghost child = tips_from(nf, lengths@, dirs@, opposite, next, ((rotate + i) % 4) as int, depth + 1, next_actions@);
        proof {
            assert(next == stride(pos, nd, lengths@[depth as int]));
            assert(whole == child + rest);
        }
        collect_tips(nf, lengths, dirs, opposite, next, (rotate + i) % 4, depth + 1, &next_actions, out);
        collect_branches(nf, lengths, dirs, opposite, pos, rotate, depth, actions, k - 1, out);
        proof {
            assert(tip_views(out@) =~= before + whole);
        }
    } else {
        proof {
            assert(whole == rest);
        }
        collect_branches(nf, lengths, dirs, opposite, pos, rotate, depth, actions, k - 1, out);
    }
}

impl Arm {
    /// The sizes of the vectors agree with the description above, every
    /// segment index in range.
    pub open spec fn wf(&self) -> bool {
        &&& self.not_finger_arm_num <= self.lengths@.len()
        &&& self.parents@.len() == self.lengths@.len()
        &&& forall|m: int| 0 <= m < self.fingers@.len() ==> #[trigger] self.fingers@[m] < self.lengths@.len()
    }

    /// The arm with `V` nodes: a chain of `not_finger_arm_num` segments of
    /// lengths 2, 4, 8, ... from the base at the centre of the board, and the
    /// remaining `V - 1 - not_finger_arm_num` fingertip segments of length
    /// `N / 2` hanging from the end of the chain.
    pub fn new(N: usize, V: usize, not_finger_arm_num: usize) -> (arm: Arm)
        requires
            not_finger_arm_num + 1 <= V,
            pow2(not_finger_arm_num as nat) <= usize::MAX,
        ensures
            arm.wf(),
            arm.N == N,
            arm.start == (Coord { i: N / 2, j: N / 2 }),
            arm.not_finger_arm_num == not_finger_arm_num,
            arm.finger_num == V - not_finger_arm_num - 1,
            arm.lengths@.len() == V - 1,
            arm.parents@.len() == V - 1,
            arm.fingers@.len() == V - 1 - not_finger_arm_num,
            forall|k: int| 0 <= k < not_finger_arm_num ==> #[trigger] arm.lengths@[k] == pow2((k + 1) as nat),
            forall|k: int| 0 <= k < not_finger_arm_num ==> #[trigger] arm.parents@[k] == k,
            forall|k: int| not_finger_arm_num <= k < V - 1 ==> #[trigger] arm.lengths@[k] == N / 2,
            forall|k: int| not_finger_arm_num <= k < V - 1 ==> #[trigger] arm.parents@[k] == not_finger_arm_num,
            forall|m: int| 0 <= m < V - 1 - not_finger_arm_num ==> #[trigger] arm.fingers@[m] == not_finger_arm_num + m,
    {
        let finger_num = V - not_finger_arm_num - 1;
        let mut lengths: Vec<usize> = Vec::new();
        let mut parents: Vec<usize> = Vec::new();
        let mut len: usize = 1;
        let mut idx: usize = 0;
        while idx < not_finger_arm_num
            invariant
                0 <= idx <= not_finger_arm_num,
                pow2(not_finger_arm_num as nat) <= usize::MAX,
                len == pow2(idx as nat),
                lengths@.len() == idx,
                parents@.len() == idx,
                forall|k: int| 0 <= k < idx ==> #[trigger] lengths@[k] == pow2((k + 1) as nat),
                forall|k: int| 0 <= k < idx ==> #[trigger] parents@[k] == k,
            decreases not_finger_arm_num - idx,
        {
            proof {
                lemma_pow2_mono((idx + 1) as nat, not_finger_arm_num as nat);
            }
            len = len * 2;
            lengths.push(len);
            parents.push(idx);
            idx += 1;
        }
        let mut fingers: Vec<usize> = Vec::new();
        let mut idx: usize = not_finger_arm_num;
        while idx < V - 1
            invariant
                not_finger_arm_num <= idx <= V - 1,
                lengths@.len() == idx,
                parents@.len() == idx,
                fingers@.len() == idx - not_finger_arm_num,
                forall|k: int| 0 <= k < not_finger_arm_num ==> #[trigger] lengths@[k] == pow2((k + 1) as nat),
                forall|k: int| 0 <= k < not_finger_arm_num ==> #[trigger] parents@[k] == k,
                forall|k: int| not_finger_arm_num <= k < idx ==> #[trigger] lengths@[k] == N / 2,
                forall|k: int| not_finger_arm_num <= k < idx ==> #[trigger] parents@[k] == not_finger_arm_num,
                forall|m: int| 0 <= m < idx - not_finger_arm_num ==> #[trigger] fingers@[m] == not_finger_arm_num + m,
            decreases V - 1 - idx,
        {
            parents.push(not_finger_arm_num);
            fingers.push(idx);
            lengths.push(N / 2);
            idx += 1;
        }
        let arm = Arm {
            N,
            start: Coord::new(N / 2, N / 2),
            not_finger_arm_num,
            finger_num,
            lengths,
            fingers,
            parents,
        };
        arm
    }

    /// Where the end of the chain can get to in one turn, relative to the
    /// base, when the segments point to `arm_direction`, with the actions
    /// that take it there (one rotation and the new direction per chain
    /// segment): see `tips_from`.
    pub fn finger_parent_relative_position(
        &self,
        arm_direction: &Vec<Direction>,
        opposite: bool,
    ) -> (r: Vec<(Coord, Vec<(MoveAction, Direction)>)>)
        requires
            self.wf(),
            arm_direction@.len() >= self.not_finger_arm_num,
        ensures
            tip_views(r@) == tips_from(self.not_finger_arm_num, self.lengths@, arm_direction@, opposite, Coord { i: 0, j: 0 }, 0, 0, Seq::empty()),
    {
        let mut ret: Vec<(Coord, Vec<(MoveAction, Direction)>)> = Vec::new();
        let actions: Vec<(MoveAction, Direction)> = Vec::new();
        collect_tips(self.not_finger_arm_num, &self.lengths, arm_direction, opposite, Coord::new(0, 0), 0, 0, &actions, &mut ret);
        proof {
            assert(tip_views(Seq::<(Coord, Vec<(MoveAction, Direction)>)>::empty()) =~= Seq::empty());
            assert(Seq::<(Coord, Seq<(MoveAction, Direction)>)>::empty() + tips_from(self.not_finger_arm_num, 
                self.lengths@, arm_direction@, opposite, Coord { i: 0, j: 0 }, 0, 0, Seq::empty()) =~= tips_from(self.not_finger_arm_num, 
                self.lengths@, arm_direction@, opposite, Coord { i: 0, j: 0 }, 0, 0, Seq::empty()));
        }
        ret
    }
}

/// The quarter turns that an action list adds up to.
pub open spec fn rot_sum(actions: Seq<(MoveAction, Direction)>, k: int) -> int
    decreases k,
{
    if k <= 0 { 0 } else { (rot_sum(actions, k - 1) + actions[k - 1].0.index_spec()) % 4 }
}

/// How many times `c` occurs in `s`.
pub open spec fn occ(s: Seq<Coord>, c: Coord) -> nat
    decreases s.len(),
{
    if s.len() == 0 { 0 } else { occ(s.drop_last(), c) + if s.last() == c { 1nat } else { 0 } }
}

proof fn lemma_occ_push(s: Seq<Coord>, x: Coord, c: Coord)
    ensures
        occ(s.push(x), c) == occ(s, c) + if x == c { 1nat } else { 0 },
{
    assert(s.push(x).drop_last() =~= s);
}

proof fn lemma_occ_le(s: Seq<Coord>, c: Coord)
    ensures
        occ(s, c) <= s.len(),
    decreases s.len(),
{
    if s.len() > 0 {
        lemma_occ_le(s.drop_last(), c);
    }
}

/// `n` copies of `Right`.
pub open spec fn all_right(n: int) -> Seq<Direction> {
    Seq::new(n as nat, |k: int| Direction::Right)
}

impl Arm {
    /// Every square that a fingertip can reach in one turn from the start
    /// with all segments pointing Right, once per way of reaching it.
    pub open spec fn all_hits(self, opposite: bool) -> Seq<Coord> {
        self.hits_with(self.lengths@, opposite)
    }

    /// `all_hits` of the arm with segment lengths `ls`.
    pub open spec fn hits_with(self, ls: Seq<usize>, opposite: bool) -> Seq<Coord> {
        let tips = tips_from(self.not_finger_arm_num, ls, all_right(ls.len() as int), opposite, Coord { i: 0, j: 0 }, 0, 0, Seq::empty());
        reach_hits(self.N, self.start, self.fingers@, ls, tips, opposite, tips.len() as int)
    }

    /// The reach table of the arm with segment lengths `ls`: for each square
    /// of the board, how often it occurs in `hits_with`.
    pub open spec fn table_with(self, ls: Seq<usize>, opposite: bool) -> Seq<Seq<usize>> {
        Seq::new(self.N as nat, |a: int| Seq::new(self.N as nat, |b: int| occ(self.hits_with(ls, opposite), Coord { i: a as usize, j: b as usize }) as usize))
    }

    /// The table counts fit in a `usize`.
    pub open spec fn fits(self) -> bool {
        20 * self.fingers@.len() * pow4(self.not_finger_arm_num as nat) <= usize::MAX
    }
}

impl Arm {
    /// For each square of the board, the number of ways (chain end, fingertip
    /// segment, rotation, unit step) in which a fingertip reaches it in one
    /// turn from the start, all segments pointing Right: `all_hits`.
    pub fn can_reach(&self, opposite: bool) -> (t: Vec<Vec<usize>>)
        requires
            self.wf(),
            self.fits(),
        ensures
            t@.len() == self.N,
            forall|a: int| 0 <= a < self.N ==> (#[trigger] t@[a])@.len() == self.N,
            forall|a: int, b: int| 0 <= a < self.N && 0 <= b < self.N
                ==> #[trigger] t@[a]@[b] == occ(self.all_hits(opposite), Coord { i: a as usize, j: b as usize }),
            forall|a: int, b: int| 0 <= a < self.N && 0 <= b < self.N
                ==> #[trigger] t@[a]@[b] <= 20 * self.fingers@.len() * pow4(self.not_finger_arm_num as nat),
    {
        let n = self.N;
        let mut arm_direction: Vec<Direction> = Vec::new();
        let mut k: usize = 0;
        while k < self.lengths.len()
            invariant
                0 <= k <= self.lengths@.len(),
                arm_direction@ == all_right(k as int),
            decreases self.lengths@.len() - k,
        {
            arm_direction.push(Direction::Right);
            k += 1;
            proof {
                assert(arm_direction@ =~= all_right(k as int));
            }
        }
        let tips = self.finger_parent_relative_position(&arm_direction, opposite);
        let ghost tv = tip_views(tips@);
        proof {
            lemma_tips_len(*self, self.lengths@, arm_direction@, opposite, Coord { i: 0, j: 0 }, 0, 0, Seq::empty());
            assert(tv.len() == tips@.len());
        }
        let mut can_reach: Vec<Vec<usize>> = Vec::new();
        let mut r: usize = 0;
        while r < n
            invariant
                0 <= r <= n,
                can_reach@.len() == r,
                forall|a: int| 0 <= a < r ==> (#[trigger] can_reach@[a])@.len() == n,
                forall|a: int, b: int| 0 <= a < r && 0 <= b < n ==> #[trigger] can_reach@[a]@[b] == 0,
            decreases n - r,
        {
            let mut row: Vec<usize> = Vec::new();
            let mut c: usize = 0;
            while c < n
                invariant
                    0 <= c <= n,
                    row@.len() == c,
                    forall|b: int| 0 <= b < c ==> #[trigger] row@[b] == 0,
                decreases n - c,
            {
                row.push(0);
                c += 1;
            }
            can_reach.push(row);
            r += 1;
        }
        let ghost mut ev: Seq<Coord> = Seq::empty();
        let nf = self.fingers.len();
        let mut t: usize = 0;
        while t < tips.len()
            invariant
                self.wf(),
                self.fits(),
                n == self.N,
                nf == self.fingers@.len(),
                arm_direction@ == all_right(self.lengths@.len() as int),
                tv == tip_views(tips@),
                tv == tips_from(self.not_finger_arm_num, self.lengths@, all_right(self.lengths@.len() as int), opposite, Coord { i: 0, j: 0 }, 0, 0, Seq::empty()),
                tips@.len() <= pow4(self.not_finger_arm_num as nat),
                0 <= t <= tips@.len(),
                ev == reach_hits(self.N, self.start, self.fingers@, self.lengths@, tv, opposite, t as int),
                ev.len() <= 20 * nf * t,
                can_reach@.len() == n,
                forall|a: int| 0 <= a < n ==> (#[trigger] can_reach@[a])@.len() == n,
                forall|a: int, b: int| 0 <= a < n && 0 <= b < n
                    ==> #[trigger] can_reach@[a]@[b] == occ(ev, Coord { i: a as usize, j: b as usize }),
            decreases tips@.len() - t,
        {
            proof {
                assert(tv[t as int] == (tips@[t as int].0, tips@[t as int].1@));
                assert(20 * nf * (t + 1) <= 20 * nf * pow4(self.not_finger_arm_num as nat)) by (nonlinear_arith)
                    requires t + 1 <= pow4(self.not_finger_arm_num as nat);
                assert(20 * nf * t + 20 * nf == 20 * nf * (t + 1)) by (nonlinear_arith);
            }
            let pos = tips[t].0;
            let action = &tips[t].1;
            let parent_pos = self.start.add_wrapping(pos);
            let mut rotate: usize = 0;
            let mut q: usize = 0;
            while q < action.len()
                invariant
                    0 <= q <= action@.len(),
                    rotate == rot_sum(action@, q as int),
                    rotate < 4,
                decreases action@.len() - q,
            {
                rotate = (rotate + action[q].0.index()) % 4;
                q += 1;
            }
            let ghost e_t = ev;
            let mut m: usize = 0;
            while m < nf
                invariant
                    self.wf(),
                    n == self.N,
                    nf == self.fingers@.len(),
                    arm_direction@ == all_right(self.lengths@.len() as int),
                    rotate < 4,
                    0 <= m <= nf,
                    ev == e_t + finger_hits(self.N, self.start, self.fingers@, self.lengths@, parent_pos, rotate as int, opposite, m as int),
                    ev.len() <= e_t.len() + 20 * m,
                    e_t.len() + 20 * nf <= usize::MAX,
                    can_reach@.len() == n,
                    forall|a: int| 0 <= a < n ==> (#[trigger] can_reach@[a])@.len() == n,
                    forall|a: int, b: int| 0 <= a < n && 0 <= b < n
                        ==> #[trigger] can_reach@[a]@[b] == occ(ev, Coord { i: a as usize, j: b as usize }),
                decreases nf - m,
            {
                let idx = self.fingers[m];
                let len = self.lengths[idx];
                let dir = to_direction((arm_direction[idx].index() + rotate) % 4);
                let ghost e_m = ev;
                let mut i: usize = 0;
                while i < 4
                    invariant
                        n == self.N,
                        0 <= i <= 4,
                        ev == e_m + rot_hits(self.N, self.start, parent_pos, len, dir, opposite, i as int),
                        ev.len() <= e_m.len() + 5 * i,
                        e_m.len() + 20 <= usize::MAX,
                        can_reach@.len() == n,
                        forall|a: int| 0 <= a < n ==> (#[trigger] can_reach@[a])@.len() == n,
                        forall|a: int, b: int| 0 <= a < n && 0 <= b < n
                            ==> #[trigger] can_reach@[a]@[b] == occ(ev, Coord { i: a as usize, j: b as usize }),
                    decreases 4 - i,
                {
                    if i == 2 && !opposite {
                        i += 1;
                        continue;
                    }
                    let next_dir = to_direction((dir.index() + i) % 4);
                    let delta = dij5(next_dir.index()).mul_wrapping(Coord::new(len, len));
                    let finger_pos = parent_pos.add_wrapping(delta);
                    let ghost e_i = ev;
                    let mut k: usize = 0;
                    while k < 5
                        invariant
                            n == self.N,
                            0 <= k <= 5,
                            ev == e_i + cell_hits(self.N, self.start, finger_pos, k as int),
                            ev.len() <= e_i.len() + k,
                            e_i.len() + 5 <= usize::MAX,
                            can_reach@.len() == n,
                            forall|a: int| 0 <= a < n ==> (#[trigger] can_reach@[a])@.len() == n,
                            forall|a: int, b: int| 0 <= a < n && 0 <= b < n
                                ==> #[trigger] can_reach@[a]@[b] == occ(ev, Coord { i: a as usize, j: b as usize }),
                        decreases 5 - k,
                    {
                        let d = dij5(k);
                        let p = finger_pos.add_wrapping(d);
                        if self.start.add_wrapping(d).in_map(n) && p.in_map(n) {
                            proof {
                                lemma_occ_le(ev, p);
                            }
                            let ghost ev0 = ev;
                            let ghost t0 = can_reach@;
                            let v = can_reach[p.i][p.j];
                            can_reach[p.i][p.j] = v + 1;
                            proof {
                                ev = ev.push(p);
                                assert forall|a: int, b: int| 0 <= a < n && 0 <= b < n implies
                                    #[trigger] can_reach@[a]@[b] == occ(ev, Coord { i: a as usize, j: b as usize }) by {
                                    lemma_occ_push(ev0, p, Coord { i: a as usize, j: b as usize });
                                    assert(t0[a]@[b] == occ(ev0, Coord { i: a as usize, j: b as usize }));
                                }
                                assert(e_i + cell_hits(self.N, self.start, finger_pos, k + 1) =~= (e_i + cell_hits(self.N, self.start, finger_pos, k as int)).push(p));
                            }
                        }
                        k += 1;
                    }
                    proof {
                        assert(ev =~= e_m + rot_hits(self.N, self.start, parent_pos, len, dir, opposite, i + 1));
                    }
                    i += 1;
                }
                proof {
                    assert(ev =~= e_t + finger_hits(self.N, self.start, self.fingers@, self.lengths@, parent_pos, rotate as int, opposite, m + 1));
                }
                m += 1;
            }
            proof {
                assert(ev =~= reach_hits(self.N, self.start, self.fingers@, self.lengths@, tv, opposite, t + 1));
                assert(20 * nf * t + 20 * nf == 20 * nf * (t + 1)) by (nonlinear_arith);
            }
            t += 1;
        }
        proof {
            assert(20 * nf * tips@.len() <= 20 * nf * pow4(self.not_finger_arm_num as nat)) by (nonlinear_arith)
                requires tips@.len() <= pow4(self.not_finger_arm_num as nat);
            assert forall|a: int, b: int| 0 <= a < n && 0 <= b < n implies
                #[trigger] can_reach@[a]@[b] <= 20 * self.fingers@.len() * pow4(self.not_finger_arm_num as nat) by {
                lemma_occ_le(ev, Coord { i: a as usize, j: b as usize });
            }
        }
        can_reach
    }
}

/// `dist / 2 + dist / 4 + ... + dist / 2^num`.
pub open spec fn halving_sum(dist: nat, num: nat) -> nat
    decreases num,
{
    if num == 0 { 0 } else { halving_sum(dist, (num - 1) as nat) + dist / pow2(num) }
}

/// The centre of an `n x n` board.
pub open spec fn center_of(n: usize) -> Coord {
    Coord { i: n / 2, j: n / 2 }
}

/// The `halving_sum` of the distance to the centre by the count, over the
/// squares `(i, 0..k)` of table `t`.
pub open spec fn row_range(t: Seq<Seq<usize>>, n: usize, i: int, k: int) -> nat
    decreases k,
{
    if k <= 0 {
        0
    } else {
        row_range(t, n, i, k - 1) + halving_sum(
            manhattan_spec(Coord { i: i as usize, j: (k - 1) as usize }, center_of(n)) as nat,
            t[i][k - 1] as nat,
        )
    }
}

/// `row_range` summed over the rows `0..r`.
pub open spec fn range_total(t: Seq<Seq<usize>>, n: usize, r: int) -> nat
    decreases r,
{
    if r <= 0 { 0 } else { range_total(t, n, r - 1) + row_range(t, n, r - 1, n as int) }
}

/// The number of squares `(i, 0..k)` with a nonzero count.
pub open spec fn row_covered(t: Seq<Seq<usize>>, i: int, k: int) -> nat
    decreases k,
{
    if k <= 0 { 0 } else { row_covered(t, i, k - 1) + if t[i][k - 1] > 0 { 1nat } else { 0 } }
}

/// `row_covered` summed over the rows `0..r` of width `n`.
pub open spec fn covered_total(t: Seq<Seq<usize>>, n: usize, r: int) -> nat
    decreases r,
{
    if r <= 0 { 0 } else { covered_total(t, n, r - 1) + row_covered(t, r - 1, n as int) }
}

/// The score of a reach table: the halving sums of the distances to the
/// centre, plus `base` scaled by the share of squares reached.
pub open spec fn arm_score(t: Seq<Seq<usize>>, n: usize, base: usize) -> int {
    range_total(t, n, n as int) + covered_total(t, n, n as int) * base / (n as int) / (n as int)
}

proof fn lemma_halving_mono(dist: nat, a: nat, b: nat)
    requires
        a <= b,
    ensures
        halving_sum(dist, a) <= halving_sum(dist, b),
    decreases b,
{
    if a < b {
        lemma_halving_mono(dist, a, (b - 1) as nat);
        lemma_pow2_pos(b);
    }
}

proof fn lemma_row_range_mono(t: Seq<Seq<usize>>, n: usize, i: int, a: int, b: int)
    requires
        0 <= a <= b,
    ensures
        row_range(t, n, i, a) <= row_range(t, n, i, b),
    decreases b,
{
    if a < b {
        lemma_row_range_mono(t, n, i, a, b - 1);
    }
}

proof fn lemma_range_total_mono(t: Seq<Seq<usize>>, n: usize, a: int, b: int)
    requires
        0 <= a <= b,
    ensures
        range_total(t, n, a) <= range_total(t, n, b),
    decreases b,
{
    if a < b {
        lemma_range_total_mono(t, n, a, b - 1);
    }
}

proof fn lemma_row_covered_le(t: Seq<Seq<usize>>, i: int, k: int)
    requires
        0 <= k,
    ensures
        row_covered(t, i, k) <= k,
    decreases k,
{
    if k > 0 {
        lemma_row_covered_le(t, i, k - 1);
    }
}

proof fn lemma_covered_total_le(t: Seq<Seq<usize>>, n: usize, r: int)
    requires
        0 <= r,
    ensures
        covered_total(t, n, r) <= r * n,
    decreases r,
{
    if r > 0 {
        lemma_covered_total_le(t, n, r - 1);
        lemma_row_covered_le(t, r - 1, n as int);
        assert((r - 1) * n + n == r * n) by (nonlinear_arith);
    }
}

proof fn lemma_pow2_pos(k: nat)
    ensures
        pow2(k) >= 1,
    decreases k,
{
    if k > 0 {
        lemma_pow2_pos((k - 1) as nat);
    }
}

impl Arm {
    /// The score of the reach table `can_reach`: `arm_score`.
    pub fn calc_score(&self, can_reach: &Vec<Vec<usize>>, base: usize) -> (s: usize)
        requires
            1 <= self.N <= usize::MAX / 2,
            self.N * self.N <= usize::MAX,
            can_reach@.len() == self.N,
            forall|a: int| 0 <= a < self.N ==> (#[trigger] can_reach@[a])@.len() == self.N,
            forall|a: int, b: int| 0 <= a < self.N && 0 <= b < self.N ==> #[trigger] can_reach@[a]@[b] < usize::MAX,
            range_total(view2(can_reach@), self.N, self.N as int) + self.N * self.N * base <= usize::MAX,
        ensures
            s == arm_score(view2(can_reach@), self.N, base),
    {
        let ghost t = view2(can_reach@);
        let n = self.N;
        let center = Coord::new(n / 2, n / 2);
        let mut range_score: usize = 0;
        let mut comprehensiveness: usize = 0;
        proof {
            lemma_covered_total_le(t, n, n as int);
        }
        let mut i: usize = 0;
        while i < n
            invariant
                1 <= n <= usize::MAX / 2,
                n * n <= usize::MAX,
                n == self.N,
                center == center_of(n),
                t == view2(can_reach@),
                can_reach@.len() == n,
                forall|a: int| 0 <= a < n ==> (#[trigger] can_reach@[a])@.len() == n,
                forall|a: int, b: int| 0 <= a < n && 0 <= b < n ==> #[trigger] can_reach@[a]@[b] < usize::MAX,
                range_total(t, n, n as int) + n * n * base <= usize::MAX,
                0 <= i <= n,
                range_score == range_total(t, n, i as int),
                comprehensiveness == covered_total(t, n, i as int),
                covered_total(t, n, n as int) <= n * n,
            decreases n - i,
        {
            proof {
                lemma_range_total_mono(t, n, i + 1, n as int);
                assert(t[i as int] == can_reach@[i as int]@);
                lemma_covered_total_le(t, n, i + 1);
                assert((i + 1) * n <= n * n) by (nonlinear_arith)
                    requires i + 1 <= n;
            }
            let mut j: usize = 0;
            while j < n
                invariant
                    1 <= n <= usize::MAX / 2,
                    n * n <= usize::MAX,
                    n == self.N,
                    center == center_of(n),
                    t == view2(can_reach@),
                    t[i as int] == can_reach@[i as int]@,
                    can_reach@.len() == n,
                    forall|a: int| 0 <= a < n ==> (#[trigger] can_reach@[a])@.len() == n,
                    forall|a: int, b: int| 0 <= a < n && 0 <= b < n ==> #[trigger] can_reach@[a]@[b] < usize::MAX,
                    0 <= i < n,
                    0 <= j <= n,
                    range_total(t, n, i as int) + row_range(t, n, i as int, n as int) <= usize::MAX,
                    range_score == range_total(t, n, i as int) + row_range(t, n, i as int, j as int),
                    comprehensiveness == covered_total(t, n, i as int) + row_covered(t, i as int, j as int),
                    covered_total(t, n, i as int + 1) <= n * n,
                decreases n - j,
            {
                proof {
                    lemma_row_range_mono(t, n, i as int, j + 1, n as int);
                    lemma_row_covered_le(t, i as int, n as int);
                    lemma_row_covered_le(t, i as int, j as int);
                    lemma_covered_total_le(t, n, i as int);
                    assert(i * n + j + 1 <= n * n) by (nonlinear_arith)
                        requires i < n, j < n;
                }
                let pos = Coord::new(i, j);
                let dist = calc_manhattan_dist(pos, center);
                let num = can_reach[i][j];
                if num > 0 {
                    comprehensiveness += 1;
                }
                let ghost r0 = range_score as int;
                let mut cnt: usize = 1;
                while cnt <= num
                    invariant
                        1 <= cnt <= num + 1,
                        num < usize::MAX,
                        r0 + halving_sum(dist as nat, num as nat) <= usize::MAX,
                        range_score == r0 + halving_sum(dist as nat, (cnt - 1) as nat),
                    decreases num + 1 - cnt,
                {
                    let mut s: usize = dist;
                    let mut q: usize = 0;
                    assert(pow2(0) == 1);
                    while q < cnt
                        invariant
                            0 <= q <= cnt,
                            s == dist as nat / pow2(q as nat),
                        decreases cnt - q,
                    {
                        proof {
                            lemma_pow2_pos(q as nat);
                            vstd::arithmetic::div_mod::lemma_div_denominator(dist as int, pow2(q as nat) as int, 2);
                            assert(pow2((q + 1) as nat) == pow2(q as nat) * 2);
                        }
                        s = s / 2;
                        q += 1;
                    }
                    proof {
                        lemma_halving_mono(dist as nat, cnt as nat, num as nat);
                    }
                    range_score = range_score + s;
                    cnt += 1;
                }
                j += 1;
            }
            i += 1;
        }
        proof {
            assert(comprehensiveness * base <= n * n * base) by (nonlinear_arith)
                requires comprehensiveness <= n * n;
        }
        range_score + comprehensiveness * base / n / n
    }
}

/// The sum of the distances to the centre over the squares `(i, 0..k)`.
pub open spec fn row_dist(n: usize, i: int, k: int) -> nat
    decreases k,
{
    if k <= 0 { 0 } else { row_dist(n, i, k - 1) + manhattan_spec(Coord { i: i as usize, j: (k - 1) as usize }, center_of(n)) as nat }
}

/// `row_dist` summed over the rows `0..r`.
pub open spec fn dist_total(n: usize, r: int) -> nat
    decreases r,
{
    if r <= 0 { 0 } else { dist_total(n, r - 1) + row_dist(n, r - 1, n as int) }
}

proof fn lemma_center_dist(n: usize, i: int, j: int)
    requires
        0 <= i < n,
        0 <= j < n,
    ensures
        manhattan_spec(Coord { i: i as usize, j: j as usize }, center_of(n)) <= 2 * n,
{
}

proof fn lemma_row_dist_bound(n: usize, i: int, k: int)
    requires
        0 <= i < n,
        0 <= k <= n,
    ensures
        row_dist(n, i, k) <= 2 * n * k,
    decreases k,
{
    if k > 0 {
        lemma_row_dist_bound(n, i, k - 1);
        lemma_center_dist(n, i, k - 1);
        assert(2 * n * (k - 1) + 2 * n == 2 * n * k) by (nonlinear_arith);
    }
}

proof fn lemma_dist_total_bound(n: usize, r: int)
    requires
        0 <= r <= n,
    ensures
        dist_total(n, r) <= 2 * n * n * r,
    decreases r,
{
    if r > 0 {
        lemma_dist_total_bound(n, r - 1);
        lemma_row_dist_bound(n, r - 1, n as int);
        assert(2 * n * n * (r - 1) + 2 * n * n == 2 * n * n * r) by (nonlinear_arith);
    }
}

proof fn lemma_halving_bound(dist: nat, num: nat)
    ensures
        halving_sum(dist, num) <= num * dist,
    decreases num,
{
    if num > 0 {
        lemma_halving_bound(dist, (num - 1) as nat);
        lemma_pow2_pos(num);
        assert(dist / pow2(num) <= dist) by (nonlinear_arith)
            requires pow2(num) >= 1;
        assert((num - 1) * dist + dist == num * dist) by (nonlinear_arith);
    }
}

proof fn lemma_row_range_bound(t: Seq<Seq<usize>>, n: usize, i: int, k: int, h: nat)
    requires
        0 <= i < n,
        0 <= k <= n,
        forall|b: int| 0 <= b < n ==> #[trigger] t[i][b] <= h,
    ensures
        row_range(t, n, i, k) <= k * (h * (2 * n)),
    decreases k,
{
    if k > 0 {
        lemma_row_range_bound(t, n, i, k - 1, h);
        let d = manhattan_spec(Coord { i: i as usize, j: (k - 1) as usize }, center_of(n)) as nat;
        lemma_center_dist(n, i, k - 1);
        lemma_halving_bound(d, t[i][k - 1] as nat);
        assert(t[i][k - 1] * d <= h * (2 * n)) by (nonlinear_arith)
            requires t[i][k - 1] <= h, d <= 2 * n;
        assert((k - 1) * (h * (2 * n)) + h * (2 * n) == k * (h * (2 * n))) by (nonlinear_arith);
    }
}

proof fn lemma_range_total_bound(t: Seq<Seq<usize>>, n: usize, r: int, h: nat)
    requires
        0 <= r <= n,
        forall|a: int, b: int| 0 <= a < n && 0 <= b < n ==> #[trigger] t[a][b] <= h,
    ensures
        range_total(t, n, r) <= r * (n * (h * (2 * n))),
    decreases r,
{
    if r > 0 {
        lemma_range_total_bound(t, n, r - 1, h);
        assert forall|b: int| 0 <= b < n implies #[trigger] t[r - 1][b] <= h by {}
        lemma_row_range_bound(t, n, r - 1, n as int, h);
        assert((r - 1) * (n * (h * (2 * n))) + n * (h * (2 * n)) == r * (n * (h * (2 * n)))) by (nonlinear_arith);
    }
}

/// The length that a climbing step proposes for a segment of length
/// `before`: `before + r` capped at `n - 1` when growing, else `before - r`
/// (wrapping), replaced by 1 when that is 0 or off the board.
pub open spec fn proposed_length(n: usize, before: usize, grow: bool, r: usize) -> usize {
    if grow {
        if before + r < n - 1 { (before + r) as usize } else { (n - 1) as usize }
    } else {
        let l = if before >= r { (before - r) as usize } else { (before - r + usize::MAX + 1) as usize };
        if l >= n || l == 0 { 1 } else { l }
    }
}

/// The arm and the text of the arm with its lengths.
pub open spec fn arm_lines(parents: Seq<usize>, lengths: Seq<usize>, k: int) -> Seq<char>
    decreases k,
{
    if k <= 0 {
        seq![]
    } else {
        arm_lines(parents, lengths, k - 1) + decimal(parents[k - 1] as nat) + seq![' '] + decimal(lengths[k - 1] as nat)
            + seq!['\n']
    }
}

impl Arm {
    /// The sizes of a climbing step keep the scores inside `usize`.
    pub open spec fn climb_fits(&self, base: usize) -> bool {
        &&& 1 <= self.N <= usize::MAX / 2
        &&& self.N * self.N <= usize::MAX
        &&& 20 * self.fingers@.len() * pow4(self.not_finger_arm_num as nat) < usize::MAX
        &&& self.N * (self.N * (20 * self.fingers@.len() * pow4(self.not_finger_arm_num as nat) * (2 * self.N)))
            + self.N * self.N * base <= usize::MAX
    }

    /// The sum over all squares of the Manhattan distance to the centre.
    pub fn base_score(&self) -> (b: usize)
        requires
            2 * self.N * self.N * self.N <= usize::MAX,
        ensures
            b == dist_total(self.N, self.N as int),
    {
        let n = self.N;
        let center = Coord::new(n / 2, n / 2);
        let mut base: usize = 0;
        proof {
            lemma_dist_total_bound(n, n as int);
        }
        let mut i: usize = 0;
        while i < n
            invariant
                n == self.N,
                2 * n * n * n <= usize::MAX,
                center == center_of(n),
                dist_total(n, n as int) <= 2 * n * n * n,
                0 <= i <= n,
                base == dist_total(n, i as int),
            decreases n - i,
        {
            proof {
                lemma_dist_total_bound(n, i + 1);
                assert(2 * n * n * (i + 1) <= 2 * n * n * n) by (nonlinear_arith)
                    requires i + 1 <= n;
                lemma_row_dist_bound(n, i as int, n as int);
            }
            let mut j: usize = 0;
            while j < n
                invariant
                    n == self.N,
                    center == center_of(n),
                    0 <= i < n,
                    0 <= j <= n,
                    dist_total(n, i as int) + row_dist(n, i as int, n as int) <= usize::MAX,
                    base == dist_total(n, i as int) + row_dist(n, i as int, j as int),
                decreases n - j,
            {
                proof {
                    lemma_row_dist_mono(n, i as int, j + 1, n as int);
                }
                base = base + calc_manhattan_dist(Coord::new(i, j), center);
                j += 1;
            }
            i += 1;
        }
        base
    }

    /// The new length that a climbing step proposes: `proposed_length`.
    pub fn next_length(&self, before: usize, grow: bool, r: usize) -> (l: usize)
        requires
            self.N >= 1,
            before + r <= usize::MAX,
        ensures
            l == proposed_length(self.N, before, grow, r),
    {
        if grow {
            let l = before + r;
            if l < self.N - 1 { l } else { self.N - 1 }
        } else {
            let l = before.wrapping_sub(r);
            if l >= self.N || l == 0 { 1 } else { l }
        }
    }

    /// One step of hill climbing: sets segment `arm_idx` to `length`, and
    /// keeps it when the score of the new reach table (without the
    /// opposite rotation) beats `best_score`, returning the new score; else
    /// restores the old length and returns `best_score`.
    pub fn climb_step(&mut self, arm_idx: usize, length: usize, base: usize, best_score: usize) -> (s: usize)
        requires
            old(self).wf(),
            old(self).fits(),
            old(self).climb_fits(base),
            arm_idx < old(self).lengths@.len(),
        ensures
            final(self).wf(),
            final(self).N == old(self).N,
            final(self).start == old(self).start,
            final(self).not_finger_arm_num == old(self).not_finger_arm_num,
            final(self).finger_num == old(self).finger_num,
            final(self).fingers == old(self).fingers,
            final(self).parents == old(self).parents,
            ({
                let new_lengths = old(self).lengths@.update(arm_idx as int, length);
                let score = arm_score(old(self).table_with(new_lengths, false), old(self).N, base);
                if score > best_score {
                    final(self).lengths@ == new_lengths && s == score
                } else {
                    final(self).lengths@ == old(self).lengths@ && s == best_score
                }
            }),
    {
        let before = self.lengths[arm_idx];
        self.lengths.set(arm_idx, length);
        let t = self.can_reach(false);
        proof {
            let h = 20 * self.fingers@.len() * pow4(self.not_finger_arm_num as nat);
            lemma_range_total_bound(view2(t@), self.N, self.N as int, h);
            assert forall|a: int, b: int| 0 <= a < self.N && 0 <= b < self.N implies
                #[trigger] view2(t@)[a][b] < usize::MAX by {
                assert(view2(t@)[a] == t@[a]@);
            }
            assert(view2(t@) =~~= self.table_with(self.lengths@, false)) by {
                assert forall|a: int| 0 <= a < self.N implies #[trigger] view2(t@)[a] =~= self.table_with(self.lengths@, false)[a] by {
                    assert(view2(t@)[a] == t@[a]@);
                }
            }
        }
        let score = self.calc_score(&t, base);
        if score > best_score {
            score
        } else {
            self.lengths.set(arm_idx, before);
            best_score
        }
    }

    /// The arm description that the answer starts with: the number of
    /// nodes, a line `parent length` per segment, and the start square.
    pub open spec fn text(&self) -> Seq<char> {
        decimal((self.lengths@.len() + 1) as nat) + seq!['\n'] + arm_lines(self.parents@, self.lengths@, self.lengths@.len() as int)
            + decimal(self.start.i as nat) + seq![' '] + decimal(self.start.j as nat) + seq!['\n']
    }

    /// The arm description: `text`.
    pub fn output(&self) -> (s: String)
        requires
            self.wf(),
            self.lengths@.len() < usize::MAX,
        ensures
            s@ == self.text(),
    {
        let mut out: Vec<char> = Vec::new();
        push_decimal(&mut out, self.lengths.len() + 1);
        out.push('\n');
        let ghost head = out@;
        let mut k: usize = 0;
        while k < self.lengths.len()
            invariant
                self.wf(),
                0 <= k <= self.lengths@.len(),
                out@ == head + arm_lines(self.parents@, self.lengths@, k as int),
            decreases self.lengths@.len() - k,
        {
            push_decimal(&mut out, self.parents[k]);
            out.push(' ');
            push_decimal(&mut out, self.lengths[k]);
            out.push('\n');
            proof {
                assert(out@ =~= head + arm_lines(self.parents@, self.lengths@, k + 1));
            }
            k += 1;
        }
        push_decimal(&mut out, self.start.i);
        out.push(' ');
        push_decimal(&mut out, self.start.j);
        out.push('\n');
        proof {
            assert(out@ =~= self.text());
        }
        chars_to_string(&out)
    }
}

proof fn lemma_row_dist_mono(n: usize, i: int, a: int, b: int)
    requires
        0 <= a <= b,
    ensures
        row_dist(n, i, a) <= row_dist(n, i, b),
    decreases b,
{
    if a < b {
        lemma_row_dist_mono(n, i, a, b - 1);
    }
}

proof fn lemma_tips_len(arm: Arm, ls: Seq<usize>, dirs: Seq<Direction>, opposite: bool, pos: Coord, rotate: int, depth: int,
    actions: Seq<(MoveAction, Direction)>)
    requires
        0 <= depth <= arm.not_finger_arm_num,
    ensures
        tips_from(arm.not_finger_arm_num, ls, dirs, opposite, pos, rotate, depth, actions).len() <= pow4((arm.not_finger_arm_num - depth) as nat),
    decreases arm.not_finger_arm_num - depth, 5int,
{
    if depth < arm.not_finger_arm_num {
        lemma_branches_len(arm, ls, dirs, opposite, pos, rotate, depth, actions, 4);
    }
}

proof fn lemma_branches_len(arm: Arm, ls: Seq<usize>, dirs: Seq<Direction>, opposite: bool, pos: Coord, rotate: int, depth: int,
    actions: Seq<(MoveAction, Direction)>, k: int)
    requires
        0 <= depth < arm.not_finger_arm_num,
        0 <= k <= 4,
    ensures
        branches(arm.not_finger_arm_num, ls, dirs, opposite, pos, rotate, depth, actions, k).len() <= k * pow4((arm.not_finger_arm_num - depth - 1) as nat),
    decreases arm.not_finger_arm_num - depth, k,
{
    if k > 0 {
        lemma_branches_len(arm, ls, dirs, opposite, pos, rotate, depth, actions, k - 1);
        let i = k - 1;
        let nd = turned(dirs[depth], rotate, i);
        lemma_tips_len(arm, ls, dirs, opposite, stride(pos, nd, ls[depth]), (rotate + i) % 4, depth + 1,
            actions.push((to_rotate_direction_spec(i), nd)));
        assert((k - 1) * pow4((arm.not_finger_arm_num - depth - 1) as nat) + pow4((arm.not_finger_arm_num - depth - 1) as nat)
            == k * pow4((arm.not_finger_arm_num - depth - 1) as nat)) by (nonlinear_arith);
    }
}

proof fn lemma_pow2_mono(a: nat, b: nat)
    requires
        a <= b,
    ensures
        pow2(a) <= pow2(b),
    decreases b,
{
    if a < b {
        lemma_pow2_mono(a, (b - 1) as nat);
    }
}

/// Occurrences add up over a concatenation.
proof fn lemma_occ_concat(s: Seq<Coord>, t: Seq<Coord>, c: Coord)
    ensures
        occ(s + t, c) == occ(s, c) + occ(t, c),
    decreases t.len(),
{
    if t.len() > 0 {
        lemma_occ_concat(s, t.drop_last(), c);
        assert((s + t).drop_last() =~= s + t.drop_last());
    } else {
        assert(s + t =~= s);
    }
}

/// Allowing the turn-around adds hits of each fingertip: the hits without
/// it occur no more often than with it.
proof fn lemma_rot_hits_mono(n: usize, start: Coord, parent: Coord, len: usize, dir: Direction, k: int, c: Coord)
    ensures
        occ(rot_hits(n, start, parent, len, dir, false, k), c) <= occ(rot_hits(n, start, parent, len, dir, true, k), c),
    decreases k,
{
    if k > 0 {
        lemma_rot_hits_mono(n, start, parent, len, dir, k - 1, c);
        let extra = cell_hits(n, start, stride(parent, turned(dir, 0, k - 1), len), 5);
        lemma_occ_concat(rot_hits(n, start, parent, len, dir, true, k - 1), extra, c);
        if !(k - 1 == 2) {
            lemma_occ_concat(rot_hits(n, start, parent, len, dir, false, k - 1), extra, c);
        }
    }
}

proof fn lemma_finger_hits_mono(n: usize, start: Coord, fingers: Seq<usize>, ls: Seq<usize>, parent: Coord, rotate: int, m: int, c: Coord)
    ensures
        occ(finger_hits(n, start, fingers, ls, parent, rotate, false, m), c)
            <= occ(finger_hits(n, start, fingers, ls, parent, rotate, true, m), c),
    decreases m,
{
    if m > 0 {
        lemma_finger_hits_mono(n, start, fingers, ls, parent, rotate, m - 1, c);
        let len = ls[fingers[m - 1] as int];
        let dir = turned(Direction::Right, rotate, 0);
        lemma_rot_hits_mono(n, start, parent, len, dir, 4, c);
        lemma_occ_concat(finger_hits(n, start, fingers, ls, parent, rotate, false, m - 1),
            rot_hits(n, start, parent, len, dir, false, 4), c);
        lemma_occ_concat(finger_hits(n, start, fingers, ls, parent, rotate, true, m - 1),
            rot_hits(n, start, parent, len, dir, true, 4), c);
    }
}

/// `reach_hits` over all of `tips`.
pub open spec fn hits_of(n: usize, start: Coord, fingers: Seq<usize>, ls: Seq<usize>, tips: Seq<(Coord, Seq<(MoveAction, Direction)>)>, opposite: bool) -> Seq<Coord> {
    reach_hits(n, start, fingers, ls, tips, opposite, tips.len() as int)
}

/// `reach_hits` of the first `t` chain ends reads only those.
proof fn lemma_reach_prefix(n: usize, start: Coord, fingers: Seq<usize>, ls: Seq<usize>,
    x: Seq<(Coord, Seq<(MoveAction, Direction)>)>, y: Seq<(Coord, Seq<(MoveAction, Direction)>)>, opposite: bool, t: int)
    requires
        0 <= t <= x.len(),
        t <= y.len(),
        forall|k: int| 0 <= k < t ==> x[k] == y[k],
    ensures
        reach_hits(n, start, fingers, ls, x, opposite, t) == reach_hits(n, start, fingers, ls, y, opposite, t),
    decreases t,
{
    if t > 0 {
        lemma_reach_prefix(n, start, fingers, ls, x, y, opposite, t - 1);
    }
}

/// `hits_of` a concatenation is the concatenation of the hits.
proof fn lemma_hits_concat(n: usize, start: Coord, fingers: Seq<usize>, ls: Seq<usize>,
    a: Seq<(Coord, Seq<(MoveAction, Direction)>)>, b: Seq<(Coord, Seq<(MoveAction, Direction)>)>, opposite: bool)
    ensures
        hits_of(n, start, fingers, ls, a + b, opposite)
            == hits_of(n, start, fingers, ls, a, opposite) + hits_of(n, start, fingers, ls, b, opposite),
    decreases b.len(),
{
    if b.len() == 0 {
        assert(a + b =~= a);
        assert(hits_of(n, start, fingers, ls, b, opposite) =~= seq![]);
        assert(hits_of(n, start, fingers, ls, a, opposite) + seq![] =~= hits_of(n, start, fingers, ls, a, opposite));
    } else {
        let b1 = b.drop_last();
        lemma_hits_concat(n, start, fingers, ls, a, b1, opposite);
        let ab = a + b;
        lemma_reach_prefix(n, start, fingers, ls, ab, a + b1, opposite, ab.len() - 1);
        lemma_reach_prefix(n, start, fingers, ls, b, b1, opposite, b.len() - 1);
        assert(ab[ab.len() - 1] == b[b.len() - 1]);
        let tip = b[b.len() - 1];
        let f = finger_hits(n, start, fingers, ls, start.add_spec(tip.0), rot_sum(tip.1, tip.1.len() as int), opposite, fingers.len() as int);
        assert(hits_of(n, start, fingers, ls, ab, opposite) == hits_of(n, start, fingers, ls, a + b1, opposite) + f);
        assert(hits_of(n, start, fingers, ls, b, opposite) == hits_of(n, start, fingers, ls, b1, opposite) + f);
        assert(hits_of(n, start, fingers, ls, a, opposite) + hits_of(n, start, fingers, ls, b1, opposite) + f
            =~= hits_of(n, start, fingers, ls, a, opposite) + (hits_of(n, start, fingers, ls, b1, opposite) + f));
    }
}

/// The hits of the chain ends from `depth` on, without the turn-around,
/// occur no more often than with it.
proof fn lemma_tips_hits_mono(n: usize, start: Coord, fingers: Seq<usize>, nf: usize, ls: Seq<usize>, dirs: Seq<Direction>,
    pos: Coord, rotate: int, depth: int, actions: Seq<(MoveAction, Direction)>, c: Coord)
    ensures
        occ(hits_of(n, start, fingers, ls, tips_from(nf, ls, dirs, false, pos, rotate, depth, actions), false), c)
            <= occ(hits_of(n, start, fingers, ls, tips_from(nf, ls, dirs, true, pos, rotate, depth, actions), true), c),
    decreases nf - depth, 5int,
{
    if depth >= nf {
        let tip = (pos, actions);
        let one = seq![tip];
        assert(tips_from(nf, ls, dirs, false, pos, rotate, depth, actions) == one);
        assert(tips_from(nf, ls, dirs, true, pos, rotate, depth, actions) == one);
        lemma_finger_hits_mono(n, start, fingers, ls, start.add_spec(pos), rot_sum(actions, actions.len() as int),
            fingers.len() as int, c);
        assert(one[0] == tip);
        let ff = finger_hits(n, start, fingers, ls, start.add_spec(pos), rot_sum(actions, actions.len() as int), false,
            fingers.len() as int);
        let ft = finger_hits(n, start, fingers, ls, start.add_spec(pos), rot_sum(actions, actions.len() as int), true,
            fingers.len() as int);
        assert(reach_hits(n, start, fingers, ls, one, false, 0) == Seq::<Coord>::empty());
        assert(reach_hits(n, start, fingers, ls, one, true, 0) == Seq::<Coord>::empty());
        assert(hits_of(n, start, fingers, ls, one, false) == Seq::<Coord>::empty() + ff);
        assert(hits_of(n, start, fingers, ls, one, true) == Seq::<Coord>::empty() + ft);
        assert(Seq::<Coord>::empty() + ff =~= ff);
        assert(Seq::<Coord>::empty() + ft =~= ft);
    } else {
        lemma_branches_hits_mono(n, start, fingers, nf, ls, dirs, pos, rotate, depth, actions, 4, c);
    }
}

proof fn lemma_branches_hits_mono(n: usize, start: Coord, fingers: Seq<usize>, nf: usize, ls: Seq<usize>, dirs: Seq<Direction>,
    pos: Coord, rotate: int, depth: int, actions: Seq<(MoveAction, Direction)>, k: int, c: Coord)
    requires
        depth < nf,
    ensures
        occ(hits_of(n, start, fingers, ls, branches(nf, ls, dirs, false, pos, rotate, depth, actions, k), false), c)
            <= occ(hits_of(n, start, fingers, ls, branches(nf, ls, dirs, true, pos, rotate, depth, actions, k), true), c),
    decreases nf - depth, k,
{
    if k > 0 {
        let i = k - 1;
        lemma_branches_hits_mono(n, start, fingers, nf, ls, dirs, pos, rotate, depth, actions, k - 1, c);
        let rf = branches(nf, ls, dirs, false, pos, rotate, depth, actions, k - 1);
        let rt = branches(nf, ls, dirs, true, pos, rotate, depth, actions, k - 1);
        let nd = turned(dirs[depth], rotate, i);
        let np = stride(pos, nd, ls[depth]);
        let na = actions.push((to_rotate_direction_spec(i), nd));
        let sf = tips_from(nf, ls, dirs, false, np, (rotate + i) % 4, depth + 1, na);
        let st = tips_from(nf, ls, dirs, true, np, (rotate + i) % 4, depth + 1, na);
        lemma_tips_hits_mono(n, start, fingers, nf, ls, dirs, np, (rotate + i) % 4, depth + 1, na, c);
        lemma_hits_concat(n, start, fingers, ls, st, rt, true);
        lemma_occ_concat(hits_of(n, start, fingers, ls, st, true), hits_of(n, start, fingers, ls, rt, true), c);
        if i != 2 {
            lemma_hits_concat(n, start, fingers, ls, sf, rf, false);
            lemma_occ_concat(hits_of(n, start, fingers, ls, sf, false), hits_of(n, start, fingers, ls, rf, false), c);
        }
    }
}

/// Allowing the turn-around only adds reachable placements: every square is
/// reached at least as often with it as without it, for any segment lengths
/// `ls`, and so every entry of `can_reach(false)` is at most the same entry
/// of `can_reach(true)` (both give `occ` of `all_hits`).
pub proof fn law_can_reach_monotone(arm: Arm, ls: Seq<usize>, c: Coord)
    ensures
        occ(arm.hits_with(ls, false), c) <= occ(arm.hits_with(ls, true), c),
        occ(arm.all_hits(false), c) <= occ(arm.all_hits(true), c),
{
    lemma_tips_hits_mono(arm.N, arm.start, arm.fingers@, arm.not_finger_arm_num, ls, all_right(ls.len() as int),
        Coord { i: 0, j: 0 }, 0, 0, Seq::empty(), c);
    let l = arm.lengths@;
    lemma_tips_hits_mono(arm.N, arm.start, arm.fingers@, arm.not_finger_arm_num, l, all_right(l.len() as int),
        Coord { i: 0, j: 0 }, 0, 0, Seq::empty(), c);
}

} // verus!
