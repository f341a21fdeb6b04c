//! The nodes of the beam search of the first arm solver and the operation
//! of one turn.
use vstd::prelude::*;
use crate::coord::{Coord, dij5, dij_coord};
use crate::a::state::{
    State, Direction, MoveAction, FingerAction, FingerHas, move_action_to_directon, move_action_to_direction_spec,
    is_base_move, board, copy_board, cand_views,
};
use crate::a::arm::Arm;
use crate::a::input::Input;
use crate::a::state::to_move_direction_spec as to_move_direction_spec_a;
use crate::a::shape::{state_ok, cand_shape, lemma_cands_shape, lemma_move_direction, is_real, all_real};
use crate::ahc038::hash::CalcHash;
use crate::sorting::{sort_pairs, pair_le, pair_order, lemma_pairs_sorted_unique, lemma_map_same_items, lemma_same_items_member};
use crate::fxset::{word_set_new, word_set_insert};

verus! {

/// One turn: the base move followed by the segment rotations with their new
/// directions, and for every segment what its tip does and where.
#[derive(Debug, Clone)]
pub struct Op {
    pub move_actions: Vec<(MoveAction, Direction)>,
    pub finger_actions: Vec<(FingerAction, FingerHas, Coord)>,
}

/// A node of the search: where it came from, its score and hash, and its
/// state.
#[derive(Debug, Clone)]
pub struct Node {
    pub track_id: usize,
    pub score: usize,
    pub hash: usize,
    pub state: State,
}

/// The board after the fingertip actions `acts[..k]`: a grab empties its
/// square (`'0'`), a release fills it (`'1'`).
pub open spec fn board_after(s: Seq<Seq<char>>, acts: Seq<(FingerAction, FingerHas, Coord)>, k: int) -> Seq<Seq<char>>
    decreases k,
{
    if k <= 0 {
        s
    } else {
        let a = acts[k - 1];
        let g = board_after(s, acts, k - 1);
        if a.0 == FingerAction::Grab {
            g.update(a.2.i as int, g[a.2.i as int].update(a.2.j as int, '0'))
        } else if a.0 == FingerAction::Release {
            g.update(a.2.i as int, g[a.2.i as int].update(a.2.j as int, '1'))
        } else {
            g
        }
    }
}

/// Every grab and release among `acts` is on the `n x n` board.
pub open spec fn acts_on_board(acts: Seq<(FingerAction, FingerHas, Coord)>, n: int) -> bool {
    forall|k: int| 0 <= k < acts.len() && ((#[trigger] acts[k]).0 == FingerAction::Grab || acts[k].0 == FingerAction::Release)
        ==> acts[k].2.i < n && acts[k].2.j < n
}

proof fn lemma_board_after_shape(s: Seq<Seq<char>>, acts: Seq<(FingerAction, FingerHas, Coord)>, k: int, n: int)
    requires
        0 <= k <= acts.len(),
        s.len() == n,
        forall|a: int| 0 <= a < n ==> (#[trigger] s[a]).len() == n,
        acts_on_board(acts, n),
    ensures
        board_after(s, acts, k).len() == n,
        forall|a: int| 0 <= a < n ==> (#[trigger] board_after(s, acts, k)[a]).len() == n,
    decreases k,
{
    if k > 0 {
        lemma_board_after_shape(s, acts, k - 1, n);
    }
}

impl Node {
    /// A copy of the node with `cand` carried out (`apply`).
    pub fn new_node(&self, cand: &Cand) -> (r: Node)
        requires
            cand.op.move_actions@.len() >= 1,
            is_base_move(cand.op.move_actions@[0].0),
            forall|a: int| 0 <= a < self.state.S@.len() ==> (#[trigger] self.state.S@[a])@.len() == self.state.S@.len(),
            acts_on_board(cand.op.finger_actions@, self.state.S@.len() as int),
        ensures
            r.track_id == self.track_id,
            r.state.root == self.state.root.add_spec(
                dij_coord(move_action_to_direction_spec(cand.op.move_actions@[0].0).index_spec())),
            r.state.arm_direction@ == cand.op.move_actions@.subrange(1, cand.op.move_actions@.len() as int).map_values(
                |a: (MoveAction, Direction)| a.1),
            r.state.finger_status@ == cand.op.finger_actions@.map_values(
                |a: (FingerAction, FingerHas, Coord)| (a.0, a.1)),
            board(r.state.S@) == board_after(board(self.state.S@), cand.op.finger_actions@, cand.op.finger_actions@.len() as int),
            r.state.S@.len() == self.state.S@.len(),
            r.score == cand.eval_score,
            r.hash == cand.hash,
    {
        let mut ret = copy_node(self);
        proof {
            assert forall|a: int| 0 <= a < ret.state.S@.len() implies (#[trigger] ret.state.S@[a])@.len() == ret.state.S@.len() by {
                assert(board(ret.state.S@)[a] == board(self.state.S@)[a]);
            }
        }
        ret.apply(cand);
        ret
    }

    /// Carries out the operation of `cand`, with its score and hash: the
    /// base makes the move of the first action, the segments take the
    /// directions of the other actions, the fingertips their new statuses,
    /// and grabs and releases change the board.
    pub fn apply(&mut self, cand: &Cand)
        requires
            cand.op.move_actions@.len() >= 1,
            is_base_move(cand.op.move_actions@[0].0),
            forall|a: int| 0 <= a < old(self).state.S@.len() ==> (#[trigger] old(self).state.S@[a])@.len() == old(self).state.S@.len(),
            acts_on_board(cand.op.finger_actions@, old(self).state.S@.len() as int),
        ensures
            final(self).track_id == old(self).track_id,
            final(self).state.root == old(self).state.root.add_spec(
                dij_coord(move_action_to_direction_spec(cand.op.move_actions@[0].0).index_spec())),
            final(self).state.arm_direction@ == cand.op.move_actions@.subrange(1, cand.op.move_actions@.len() as int).map_values(
                |a: (MoveAction, Direction)| a.1),
            final(self).state.finger_status@ == cand.op.finger_actions@.map_values(
                |a: (FingerAction, FingerHas, Coord)| (a.0, a.1)),
            board(final(self).state.S@) == board_after(board(old(self).state.S@), cand.op.finger_actions@, cand.op.finger_actions@.len() as int),
            final(self).state.S@.len() == old(self).state.S@.len(),
            final(self).score == cand.eval_score,
            final(self).hash == cand.hash,
    {
        let op = &cand.op;
        let eval_score = cand.eval_score;
        let hash = cand.hash;
        let n = self.state.S.len();
        let d = move_action_to_directon(op.move_actions[0].0);
        self.state.root = self.state.root.add_wrapping(dij5(d.index()));
        let mut arm_direction: Vec<Direction> = Vec::new();
        let mut k: usize = 1;
        while k < op.move_actions.len()
            invariant
                1 <= k <= op.move_actions@.len(),
                arm_direction@ == op.move_actions@.subrange(1, k as int).map_values(|a: (MoveAction, Direction)| a.1),
            decreases op.move_actions@.len() - k,
        {
            arm_direction.push(op.move_actions[k].1);
            k += 1;
            proof {
                assert(arm_direction@ =~= op.move_actions@.subrange(1, k as int).map_values(|a: (MoveAction, Direction)| a.1));
            }
        }
        self.state.arm_direction = arm_direction;
        let mut finger_status: Vec<(FingerAction, FingerHas)> = Vec::new();
        let ghost s0 = board(self.state.S@);
        let ghost root0 = self.state.root;
        let ghost dirs0 = self.state.arm_direction@;
        let mut k: usize = 0;
        while k < op.finger_actions.len()
            invariant
                n == self.state.S@.len(),
                s0.len() == n,
                forall|a: int| 0 <= a < n ==> (#[trigger] s0[a]).len() == n,
                acts_on_board(op.finger_actions@, n as int),
                0 <= k <= op.finger_actions@.len(),
                finger_status@ == op.finger_actions@.subrange(0, k as int).map_values(
                    |a: (FingerAction, FingerHas, Coord)| (a.0, a.1)),
                board(self.state.S@) == board_after(s0, op.finger_actions@, k as int),
                self.state.root == root0,
                self.state.arm_direction@ == dirs0,
                self.track_id == old(self).track_id,
            decreases op.finger_actions@.len() - k,
        {
            proof {
                lemma_board_after_shape(s0, op.finger_actions@, k as int, n as int);
            }
            let (fa, fh, c) = op.finger_actions[k];
            finger_status.push((fa, fh));
            let ghost before = board(self.state.S@);
            if fa == FingerAction::Grab {
                proof {
                    assert(before[c.i as int] == self.state.S@[c.i as int]@);
                }
                self.state.S[c.i][c.j] = '0';
                proof {
                    assert(board(self.state.S@) =~~= before.update(c.i as int, before[c.i as int].update(c.j as int, '0')));
                }
            } else if fa == FingerAction::Release {
                proof {
                    assert(before[c.i as int] == self.state.S@[c.i as int]@);
                }
                self.state.S[c.i][c.j] = '1';
                proof {
                    assert(board(self.state.S@) =~~= before.update(c.i as int, before[c.i as int].update(c.j as int, '1')));
                }
            }
            k += 1;
            proof {
                assert(finger_status@ =~= op.finger_actions@.subrange(0, k as int).map_values(
                    |a: (FingerAction, FingerHas, Coord)| (a.0, a.1)));
            }
        }
        proof {
            assert(op.finger_actions@.subrange(0, op.finger_actions@.len() as int) =~= op.finger_actions@);
        }
        self.state.finger_status = finger_status;
        self.score = eval_score;
        self.hash = hash;
    }
}

/// A candidate turn: the operation, the node it extends, the score it
/// reaches and the hash of the state it leads to.
#[derive(Debug)]
pub struct Cand {
    pub op: Op,
    pub parent: usize,
    pub eval_score: usize,
    pub hash: usize,
}

/// The search: every step taken so far (the step before it and the
/// operation), the current nodes, and room for the next ones.
#[derive(Debug)]
pub struct BeamSearch {
    pub track: Vec<(usize, Op)>,
    pub nodes: Vec<Node>,
    pub next_nodes: Vec<Node>,
}

/// A candidate as values: parent, score, hash, segment actions, fingertip
/// actions.
pub open spec fn cand_view(c: Cand) -> (usize, usize, usize, Seq<(MoveAction, Direction)>, Seq<(FingerAction, FingerHas, Coord)>) {
    (c.parent, c.eval_score, c.hash, c.op.move_actions@, c.op.finger_actions@)
}

/// The candidates as values.
pub open spec fn cand_seq(cs: Seq<Cand>) -> Seq<(usize, usize, usize, Seq<(MoveAction, Direction)>, Seq<(FingerAction, FingerHas, Coord)>)> {
    cs.map_values(|c: Cand| cand_view(c))
}

/// A copy of an action list.
fn copy_moves(v: &Vec<(MoveAction, Direction)>) -> (r: Vec<(MoveAction, Direction)>)
    ensures
        r@ == v@,
{
    let mut r: Vec<(MoveAction, Direction)> = Vec::new();
    let mut k: usize = 0;
    while k < v.len()
        invariant
            0 <= k <= v@.len(),
            r@ == v@.subrange(0, k as int),
        decreases v@.len() - k,
    {
        r.push(v[k]);
        k += 1;
        proof {
            assert(r@ =~= v@.subrange(0, k as int));
        }
    }
    proof {
        assert(r@ =~= v@);
    }
    r
}

/// A copy of a fingertip action list.
fn copy_fingers(v: &Vec<(FingerAction, FingerHas, Coord)>) -> (r: Vec<(FingerAction, FingerHas, Coord)>)
    ensures
        r@ == v@,
{
    let mut r: Vec<(FingerAction, FingerHas, Coord)> = Vec::new();
    let mut k: usize = 0;
    while k < v.len()
        invariant
            0 <= k <= v@.len(),
            r@ == v@.subrange(0, k as int),
        decreases v@.len() - k,
    {
        r.push(v[k]);
        k += 1;
        proof {
            assert(r@ =~= v@.subrange(0, k as int));
        }
    }
    proof {
        assert(r@ =~= v@);
    }
    r
}

/// A copy of an operation.
pub fn copy_op(op: &Op) -> (r: Op)
    ensures
        r.move_actions@ == op.move_actions@,
        r.finger_actions@ == op.finger_actions@,
{
    Op { move_actions: copy_moves(&op.move_actions), finger_actions: copy_fingers(&op.finger_actions) }
}

/// A copy of a candidate.
pub fn copy_cand(c: &Cand) -> (r: Cand)
    ensures
        cand_view(r) == cand_view(*c),
{
    Cand { op: copy_op(&c.op), parent: c.parent, eval_score: c.eval_score, hash: c.hash }
}

/// A copy of a node.
pub fn copy_node(nd: &Node) -> (r: Node)
    ensures
        r.track_id == nd.track_id,
        r.score == nd.score,
        r.hash == nd.hash,
        r.state.root == nd.state.root,
        r.state.arm_direction@ == nd.state.arm_direction@,
        r.state.finger_status@ == nd.state.finger_status@,
        board(r.state.S@) == board(nd.state.S@),
        r.state.S@.len() == nd.state.S@.len(),
{
    let mut arm_direction: Vec<Direction> = Vec::new();
    let mut k: usize = 0;
    while k < nd.state.arm_direction.len()
        invariant
            0 <= k <= nd.state.arm_direction@.len(),
            arm_direction@ == nd.state.arm_direction@.subrange(0, k as int),
        decreases nd.state.arm_direction@.len() - k,
    {
        arm_direction.push(nd.state.arm_direction[k]);
        k += 1;
        proof {
            assert(arm_direction@ =~= nd.state.arm_direction@.subrange(0, k as int));
        }
    }
    let mut finger_status: Vec<(FingerAction, FingerHas)> = Vec::new();
    let mut k: usize = 0;
    while k < nd.state.finger_status.len()
        invariant
            0 <= k <= nd.state.finger_status@.len(),
            finger_status@ == nd.state.finger_status@.subrange(0, k as int),
        decreases nd.state.finger_status@.len() - k,
    {
        finger_status.push(nd.state.finger_status[k]);
        k += 1;
        proof {
            assert(finger_status@ =~= nd.state.finger_status@.subrange(0, k as int));
        }
    }
    proof {
        assert(arm_direction@ =~= nd.state.arm_direction@);
        assert(finger_status@ =~= nd.state.finger_status@);
    }
    let state = State { root: nd.state.root, arm_direction, finger_status, S: copy_board(&nd.state.S) };
    Node { track_id: nd.track_id, score: nd.score, hash: nd.hash, state }
}

/// The squares that the grabs and releases among `acts[..k]` change, in
/// order.
pub open spec fn changed(acts: Seq<(FingerAction, FingerHas, Coord)>, k: int) -> Seq<Coord>
    decreases k,
{
    if k <= 0 {
        seq![]
    } else if acts[k - 1].0 == FingerAction::Grab || acts[k - 1].0 == FingerAction::Release {
        changed(acts, k - 1).push(acts[k - 1].2)
    } else {
        changed(acts, k - 1)
    }
}

/// Each new segment direction (after the base's action) beside the old
/// one, as far as both go.
pub open spec fn dir_pairs(moves: Seq<(MoveAction, Direction)>, dirs: Seq<Direction>) -> Seq<(Direction, Direction)> {
    let l = if moves.len() - 1 < dirs.len() { moves.len() - 1 } else { dirs.len() as int };
    Seq::new(if l < 0 { 0 } else { l as nat }, |k: int| (moves[k + 1].1, dirs[k]))
}

/// Where a base move takes the base.
pub open spec fn moved_root(root: Coord, m: MoveAction) -> Coord {
    root.add_spec(dij_coord(move_action_to_direction_spec(m).index_spec()))
}

/// The candidate of node `i` for entry `k` of its state's candidates: its
/// score added to the node's, and the node's hash updated with the squares
/// changed, the base move and the new segment directions.
pub open spec fn cand_from(
    nodes: Seq<Node>,
    arm: &Arm,
    t: Seq<Seq<char>>,
    h: &CalcHash,
    i: int,
    k: int,
) -> (usize, usize, usize, Seq<(MoveAction, Direction)>, Seq<(FingerAction, FingerHas, Coord)>) {
    let nd = nodes[i];
    let c = nd.state.cands_spec(arm, t)[k];
    let hash = h.calc_spec(
        nd.hash,
        changed(c.2, c.2.len() as int),
        nd.state.root,
        moved_root(nd.state.root, c.1[0].0),
        dir_pairs(c.1, nd.state.arm_direction@),
    );
    (i as usize, (nd.score + c.0) as usize, hash, c.1, c.2)
}

/// The candidates of node `i`.
pub open spec fn node_cands(
    nodes: Seq<Node>,
    arm: &Arm,
    t: Seq<Seq<char>>,
    h: &CalcHash,
    i: int,
) -> Seq<(usize, usize, usize, Seq<(MoveAction, Direction)>, Seq<(FingerAction, FingerHas, Coord)>)> {
    Seq::new(nodes[i].state.cands_spec(arm, t).len(), |k: int| cand_from(nodes, arm, t, h, i, k))
}

/// The candidates of nodes `0..n`, node by node.
pub open spec fn all_cands(
    nodes: Seq<Node>,
    arm: &Arm,
    t: Seq<Seq<char>>,
    h: &CalcHash,
    n: int,
) -> Seq<(usize, usize, usize, Seq<(MoveAction, Direction)>, Seq<(FingerAction, FingerHas, Coord)>)>
    decreases n,
{
    if n <= 0 { seq![] } else { all_cands(nodes, arm, t, h, n - 1) + node_cands(nodes, arm, t, h, n - 1) }
}

/// A node the search can extend: a valid state (`state_ok`) with the base on
/// the board, hash tables that cover its board, and a score within `cap`.
pub open spec fn node_ok(nd: Node, arm: &Arm, t: Seq<Seq<char>>, h: &CalcHash, cap: int) -> bool {
    &&& state_ok(&nd.state, arm, t)
    &&& nd.state.root.in_map_spec(nd.state.S@.len() as usize)
    &&& h.wf(nd.state.S@.len() as usize, (arm.lengths@.len() + 1) as usize)
    &&& nd.score <= cap
}

/// The steps of the track: every step follows an earlier step (or none).
pub open spec fn track_ok(track: Seq<(usize, Op)>) -> bool {
    forall|t: int| 0 <= t < track.len() ==> {
        let p = (#[trigger] track[t]).0;
        p == usize::MAX || p < t
    }
}

/// The operations of step `t` and of the steps before it, back to the
/// start, as values, in the order taken.
pub open spec fn trail(track: Seq<(usize, Op)>, t: int) -> Seq<(Seq<(MoveAction, Direction)>, Seq<(FingerAction, FingerHas, Coord)>)>
    decreases t,
{
    if 0 <= t < track.len() {
        let p = track[t].0 as int;
        let o = (track[t].1.move_actions@, track[t].1.finger_actions@);
        if p < t { trail(track, p).push(o) } else { seq![o] }
    } else {
        seq![]
    }
}

/// Operations as values.
pub open spec fn op_seq(ops: Seq<Op>) -> Seq<(Seq<(MoveAction, Direction)>, Seq<(FingerAction, FingerHas, Coord)>)> {
    ops.map_values(|o: Op| (o.move_actions@, o.finger_actions@))
}

/// The squares that the grabs and releases of `acts` change, in order.
fn changed_squares(acts: &Vec<(FingerAction, FingerHas, Coord)>) -> (r: Vec<Coord>)
    ensures
        r@ == changed(acts@, acts@.len() as int),
{
    let mut r: Vec<Coord> = Vec::new();
    let mut k: usize = 0;
    while k < acts.len()
        invariant
            0 <= k <= acts@.len(),
            r@ == changed(acts@, k as int),
        decreases acts@.len() - k,
    {
        let (fa, _, c) = acts[k];
        if fa == FingerAction::Grab || fa == FingerAction::Release {
            r.push(c);
        }
        k += 1;
    }
    r
}

/// Every square that `changed` lists is one of a grab or release among
/// `acts[..k]`.
proof fn lemma_changed_on_board(acts: Seq<(FingerAction, FingerHas, Coord)>, k: int, n: int)
    requires
        0 <= k <= acts.len(),
        acts_on_board(acts, n),
    ensures
        forall|j: int| 0 <= j < changed(acts, k).len() ==> (#[trigger] changed(acts, k)[j]).i < n && changed(acts, k)[j].j < n,
    decreases k,
{
    if k > 0 {
        lemma_changed_on_board(acts, k - 1, n);
        let a = acts[k - 1];
        let prev = changed(acts, k - 1);
        if a.0 == FingerAction::Grab || a.0 == FingerAction::Release {
            assert(changed(acts, k) == prev.push(a.2));
            assert(a.2.i < n && a.2.j < n);
            assert forall|j: int| 0 <= j < changed(acts, k).len() implies
                (#[trigger] changed(acts, k)[j]).i < n && changed(acts, k)[j].j < n by {
                if j < prev.len() {
                    assert(changed(acts, k)[j] == prev[j]);
                }
            }
        } else {
            assert(changed(acts, k) == prev);
        }
    }
}

/// `dir_pairs` of the new directions and the old ones.
fn direction_pairs(moves: &Vec<(MoveAction, Direction)>, dirs: &Vec<Direction>) -> (r: Vec<(Direction, Direction)>)
    requires
        moves@.len() >= 1,
    ensures
        r@ == dir_pairs(moves@, dirs@),
{
    let l = if moves.len() - 1 < dirs.len() { moves.len() - 1 } else { dirs.len() };
    let mut r: Vec<(Direction, Direction)> = Vec::new();
    let mut k: usize = 0;
    while k < l
        invariant
            l <= moves@.len() - 1,
            l <= dirs@.len(),
            l == (if moves@.len() - 1 < dirs@.len() { moves@.len() - 1 } else { dirs@.len() as int }),
            0 <= k <= l,
            r@ == Seq::new(k as nat, |q: int| (moves@[q + 1].1, dirs@[q])),
        decreases l - k,
    {
        r.push((moves[k + 1].1, dirs[k]));
        k += 1;
        proof {
            assert(r@ =~= Seq::new(k as nat, |q: int| (moves@[q + 1].1, dirs@[q])));
        }
    }
    proof {
        assert(r@ =~= dir_pairs(moves@, dirs@));
    }
    r
}

/// `cv` is one of the candidates of node `cv.0`.
pub open spec fn cand_ok(
    nodes: Seq<Node>,
    arm: &Arm,
    t: Seq<Seq<char>>,
    h: &CalcHash,
    cv: (usize, usize, usize, Seq<(MoveAction, Direction)>, Seq<(FingerAction, FingerHas, Coord)>),
) -> bool {
    &&& cv.0 < nodes.len()
    &&& exists|k: int| 0 <= k < nodes[cv.0 as int].state.cands_spec(arm, t).len()
        && cv == #[trigger] cand_from(nodes, arm, t, h, cv.0 as int, k)
}

/// Every candidate of nodes `0..n` belongs to its node.
proof fn lemma_all_cands_ok(nodes: Seq<Node>, arm: &Arm, t: Seq<Seq<char>>, h: &CalcHash, n: int)
    requires
        0 <= n <= nodes.len(),
        nodes.len() <= usize::MAX,
    ensures
        forall|j: int| 0 <= j < all_cands(nodes, arm, t, h, n).len() ==>
            cand_ok(nodes, arm, t, h, #[trigger] all_cands(nodes, arm, t, h, n)[j]),
    decreases n,
{
    if n > 0 {
        lemma_all_cands_ok(nodes, arm, t, h, n - 1);
        let a = all_cands(nodes, arm, t, h, n - 1);
        let b = node_cands(nodes, arm, t, h, n - 1);
        assert forall|j: int| 0 <= j < all_cands(nodes, arm, t, h, n).len() implies
            cand_ok(nodes, arm, t, h, #[trigger] all_cands(nodes, arm, t, h, n)[j]) by {
            if j >= a.len() {
                let k = j - a.len();
                assert(all_cands(nodes, arm, t, h, n)[j] == cand_from(nodes, arm, t, h, n - 1, k));
            } else {
                assert(all_cands(nodes, arm, t, h, n)[j] == a[j]);
            }
        }
    }
}

/// The node made from candidate `k` of a valid node is valid again, with a
/// score at most `2 * l` higher.
proof fn lemma_child_ok(
    nodes: Seq<Node>,
    arm: &Arm,
    t: Seq<Seq<char>>,
    h: &CalcHash,
    i: int,
    k: int,
    cap: int,
    nd: Node,
)
    requires
        0 <= i < nodes.len(),
        node_ok(nodes[i], arm, t, h, cap),
        cap + 2 * arm.lengths@.len() <= usize::MAX,
        0 <= k < nodes[i].state.cands_spec(arm, t).len(),
        ({
            let p = nodes[i];
            let w = cand_from(nodes, arm, t, h, i, k);
            &&& nd.state.root == p.state.root.add_spec(dij_coord(move_action_to_direction_spec(w.3[0].0).index_spec()))
            &&& nd.state.arm_direction@ == w.3.subrange(1, w.3.len() as int).map_values(|a: (MoveAction, Direction)| a.1)
            &&& nd.state.finger_status@ == w.4.map_values(|a: (FingerAction, FingerHas, Coord)| (a.0, a.1))
            &&& board(nd.state.S@) == board_after(board(p.state.S@), w.4, w.4.len() as int)
            &&& nd.state.S@.len() == p.state.S@.len()
            &&& nd.score == w.1
        }),
    ensures
        node_ok(nd, arm, t, h, cap + 2 * arm.lengths@.len()),
        nodes[i].state.cands_spec(arm, t)[k].1.len() >= 1,
        is_base_move(nodes[i].state.cands_spec(arm, t)[k].1[0].0),
        acts_on_board(nodes[i].state.cands_spec(arm, t)[k].2, nodes[i].state.S@.len() as int),
{
    let p = nodes[i];
    let st = p.state;
    assert(st.S.len() == st.S@.len());
    let n = st.S@.len() as usize;
    let l = arm.lengths@.len() as int;
    lemma_cands_shape(&st, arm, t);
    let c = st.cands_spec(arm, t)[k];
    assert(cand_shape(st.root, n, l, c));
    let q = choose|q: int| 0 <= q < 5 && st.root.add_spec(dij_coord(q)).in_map_spec(n)
        && c.1[0] == (to_move_direction_spec_a(q), Direction::Neutral);
    lemma_move_direction(q);
    lemma_board_after_shape(board(st.S@), c.2, c.2.len() as int, n as int);
    assert forall|a: int| 0 <= a < nd.state.S@.len() implies (#[trigger] nd.state.S@[a])@.len() == nd.state.S@.len() by {
        assert(board(nd.state.S@)[a] == nd.state.S@[a]@);
        assert(board(st.S@)[a] == st.S@[a]@);
    }
    let dirs = nd.state.arm_direction@.map_values(|d: Direction| (MoveAction::Stay, d));
    assert forall|m: int| 0 <= m < dirs.len() implies is_real((#[trigger] dirs[m]).1) by {
        assert(dirs[m].1 == nd.state.arm_direction@[m]);
        assert(nd.state.arm_direction@[m] == c.1[m + 1].1);
    }
}

/// Node `nd` and step `st` are what candidate `c` (the `i`-th) made in
/// `update`: the node is its parent with the candidate carried out
/// (`Node::apply`) and holds step `base + i`, which follows the parent's
/// step and records the candidate's operation.
pub open spec fn step_made(base: nat, nodes: Seq<Node>, c: Cand, nd: Node, st: (usize, Op), i: int) -> bool {
    let p = nodes[c.parent as int];
    let m = c.op.move_actions@;
    let f = c.op.finger_actions@;
    &&& nd.state.root == p.state.root.add_spec(dij_coord(move_action_to_direction_spec(m[0].0).index_spec()))
    &&& nd.state.arm_direction@ == m.subrange(1, m.len() as int).map_values(|a: (MoveAction, Direction)| a.1)
    &&& nd.state.finger_status@ == f.map_values(|a: (FingerAction, FingerHas, Coord)| (a.0, a.1))
    &&& board(nd.state.S@) == board_after(board(p.state.S@), f, f.len() as int)
    &&& nd.state.S@.len() == p.state.S@.len()
    &&& nd.score == c.eval_score
    &&& nd.hash == c.hash
    &&& nd.track_id == base + i
    &&& st.0 == nodes[c.parent as int].track_id
    &&& st.1.move_actions@ == c.op.move_actions@
    &&& st.1.finger_actions@ == c.op.finger_actions@
}

/// A candidate as values (see `cand_view`).
pub type CandView = (usize, usize, usize, Seq<(MoveAction, Direction)>, Seq<(FingerAction, FingerHas, Coord)>);

/// The sort key (the score, negated) of each candidate with its place.
pub open spec fn view_keys(cs: Seq<CandView>) -> Seq<(i64, usize)> {
    Seq::new(cs.len(), |j: int| (-(cs[j].1 as int) as i64, j as usize))
}

/// `cs` by falling score, candidates of equal score in their order in `cs`.
pub open spec fn sorted_views(cs: Seq<CandView>) -> Seq<CandView> {
    view_keys(cs).sort_by(pair_order()).map_values(|pr: (i64, usize)| cs[pr.1 as int])
}

/// Sorts `cands` by falling score; candidates of equal score keep their
/// order.
pub fn sort_cands(cands: &mut Vec<Cand>)
    requires
        forall|j: int| 0 <= j < old(cands)@.len() ==> (#[trigger] old(cands)@[j]).eval_score <= usize::MAX / 2,
    ensures
        cand_seq(final(cands)@) == sorted_views(cand_seq(old(cands)@)),
        cand_seq(final(cands)@).to_multiset() == cand_seq(old(cands)@).to_multiset(),
        forall|i: int, j: int| 0 <= i < j < final(cands)@.len() ==>
            (#[trigger] final(cands)@[i]).eval_score >= (#[trigger] final(cands)@[j]).eval_score,
{
    let ghost c0 = cand_seq(cands@);
    let n = cands.len();
    let mut pairs: Vec<(i64, usize)> = Vec::new();
    let mut i: usize = 0;
    while i < n
        invariant
            n == c0.len(),
            c0 == cand_seq(cands@),
            cands@.len() == n,
            forall|j: int| 0 <= j < n ==> (#[trigger] cands@[j]).eval_score <= usize::MAX / 2,
            0 <= i <= n,
            pairs@ == Seq::new(i as nat, |j: int| (-(c0[j].1 as int) as i64, j as usize)),
        decreases n - i,
    {
        let e = cands[i].eval_score as i64;
        pairs.push((-e, i));
        i += 1;
        proof {
            assert(pairs@ =~= Seq::new(i as nat, |j: int| (-(c0[j].1 as int) as i64, j as usize)));
        }
    }
    let ghost p0 = pairs@;
    proof {
        assert(p0 =~= view_keys(c0));
    }
    sort_pairs(&mut pairs);
    let ghost q = pairs@;
    proof {
        lemma_pairs_sorted_unique(p0, q);
    }
    proof {
        broadcast use vstd::seq_lib::group_to_multiset_ensures;
        assert forall|j: int| 0 <= j < q.len() implies (#[trigger] q[j]).1 < n && q[j] == p0[q[j].1 as int] by {
            assert(q.contains(q[j]));
            assert(p0.to_multiset().count(q[j]) > 0);
            assert(p0.contains(q[j]));
        }
    }
    let mut out: Vec<Cand> = Vec::new();
    let mut k: usize = 0;
    while k < n
        invariant
            n == c0.len(),
            c0 == cand_seq(cands@),
            cands@.len() == n,
            pairs@ == q,
            q.len() == n,
            forall|j: int| 0 <= j < q.len() ==> (#[trigger] q[j]).1 < n && q[j] == p0[q[j].1 as int],
            0 <= k <= n,
            cand_seq(out@) == q.subrange(0, k as int).map_values(|pr: (i64, usize)| c0[pr.1 as int]),
        decreases n - k,
    {
        let idx = pairs[k].1;
        let c = copy_cand(&cands[idx]);
        let ghost before = out@;
        out.push(c);
        k += 1;
        proof {
            assert(cand_seq(out@) =~= cand_seq(before).push(c0[idx as int]));
            assert(cand_seq(out@) =~= q.subrange(0, k as int).map_values(|pr: (i64, usize)| c0[pr.1 as int]));
        }
    }
    proof {
        let g = |pr: (i64, usize)| c0[pr.1 as int];
        assert(q.subrange(0, n as int) =~= q);
        assert(cand_seq(out@) =~= sorted_views(c0));
        assert(p0.map_values(g) =~= c0);
        lemma_map_same_items(q, p0, g);
        assert forall|i: int, j: int| 0 <= i < j < out@.len() implies
            (#[trigger] out@[i]).eval_score >= (#[trigger] out@[j]).eval_score by {
            assert(pair_le(q[i], q[j]));
            assert(cand_seq(out@)[i] == c0[q[i].1 as int]);
            assert(cand_seq(out@)[j] == c0[q[j].1 as int]);
        }
    }
    *cands = out;
}

/// No candidate before `k` has the hash of candidate `k`.
pub open spec fn fresh_hash(cands: Seq<Cand>, k: int) -> bool {
    forall|m: int| 0 <= m < k ==> (#[trigger] cands[m]).hash != cands[k].hash
}

/// The positions of the candidates kept from `cands[..n]`: in order, each
/// whose hash no earlier candidate has, until `width` are kept.
pub open spec fn selected(cands: Seq<Cand>, width: nat, n: int) -> Seq<int>
    decreases n,
{
    if n <= 0 {
        seq![]
    } else {
        let prev = selected(cands, width, n - 1);
        if prev.len() < width && fresh_hash(cands, n - 1) { prev.push(n - 1) } else { prev }
    }
}

proof fn lemma_selected_positions(cands: Seq<Cand>, width: nat, n: int)
    requires
        0 <= n,
    ensures
        selected(cands, width, n).len() <= width,
        forall|j: int| 0 <= j < selected(cands, width, n).len() ==> 0 <= #[trigger] selected(cands, width, n)[j] < n,
    decreases n,
{
    if n > 0 {
        lemma_selected_positions(cands, width, n - 1);
    }
}

proof fn lemma_selected_full(cands: Seq<Cand>, width: nat, k: int, n: int)
    requires
        0 <= k <= n,
        selected(cands, width, k).len() >= width,
    ensures
        selected(cands, width, n) == selected(cands, width, k),
    decreases n - k,
{
    if n > k {
        lemma_selected_full(cands, width, k, n - 1);
    }
}

/// No candidate before `k` has the hash of candidate `k` (as values).
pub open spec fn fresh_view(cs: Seq<CandView>, k: int) -> bool {
    forall|m: int| 0 <= m < k ==> (#[trigger] cs[m]).2 != cs[k].2
}

/// `selected` on candidates as values.
pub open spec fn selected_views(cs: Seq<CandView>, width: nat, n: int) -> Seq<int>
    decreases n,
{
    if n <= 0 {
        seq![]
    } else {
        let prev = selected_views(cs, width, n - 1);
        if prev.len() < width && fresh_view(cs, n - 1) { prev.push(n - 1) } else { prev }
    }
}

/// `selected` depends on the candidates' values alone.
proof fn lemma_selected_views(cands: Seq<Cand>, width: nat, n: int)
    requires
        0 <= n <= cands.len(),
    ensures
        selected(cands, width, n) == selected_views(cand_seq(cands), width, n),
    decreases n,
{
    if n > 0 {
        lemma_selected_views(cands, width, n - 1);
        let cs = cand_seq(cands);
        assert(fresh_hash(cands, n - 1) == fresh_view(cs, n - 1)) by {
            assert forall|m: int| 0 <= m < n - 1 implies (#[trigger] cands[m]).hash == cs[m].2 by {}
            assert(cands[n - 1].hash == cs[n - 1].2);
        }
    }
}

/// `step_made` on a candidate as values.
pub open spec fn step_made_view(base: nat, nodes: Seq<Node>, c: CandView, nd: Node, st: (usize, Op), i: int) -> bool {
    let p = nodes[c.0 as int];
    let m = c.3;
    let f = c.4;
    &&& nd.state.root == p.state.root.add_spec(dij_coord(move_action_to_direction_spec(m[0].0).index_spec()))
    &&& nd.state.arm_direction@ == m.subrange(1, m.len() as int).map_values(|a: (MoveAction, Direction)| a.1)
    &&& nd.state.finger_status@ == f.map_values(|a: (FingerAction, FingerHas, Coord)| (a.0, a.1))
    &&& board(nd.state.S@) == board_after(board(p.state.S@), f, f.len() as int)
    &&& nd.state.S@.len() == p.state.S@.len()
    &&& nd.score == c.1
    &&& nd.hash == c.2
    &&& nd.track_id == base + i
    &&& st.0 == nodes[c.0 as int].track_id
    &&& st.1.move_actions@ == c.3
    &&& st.1.finger_actions@ == c.4
}

/// One round of the search, from nodes `a` with track `ta` and the best
/// score `sa` of the round before, to nodes `b` with track `tb` and best
/// score `sb`: the candidates of `a` by falling score (`sorted_views`) are
/// not empty and `sa` is not `necessary`; `sb` is the first score; `b`
/// holds the nodes made (as `update` makes them) from the first
/// candidates of distinct hash, `nn` of them when the best score did not
/// rise and `width` otherwise, each recorded as a new step of the track.
#[verifier::opaque]
pub open spec fn beam_round(a: Seq<Node>, ta: Seq<(usize, Op)>, sa: usize, b: Seq<Node>, tb: Seq<(usize, Op)>, sb: usize,
    arm: &Arm, t: Seq<Seq<char>>, h: &CalcHash, width: nat, nn: nat, necessary: usize) -> bool {
    let cs = sorted_views(all_cands(a, arm, t, h, a.len() as int));
    let take: nat = if cs[0].1 == sa { nn } else { width };
    let sel = selected_views(cs, take, cs.len() as int);
    &&& cs.len() > 0
    &&& sa != necessary
    &&& sb == cs[0].1
    &&& b.len() == sel.len()
    &&& tb.len() == ta.len() + sel.len()
    &&& forall|j: int| 0 <= j < ta.len() ==> #[trigger] tb[j] == ta[j]
    &&& forall|j: int| 0 <= j < sel.len() ==> step_made_view(ta.len(), a, cs[sel[j]], #[trigger] b[j], tb[ta.len() + j], j)
}

/// The search stops at nodes `a` after a round of best score `sa`: no
/// candidate is left, or `sa` is `necessary`.
pub open spec fn beam_stops(a: Seq<Node>, sa: usize, arm: &Arm, t: Seq<Seq<char>>, h: &CalcHash, necessary: usize) -> bool {
    sorted_views(all_cands(a, arm, t, h, a.len() as int)).len() == 0 || sa == necessary
}

/// What `solve` finds in a round that goes on, and what `update` makes of
/// it, is a `beam_round`.
proof fn lemma_round(a: Seq<Node>, ta: Seq<(usize, Op)>, sa: usize, b: Seq<Node>, tb: Seq<(usize, Op)>, sb: usize,
    arm: &Arm, t: Seq<Seq<char>>, h: &CalcHash, width: nat, nn: nat, necessary: usize, cands: Seq<Cand>, sel: Seq<Cand>,
    take: nat)
    requires
        cand_seq(cands) == sorted_views(all_cands(a, arm, t, h, a.len() as int)),
        cands.len() > 0,
        sa != necessary,
        sb == cands[0].eval_score,
        take == (if sb == sa { nn } else { width }),
        cand_seq(sel) == selected(cands, take, cands.len() as int).map_values(|j: int| cand_view(cands[j])),
        b.len() == sel.len(),
        tb.len() == ta.len() + sel.len(),
        forall|j: int| 0 <= j < ta.len() ==> #[trigger] tb[j] == ta[j],
        forall|j: int| 0 <= j < sel.len() ==> step_made(ta.len(), a, #[trigger] sel[j], b[j], tb[ta.len() + j], j),
    ensures
        beam_round(a, ta, sa, b, tb, sb, arm, t, h, width, nn, necessary),
{
    reveal(beam_round);
    let cs = cand_seq(cands);
    lemma_selected_views(cands, take, cands.len() as int);
    let sp = selected_views(cs, take, cs.len() as int);
    assert(cs[0] == cand_view(cands[0]));
    assert(sp.len() == cand_seq(sel).len());
    assert forall|j: int| 0 <= j < sp.len() implies step_made_view(ta.len(), a, cs[sp[j]], #[trigger] b[j], tb[ta.len() + j], j) by {
        lemma_selected_positions(cands, take, cands.len() as int);
        assert(0 <= sp[j] < cands.len());
        assert(cand_seq(sel)[j] == cand_view(sel[j]));
        assert(cand_seq(sel)[j] == cand_view(cands[sp[j]]));
        assert(cs[sp[j]] == cand_view(cands[sp[j]]));
        assert(step_made(ta.len(), a, sel[j], b[j], tb[ta.len() + j], j));
    }
}

/// `hist` lists the nodes, the track and the best score of a search of at
/// most `depth` rounds, round after round (`beam_round`), up to its last
/// nodes: those of round `depth`, or where the search stops (`beam_stops`).
pub open spec fn beam_history(hist: Seq<(Seq<Node>, Seq<(usize, Op)>, usize)>, arm: &Arm, t: Seq<Seq<char>>,
    h: &CalcHash, width: nat, nn: nat, necessary: usize, depth: nat) -> bool {
    &&& 1 <= hist.len() <= depth
    &&& forall|q: int| #![trigger hist[q]] 0 <= q < hist.len() - 1 ==> beam_round(hist[q].0, hist[q].1, hist[q].2,
        hist[q + 1].0, hist[q + 1].1, hist[q + 1].2, arm, t, h, width, nn, necessary)
    &&& (hist.len() == depth || beam_stops(hist.last().0, hist.last().2, arm, t, h, necessary))
}

/// Of `cs[..m]`, the place of the last highest score.
pub open spec fn best_last(cs: Seq<CandView>, m: int) -> int
    decreases m,
{
    if m <= 1 {
        0
    } else {
        let b = best_last(cs, m - 1);
        if cs[m - 1].1 >= cs[b].1 { m - 1 } else { b }
    }
}

/// Copies of the candidates to keep: in order, each whose hash no earlier
/// candidate has, at most `width` of them (`selected`).
pub fn select_cands(cands: &Vec<Cand>, width: usize) -> (r: Vec<Cand>)
    ensures
        cand_seq(r@) == selected(cands@, width as nat, cands@.len() as int).map_values(|j: int| cand_view(cands@[j])),
{
    let mut set = word_set_new();
    let mut out: Vec<Cand> = Vec::new();
    let mut k: usize = 0;
    while k < cands.len()
        invariant
            0 <= k <= cands@.len(),
            cand_seq(out@) == selected(cands@, width as nat, k as int).map_values(|j: int| cand_view(cands@[j])),
            out@.len() < width ==> forall|h: usize| set@.contains(h) <==> exists|m: int| 0 <= m < k && (#[trigger] cands@[m]).hash == h,
        decreases cands@.len() - k,
    {
        if out.len() >= width {
            proof {
                assert(cand_seq(out@).len() == out@.len());
                assert(selected(cands@, width as nat, k as int).len() == out@.len());
                lemma_selected_full(cands@, width as nat, k as int, cands@.len() as int);
            }
            k = cands.len();
        } else {
            let h = cands[k].hash;
            let fresh = word_set_insert(&mut set, h);
            proof {
                if fresh {
                    assert forall|m: int| 0 <= m < k implies (#[trigger] cands@[m]).hash != cands@[k as int].hash by {
                        if cands@[m].hash == h {
                            assert(set@.contains(h));
                        }
                    }
                } else {
                    let m = choose|m: int| 0 <= m < k && (#[trigger] cands@[m]).hash == h;
                    assert(!fresh_hash(cands@, k as int));
                }
            }
            let ghost before = out@;
            if fresh {
                let c = copy_cand(&cands[k]);
                out.push(c);
                proof {
                    assert(cand_seq(out@) =~= cand_seq(before).push(cand_view(cands@[k as int])));
                }
            }
            k += 1;
            proof {
                assert(cand_seq(out@) =~= selected(cands@, width as nat, k as int).map_values(|j: int| cand_view(cands@[j])));
                assert forall|g: usize| set@.contains(g) <==> exists|m: int| 0 <= m < k && (#[trigger] cands@[m]).hash == g by {
                    if g == h {
                        assert(cands@[k - 1].hash == g);
                    } else if set@.contains(g) {
                        let m = choose|m: int| 0 <= m < k - 1 && (#[trigger] cands@[m]).hash == g;
                    }
                }
            }
        }
    }
    out
}

/// The score that a candidate of nodes within `cap` reaches is within
/// `cap + 2 * l`.
proof fn lemma_cands_score(nodes: Seq<Node>, arm: &Arm, t: Seq<Seq<char>>, h: &CalcHash, cap: int)
    requires
        nodes.len() <= usize::MAX,
        forall|i: int| 0 <= i < nodes.len() ==> node_ok(#[trigger] nodes[i], arm, t, h, cap),
        cap + 2 * arm.lengths@.len() <= usize::MAX,
    ensures
        forall|j: int| 0 <= j < all_cands(nodes, arm, t, h, nodes.len() as int).len() ==> {
            let cv = #[trigger] all_cands(nodes, arm, t, h, nodes.len() as int)[j];
            &&& cand_ok(nodes, arm, t, h, cv)
            &&& cv.1 <= cap + 2 * arm.lengths@.len()
        },
{
    let all = all_cands(nodes, arm, t, h, nodes.len() as int);
    lemma_all_cands_ok(nodes, arm, t, h, nodes.len() as int);
    assert forall|j: int| 0 <= j < all.len() implies {
        let cv = #[trigger] all[j];
        &&& cand_ok(nodes, arm, t, h, cv)
        &&& cv.1 <= cap + 2 * arm.lengths@.len()
    } by {
        let cv = all[j];
        let i = cv.0 as int;
        let k = choose|k: int| 0 <= k < nodes[i].state.cands_spec(arm, t).len() && cv == #[trigger] cand_from(nodes, arm, t, h, i, k);
        let st = nodes[i].state;
        assert(st.S.len() == st.S@.len());
        lemma_cands_shape(&st, arm, t);
        assert(cand_shape(st.root, st.S@.len() as usize, arm.lengths@.len() as int, st.cands_spec(arm, t)[k]));
    }
}

/// A search within one score bound is within any larger one.
proof fn lemma_wf_mono(b: &BeamSearch, arm: &Arm, t: Seq<Seq<char>>, h: &CalcHash, c1: int, c2: int)
    requires
        b.wf(arm, t, h, c1),
        c1 <= c2,
    ensures
        b.wf(arm, t, h, c2),
{
    assert forall|i: int| 0 <= i < b.nodes@.len() implies node_ok(#[trigger] b.nodes@[i], arm, t, h, c2) by {
        assert(node_ok(b.nodes@[i], arm, t, h, c1));
    }
}

impl BeamSearch {
    /// A search that starts from `node` alone, with no step taken.
    pub fn new(node: Node) -> (b: BeamSearch)
        ensures
            b.nodes@ == seq![node],
            b.track@.len() == 0,
            b.next_nodes@.len() == 0,
    {
        let mut nodes: Vec<Node> = Vec::new();
        nodes.push(node);
        BeamSearch { nodes, track: Vec::new(), next_nodes: Vec::new() }
    }

    /// Appends the candidates of node `parent_idx` to `cands`.
    pub fn append_cands(
        &self,
        input: &Input,
        parent_idx: usize,
        cands: &mut Vec<Cand>,
        _rng: &mut rand_pcg::Mcg128Xsl64,
        arm: &Arm,
        calc_hash: &CalcHash,
    )
        requires
            parent_idx < self.nodes@.len(),
            node_ok(self.nodes@[parent_idx as int], arm, board(input.T@), calc_hash,
                (usize::MAX - 2 * arm.lengths@.len()) as int),
        ensures
            cand_seq(final(cands)@) == cand_seq(old(cands)@) + node_cands(self.nodes@, arm, board(input.T@), calc_hash, parent_idx as int),
    {
        let ghost t = board(input.T@);
        let ghost l = arm.lengths@.len() as int;
        let parent_node = &self.nodes[parent_idx];
        let parent_hash = parent_node.hash;
        let ghost st = parent_node.state;
        let nn = parent_node.state.S.len();
        let ghost n = nn;
        proof {
            lemma_cands_shape(&st, arm, t);
        }
        let cs = parent_node.state.cand(arm, &input.T);
        let ghost spec_cs = st.cands_spec(arm, t);
        let ghost start = cand_seq(cands@);
        let ghost want = node_cands(self.nodes@, arm, t, calc_hash, parent_idx as int);
        let mut k: usize = 0;
        while k < cs.len()
            invariant
                cand_views(cs@) == spec_cs,
                spec_cs == st.cands_spec(arm, t),
                st == self.nodes@[parent_idx as int].state,
                *parent_node == self.nodes@[parent_idx as int],
                parent_hash == self.nodes@[parent_idx as int].hash,
                parent_idx < self.nodes@.len(),
                node_ok(self.nodes@[parent_idx as int], arm, t, calc_hash, usize::MAX - 2 * l),
                l == arm.lengths@.len(),
                n == st.S@.len(),
                t == board(input.T@),
                forall|j: int| 0 <= j < spec_cs.len() ==> cand_shape(st.root, n, l, #[trigger] spec_cs[j]),
                want == node_cands(self.nodes@, arm, t, calc_hash, parent_idx as int),
                0 <= k <= cs@.len(),
                cand_seq(cands@) == start + want.subrange(0, k as int),
            decreases cs@.len() - k,
        {
            let ghost c = spec_cs[k as int];
            proof {
                assert(cand_views(cs@)[k as int] == c);
                assert(cand_shape(st.root, n, l, c));
            }
            let score = cs[k].0;
            let arm_moves = &cs[k].1;
            let finger = &cs[k].2;
            let ghost q = choose|q: int| 0 <= q < 5 && st.root.add_spec(dij_coord(q)).in_map_spec(n)
                && c.1[0] == (to_move_direction_spec_a(q), Direction::Neutral);
            proof {
                lemma_move_direction(q);
            }
            let parent_root_pos = parent_node.state.root;
            let first = arm_moves[0].0;
            let child_root_pos = parent_root_pos.add_wrapping(dij5(move_action_to_directon(first).index()));
            let field_change_coords = changed_squares(finger);
            let arm_direction_changes = direction_pairs(arm_moves, &parent_node.state.arm_direction);
            proof {
                lemma_changed_on_board(c.2, c.2.len() as int, n as int);
                let dp = dir_pairs(c.1, st.arm_direction@);
                assert forall|j: int| 0 <= j < dp.len() implies is_real((#[trigger] dp[j]).0) && is_real(dp[j].1) by {
                    assert(is_real(c.1[j + 1].1));
                    let e = st.arm_direction@.map_values(|d: Direction| (MoveAction::Stay, d))[j];
                }
            }
            let hash = calc_hash.calc(parent_hash, &field_change_coords, parent_root_pos, child_root_pos, &arm_direction_changes);
            let cand = Cand {
                op: Op { move_actions: copy_moves(arm_moves), finger_actions: copy_fingers(finger) },
                parent: parent_idx,
                eval_score: parent_node.score + score,
                hash,
            };
            let ghost cv = cand_view(cand);
            let ghost before = cands@;
            cands.push(cand);
            k += 1;
            proof {
                assert(cand_seq(cands@) =~= cand_seq(before).push(cv));
                let w = cand_from(self.nodes@, arm, t, calc_hash, parent_idx as int, k - 1);
                assert(want[k - 1] == w);
                assert(cand.op.move_actions@ == w.3);
                assert(cand.op.finger_actions@ == w.4);
                assert(cand.eval_score == w.1);
                assert(child_root_pos == moved_root(st.root, c.1[0].0));
                assert(field_change_coords@ == changed(c.2, c.2.len() as int));
                assert(arm_direction_changes@ == dir_pairs(c.1, st.arm_direction@));
                assert(parent_hash == self.nodes@[parent_idx as int].hash);
                assert(parent_root_pos == st.root);
                assert(cand.hash == w.2);
                assert(cv == want[k - 1]);
                assert(cand_seq(cands@) =~= start + want.subrange(0, k as int));
            }
        }
        proof {
            assert(want.subrange(0, k as int) =~= want);
        }
    }

    /// The invariant of the search: every node is valid with a score within
    /// `cap` (`node_ok`) and holds a step of the track (or none), and the
    /// track is well formed.
    pub open spec fn wf(&self, arm: &Arm, t: Seq<Seq<char>>, h: &CalcHash, cap: int) -> bool {
        &&& forall|i: int| 0 <= i < self.nodes@.len() ==> node_ok(#[trigger] self.nodes@[i], arm, t, h, cap)
        &&& self.links_ok()
    }

    /// Every node holds a step of the track (or none), and every step of the
    /// track follows an earlier step (or none).
    pub open spec fn links_ok(&self) -> bool {
        &&& forall|i: int| 0 <= i < self.nodes@.len() ==> {
            let id = (#[trigger] self.nodes@[i]).track_id;
            id == usize::MAX || id < self.track@.len()
        }
        &&& track_ok(self.track@)
    }

    /// The candidates of all current nodes.
    pub open spec fn cands_spec(&self, arm: &Arm, t: Seq<Seq<char>>, h: &CalcHash)
        -> Seq<(usize, usize, usize, Seq<(MoveAction, Direction)>, Seq<(FingerAction, FingerHas, Coord)>)> {
        all_cands(self.nodes@, arm, t, h, self.nodes@.len() as int)
    }

    /// The operations that candidate `c` stands for: those that made its
    /// node, then its own.
    pub open spec fn plan(
        &self,
        c: (usize, usize, usize, Seq<(MoveAction, Direction)>, Seq<(FingerAction, FingerHas, Coord)>),
    ) -> Seq<(Seq<(MoveAction, Direction)>, Seq<(FingerAction, FingerHas, Coord)>)> {
        trail(self.track@, self.nodes@[c.0 as int].track_id as int).push((c.3, c.4))
    }

    /// Appends the candidates of every node, node by node, to `cands`.
    pub fn enum_cands(
        &self,
        input: &Input,
        cands: &mut Vec<Cand>,
        _rng: &mut rand_pcg::Mcg128Xsl64,
        arm: &Arm,
        calc_hash: &CalcHash,
    )
        requires
            forall|i: int| 0 <= i < self.nodes@.len() ==> node_ok(#[trigger] self.nodes@[i], arm, board(input.T@),
                calc_hash, (usize::MAX - 2 * arm.lengths@.len()) as int),
        ensures
            cand_seq(final(cands)@) == cand_seq(old(cands)@) + self.cands_spec(arm, board(input.T@), calc_hash),
    {
        let ghost start = cand_seq(cands@);
        let ghost t = board(input.T@);
        let mut i: usize = 0;
        while i < self.nodes.len()
            invariant
                t == board(input.T@),
                forall|i: int| 0 <= i < self.nodes@.len() ==> node_ok(#[trigger] self.nodes@[i], arm, t,
                    calc_hash, (usize::MAX - 2 * arm.lengths@.len()) as int),
                0 <= i <= self.nodes@.len(),
                cand_seq(cands@) == start + all_cands(self.nodes@, arm, t, calc_hash, i as int),
            decreases self.nodes@.len() - i,
        {
            self.append_cands(input, i, cands, _rng, arm, calc_hash);
            i += 1;
            proof {
                assert(cand_seq(cands@) =~= start + all_cands(self.nodes@, arm, t, calc_hash, i as int));
            }
        }
    }

    /// Replaces the nodes by one per candidate of `cands`, in order: the
    /// parent's state with the candidate carried out, each recorded as a new
    /// step of the track (after the parent's step). The old nodes move to
    /// `next_nodes`.
    pub fn update(&mut self, cands: &Vec<Cand>, Ghost(arm): Ghost<&Arm>, Ghost(t): Ghost<Seq<Seq<char>>>,
        Ghost(h): Ghost<&CalcHash>, Ghost(cap): Ghost<int>)
        requires
            old(self).wf(arm, t, h, cap),
            cap + 2 * arm.lengths@.len() <= usize::MAX,
            forall|j: int| 0 <= j < cands@.len() ==> cand_ok(old(self).nodes@, arm, t, h, cand_view(#[trigger] cands@[j])),
            old(self).track@.len() + cands@.len() < usize::MAX,
        ensures
            final(self).wf(arm, t, h, cap + 2 * arm.lengths@.len()),
            final(self).next_nodes@ == old(self).nodes@,
            final(self).nodes@.len() == cands@.len(),
            final(self).track@.len() == old(self).track@.len() + cands@.len(),
            forall|j: int| 0 <= j < old(self).track@.len() ==> #[trigger] final(self).track@[j] == old(self).track@[j],
            forall|j: int| 0 <= j < cands@.len() ==> step_made(old(self).track@.len(), old(self).nodes@,
                #[trigger] cands@[j], final(self).nodes@[j], final(self).track@[old(self).track@.len() + j], j),
    {
        let ghost old_track = self.track@;
        let ghost old_nodes = self.nodes@;
        let ghost l = arm.lengths@.len() as int;
        self.next_nodes.clear();
        let mut j: usize = 0;
        while j < cands.len()
            invariant
                self.nodes@ == old_nodes,
                forall|i: int| 0 <= i < old_nodes.len() ==> node_ok(#[trigger] old_nodes[i], arm, t, h, cap),
                forall|i: int| 0 <= i < old_nodes.len() ==> {
                    let id = (#[trigger] old_nodes[i]).track_id;
                    id == usize::MAX || id < old_track.len()
                },
                track_ok(old_track),
                cap + 2 * l <= usize::MAX,
                l == arm.lengths@.len(),
                forall|i: int| 0 <= i < cands@.len() ==> cand_ok(old_nodes, arm, t, h, cand_view(#[trigger] cands@[i])),
                old_track.len() + cands@.len() < usize::MAX,
                0 <= j <= cands@.len(),
                self.track@.len() == old_track.len() + j,
                forall|i: int| 0 <= i < old_track.len() ==> #[trigger] self.track@[i] == old_track[i],
                self.next_nodes@.len() == j,
                forall|i: int| 0 <= i < j ==> step_made(old_track.len(), old_nodes, #[trigger] cands@[i],
                    self.next_nodes@[i], self.track@[old_track.len() + i], i),
                forall|i: int| 0 <= i < j ==> node_ok(#[trigger] self.next_nodes@[i], arm, t, h, cap + 2 * l),
            decreases cands@.len() - j,
        {
            let cand = &cands[j];
            let ghost cv = cand_view(*cand);
            let ghost k = choose|k: int| 0 <= k < old_nodes[cv.0 as int].state.cands_spec(arm, t).len()
                && cv == #[trigger] cand_from(old_nodes, arm, t, h, cv.0 as int, k);
            let parent_node = &self.nodes[cand.parent];
            proof {
                let p = old_nodes[cv.0 as int];
                lemma_cands_shape(&p.state, arm, t);
                let c = p.state.cands_spec(arm, t)[k];
                assert(cand_shape(p.state.root, p.state.S@.len() as usize, l, c));
                let q = choose|q: int| 0 <= q < 5 && p.state.root.add_spec(dij_coord(q)).in_map_spec(p.state.S@.len() as usize)
                    && c.1[0] == (to_move_direction_spec_a(q), Direction::Neutral);
                lemma_move_direction(q);
            }
            let mut new_node = parent_node.new_node(cand);
            proof {
                lemma_child_ok(old_nodes, arm, t, h, cv.0 as int, k, cap, new_node);
            }
            let ghost before_track = self.track@;
            self.track.push((parent_node.track_id, copy_op(&cand.op)));
            new_node.track_id = self.track.len() - 1;
            let ghost nn = new_node;
            let ghost prev = self.next_nodes@;
            self.next_nodes.push(new_node);
            j += 1;
            proof {
                assert forall|i: int| 0 <= i < old_track.len() implies #[trigger] self.track@[i] == old_track[i] by {
                    assert(self.track@[i] == before_track[i]);
                }
                assert forall|i: int| 0 <= i < j implies step_made(old_track.len(), old_nodes, #[trigger] cands@[i],
                    self.next_nodes@[i], self.track@[old_track.len() + i], i) by {
                    if i < j - 1 {
                        assert(self.next_nodes@[i] == prev[i]);
                        assert(self.track@[old_track.len() + i] == before_track[old_track.len() + i]);
                    } else {
                        assert(self.next_nodes@[i] == nn);
                    }
                }
                assert forall|i: int| 0 <= i < j implies node_ok(#[trigger] self.next_nodes@[i], arm, t, h, cap + 2 * l) by {
                    if i < j - 1 {
                        assert(self.next_nodes@[i] == prev[i]);
                    } else {
                        assert(self.next_nodes@[i] == nn);
                    }
                }
            }
        }
        std::mem::swap(&mut self.nodes, &mut self.next_nodes);
        proof {
            assert forall|q: int| 0 <= q < self.track@.len() implies {
                let p = (#[trigger] self.track@[q]).0;
                p == usize::MAX || p < q
            } by {
                if q >= old_track.len() {
                    let c = cands@[q - old_track.len()];
                    let nd = self.nodes@[q - old_track.len()];
                    assert(step_made(old_track.len(), old_nodes, c, nd, self.track@[q], q - old_track.len()));
                    let id = old_nodes[c.parent as int].track_id;
                    assert(cand_ok(old_nodes, arm, t, h, cand_view(c)));
                } else {
                    assert(self.track@[q] == old_track[q]);
                }
            }
            assert forall|i: int| 0 <= i < self.nodes@.len() implies node_ok(#[trigger] self.nodes@[i], arm, t, h, cap + 2 * l) by {
                let c = cands@[i];
            }
            assert forall|i: int| 0 <= i < self.nodes@.len() implies {
                let id = (#[trigger] self.nodes@[i]).track_id;
                id == usize::MAX || id < self.track@.len()
            } by {
                let c = cands@[i];
                assert(step_made(old_track.len(), old_nodes, c, self.nodes@[i], self.track@[old_track.len() + i], i));
            }
        }
    }

    /// The operations that made node `idx`, in the order taken.
    pub fn restore(&self, idx: usize) -> (r: Vec<Op>)
        requires
            self.links_ok(),
            idx < self.nodes@.len(),
        ensures
            op_seq(r@) == trail(self.track@, self.nodes@[idx as int].track_id as int),
    {
        let mut idx: usize = self.nodes[idx].track_id;
        let tl: usize = self.track.len();
        let ghost t0 = idx as int;
        let mut rev: Vec<Op> = Vec::new();
        while idx != usize::MAX
            invariant
                track_ok(self.track@),
                idx == usize::MAX || idx < self.track@.len(),
                tl == self.track@.len(),
                trail(self.track@, t0) == trail(self.track@, idx as int) + op_seq(rev@).reverse(),
            decreases (if idx == usize::MAX { 0 } else { idx as int + 1 }),
        {
            let p = self.track[idx].0;
            let op = copy_op(&self.track[idx].1);
            let ghost o = (op.move_actions@, op.finger_actions@);
            proof {
                let tr = trail(self.track@, p as int);
                if p == usize::MAX {
                    assert(tr =~= seq![]);
                    assert(seq![o] =~= tr.push(o));
                }
                assert(trail(self.track@, idx as int) == tr.push(o));
                assert(op_seq(rev@.push(op)) =~= op_seq(rev@).push(o));
                assert(op_seq(rev@).push(o).reverse() =~= seq![o] + op_seq(rev@).reverse());
                assert(tr.push(o) + op_seq(rev@).reverse() =~= tr + op_seq(rev@.push(op)).reverse());
            }
            rev.push(op);
            idx = p;
        }
        let mut ret: Vec<Op> = Vec::new();
        let n = rev.len();
        let mut k: usize = 0;
        while k < n
            invariant
                n == rev@.len(),
                0 <= k <= n,
                op_seq(ret@) == op_seq(rev@).reverse().subrange(0, k as int),
            decreases n - k,
        {
            let op = copy_op(&rev[n - 1 - k]);
            let ghost before = ret@;
            ret.push(op);
            k += 1;
            proof {
                assert(op_seq(ret@) =~= op_seq(before).push((op.move_actions@, op.finger_actions@)));
                assert(op_seq(ret@) =~= op_seq(rev@).reverse().subrange(0, k as int));
            }
        }
        proof {
            assert(op_seq(ret@) =~= op_seq(rev@).reverse());
            assert(trail(self.track@, usize::MAX as int) =~= seq![]);
            assert(trail(self.track@, t0) =~= op_seq(rev@).reverse());
        }
        ret
    }

    /// Runs the search: in each of `depth` rounds after the first, the
    /// candidates are sorted by falling score; the search stops when the best
    /// score of the round before reached `necessary_score` (or no candidate
    /// is left); otherwise the first candidates of distinct hash become the
    /// next nodes: `width` of them, or `N / 2 * N / 2` when the best score
    /// did not rise. Each round ends by gathering the candidates of the
    /// nodes (`beam_history` lists the rounds). The result is the plan of a
    /// last candidate of the highest score (the last such in the order the
    /// candidates were last left in), `None` when there is none.
    pub fn solve(
        &mut self,
        width: usize,
        depth: usize,
        input: &Input,
        rng: &mut rand_pcg::Mcg128Xsl64,
        arm: &Arm,
        calc_hash: &CalcHash,
        necessary_score: usize,
    ) -> (r: Option<Vec<Op>>)
        requires
            (depth + 1) * 2 * arm.lengths@.len() <= usize::MAX / 2,
            old(self).wf(arm, board(input.T@), calc_hash, usize::MAX / 2 - (depth + 1) * 2 * arm.lengths@.len()),
            input.N * input.N <= usize::MAX,
            old(self).track@.len() + depth * (width + input.N * input.N) < usize::MAX,
        ensures
            final(self).wf(arm, board(input.T@), calc_hash, (usize::MAX / 2) as int),
            depth == 0 ==> r is None,
            depth > 0 ==> (r is None <==> final(self).cands_spec(arm, board(input.T@), calc_hash).len() == 0),
            r matches Some(ops) ==> {
                let all = final(self).cands_spec(arm, board(input.T@), calc_hash);
                exists|j: int| 0 <= j < all.len() && op_seq(ops@) == final(self).plan(#[trigger] all[j])
                    && forall|m: int| 0 <= m < all.len() ==> all[j].1 >= (#[trigger] all[m]).1
            },
            depth > 0 ==> exists|hist: Seq<(Seq<Node>, Seq<(usize, Op)>, usize)>| {
                &&& #[trigger] beam_history(hist, arm, board(input.T@), calc_hash, width as nat,
                    (input.N / 2 * input.N / 2) as nat, necessary_score, depth as nat)
                &&& hist[0] == (old(self).nodes@, old(self).track@, 0usize)
                &&& hist.last().0 == final(self).nodes@
                &&& hist.last().1 == final(self).track@
                &&& ({
                    let all = final(self).cands_spec(arm, board(input.T@), calc_hash);
                    let fin = if hist.len() < depth { sorted_views(all) } else { all };
                    &&& (r is None <==> fin.len() == 0)
                    &&& (r matches Some(ops) ==> op_seq(ops@) == final(self).plan(fin[best_last(fin, fin.len() as int)]))
                })
            },
    {
        let ghost t = board(input.T@);
        let ghost l = arm.lengths@.len() as int;
        let ghost cap0 = usize::MAX / 2 - (depth + 1) * 2 * l;
        let ghost base = self.track@.len();
        proof {
            assert(input.N / 2 * input.N <= input.N * input.N) by (nonlinear_arith)
                requires input.N / 2 <= input.N;
            assert(2 * l <= (depth + 1) * 2 * l) by (nonlinear_arith)
                requires l >= 0, depth >= 0;
        }
        let nn = input.N / 2 * input.N / 2;
        let mut cands: Vec<Cand> = Vec::new();
        let mut before_score: usize = 0;
        let ghost mut cur_cap: int = cap0;
        let mut tt: usize = 0;
        let ghost mut hist: Seq<(Seq<Node>, Seq<(usize, Op)>, usize)> = seq![(self.nodes@, self.track@, 0usize)];
        while tt < depth
            invariant_except_break
                tt > 0 ==> cand_seq(cands@) == self.cands_spec(arm, t, calc_hash),
            invariant
                t == board(input.T@),
                l == arm.lengths@.len(),
                cap0 == usize::MAX / 2 - (depth + 1) * 2 * l,
                2 * l <= usize::MAX / 2,
                0 <= tt <= depth,
                cur_cap == cap0 + 2 * l * tt,
                cur_cap <= usize::MAX / 2 - 2 * l,
                self.wf(arm, t, calc_hash, cur_cap),
                nn <= input.N * input.N,
                base + depth * (width + input.N * input.N) < usize::MAX,
                self.track@.len() <= base + tt * (width + input.N * input.N),
                tt == 0 ==> cands@.len() == 0,
                tt > 0 ==> cand_seq(cands@).to_multiset() == self.cands_spec(arm, t, calc_hash).to_multiset(),
                hist.len() >= 1,
                tt == 0 ==> hist.len() == 1,
                tt > 0 ==> hist.len() == tt,
                hist[0] == (old(self).nodes@, old(self).track@, 0usize),
                hist.last() == (self.nodes@, self.track@, before_score),
                nn == input.N / 2 * input.N / 2,
                forall|q: int| #![trigger hist[q]] 0 <= q < hist.len() - 1 ==> beam_round(hist[q].0, hist[q].1, hist[q].2,
                    hist[q + 1].0, hist[q + 1].1, hist[q + 1].2, arm, t, calc_hash, width as nat, nn as nat, necessary_score),
            ensures
                self.wf(arm, t, calc_hash, (usize::MAX / 2) as int),
                depth > 0 ==> cand_seq(cands@).to_multiset() == self.cands_spec(arm, t, calc_hash).to_multiset(),
                depth == 0 ==> cands@.len() == 0,
                depth > 0 ==> beam_history(hist, arm, t, calc_hash, width as nat, nn as nat, necessary_score, depth as nat),
                depth > 0 && hist.len() < depth ==> cand_seq(cands@) == sorted_views(self.cands_spec(arm, t, calc_hash)),
                depth > 0 && hist.len() == depth ==> cand_seq(cands@) == self.cands_spec(arm, t, calc_hash),
                hist[0] == (old(self).nodes@, old(self).track@, 0usize),
                hist.last().0 == self.nodes@,
                hist.last().1 == self.track@,
            decreases depth - tt,
        {
            proof {
                assert(2 * l * tt + 2 * l <= (depth + 1) * 2 * l - 2 * l) by (nonlinear_arith)
                    requires tt < depth, l >= 0;
            }
            if tt != 0 {
                let nl = self.nodes.len();
                proof {
                    broadcast use vstd::seq_lib::group_to_multiset_ensures;
                    lemma_cands_score(self.nodes@, arm, t, calc_hash, cur_cap);
                    let all = self.cands_spec(arm, t, calc_hash);
                    assert forall|j: int| 0 <= j < cands@.len() implies (#[trigger] cands@[j]).eval_score <= usize::MAX / 2 by {
                        let cv = cand_seq(cands@)[j];
                        assert(cand_seq(cands@).contains(cv));
                        lemma_same_items_member(cand_seq(cands@), all, cv);
                        let q = choose|q: int| 0 <= q < all.len() && all[q] == cv;
                    }
                }
                sort_cands(&mut cands);
                if cands.len() == 0 {
                    proof {
                        lemma_wf_mono(self, arm, t, calc_hash, cur_cap, (usize::MAX / 2) as int);
                    }
                    break;
                }
                let best_score = cands[0].eval_score;
                if before_score == necessary_score {
                    proof {
                        lemma_wf_mono(self, arm, t, calc_hash, cur_cap, (usize::MAX / 2) as int);
                    }
                    break;
                }
                let take = if best_score == before_score { nn } else { width };
                let ghost a = self.nodes@;
                let ghost ta = self.track@;
                let ghost sa = before_score;
                let sel = select_cands(&cands, take);
                proof {
                    broadcast use vstd::seq_lib::group_to_multiset_ensures;
                    lemma_cands_score(self.nodes@, arm, t, calc_hash, cur_cap);
                    lemma_selected_positions(cands@, take as nat, cands@.len() as int);
                    let all = self.cands_spec(arm, t, calc_hash);
                    let sp = selected(cands@, take as nat, cands@.len() as int);
                    assert forall|j: int| 0 <= j < sel@.len() implies cand_ok(self.nodes@, arm, t, calc_hash, cand_view(#[trigger] sel@[j])) by {
                        assert(cand_seq(sel@).len() == sel@.len());
                        assert(cand_seq(sel@) == sp.map_values(|q: int| cand_view(cands@[q])));
                        assert(j < sp.len());
                        assert(0 <= sp[j] < cands@.len());
                        assert(cand_seq(sel@)[j] == cand_view(cands@[sp[j]]));
                        let cv = cand_seq(cands@)[sp[j]];
                        assert(cand_seq(cands@).contains(cv));
                        lemma_same_items_member(cand_seq(cands@), all, cv);
                        let q = choose|q: int| 0 <= q < all.len() && all[q] == cv;
                    }
                    assert(sel@.len() == cand_seq(sel@).len());
                    assert(tt * (width + input.N * input.N) + (width + input.N * input.N) <= depth * (width + input.N * input.N)) by (nonlinear_arith)
                        requires tt < depth;
                }
                self.update(&sel, Ghost(arm), Ghost(t), Ghost(calc_hash), Ghost(cur_cap));
                before_score = best_score;
                proof {
                    lemma_round(a, ta, sa, self.nodes@, self.track@, before_score, arm, t, calc_hash, width as nat, nn as nat,
                        necessary_score, cands@, sel@, take as nat);
                    let h0 = hist;
                    hist = hist.push((self.nodes@, self.track@, before_score));
                    assert forall|q: int| #![trigger hist[q]] 0 <= q < hist.len() - 1 implies beam_round(hist[q].0, hist[q].1,
                        hist[q].2, hist[q + 1].0, hist[q + 1].1, hist[q + 1].2, arm, t, calc_hash, width as nat, nn as nat,
                        necessary_score) by {
                        if q < h0.len() - 1 {
                            assert(hist[q] == h0[q] && hist[q + 1] == h0[q + 1]);
                        } else {
                            assert(hist[q] == h0.last());
                        }
                    }
                }
            } else {
                proof {
                    lemma_wf_mono(self, arm, t, calc_hash, cur_cap, cur_cap + 2 * l);
                }
            }
            cands.clear();
            proof {
                lemma_wf_mono(self, arm, t, calc_hash, cur_cap + 2 * l, (usize::MAX - 2 * l) as int);
            }
            self.enum_cands(input, &mut cands, rng, arm, calc_hash);
            tt += 1;
            proof {
                cur_cap = cur_cap + 2 * l;
                assert(cand_seq(cands@) =~= self.cands_spec(arm, t, calc_hash));
                assert(2 * l * tt == 2 * l * (tt - 1) + 2 * l) by (nonlinear_arith);
                assert(tt * (width + input.N * input.N) == (tt - 1) * (width + input.N * input.N) + (width + input.N * input.N)) by (nonlinear_arith);
                if tt == depth {
                    lemma_wf_mono(self, arm, t, calc_hash, cur_cap, (usize::MAX / 2) as int);
                }
            }
        }
        let ghost all0 = self.cands_spec(arm, t, calc_hash);
        let ghost fin = if hist.len() < depth { sorted_views(all0) } else { all0 };
        proof {
            if depth > 0 {
                assert(cand_seq(cands@) == fin);
                assert(beam_history(hist, arm, t, calc_hash, width as nat, nn as nat, necessary_score, depth as nat));
                assert(beam_history(hist, arm, board(input.T@), calc_hash, width as nat,
                    (input.N / 2 * input.N / 2) as nat, necessary_score, depth as nat));
                assert(hist[0] == (old(self).nodes@, old(self).track@, 0usize));
                assert(hist.last().0 == self.nodes@ && hist.last().1 == self.track@);
            }
        }
        if cands.len() == 0 {
            proof {
                broadcast use vstd::seq_lib::group_to_multiset_ensures;
                if depth > 0 {
                    assert(cand_seq(cands@).len() == 0);
                    assert(self.cands_spec(arm, t, calc_hash).to_multiset().len() == 0);
                }
            }
            return None;
        }
        let mut best: usize = 0;
        let mut m: usize = 1;
        while m < cands.len()
            invariant
                0 <= best < m <= cands@.len(),
                forall|i: int| 0 <= i < m ==> cands@[best as int].eval_score >= (#[trigger] cands@[i]).eval_score,
                best == best_last(cand_seq(cands@), m as int),
            decreases cands@.len() - m,
        {
            if cands[m].eval_score >= cands[best].eval_score {
                best = m;
            }
            m += 1;
        }
        let ghost all = self.cands_spec(arm, t, calc_hash);
        let ghost bv = cand_view(cands@[best as int]);
        let nl = self.nodes.len();
        proof {
            broadcast use vstd::seq_lib::group_to_multiset_ensures;
            lemma_cands_score(self.nodes@, arm, t, calc_hash, (usize::MAX / 2) as int);
            assert(cand_seq(cands@)[best as int] == bv);
            assert(cand_seq(cands@).contains(bv));
            lemma_same_items_member(cand_seq(cands@), all, bv);
        }
        let parent = cands[best].parent;
        let mut ret = self.restore(parent);
        let op = copy_op(&cands[best].op);
        let ghost before = ret@;
        ret.push(op);
        proof {
            assert(op_seq(ret@) =~= op_seq(before).push((bv.3, bv.4)));
            let j = choose|j: int| 0 <= j < all.len() && all[j] == bv;
            assert forall|q: int| 0 <= q < all.len() implies all[j].1 >= (#[trigger] all[q]).1 by {
                lemma_same_items_member(all, cand_seq(cands@), all[q]);
                let i2 = choose|i2: int| 0 <= i2 < cand_seq(cands@).len() && cand_seq(cands@)[i2] == all[q];
                assert(cands@[best as int].eval_score >= cands@[i2].eval_score);
            }
            assert(op_seq(ret@) == self.plan(all[j]));
            if depth > 0 {
                assert(cand_seq(cands@)[best as int] == bv);
                assert(op_seq(ret@) == self.plan(fin[best_last(fin, fin.len() as int)]));
            }
        }
        Some(ret)
    }
}

} // verus!