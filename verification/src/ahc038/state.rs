//! Move and rotation encodings of the arm, and the search state.
use vstd::prelude::*;
use crate::coord::{Coord, dij5, dij_coord};
use crate::ahc038::arm::{tips_from, branches, tip_views, stride, turned, rot_sum, occ};
use crate::ahc038::hash::{CalcHash, field_flip, arm_flip, min_len};
use crate::ahc038::input::{Input, rows};
use crate::fxset::{square_set_new, square_set_insert, square_set_remove, square_set_contains};
use rustc_hash::FxHashSet;
use crate::text::chars_to_string;

verus! {

/// A direction that an arm segment points to (or `Neutral` for the base).
#[derive(Debug, Clone, Copy, PartialEq, Eq, Structural, PartialOrd, Ord)]
pub enum Direction {
    Right,
    Down,
    Left,
    Up,
    Neutral,
}

impl Direction {
    pub open spec fn index_spec(self) -> int {
        match self {
            Direction::Right => 0,
            Direction::Down => 1,
            Direction::Left => 2,
            Direction::Up => 3,
            Direction::Neutral => 4,
        }
    }

    /// The discriminant of the direction (`dir as usize`).
    pub fn index(self) -> (k: usize)
        ensures
            k == self.index_spec(),
    {
        match self {
            Direction::Right => 0,
            Direction::Down => 1,
            Direction::Left => 2,
            Direction::Up => 3,
            Direction::Neutral => 4,
        }
    }
}

pub open spec fn to_direction_spec(x: int) -> Direction {
    if x == 0 {
        Direction::Right
    } else if x == 1 {
        Direction::Down
    } else if x == 2 {
        Direction::Left
    } else {
        Direction::Up
    }
}

/// The direction with discriminant `x` (0 Right, 1 Down, 2 Left, 3 Up).
pub fn to_direction(x: usize) -> (d: Direction)
    requires
        x < 4,
    ensures
        d == to_direction_spec(x as int),
        d.index_spec() == x,
{
    if x == 0 {
        Direction::Right
    } else if x == 1 {
        Direction::Down
    } else if x == 2 {
        Direction::Left
    } else {
        Direction::Up
    }
}

/// An action of a segment: a rotation (Stay, Right, Opposite, Left) or a move
/// of the base (Right, Down, Left, Up, Stay).
#[derive(Debug, Clone, Copy, PartialEq, Eq, Structural, PartialOrd, Ord)]
pub enum MoveAction {
    Stay,
    Right,
    Opposite,
    Left,
    Down,
    Up,
}

impl MoveAction {
    pub open spec fn index_spec(self) -> int {
        match self {
            MoveAction::Stay => 0,
            MoveAction::Right => 1,
            MoveAction::Opposite => 2,
            MoveAction::Left => 3,
            MoveAction::Down => 4,
            MoveAction::Up => 5,
        }
    }

    /// The discriminant of the action (`action as usize`).
    pub fn index(self) -> (k: usize)
        ensures
            k == self.index_spec(),
    {
        match self {
            MoveAction::Stay => 0,
            MoveAction::Right => 1,
            MoveAction::Opposite => 2,
            MoveAction::Left => 3,
            MoveAction::Down => 4,
            MoveAction::Up => 5,
        }
    }
}

pub open spec fn to_rotate_direction_spec(x: int) -> MoveAction {
    if x == 0 {
        MoveAction::Stay
    } else if x == 1 {
        MoveAction::Right
    } else if x == 2 {
        MoveAction::Opposite
    } else {
        MoveAction::Left
    }
}

/// The rotation by `x` quarter turns clockwise (0 Stay, 1 Right, 2 Opposite,
/// 3 Left).
pub fn to_rotate_direction(x: usize) -> (a: MoveAction)
    requires
        x < 4,
    ensures
        a == to_rotate_direction_spec(x as int),
        a.index_spec() == x,
{
    if x == 0 {
        MoveAction::Stay
    } else if x == 1 {
        MoveAction::Right
    } else if x == 2 {
        MoveAction::Opposite
    } else {
        MoveAction::Left
    }
}

pub open spec fn to_move_direction_spec(x: int) -> MoveAction {
    if x == 0 {
        MoveAction::Right
    } else if x == 1 {
        MoveAction::Down
    } else if x == 2 {
        MoveAction::Left
    } else if x == 3 {
        MoveAction::Up
    } else {
        MoveAction::Stay
    }
}

/// The base move along the `x`-th unit step (0 Right, 1 Down, 2 Left, 3 Up,
/// 4 stay).
pub fn to_move_direction(x: usize) -> (a: MoveAction)
    requires
        x < 5,
    ensures
        a == to_move_direction_spec(x as int),
        move_action_to_direction_spec(a).index_spec() == x,
{
    if x == 0 {
        MoveAction::Right
    } else if x == 1 {
        MoveAction::Down
    } else if x == 2 {
        MoveAction::Left
    } else if x == 3 {
        MoveAction::Up
    } else {
        MoveAction::Stay
    }
}

/// Whether `x` is a move of the base (every action but `Opposite`).
pub open spec fn is_base_move(x: MoveAction) -> bool {
    x != MoveAction::Opposite
}

pub open spec fn move_action_to_direction_spec(x: MoveAction) -> Direction {
    match x {
        MoveAction::Right => Direction::Right,
        MoveAction::Down => Direction::Down,
        MoveAction::Left => Direction::Left,
        MoveAction::Up => Direction::Up,
        _ => Direction::Neutral,
    }
}

/// The direction in which a base move goes (`Neutral` for staying put).
pub fn move_action_to_direction(x: MoveAction) -> (d: Direction)
    requires
        is_base_move(x),
    ensures
        d == move_action_to_direction_spec(x),
{
    match x {
        MoveAction::Right => Direction::Right,
        MoveAction::Down => Direction::Down,
        MoveAction::Left => Direction::Left,
        MoveAction::Up => Direction::Up,
        _ => Direction::Neutral,
    }
}

/// What a fingertip does in a turn.
#[derive(Debug, Clone, Copy, PartialEq, Eq, Structural, PartialOrd, Ord)]
pub enum FingerAction {
    Idle,
    Init,
    Grab,
    Release,
}

/// Whether a fingertip holds a takoyaki.
#[derive(Debug, Clone, Copy, PartialEq, Eq, Structural, PartialOrd, Ord)]
pub enum FingerHas {
    NotHas,
    Has,
}

/// One turn: the base move followed by the segment rotations with their new
/// directions, and for every segment what its tip does and where.
#[derive(Debug, Clone)]
pub struct Op {
    pub move_actions: Vec<(MoveAction, Direction)>,
    pub finger_actions: Vec<(FingerAction, FingerHas, Coord)>,
}

/// The character of a direction in the answer (`.` for none).
pub open spec fn dir_char(d: Direction) -> char {
    match d {
        Direction::Right => 'R',
        Direction::Down => 'D',
        Direction::Left => 'L',
        Direction::Up => 'U',
        Direction::Neutral => '.',
    }
}

/// The character of a fingertip action: `P` to grab or release, else `.`.
pub open spec fn finger_char(a: FingerAction) -> char {
    if a == FingerAction::Grab || a == FingerAction::Release { 'P' } else { '.' }
}

/// The answer line of a turn: a character per move (the base move, then the
/// rotations, `L`/`R` or `.`), `.` for the base, a character per fingertip.
pub open spec fn op_text(op: &Op) -> Seq<char> {
    op.move_actions@.map_values(|a: (MoveAction, Direction)| dir_char(move_action_to_direction_spec(a.0))) + seq!['.']
        + op.finger_actions@.map_values(|f: (FingerAction, FingerHas, Coord)| finger_char(f.0))
}

/// The characters of the answer for the directions Right, Down, Left, Up
/// and none, in the order of `Direction::index_spec`.
pub open spec fn dir_letters() -> Seq<char> {
    seq!['R', 'D', 'L', 'U', '.']
}

/// Each character of the answer line names what it stands for: the `k`-th
/// move is written as the letter of its direction (`R`, `D`, `L`, `U`, or
/// `.` for none), then comes `.` for the base, then `P` for each fingertip
/// that grabs or releases and `.` for the others.
pub proof fn law_line_names_moves(op: &Op)
    ensures
        op_text(op).len() == op.move_actions@.len() + 1 + op.finger_actions@.len(),
        forall|k: int| 0 <= k < op.move_actions@.len() ==> #[trigger] op_text(op)[k]
            == dir_letters()[move_action_to_direction_spec(op.move_actions@[k].0).index_spec()],
        op_text(op)[op.move_actions@.len() as int] == '.',
        forall|k: int| 0 <= k < op.finger_actions@.len() ==> (#[trigger] op_text(op)[op.move_actions@.len() + 1 + k] == 'P'
            <==> (op.finger_actions@[k].0 == FingerAction::Grab || op.finger_actions@[k].0 == FingerAction::Release)),
{
    let m = op.move_actions@.len() as int;
    assert forall|k: int| 0 <= k < op.finger_actions@.len() implies (#[trigger] op_text(op)[m + 1 + k] == 'P'
        <==> (op.finger_actions@[k].0 == FingerAction::Grab || op.finger_actions@[k].0 == FingerAction::Release)) by {
        assert(op_text(op)[m + 1 + k] == finger_char(op.finger_actions@[k].0));
    }
}

impl Op {
    /// The answer line of the turn: `op_text`.
    pub fn line(&self) -> (s: String)
        requires
            forall|k: int| 0 <= k < self.move_actions@.len() ==> is_base_move((#[trigger] self.move_actions@[k]).0),
        ensures
            s@ == op_text(self),
    {
        let mut out: Vec<char> = Vec::new();
        let mut k: usize = 0;
        while k < self.move_actions.len()
            invariant
                forall|k: int| 0 <= k < self.move_actions@.len() ==> is_base_move((#[trigger] self.move_actions@[k]).0),
                0 <= k <= self.move_actions@.len(),
                out@ == self.move_actions@.subrange(0, k as int).map_values(
                    |a: (MoveAction, Direction)| dir_char(move_action_to_direction_spec(a.0))),
            decreases self.move_actions@.len() - k,
        {
            let d = move_action_to_direction(self.move_actions[k].0);
            let c = match d {
                Direction::Right => 'R',
                Direction::Down => 'D',
                Direction::Left => 'L',
                Direction::Up => 'U',
                Direction::Neutral => '.',
            };
            out.push(c);
            k += 1;
            proof {
                assert(out@ =~= self.move_actions@.subrange(0, k as int).map_values(
                    |a: (MoveAction, Direction)| dir_char(move_action_to_direction_spec(a.0))));
            }
        }
        out.push('.');
        let ghost head = out@;
        let mut k: usize = 0;
        while k < self.finger_actions.len()
            invariant
                0 <= k <= self.finger_actions@.len(),
                out@ == head + self.finger_actions@.subrange(0, k as int).map_values(
                    |f: (FingerAction, FingerHas, Coord)| finger_char(f.0)),
            decreases self.finger_actions@.len() - k,
        {
            let a = self.finger_actions[k].0;
            out.push(if a == FingerAction::Grab || a == FingerAction::Release { 'P' } else { '.' });
            k += 1;
            proof {
                assert(out@ =~= head + self.finger_actions@.subrange(0, k as int).map_values(
                    |f: (FingerAction, FingerHas, Coord)| finger_char(f.0)));
            }
        }
        proof {
            assert(self.move_actions@.subrange(0, self.move_actions@.len() as int) =~= self.move_actions@);
            assert(self.finger_actions@.subrange(0, self.finger_actions@.len() as int) =~= self.finger_actions@);
            assert(out@ =~= op_text(self));
        }
        chars_to_string(&out)
    }
}

/// A copy of a turn.
pub fn copy_op(op: &Op) -> (c: Op)
    ensures
        c.move_actions@ == op.move_actions@,
        c.finger_actions@ == op.finger_actions@,
{
    let mut ma: Vec<(MoveAction, Direction)> = Vec::new();
    let mut k: usize = 0;
    while k < op.move_actions.len()
        invariant
            0 <= k <= op.move_actions@.len(),
            ma@ == op.move_actions@.subrange(0, k as int),
        decreases op.move_actions@.len() - k,
    {
        let (a, d) = op.move_actions[k];
        ma.push((a, d));
        k += 1;
        proof {
            assert(ma@ =~= op.move_actions@.subrange(0, k as int));
        }
    }
    let mut fa: Vec<(FingerAction, FingerHas, Coord)> = Vec::new();
    let mut k: usize = 0;
    while k < op.finger_actions.len()
        invariant
            0 <= k <= op.finger_actions@.len(),
            fa@ == op.finger_actions@.subrange(0, k as int),
        decreases op.finger_actions@.len() - k,
    {
        let (a, h, c) = op.finger_actions[k];
        fa.push((a, h, c));
        k += 1;
        proof {
            assert(fa@ =~= op.finger_actions@.subrange(0, k as int));
        }
    }
    proof {
        assert(ma@ =~= op.move_actions@);
        assert(fa@ =~= op.finger_actions@);
    }
    Op { move_actions: ma, finger_actions: fa }
}

/// Segment `j` turns around in turn `i` and stays still in the turn before.
pub open spec fn turns_around(ops: Seq<Op>, i: int, j: int) -> bool {
    1 <= i < ops.len() && 0 <= j < ops[i].move_actions@.len() && ops[i].move_actions@[j].0 == MoveAction::Opposite
}

/// The action of segment `j` in turn `i` once every turn-around is written
/// as two quarter turns to the left: in its own turn and in the one before.
pub open spec fn resolved_action(ops: Seq<Op>, i: int, j: int) -> (MoveAction, Direction) {
    let a = ops[i].move_actions@[j];
    if turns_around(ops, i, j) || turns_around(ops, i + 1, j) { (MoveAction::Left, a.1) } else { a }
}

/// Replaces each turn-around (after the first turn) by two quarter turns to
/// the left, the first one in the turn before, where that segment stayed
/// still: `resolved_action`.
pub fn resolve_opposite(ops: &mut Vec<Op>)
    requires
        forall|i: int, j: int| turns_around(old(ops)@, i, j) ==> j < old(ops)@[i - 1].move_actions@.len()
            && (#[trigger] old(ops)@[i - 1].move_actions@[j]).0 == MoveAction::Stay,
    ensures
        final(ops)@.len() == old(ops)@.len(),
        forall|i: int| 0 <= i < old(ops)@.len() ==> (#[trigger] final(ops)@[i]).finger_actions@ == old(ops)@[i].finger_actions@
            && final(ops)@[i].move_actions@ == Seq::new(old(ops)@[i].move_actions@.len(), |j: int| resolved_action(old(ops)@, i, j)),
{
    let ghost o = ops@;
    let mut i: usize = 1;
    proof {
        assert forall|q: int| 0 <= q < ops@.len() implies (#[trigger] ops@[q]).finger_actions@ == o[q].finger_actions@
            && ops@[q].move_actions@.len() == o[q].move_actions@.len() by {}
    }
    while i < ops.len()
        invariant
            forall|i: int, j: int| turns_around(o, i, j) ==> j < o[i - 1].move_actions@.len()
                && (#[trigger] o[i - 1].move_actions@[j]).0 == MoveAction::Stay,
            ops@.len() == o.len(),
            1 <= i <= ops@.len() || ops@.len() == 0,
            forall|q: int| 0 <= q < ops@.len() ==> (#[trigger] ops@[q]).finger_actions@ == o[q].finger_actions@
                && ops@[q].move_actions@.len() == o[q].move_actions@.len(),
            forall|q: int, j: int| 0 <= q < ops@.len() && 0 <= j < o[q].move_actions@.len() ==>
                (#[trigger] ops@[q].move_actions@[j]) == if q < i - 1 {
                    resolved_action(o, q, j)
                } else if q == i - 1 {
                    if turns_around(o, q, j) { (MoveAction::Left, o[q].move_actions@[j].1) } else { o[q].move_actions@[j] }
                } else {
                    o[q].move_actions@[j]
                },
        decreases ops@.len() - i,
    {
        let mut j: usize = 0;
        let mut cur = copy_op(&ops[i]);
        let mut prev = copy_op(&ops[i - 1]);
        while j < cur.move_actions.len()
            invariant
                forall|i: int, j: int| turns_around(o, i, j) ==> j < o[i - 1].move_actions@.len()
                    && (#[trigger] o[i - 1].move_actions@[j]).0 == MoveAction::Stay,
                ops@.len() == o.len(),
                1 <= i < ops@.len(),
                cur.move_actions@.len() == o[i as int].move_actions@.len(),
                prev.move_actions@.len() == o[i - 1].move_actions@.len(),
                cur.finger_actions@ == o[i as int].finger_actions@,
                prev.finger_actions@ == o[i - 1].finger_actions@,
                0 <= j <= cur.move_actions@.len(),
                forall|k: int| 0 <= k < cur.move_actions@.len() ==> (#[trigger] cur.move_actions@[k]) == if k < j {
                    if turns_around(o, i as int, k) { (MoveAction::Left, o[i as int].move_actions@[k].1) } else { o[i as int].move_actions@[k] }
                } else {
                    o[i as int].move_actions@[k]
                },
                forall|k: int| 0 <= k < prev.move_actions@.len() ==> (#[trigger] prev.move_actions@[k]) == if k < j && turns_around(o, i as int, k) {
                    (MoveAction::Left, o[i - 1].move_actions@[k].1)
                } else if turns_around(o, i - 1, k) {
                    (MoveAction::Left, o[i - 1].move_actions@[k].1)
                } else {
                    o[i - 1].move_actions@[k]
                },
            decreases cur.move_actions@.len() - j,
        {
            let (a, d) = cur.move_actions[j];
            if a == MoveAction::Opposite {
                proof {
                    assert(turns_around(o, i as int, j as int));
                    assert(j < o[i - 1].move_actions@.len());
                    assert(o[i - 1].move_actions@[j as int].0 == MoveAction::Stay);
                    assert(!turns_around(o, i - 1, j as int));
                }
                cur.move_actions.set(j, (MoveAction::Left, d));
                let (_, pd) = prev.move_actions[j];
                prev.move_actions.set(j, (MoveAction::Left, pd));
            }
            j += 1;
        }
        proof {
            assert forall|k: int| 0 <= k < prev.move_actions@.len() implies (#[trigger] prev.move_actions@[k]) == resolved_action(o, i - 1, k) by {
                if turns_around(o, i as int, k) {
                    assert(k < o[i as int].move_actions@.len());
                }
            }
        }
        ops.set(i - 1, prev);
        ops.set(i, cur);
        i += 1;
    }
    proof {
        assert forall|i: int| 0 <= i < o.len() implies (#[trigger] ops@[i]).finger_actions@ == o[i].finger_actions@
            && ops@[i].move_actions@ == Seq::new(o[i].move_actions@.len(), |j: int| resolved_action(o, i, j)) by {
            assert(ops@[i].move_actions@ =~= Seq::new(o[i].move_actions@.len(), |j: int| resolved_action(o, i, j)));
        }
    }
}

/// The search state: the base on `root`, segment `k` pointing to
/// `arm_direction[k]`, fingertip `k` in `finger_status[k]`, the squares
/// that hold a takoyaki, the score so far and the hash.
#[derive(Debug)]
pub struct State {
    pub root: Coord,
    pub arm_direction: Vec<Direction>,
    pub finger_status: Vec<(FingerAction, FingerHas)>,
    pub field: FxHashSet<(usize, usize)>,
    pub score: usize,
    pub hash: usize,
}

/// The squares of the first `r` rows (and `c` squares of row `r`) of an
/// `n`-wide board that hold a takoyaki.
pub open spec fn occupied(s: Seq<Seq<char>>, n: usize, r: int, c: int) -> Set<(usize, usize)> {
    Set::new(|p: (usize, usize)| (p.0 < r || (p.0 == r && p.1 < c)) && p.1 < n && s[p.0 as int][p.1 as int] == '1')
}

/// The squares holding a takoyaki after the fingertip actions `acts[..k]`:
/// a grab empties its square, a release fills it.
pub open spec fn field_after(f: Set<(usize, usize)>, acts: Seq<(FingerAction, FingerHas, Coord)>, k: int) -> Set<(usize, usize)>
    decreases k,
{
    if k <= 0 {
        f
    } else {
        let a = acts[k - 1];
        let g = field_after(f, acts, k - 1);
        if a.0 == FingerAction::Grab {
            g.remove((a.2.i, a.2.j))
        } else if a.0 == FingerAction::Release {
            g.insert((a.2.i, a.2.j))
        } else {
            g
        }
    }
}

impl State {
    /// The start: the base on the arm's start square, every segment
    /// pointing Right, every fingertip fresh and empty, the takoyaki of `S`,
    /// score 0 and the start hash.
    pub fn new(input: &Input) -> (s: State)
        requires
            input.calc_hash.wf(input.N, input.V),
            input.S@.len() >= input.N,
            forall|i: int| 0 <= i < input.N ==> (#[trigger] input.S@[i])@.len() >= input.N,
            input.arm.start.in_map_spec(input.N),
        ensures
            s.root == input.arm.start,
            s.arm_direction@ == Seq::new(input.arm.lengths@.len(), |k: int| Direction::Right),
            s.finger_status@ == Seq::new(input.arm.lengths@.len(), |k: int| (FingerAction::Init, FingerHas::NotHas)),
            s.field@ == occupied(rows(input.S@), input.N, input.N as int, 0),
            s.score == 0,
            s.hash == input.calc_hash.init_spec(input.N, input.V, rows(input.S@), input.arm.start),
    {
        let n = input.N;
        let ghost sv = rows(input.S@);
        let mut field = square_set_new();
        let mut i: usize = 0;
        proof {
            assert(field@ =~= occupied(sv, n, 0, 0));
        }
        while i < n
            invariant
                n == input.N,
                sv == rows(input.S@),
                input.S@.len() >= n,
                forall|i: int| 0 <= i < n ==> (#[trigger] input.S@[i])@.len() >= n,
                0 <= i <= n,
                field@ == occupied(sv, n, i as int, 0),
            decreases n - i,
        {
            proof {
                assert(sv[i as int] == input.S@[i as int]@);
            }
            let mut j: usize = 0;
            while j < n
                invariant
                    n == input.N,
                    sv == rows(input.S@),
                    sv[i as int] == input.S@[i as int]@,
                    input.S@.len() >= n,
                    forall|i: int| 0 <= i < n ==> (#[trigger] input.S@[i])@.len() >= n,
                    0 <= i < n,
                    0 <= j <= n,
                    field@ == occupied(sv, n, i as int, j as int),
                decreases n - j,
            {
                if input.S[i][j] == '1' {
                    square_set_insert(&mut field, (i, j));
                }
                j += 1;
                proof {
                    assert(field@ =~= occupied(sv, n, i as int, j as int));
                }
            }
            i += 1;
            proof {
                assert(field@ =~= occupied(sv, n, i as int, 0));
            }
        }
        let mut arm_direction: Vec<Direction> = Vec::new();
        let mut finger_status: Vec<(FingerAction, FingerHas)> = Vec::new();
        let mut k: usize = 0;
        while k < input.arm.lengths.len()
            invariant
                0 <= k <= input.arm.lengths@.len(),
                arm_direction@ == Seq::new(k as nat, |q: int| Direction::Right),
                finger_status@ == Seq::new(k as nat, |q: int| (FingerAction::Init, FingerHas::NotHas)),
            decreases input.arm.lengths@.len() - k,
        {
            arm_direction.push(Direction::Right);
            finger_status.push((FingerAction::Init, FingerHas::NotHas));
            k += 1;
            proof {
                assert(arm_direction@ =~= Seq::new(k as nat, |q: int| Direction::Right));
                assert(finger_status@ =~= Seq::new(k as nat, |q: int| (FingerAction::Init, FingerHas::NotHas)));
            }
        }
        let hash = input.calc_hash.init(input.N, input.V, &input.S, input.arm.start);
        State { root: input.arm.start, arm_direction, finger_status, field, score: 0, hash }
    }

    /// Whether `score` completes the task.
    pub fn is_done(&self, input: &Input, score: usize) -> (b: bool)
        ensures
            b == (score == input.necessary_score),
    {
        score == input.necessary_score
    }

    /// Carries out `op`: the base makes the move of the first action, the
    /// segments take the directions of the other actions, the fingertips
    /// take their new statuses, grabs empty their squares and releases fill
    /// them; the score and hash become those given.
    pub fn apply(&mut self, score: usize, hash: usize, op: &Op)
        requires
            op.move_actions@.len() >= 1,
            is_base_move(op.move_actions@[0].0),
        ensures
            final(self).root == old(self).root.add_spec(dij_coord(move_action_to_direction_spec(op.move_actions@[0].0).index_spec())),
            final(self).arm_direction@ == op.move_actions@.subrange(1, op.move_actions@.len() as int).map_values(
                |a: (MoveAction, Direction)| a.1),
            final(self).finger_status@ == op.finger_actions@.map_values(
                |a: (FingerAction, FingerHas, Coord)| (a.0, a.1)),
            final(self).field@ == field_after(old(self).field@, op.finger_actions@, op.finger_actions@.len() as int),
            final(self).score == score,
            final(self).hash == hash,
    {
        let d = move_action_to_direction(op.move_actions[0].0);
        self.root = self.root.add_wrapping(dij5(d.index()));
        let mut arm_direction: Vec<Direction> = Vec::new();
        let mut k: usize = 1;
        while k < op.move_actions.len()
            invariant
                1 <= k <= op.move_actions@.len(),
                arm_direction@ == op.move_actions@.subrange(1, k as int).map_values(|a: (MoveAction, Direction)| a.1),
            decreases op.move_actions@.len() - k,
        {
            arm_direction.push(op.move_actions[k].1);
            k += 1;
            proof {
                assert(arm_direction@ =~= op.move_actions@.subrange(1, k as int).map_values(|a: (MoveAction, Direction)| a.1));
            }
        }
        self.arm_direction = arm_direction;
        let mut finger_status: Vec<(FingerAction, FingerHas)> = Vec::new();
        let ghost f0 = self.field@;
        let ghost r0 = self.root;
        let ghost a0 = self.arm_direction@;
        let mut k: usize = 0;
        while k < op.finger_actions.len()
            invariant
                0 <= k <= op.finger_actions@.len(),
                finger_status@ == op.finger_actions@.subrange(0, k as int).map_values(
                    |a: (FingerAction, FingerHas, Coord)| (a.0, a.1)),
                self.field@ == field_after(f0, op.finger_actions@, k as int),
                self.root == r0,
                self.arm_direction@ == a0,
            decreases op.finger_actions@.len() - k,
        {
            let (fa, fh, c) = op.finger_actions[k];
            finger_status.push((fa, fh));
            match fa {
                FingerAction::Grab => square_set_remove(&mut self.field, (c.i, c.j)),
                FingerAction::Release => square_set_insert(&mut self.field, (c.i, c.j)),
                _ => {},
            }
            k += 1;
            proof {
                assert(finger_status@ =~= op.finger_actions@.subrange(0, k as int).map_values(
                    |a: (FingerAction, FingerHas, Coord)| (a.0, a.1)));
            }
        }
        proof {
            assert(op.finger_actions@.subrange(0, op.finger_actions@.len() as int) =~= op.finger_actions@);
        }
        self.finger_status = finger_status;
        self.score = score;
        self.hash = hash;
    }
}

} // verus!
