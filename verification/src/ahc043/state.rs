//! Construction plans as lists of operations, and their cost in turns.
use vstd::prelude::*;
use crate::coord::{Coord, manhattan_spec, calc_manhattan_dist};
use crate::ahc043::rail::{delta, valid_turn, rail_spec, RailType, opens_to, law_rail_joins_route};
use crate::text::{decimal, signed_decimal, push_decimal, push_signed_decimal, chars_to_string};

verus! {

/// The cost of a station.
pub const STATION_COST: i64 = 5000;
/// The cost of a rail piece.
pub const RAIL_COST: i64 = 100;

/// The code of the rail piece for the square `now` of a route from `prev` to
/// `next` (1 `─`, 2 `│`, 3 `┐`, 4 `┘`, 5 `└`, 6 `┌`).
pub fn to_rail_type(prev: Coord, now: Coord, next: Coord) -> (t: i8)
    requires
        valid_turn(delta(prev, now), delta(now, next)),
    ensures
        t == rail_spec(delta(prev, now), delta(now, next)).code_spec(),
        t == rail_code(prev, now, next),
{
    let r = crate::ahc043::rail::to_rail_type(prev, now, next);
    let c = r.code();
    proof {
        reveal(rail_code);
    }
    c as i8
}

/// The code of the piece at `now` of a route from `prev` to `next`.
#[verifier::opaque]
pub open spec fn rail_code(prev: Coord, now: Coord, next: Coord) -> i8 {
    rail_spec(delta(prev, now), delta(now, next)).code_spec() as i8
}

/// One turn of a plan: build a station (`t == 0`), a rail piece (`t` in 1 to
/// 6) at `pos`, or wait (`t == -1`).
#[derive(Debug, Clone, Copy, PartialEq, Eq, Structural)]
pub struct Op {
    pub t: i8,
    pub pos: Coord,
}

impl Op {
    /// The output line of the operation: `-1` for waiting, else the piece
    /// and the square.
    pub open spec fn text(&self) -> Seq<char> {
        if self.t == -1 {
            seq!['-', '1']
        } else {
            signed_decimal(self.t as int) + seq![' '] + decimal(self.pos.i as nat) + seq![' '] + decimal(self.pos.j as nat)
        }
    }

    /// The output line of the operation: `text`.
    pub fn output(&self) -> (s: String)
        ensures
            s@ == self.text(),
    {
        let mut out: Vec<char> = Vec::new();
        if self.t == -1 {
            out.push('-');
            out.push('1');
        } else {
            push_signed_decimal(&mut out, self.t as i64);
            out.push(' ');
            push_decimal(&mut out, self.pos.i);
            out.push(' ');
            push_decimal(&mut out, self.pos.j);
        }
        proof {
            assert(out@ =~= self.text());
        }
        chars_to_string(&out)
    }
}

/// The cost of a connection of length `dist`: a station and `dist - 1` rail
/// pieces.
pub open spec fn route_cost(dist: int) -> int {
    STATION_COST + RAIL_COST * (dist - 1)
}

/// How many turns to wait, earning `income` per turn, before `money` covers
/// a connection of length `dist`: 0 if it already does, else the quotient of
/// the shortfall by `income`, rounded up.
pub open spec fn wait_spec(dist: int, money: int, income: int) -> int {
    let cost = route_cost(dist);
    if cost <= money { 0 } else { (cost - money + income - 1) / income }
}

/// The wait is the least number of turns after which the money, growing by
/// `income` each turn, covers the cost of the connection: enough turns, and
/// one fewer would not do.
pub proof fn law_wait_is_least(dist: int, money: int, income: int)
    requires
        route_cost(dist) <= money || income > 0,
    ensures
        wait_spec(dist, money, income) >= 0,
        money + wait_spec(dist, money, income) * income >= route_cost(dist),
        wait_spec(dist, money, income) > 0 ==> money + (wait_spec(dist, money, income) - 1) * income < route_cost(dist),
{
    let c = route_cost(dist) - money;
    if c > 0 {
        let x = c + income - 1;
        let w = x / income;
        vstd::arithmetic::div_mod::lemma_fundamental_div_mod(x, income);
        vstd::arithmetic::div_mod::lemma_mod_bound(x, income);
        let r = x % income;
        assert(w * income == x - r) by (nonlinear_arith)
            requires x == income * w + r;
        assert(w >= 0) by (nonlinear_arith)
            requires w * income == x - r, x - r >= 0, income > 0;
        assert((w - 1) * income == w * income - income) by (nonlinear_arith);
    }
}

/// The `i64` arithmetic of `calc_wait_num` stays in range: the cost of a
/// connection of length `dist`, and when the money falls short, a positive
/// income, the rounded-up quotient's numerator and the result.
pub open spec fn wait_ok(dist: int, money: int, income: int) -> bool {
    &&& 0 <= dist <= i64::MAX
    &&& dist <= usize::MAX
    &&& i64::MIN <= RAIL_COST * (dist - 1) <= i64::MAX
    &&& i64::MIN <= route_cost(dist) <= i64::MAX
    &&& route_cost(dist) > money ==> income > 0 && route_cost(dist) - money <= i64::MAX
        && route_cost(dist) - money + income <= i64::MAX
        && wait_spec(dist, money, income) <= usize::MAX
}

/// The number of turns to wait before a connection of length `dist` can be
/// paid.
pub fn calc_wait_num(dist: usize, money: i64, income: i64) -> (w: usize)
    requires
        wait_ok(dist as int, money as int, income as int),
    ensures
        w == wait_spec(dist as int, money as int, income as int),
{
    let cost = STATION_COST + RAIL_COST * (dist as i64 - 1);
    if cost <= money {
        0
    } else {
        ((cost - money + income - 1) / income) as usize
    }
}

/// What a square holds: nothing, a station, or a rail piece.
pub const EMPTY: i8 = -1;
/// The code of waiting a turn.
pub const WAIT: i8 = -1;
/// The code of a station.
pub const STATION: i8 = 0;

/// The instance: an `N x N` city, `M` commuters with their homes and
/// workplaces, the starting money `K` and `T` turns, and for each square the
/// commuters whose home or workplace lies within distance 2.
#[derive(Debug)]
pub struct Input {
    pub N: usize,
    pub M: usize,
    pub K: usize,
    pub T: usize,
    pub home: Vec<Coord>,
    pub workspace: Vec<Coord>,
    pub covers: Vec<(Coord, Vec<usize>)>,
    pub cover_field: Vec<Vec<Vec<usize>>>,
}

/// A plan in progress: the turn, the money and the income per turn, the
/// score, which homes and workplaces are served, what each square holds,
/// and the operations so far.
#[derive(Debug, Clone)]
pub struct State {
    pub turn: usize,
    pub money: i64,
    pub income: i64,
    pub score: i64,
    pub connected: Vec<bool>,
    pub field: Vec<Vec<i8>>,
    pub ops: Vec<Op>,
}

/// The rail pieces along `route`, for its squares `1..k` (each joining the
/// squares before and after it).
pub open spec fn rail_ops(route: Seq<Coord>, k: int) -> Seq<Op>
    decreases k,
{
    if k <= 1 {
        seq![]
    } else {
        rail_ops(route, k - 1).push(Op { t: rail_code(route[k - 2], route[k - 1], route[k]), pos: route[k - 1] })
    }
}

/// Every square of `route` inside it is entered and left by a unit step,
/// without turning back.
#[verifier::opaque]
pub open spec fn smooth(route: Seq<Coord>) -> bool {
    forall|i: int| 1 <= i < route.len() - 1 ==> valid_turn(delta(route[i - 1], #[trigger] route[i]), delta(route[i], route[i + 1]))
}

/// The square that stands for no square.
pub open spec fn nowhere() -> Coord {
    Coord { i: usize::MAX, j: usize::MAX }
}

/// The `k`-th rail operation of a route lays, on the `k + 1`-th square, the
/// piece (by its output number) that opens toward the square before it and
/// the square after it on the route.
pub proof fn law_route_rails(route: Seq<Coord>, k: int)
    requires
        smooth(route),
        0 <= k < route.len() - 2,
    ensures
        rail_ops(route, route.len() - 1).len() == route.len() - 2,
        rail_ops(route, route.len() - 1)[k].pos == route[k + 1],
        exists|t: RailType| #[trigger] t.code_spec() == rail_ops(route, route.len() - 1)[k].t as int
            && opens_to(t, delta(route[k + 1], route[k])) && opens_to(t, delta(route[k + 1], route[k + 2])),
{
    lemma_rail_ops_at(route, route.len() - 1, k);
    reveal(smooth);
    assert(valid_turn(delta(route[k], route[k + 1]), delta(route[k + 1], route[k + 2])));
    let a = delta(route[k], route[k + 1]);
    let b = delta(route[k + 1], route[k + 2]);
    law_rail_joins_route(a, b);
    let t = rail_spec(a, b);
    reveal(rail_code);
    assert(delta(route[k + 1], route[k]) == (-a.0, -a.1));
    assert(t.code_spec() == rail_ops(route, route.len() - 1)[k].t as int);
}

proof fn lemma_rail_ops_at(route: Seq<Coord>, m: int, k: int)
    requires
        1 <= m < route.len(),
        0 <= k < m - 1,
    ensures
        rail_ops(route, m).len() == m - 1,
        rail_ops(route, m)[k] == (Op { t: rail_code(route[k], route[k + 1], route[k + 2]), pos: route[k + 1] }),
    decreases m,
{
    if k < m - 2 {
        lemma_rail_ops_at(route, m - 1, k);
    } else {
        if m > 2 {
            lemma_rail_ops_len(route, m - 1);
        } else {
            assert(rail_ops(route, 1) =~= Seq::<Op>::empty());
        }
    }
}

proof fn lemma_rail_ops_len(route: Seq<Coord>, m: int)
    requires
        1 <= m,
    ensures
        rail_ops(route, m).len() == m - 1,
    decreases m,
{
    if m > 1 {
        lemma_rail_ops_len(route, m - 1);
    }
}

/// The rail pieces of the inner squares of `route`, appended to `ops`.
fn push_rails(route: &Vec<Coord>, ops: &mut Vec<Op>)
    requires
        route@.len() >= 1,
        smooth(route@),
    ensures
        final(ops)@ == old(ops)@ + rail_ops(route@, route@.len() - 1),
{
    let ghost base = ops@;
    let mut i: usize = 1;
    proof {
        assert(ops@ =~= base + rail_ops(route@, 1));
    }
    while i < route.len() - 1
        invariant
            route@.len() >= 1,
            smooth(route@),
            1 <= i <= route@.len(),
            i <= route@.len() - 1 || route@.len() == 1,
            ops@ == base + rail_ops(route@, i as int),
        decreases route@.len() - i,
    {
        proof {
            reveal(smooth);
            assert(valid_turn(delta(route@[i - 1], route@[i as int]), delta(route@[i as int], route@[i + 1])));
        }
        let t = to_rail_type(route[i - 1], route[i], route[i + 1]);
        ops.push(Op { t, pos: route[i] });
        i += 1;
        proof {
            assert(ops@ =~= base + rail_ops(route@, i as int));
        }
    }
    proof {
        if route@.len() == 1 {
            assert(rail_ops(route@, 0) == rail_ops(route@, 1));
        }
    }
}

impl State {
    /// The start: turn 0, the money `K`, no income and no score, nobody
    /// served, an empty city, no operation.
    pub fn new(input: &Input) -> (s: State)
        requires
            input.K <= i64::MAX,
            input.M * 2 <= usize::MAX,
        ensures
            s.turn == 0,
            s.money == input.K,
            s.income == 0,
            s.score == 0,
            s.connected@ == Seq::new((input.M * 2) as nat, |k: int| false),
            s.field@.len() == input.N,
            forall|i: int| 0 <= i < input.N ==> (#[trigger] s.field@[i])@ == Seq::new(input.N as nat, |j: int| EMPTY),
            s.ops@.len() == 0,
    {
        let mut connected: Vec<bool> = Vec::new();
        let mut k: usize = 0;
        while k < input.M * 2
            invariant
                input.M * 2 <= usize::MAX,
                0 <= k <= input.M * 2,
                connected@ == Seq::new(k as nat, |q: int| false),
            decreases input.M * 2 - k,
        {
            connected.push(false);
            k += 1;
            proof {
                assert(connected@ =~= Seq::new(k as nat, |q: int| false));
            }
        }
        let mut field: Vec<Vec<i8>> = Vec::new();
        let mut i: usize = 0;
        while i < input.N
            invariant
                0 <= i <= input.N,
                field@.len() == i,
                forall|a: int| 0 <= a < i ==> (#[trigger] field@[a])@ == Seq::new(input.N as nat, |j: int| EMPTY),
            decreases input.N - i,
        {
            let mut row: Vec<i8> = Vec::new();
            let mut j: usize = 0;
            while j < input.N
                invariant
                    0 <= j <= input.N,
                    row@ == Seq::new(j as nat, |q: int| EMPTY),
                decreases input.N - j,
            {
                row.push(EMPTY);
                j += 1;
                proof {
                    assert(row@ =~= Seq::new(j as nat, |q: int| EMPTY));
                }
            }
            field.push(row);
            i += 1;
        }
        State { turn: 0, money: input.K as i64, income: 0, score: 0, connected, field, ops: Vec::new() }
    }

    /// The operations that build `route` from nothing: a station at each end
    /// and the rail pieces between.
    pub fn to_initial_ops(&self, route: &Vec<Coord>) -> (ops: Vec<Op>)
        requires
            route@.len() >= 2,
            smooth(route@),
        ensures
            ops@ == seq![Op { t: STATION, pos: route@[0] }] + rail_ops(route@, route@.len() - 1)
                + seq![Op { t: STATION, pos: route@[route@.len() - 1] }],
    {
        let mut ops: Vec<Op> = Vec::new();
        ops.push(Op { t: STATION, pos: route[0] });
        push_rails(route, &mut ops);
        ops.push(Op { t: STATION, pos: route[route.len() - 1] });
        ops
    }

    /// The length of a connection along `route`: 1 for a station built on a
    /// rail (a route from nowhere), else the Manhattan distance of its ends.
    pub open spec fn route_dist(route: Seq<Coord>) -> int {
        if route[0] == nowhere() { 1 } else { manhattan_spec(route[0], route[route.len() - 1]) }
    }

    /// The operations that extend the railway along `route`: wait until the
    /// money covers it (`calc_wait_num`), then lay the rail pieces and build
    /// a station at its end.
    pub fn to_ops(&self, route: &Vec<Coord>) -> (ops: Vec<Op>)
        requires
            route@.len() >= 1,
            smooth(route@),
            wait_ok(State::route_dist(route@), self.money as int, self.income as int),
        ensures
            ops@ == Seq::new(wait_spec(State::route_dist(route@), self.money as int, self.income as int) as nat,
                |k: int| Op { t: WAIT, pos: nowhere() }) + rail_ops(route@, route@.len() - 1)
                + seq![Op { t: STATION, pos: route@[route@.len() - 1] }],
    {
        let from = route[0];
        let to = route[route.len() - 1];
        let dist = if from.i == usize::MAX && from.j == usize::MAX {
            1
        } else {
            calc_manhattan_dist(from, to)
        };
        let wait_num = calc_wait_num(dist, self.money, self.income);
        let mut ops: Vec<Op> = Vec::new();
        let mut k: usize = 0;
        while k < wait_num
            invariant
                0 <= k <= wait_num,
                ops@ == Seq::new(k as nat, |q: int| Op { t: WAIT, pos: nowhere() }),
            decreases wait_num - k,
        {
            ops.push(Op { t: WAIT, pos: Coord::new(usize::MAX, usize::MAX) });
            k += 1;
            proof {
                assert(ops@ =~= Seq::new(k as nat, |q: int| Op { t: WAIT, pos: nowhere() }));
            }
        }
        push_rails(route, &mut ops);
        ops.push(Op { t: STATION, pos: to });
        ops
    }
}

} // verus!
