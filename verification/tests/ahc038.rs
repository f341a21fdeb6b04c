use ahc_solvers::ahc038::state::resolve_opposite;
use ahc_solvers::ahc038::arm::Arm;
use ahc_solvers::ahc038::hash::CalcHash;
use ahc_solvers::ahc038::input::{count_moves, Input};
use ahc_solvers::ahc038::state::{
    move_action_to_direction, to_direction, to_move_direction, to_rotate_direction, Direction, FingerAction, FingerHas,
    MoveAction, Op, State,
};
use ahc_solvers::coord::Coord;
use rand::Rng;
use rand_pcg::Pcg64Mcg;

#[test]
fn arm() {
    let n = 15;
    let v = 6;
    let mut rng = Pcg64Mcg::new(100);
    for nf in [2usize, 3] {
        let mut arm = Arm::new(n, v, nf);
        let one = arm.can_reach(false);
        let two = arm.can_reach(true);
        assert_eq!(one.len(), n);
        assert_eq!(two.len(), n);
        for i in 0..n {
            for j in 0..n {
                assert!(one[i][j] <= two[i][j]);
            }
        }
        let base = arm.base_score();
        let mut best = arm.calc_score(&arm.can_reach(false), base);
        for _ in 0..20 {
            let idx = rng.gen_range(0..arm.lengths.len());
            let before = arm.lengths[idx];
            let r = rng.gen_range(1..n);
            let length = arm.next_length(before, rng.gen_bool(0.5), r);
            assert!(1 <= length && length < n);
            let next = arm.climb_step(idx, length, base, best);
            assert!(next >= best);
            best = next;
        }
        assert_eq!(best, arm.calc_score(&arm.can_reach(false), base));
    }
}

#[test]
fn arm_shape() {
    let arm = Arm::new(15, 6, 2);
    assert_eq!(arm.lengths, vec![2, 4, 7, 7, 7]);
    assert_eq!(arm.parents, vec![0, 1, 2, 2, 2]);
    assert_eq!(arm.fingers, vec![2, 3, 4]);
    assert_eq!(arm.finger_num, 3);
    assert_eq!(arm.start, Coord::new(7, 7));
    assert_eq!(Arm::new(4, 3, 1).output(), "3\n0 2\n1 2\n2 2\n");
}

#[test]
fn chain_end_positions() {
    let arm = Arm::new(9, 3, 1);
    let dirs = vec![Direction::Right; 2];
    let tips = arm.finger_parent_relative_position(&dirs, false);
    assert_eq!(tips.len(), 3);
    assert_eq!(tips[0].0, Coord::new(usize::MAX - 1, 0));
    assert_eq!(tips[0].1, vec![(MoveAction::Left, Direction::Up)]);
    assert_eq!(tips[1].0, Coord::new(2, 0));
    assert_eq!(tips[2].0, Coord::new(0, 2));
    assert_eq!(arm.finger_parent_relative_position(&dirs, true).len(), 4);
}

#[test]
fn next_length_rules() {
    let arm = Arm::new(10, 3, 1);
    assert_eq!(arm.next_length(3, true, 4), 7);
    assert_eq!(arm.next_length(8, true, 4), 9);
    assert_eq!(arm.next_length(8, false, 3), 5);
    assert_eq!(arm.next_length(2, false, 2), 1);
    assert_eq!(arm.next_length(2, false, 5), 1);
}

#[test]
fn base_score_small() {
    let arm = Arm::new(3, 2, 0);
    assert_eq!(arm.base_score(), 12);
}

#[test]
fn encodings() {
    assert_eq!(to_direction(2), Direction::Left);
    assert_eq!(to_rotate_direction(0), MoveAction::Stay);
    assert_eq!(to_rotate_direction(2), MoveAction::Opposite);
    assert_eq!(to_move_direction(3), MoveAction::Up);
    assert_eq!(to_move_direction(4), MoveAction::Stay);
    assert_eq!(move_action_to_direction(MoveAction::Down), Direction::Down);
    assert_eq!(move_action_to_direction(MoveAction::Stay), Direction::Neutral);
}

fn tables(n: usize, v: usize) -> CalcHash {
    let mut w = 1usize;
    let mut next = || {
        w = w.wrapping_mul(6364136223846793005).wrapping_add(1442695040888963407);
        w
    };
    let mut field = vec![];
    for _ in 0..n {
        let mut row = vec![];
        for _ in 0..n {
            row.push((next(), next()));
        }
        field.push(row);
    }
    let mut root = vec![];
    for _ in 0..n {
        let mut row = vec![];
        for _ in 0..n {
            row.push(next());
        }
        root.push(row);
    }
    let mut arm = vec![];
    for _ in 0..v - 1 {
        let mut row = vec![];
        for _ in 0..4 {
            row.push(next());
        }
        arm.push(row);
    }
    CalcHash { field_status_hash_map: field, root_position_hash_map: root, arm_direction_hash_map: arm }
}

#[test]
fn hash_parts() {
    let h = tables(3, 3);
    let a = Coord::new(0, 1);
    let b = Coord::new(2, 2);
    let x = h.calc_root_position(12345, a, b);
    assert_eq!(x, 12345 ^ h.root_position_hash_map[0][1] ^ h.root_position_hash_map[2][2]);
    assert_eq!(h.calc_root_position(x, b, a), 12345);
    let coords = vec![a];
    let f = h.calc_field_status(7, &coords);
    assert_eq!(f, 7 ^ h.field_status_hash_map[0][1].0 ^ h.field_status_hash_map[0][1].1);
    let dirs = vec![(Direction::Down, Direction::Right)];
    let d = h.calc_arm_direction(0, &dirs);
    assert_eq!(d, h.arm_direction_hash_map[0][1] ^ h.arm_direction_hash_map[0][0]);
    let s = vec![vec!['0', '1', '0'], vec!['0', '0', '0'], vec!['1', '0', '0']];
    let init = h.init(3, 3, &s, Coord::new(1, 1));
    let mut want = 0;
    for i in 0..3 {
        for j in 0..3 {
            want ^= if s[i][j] == '0' { h.field_status_hash_map[i][j].0 } else { h.field_status_hash_map[i][j].1 };
        }
    }
    want ^= h.root_position_hash_map[1][1];
    want ^= h.arm_direction_hash_map[0][0] ^ h.arm_direction_hash_map[1][0];
    assert_eq!(init, want);
    let all = h.calc(99, &coords, a, b, &dirs);
    assert_eq!(all, d);
}

fn board(rows: &[&str]) -> Vec<Vec<char>> {
    rows.iter().map(|r| r.chars().collect()).collect()
}

#[test]
fn moves_to_make() {
    let s = board(&["110", "000", "001"]);
    let t = board(&["011", "000", "000"]);
    assert_eq!(count_moves(3, &s, &t), 2);
}

#[test]
fn state_turn() {
    let n = 5;
    let s = board(&["00000", "00000", "00000", "00000", "00001"]);
    let t = board(&["00000", "01000", "00000", "00000", "00000"]);
    let arm = Arm::new(n, 3, 1);
    let input = Input::new(n, 3, s, t, arm, tables(n, 3));
    assert_eq!(input.M, 1);
    assert_eq!(input.necessary_score, 3);
    let mut state = State::new(&input);
    assert_eq!(state.root, Coord::new(2, 2));
    assert!(state.field.contains(&(4, 4)));
    assert_eq!(state.field.len(), 1);
    assert!(!state.is_done(&input, 0));
    let cands = state.cand(&input);
    assert!(!cands.is_empty());
    let best = cands.iter().max_by_key(|c| c.0).unwrap();
    assert_eq!(best.0, 1);
    let grabbed: Vec<_> = best.2.finger_actions.iter().filter(|a| a.0 == FingerAction::Grab).collect();
    assert_eq!(grabbed.len(), 1);
    assert_eq!(grabbed[0].2, Coord::new(4, 4));
    let (score, hash, op) = (best.0, best.1, best.2.clone());
    state.apply(score, hash, &op);
    assert!(state.field.is_empty());
    assert_eq!(state.score, 1);
    assert_eq!(state.finger_status[1], (FingerAction::Grab, FingerHas::Has));
    let idle = Op { move_actions: vec![(MoveAction::Stay, Direction::Neutral)], finger_actions: vec![] };
    let root = state.root;
    state.apply(1, 0, &idle);
    assert_eq!(state.root, root);
    assert_eq!(state.hash, 0);
}

#[test]
fn turn_lines() {
    let first = Op {
        move_actions: vec![(MoveAction::Right, Direction::Neutral), (MoveAction::Stay, Direction::Right)],
        finger_actions: vec![(FingerAction::Idle, FingerHas::NotHas, Coord::new(0, 0))],
    };
    let second = Op {
        move_actions: vec![(MoveAction::Stay, Direction::Neutral), (MoveAction::Opposite, Direction::Left)],
        finger_actions: vec![(FingerAction::Grab, FingerHas::Has, Coord::new(1, 1))],
    };
    let mut ops = vec![first, second];
    resolve_opposite(&mut ops);
    assert_eq!(ops[0].move_actions[1].0, MoveAction::Left);
    assert_eq!(ops[1].move_actions[1], (MoveAction::Left, Direction::Left));
    assert_eq!(ops[0].line(), "RL..");
    assert_eq!(ops[1].line(), ".L.P");
}

#[test]
fn every_turn_fits_the_board() {
    let n = 5;
    let s = board(&["00000", "00000", "00000", "00000", "00001"]);
    let t = board(&["00000", "01000", "00000", "00000", "00000"]);
    let arm = Arm::new(n, 3, 1);
    let input = Input::new(n, 3, s, t, arm, tables(n, 3));
    let state = State::new(&input);
    for (score, hash, op, _) in state.cand(&input) {
        let mut next = State::new(&input);
        next.apply(score, hash, &op);
        assert!(next.root.i < n && next.root.j < n);
        for a in op.finger_actions.iter() {
            if a.0 == FingerAction::Grab {
                assert!(state.field.contains(&(a.2.i, a.2.j)));
                assert!(!next.field.contains(&(a.2.i, a.2.j)));
            }
            if a.0 == FingerAction::Release {
                assert!(!state.field.contains(&(a.2.i, a.2.j)));
                assert!(next.field.contains(&(a.2.i, a.2.j)));
            }
        }
    }
}
