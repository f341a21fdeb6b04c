use ahc_solvers::a::arm::Arm;
use ahc_solvers::a::beam::{BeamSearch, Cand, Node, Op};
use ahc_solvers::ahc038::hash::CalcHash;
use rand_pcg::Pcg64Mcg;
use ahc_solvers::a::input::Input;
use ahc_solvers::a::state::{move_action_to_directon, Direction, FingerAction, FingerHas, MoveAction, State};
use ahc_solvers::coord::Coord;

fn board(rows: &[&str]) -> Vec<Vec<char>> {
    rows.iter().map(|r| r.chars().collect()).collect()
}

fn input(n: usize, v: usize, s: &[&str], t: &[&str]) -> Input {
    Input { N: n, M: 0, V: v, S: board(s), T: board(t) }
}

#[test]
fn arm_with_fingers() {
    let inp = input(8, 4, &["00000000"; 8], &["00000000"; 8]);
    let arm = Arm::new(&inp);
    assert_eq!(arm.lengths, vec![2, 4, 1]);
    assert_eq!(arm.parents, vec![0, 1, 2]);
    assert_eq!(arm.fingers, vec![2]);
    assert_eq!(arm.finger_num, 1);
    assert_eq!(arm.not_finger_arm_num, 2);
    assert_eq!(arm.start, Coord::new(4, 4));
    assert_eq!(arm.output(), "4\n0 2\n1 4\n2 1\n4 4\n");
}

#[test]
fn arm_without_spare_nodes() {
    let inp = input(8, 3, &["00000000"; 8], &["00000000"; 8]);
    let arm = Arm::new(&inp);
    assert_eq!(arm.lengths, vec![2, 4]);
    assert_eq!(arm.fingers, vec![1]);
    assert_eq!(arm.not_finger_arm_num, 1);
}

#[test]
fn finger_lengths_cycle() {
    let inp = input(2, 6, &["00", "00"], &["00", "00"]);
    let arm = Arm::new(&inp);
    assert_eq!(arm.lengths, vec![2, 1, 2, 1, 2]);
    assert_eq!(arm.fingers, vec![1, 2, 3, 4]);
}

#[test]
fn positions_and_moves() {
    let inp = input(8, 4, &["00000000"; 8], &["00000000"; 8]);
    let arm = Arm::new(&inp);
    let state = State::new(&arm, &inp);
    assert_eq!(state.necessary_score(5), 15);
    let pos = state.position(&arm);
    assert_eq!(pos, vec![Coord::new(4, 6), Coord::new(4, 10), Coord::new(4, 11)]);
    let moves = state.next_finger_parent_position(&arm);
    assert_eq!(moves.len(), 9 * 5);
    assert_eq!(moves[0].1[0], (MoveAction::Right, Direction::Neutral));
    assert_eq!(move_action_to_directon(MoveAction::Left), Direction::Left);
}

#[test]
fn candidates_grab() {
    let s = ["00000", "00000", "00000", "00000", "00001"];
    let t = ["00000", "01000", "00000", "00000", "00000"];
    let inp = input(5, 3, &s, &t);
    let arm = Arm::new(&inp);
    let mut state = State::new(&arm, &inp);
    state.finger_status = vec![(FingerAction::Idle, FingerHas::NotHas); 2];
    let cands = state.cand(&arm, &inp.T);
    assert!(cands.iter().any(|c| c.0 == 1));
    let best = cands.iter().find(|c| c.0 == 1).unwrap();
    assert_eq!(best.2[1].0, FingerAction::Grab);
    assert_eq!(best.2[1].2, Coord::new(4, 4));
    let mut node = Node { track_id: 0, score: 0, hash: 0, state: state.clone() };
    let op = Op { move_actions: best.1.clone(), finger_actions: best.2.clone() };
    node.apply(&Cand { op, parent: 0, eval_score: 1, hash: 7 });
    assert_eq!(node.state.S[4][4], '0');
    assert_eq!(node.score, 1);
    assert_eq!(node.hash, 7);
}

#[test]
fn candidates_when_nothing_scores() {
    let s = ["00000"; 5];
    let inp = input(5, 3, &s, &s);
    let arm = Arm::new(&inp);
    let state = State::new(&arm, &inp);
    let cands = state.cand(&arm, &inp.T);
    assert_eq!(cands.len(), 4);
    assert!(cands.iter().all(|c| c.0 == 0));
    assert_eq!(cands[0].1[0], (MoveAction::Right, Direction::Neutral));
    assert_eq!(cands[0].1.len(), 1 + 2);
}

fn hash_tables(n: usize, v: usize) -> CalcHash {
    let mut w = 1usize;
    let mut next = || {
        w = w.wrapping_mul(6364136223846793005).wrapping_add(1442695040888963407);
        w
    };
    let field = (0..n).map(|_| (0..n).map(|_| (next(), next())).collect()).collect();
    let root = (0..n).map(|_| (0..n).map(|_| next()).collect()).collect();
    let arm = (0..v - 1).map(|_| (0..4).map(|_| next()).collect()).collect();
    CalcHash { field_status_hash_map: field, root_position_hash_map: root, arm_direction_hash_map: arm }
}

fn replay(arm: &Arm, inp: &Input, ops: &[Op]) -> Vec<Vec<char>> {
    let mut node = Node { track_id: 0, score: 0, hash: 0, state: State::new(arm, inp) };
    for op in ops {
        let op = Op { move_actions: op.move_actions.clone(), finger_actions: op.finger_actions.clone() };
        node.apply(&Cand { op, parent: 0, eval_score: 0, hash: 0 });
    }
    node.state.S
}

#[test]
fn beam_search_moves_the_takoyaki() {
    let s = ["00000", "00000", "00000", "00000", "00001"];
    let t = ["00000", "01000", "00000", "00000", "00000"];
    let mut inp = input(5, 3, &s, &t);
    inp.M = 1;
    let arm = Arm::new(&inp);
    let state = State::new(&arm, &inp);
    let necessary = state.necessary_score(inp.M);
    assert_eq!(necessary, 3);
    let calc_hash = hash_tables(inp.N, inp.V);
    let hash = calc_hash.init(inp.N, inp.V, &inp.S, arm.start);
    let node = Node { track_id: usize::MAX, score: 0, hash, state };
    let mut beam = BeamSearch::new(node);
    let mut rng = Pcg64Mcg::new(0);
    let ops = beam.solve(20, 30, &inp, &mut rng, &arm, &calc_hash, necessary).unwrap();
    assert!(!ops.is_empty());
    assert_eq!(replay(&arm, &inp, &ops), inp.T);
}

#[test]
fn beam_search_without_rounds() {
    let s = ["00000"; 5];
    let inp = input(5, 3, &s, &s);
    let arm = Arm::new(&inp);
    let state = State::new(&arm, &inp);
    let calc_hash = hash_tables(inp.N, inp.V);
    let hash = calc_hash.init(inp.N, inp.V, &inp.S, arm.start);
    let mut beam = BeamSearch::new(Node { track_id: usize::MAX, score: 0, hash, state });
    let mut rng = Pcg64Mcg::new(0);
    assert!(beam.solve(5, 0, &inp, &mut rng, &arm, &calc_hash, 0).is_none());
    // One round: the plan is one turn of a best candidate (nothing scores,
    // so a move of the base alone).
    let ops = beam.solve(5, 1, &inp, &mut rng, &arm, &calc_hash, 0).unwrap();
    assert_eq!(ops.len(), 1);
    assert!(ops[0].finger_actions.iter().all(|f| f.0 == FingerAction::Idle));
}
