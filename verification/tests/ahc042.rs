use ahc_solvers::ahc042::hash::CalcHash;
use ahc_solvers::ahc042::input::Input;
use ahc_solvers::ahc042::state::{calc_dist, Op, State};

fn board(rows: &[&str]) -> Vec<Vec<char>> {
    rows.iter().map(|r| r.chars().collect()).collect()
}

fn keys(n: usize) -> CalcHash {
    let mut hash_map = vec![];
    for i in 0..n {
        let mut row = vec![];
        for j in 0..n {
            row.push(1usize << (i * n + j));
        }
        hash_map.push(row);
    }
    CalcHash { hash_map }
}

#[test]
fn edge_distance() {
    assert_eq!(calc_dist(0, 0, 5), 1);
    assert_eq!(calc_dist(2, 2, 5), 3);
    assert_eq!(calc_dist(1, 3, 5), 2);
    assert_eq!(calc_dist(4, 1, 5), 1);
}

#[test]
fn key_moves() {
    let h = keys(3);
    assert_eq!(h.calc(0, 1, 1, 'L'), (1 << 4) ^ (1 << 3));
    assert_eq!(h.calc(0, 0, 1, 'U'), 1 << 1);
    assert_eq!(h.calc(0, 2, 2, 'D'), 1 << 8);
}

#[test]
fn shifts_and_candidates() {
    let input = Input { N: 3, C: board(&["x..", "o..", "..x"]), calc_hash: keys(3) };
    let mut state = State::new(&input);
    assert_eq!(state.score, 2);
    assert_eq!(state.hash, (1 << 0) ^ (1 << 8));
    assert_eq!(state.x_positions, vec![(0, 0), (2, 2)]);
    assert!(state.can_shift('L', 0));
    assert!(!state.can_shift('L', 1));
    assert!(state.can_shift('R', 1));
    let cands = state.cand(&input);
    let left0 = cands.iter().find(|c| c.2.dir == 'L' && c.2.idx == 0).unwrap();
    assert_eq!(left0.0, 1);
    assert_eq!(left0.1, 1 << 8);
    assert!(!left0.3);
    let op = Op { dir: 'L', idx: 0 };
    state.apply(left0.0, left0.1, &op, &input);
    assert_eq!(state.field[0], vec!['.', '.', '.']);
    assert_eq!(state.x_positions, vec![(2, 2)]);
    assert_eq!(state.score, 1);
    let right2 = state.cand(&input).into_iter().find(|c| c.2.dir == 'R' && c.2.idx == 2).unwrap();
    assert_eq!(right2.0, 0);
    assert!(right2.3);
}

#[test]
fn candidates_keep_every_fukunokami() {
    let input = Input { N: 3, C: board(&["xo.", "o.x", ".ox"]), calc_hash: keys(3) };
    let state = State::new(&input);
    let count = |s: &State| s.field.iter().flatten().filter(|&&c| c == 'o').count();
    let before = count(&state);
    for (score, hash, op, done) in state.cand(&input) {
        let mut next = State::new(&input);
        next.apply(score, hash, &op, &input);
        assert_eq!(count(&next), before);
        assert_eq!(done, next.x_positions.is_empty());
    }
}
