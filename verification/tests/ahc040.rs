use ahc_solvers::ahc040::hash::CalcHash;
use ahc_solvers::ahc040::input::{clamp, clamp_all, Input};
use ahc_solvers::ahc040::measure::State as Estimate;
use ahc_solvers::ahc040::plan::{center_index, plan_measurement};
use rustc_hash::FxHashMap;
use ahc_solvers::ahc040::beam::{select_cands, sort_cands, BeamSearch, Cand, Node};
use ahc_solvers::ahc040::state::{Op, Pos, Shelf, State};
use rand_pcg::Pcg64Mcg;

fn hash_table(rows: usize, cols: usize) -> CalcHash {
    let mut hash_map = vec![];
    for r in 0..rows {
        let mut row = vec![];
        for c in 0..cols {
            row.push((r * 1000 + c + 1) * 7919);
        }
        hash_map.push(row);
    }
    CalcHash { MAX: rows, hash_map }
}

fn sample() -> Input {
    Input {
        N: 3,
        T: 1,
        sigma: 1000,
        wh2: vec![(20000, 30000), (40000, 10000), (15000, 15000)],
        calc_hash: hash_table(4, 10),
        width_limit: 60000,
    }
}

fn no_box() -> Pos {
    Pos { x1: -1, x2: -1, y1: -1, y2: -1, r: false, t: -1 }
}

#[test]
fn clamping() {
    assert_eq!(clamp(5), 10000);
    assert_eq!(clamp(50000), 50000);
    assert_eq!(clamp(200000), 100000);
    assert_eq!(clamp_all(&vec![(1, 200000)]), vec![(10000, 100000)]);
}

#[test]
fn hash_bucket_change() {
    let h = hash_table(2, 10);
    let x = h.calc(5, 1, 12000, 35000);
    assert_eq!(x, 5 ^ h.hash_map[1][1] ^ h.hash_map[1][3]);
    assert_eq!(h.calc(5, 0, 9999, 9999), 5);
}

#[test]
fn empty_shelf_and_margin() {
    let s = Shelf::new();
    assert_eq!((s.width, s.height, s.box_num, s.right_edge, s.margin), (0, 0, 0, -1, 0));
    let input = sample();
    assert_eq!(s.calc_margin(0, false, &input), 1_200_000_000);
    assert_eq!(s.calc_margin(1, false, &input), 20000 * 10000);
    let full = Shelf { width: 45000, height: 0, box_num: 1, right_edge: 0, margin: 0 };
    assert_eq!(full.calc_margin(2, false, &input), 0);
}

#[test]
fn placements() {
    let input = sample();
    let mut state = State::new(&input);
    let mut want = 0;
    for r in 0..4 {
        want ^= input.calc_hash.hash_map[r][0];
    }
    assert_eq!(state.hash, want);
    let cands = state.cand(&input);
    assert_eq!(cands.len(), 1);
    let (delta, hash, op, done) = cands[0];
    assert!(!op.r);
    assert_eq!((op.pos.x1, op.pos.x2, op.pos.y1, op.pos.y2), (0, 20000, 0, 30000));
    assert_eq!(delta, 50000);
    assert_eq!(hash, state.hash ^ input.calc_hash.hash_map[0][0] ^ input.calc_hash.hash_map[0][2]);
    assert!(!done);
    state.apply(delta, hash, &op, &input);
    assert_eq!(state.lines.len(), 2);
    assert_eq!(state.lines[0].width, 20000);
    assert_eq!(state.lines[0].right_edge, 0);
    assert_eq!((state.W2, state.H2, state.score), (20000, 30000, 50000));
    let up = Op { p: 1, r: false, d: 'U', b: -1, pos: no_box(), row: 1 };
    let (w, h, pos) = state.calc_length(up, &input);
    assert_eq!((pos.x1, pos.x2, pos.y1, pos.y2), (0, 40000, 30000, 40000));
    assert_eq!((w, h), (40000, 40000));
    let left = Op { p: 2, r: true, d: 'L', b: 0, pos: no_box(), row: 0 };
    let (_, _, pos) = state.calc_length(left, &input);
    assert_eq!((pos.x1, pos.x2, pos.y1, pos.y2), (0, 15000, 30000, 45000));
}

#[test]
fn beam_search_packs_all_boxes() {
    let input = sample();
    let node = Node { track_id: usize::MAX, state: State::new(&input) };
    let mut beam = BeamSearch::new(node);
    let mut rng = Pcg64Mcg::new(0);
    let (plans, best) = beam.solve(10, 3, &input, &mut rng, true);
    let best = best.unwrap();
    assert_eq!(plans.len(), 1);
    assert_eq!(plans[0].len(), 3);
    let got: Vec<(usize, bool, i32, usize)> = best.iter().map(|op| (op.p, op.r, op.b, op.row)).collect();
    assert_eq!(got, vec![(0, false, -1, 0), (1, true, 0, 0), (2, true, -1, 1)]);
    let last = best[2].pos;
    assert_eq!((last.x1, last.x2, last.y1, last.y2), (0, 15000, 30000, 45000));
    for (a, b) in plans[0].iter().zip(best.iter()) {
        assert_eq!((a.p, a.r, a.row), (b.p, b.r, b.row));
    }
    assert_eq!(beam.nodes.len(), 2);
    assert_eq!(beam.track.len(), 3);
}

#[test]
fn beam_search_highest_score() {
    let input = sample();
    let node = Node { track_id: usize::MAX, state: State::new(&input) };
    let mut beam = BeamSearch::new(node);
    let mut rng = Pcg64Mcg::new(0);
    let (_, best) = beam.solve(10, 3, &input, &mut rng, false);
    let best = best.unwrap();
    // Falling order keeps the node with the tall second box; its only
    // third placement is in the first row.
    assert_eq!(best.len(), 3);
    assert_eq!((best[2].p, best[2].row), (2, 0));
}

#[test]
fn no_rounds_no_answer() {
    let input = sample();
    let node = Node { track_id: usize::MAX, state: State::new(&input) };
    let mut beam = BeamSearch::new(node);
    let mut rng = Pcg64Mcg::new(0);
    let (plans, best) = beam.solve(10, 0, &input, &mut rng, true);
    assert!(plans.is_empty());
    assert!(best.is_none());
}

fn cand(score: usize, hash: usize) -> Cand {
    let op = Op { p: 0, r: false, d: 'U', b: -1, pos: no_box(), row: 0 };
    Cand { op, parent: 0, eval_score: score, hash, is_done: false }
}

#[test]
fn candidates_sorted_and_selected() {
    let mut cands = vec![cand(30, 1), cand(10, 2), cand(20, 1), cand(10, 3)];
    sort_cands(&mut cands, true);
    let scores: Vec<usize> = cands.iter().map(|c| c.eval_score).collect();
    assert_eq!(scores, vec![10, 10, 20, 30]);
    sort_cands(&mut cands, false);
    let scores: Vec<usize> = cands.iter().map(|c| c.eval_score).collect();
    assert_eq!(scores, vec![30, 20, 10, 10]);
    let kept = select_cands(&cands, 3);
    let hashes: Vec<usize> = kept.iter().map(|c| c.hash).collect();
    assert_eq!(hashes[0], 1);
    assert_eq!(kept.len(), 3);
    let kept = select_cands(&vec![cand(1, 5), cand(2, 5), cand(3, 6), cand(4, 7)], 2);
    let scores: Vec<usize> = kept.iter().map(|c| c.eval_score).collect();
    assert_eq!(scores, vec![1, 3]);
}

fn reading(boxes: &[(usize, bool)]) -> FxHashMap<usize, bool> {
    let mut m = FxHashMap::default();
    for &(k, r) in boxes {
        m.insert(k, r);
    }
    m
}

#[test]
fn estimate_scores_measurements() {
    let measures = vec![(reading(&[(0, false), (1, false)]), 410), (reading(&[(0, true)]), 190)];
    let est = Estimate::new(vec![(100, 200), (300, 400)], 0, measures);
    assert_eq!(est.lengths, vec![400, 200]);
    assert_eq!(est.score, 200);
}

#[test]
fn estimate_fits_sizes() {
    let measures = vec![
        (reading(&[(0, false), (1, false)]), 41000),
        (reading(&[(0, true)]), 18000),
        (reading(&[(1, true)]), 40500),
    ];
    let mut est = Estimate::new(vec![(10000, 20000), (30000, 40000)], 2000, measures);
    assert_eq!(est.score, 1000 * 1000 + 2000 * 2000 + 500 * 500);
    est.solve();
    assert_eq!(est.wh, vec![(10535, 18027), (30455, 40490)]);
    assert_eq!(est.lengths, vec![40990, 18027, 40490]);
    assert_eq!(est.score, 929);
}

#[test]
fn estimate_small_noise_keeps_sizes() {
    let measures = vec![(reading(&[(0, false), (1, false)]), 410), (reading(&[(0, true)]), 190)];
    let mut est = Estimate::new(vec![(100, 200), (300, 400)], 0, measures);
    est.solve();
    assert_eq!(est.wh, vec![(100, 200), (300, 400)]);
    assert_eq!(est.score, 200);
}

#[test]
fn middle_box() {
    let wh = vec![(10, 20), (30, 5), (50, 60), (100_000, 1), (7, 8)];
    assert_eq!(center_index(&wh), Some(2));
    let wh = vec![(1, 1), (1, 1), (80_000, 1), (90_000, 1), (1, 1)];
    assert_eq!(center_index(&wh), Some(1));
    let wh = vec![(80_000, 1)];
    assert_eq!(center_index(&wh), None);
}

#[test]
fn measurement_layout() {
    let wh = vec![(9, 1), (9, 2), (20, 3), (4, 4), (1, 1)];
    let flat = vec![false; 5];
    let plan = plan_measurement(&wh, 3, &flat, 2).unwrap();
    assert_eq!(plan.lines, vec![(0, false, -1), (1, false, 0), (2, false, 1), (3, false, 0), (4, false, 0)]);
    assert_eq!(plan.row, vec![(0, false), (1, false), (2, false)]);
    assert_eq!(plan.column, vec![(1, true), (3, true), (4, true)]);
    assert!(plan_measurement(&wh, 3, &flat, 5).is_none());
    let turned = vec![false, true, false, false, true];
    let plan = plan_measurement(&wh, 3, &turned, 2).unwrap();
    assert_eq!(plan.lines[3], (3, false, -1));
    assert_eq!(plan.column, vec![(0, true), (3, true), (4, false)]);
}
