use ahc_solvers::ahc039::kmeans::KMeans;
use rustc_hash::FxHashSet;
use ahc_solvers::ahc039::common::{connect9, get_mask9};
use ahc_solvers::ahc039::coord::{calc_dist2, calc_manhattan_dist, Coord};
use ahc_solvers::ahc039::polygon::polygon_grid_to_vertex_coords;
use ahc_solvers::ahc039::state::{calc_score_map, Input, State};

#[test]
fn polygon() {
    let grid = vec![
        vec![false, false, false, false, false, false, false, false],
        vec![false, true, true, true, false, true, true, false],
        vec![false, true, true, true, true, true, true, false],
        vec![false, false, true, false, false, true, false, false],
        vec![false, true, true, true, false, false, false, false],
        vec![false, true, true, true, false, false, false, false],
        vec![false, false, true, true, false, false, false, false],
        vec![false, false, false, false, false, false, false, false],
    ];
    let points = polygon_grid_to_vertex_coords(&grid);
    let ans = vec![
        Coord::new(1, 1),
        Coord::new(1, 4),
        Coord::new(2, 4),
        Coord::new(2, 5),
        Coord::new(1, 5),
        Coord::new(1, 7),
        Coord::new(3, 7),
        Coord::new(3, 6),
        Coord::new(4, 6),
        Coord::new(4, 5),
        Coord::new(3, 5),
        Coord::new(3, 3),
        Coord::new(4, 3),
        Coord::new(4, 4),
        Coord::new(7, 4),
        Coord::new(7, 2),
        Coord::new(6, 2),
        Coord::new(6, 1),
        Coord::new(4, 1),
        Coord::new(4, 2),
        Coord::new(3, 2),
        Coord::new(3, 1),
    ];
    assert!(points == ans);
    let mut edge_sum = 0;
    for i in 0..points.len() {
        let pos0 = points[i];
        let pos1 = points[(i + 1) % points.len()];
        edge_sum += calc_manhattan_dist(pos0, pos1);
    }
    assert!(edge_sum == 32);
}

#[test]
fn single_cell_outline() {
    let grid = vec![
        vec![false, false, false],
        vec![false, true, false],
        vec![false, false, false],
    ];
    let points = polygon_grid_to_vertex_coords(&grid);
    assert_eq!(points.len(), 4);
    let mut edge_sum = 0;
    for i in 0..points.len() {
        edge_sum += calc_manhattan_dist(points[i], points[(i + 1) % points.len()]);
    }
    assert_eq!(edge_sum, 4);
}

#[test]
fn connect9_table() {
    let ok = connect9();
    assert_eq!(ok.len(), 512);
    assert!(!ok[0]);
    assert!(ok[0b000000010]);
    assert!(!ok[0b000101000]);
    assert!(ok[0b000001011]);
    assert!(!ok[0b010101010]);
    // All eight cells around the centre: one ring, still connected.
    assert!(ok[0x1EF]);
    assert!(ok[0x1FF]);
    // Three corners and all sides: still one group.
    assert!(ok[0b111101011]);
}

#[test]
fn mask9_of_full_grid() {
    let grid = vec![vec![true; 3]; 3];
    assert_eq!(get_mask9(&grid, 1, 1), 511);
    assert_eq!(get_mask9(&grid, 0, 0), 16 + 32 + 128 + 256);
    let empty = vec![vec![false; 3]; 3];
    assert_eq!(get_mask9(&empty, 1, 1), 0);
}

#[test]
fn distances() {
    assert_eq!(calc_manhattan_dist(Coord::new(1, 2), Coord::new(4, 0)), 5);
    assert_eq!(calc_dist2(Coord::new(1, 2), Coord::new(4, 0)), 13);
    assert!(Coord::new(3, 4).in_map(5));
    assert!(!Coord::new(3, 5).in_map(5));
}

fn sample_input() -> Input {
    Input {
        N: 3,
        size: 8,
        saba: vec![Coord::new(1, 1), Coord::new(5, 5), Coord::new(6, 1)],
        iwashi: vec![Coord::new(2, 2)],
    }
}

#[test]
fn score_map_counts_fish() {
    let input = sample_input();
    let m = calc_score_map(2, &input);
    assert_eq!(m, vec![vec![0, 0], vec![1, 1]]);
}

#[test]
fn state_moves() {
    let input = sample_input();
    let mut state = State::new(2, &input);
    assert_eq!(state.dl, 4);
    assert_eq!(state.length, 32);
    assert_eq!(state.score, 0);
    let corner = Coord::new(0, 0);
    assert!(state.is_next_to_edge(corner));
    assert_eq!(state.calc_diff_length(corner), 0);
    assert_eq!(state.calc_diff_score(Coord::new(1, 1)), -1);
    assert_eq!(state.calc_diff_score(Coord::new(0, 0)), 0);
    let c9 = connect9();
    assert!(state.legal_action(corner, false, &c9));
    state.to_next_grid(4, &input);
    assert_eq!(state.grid_num, 4);
    assert_eq!(state.dl, 2);
    assert_eq!(state.score, 2);
    assert_eq!(state.length, 32);
    assert!(state.grid.iter().all(|row| row.iter().all(|&b| b)));
}

#[test]
fn flipping_cells() {
    let input = sample_input();
    let mut state = State::new(2, &input);
    let pos = Coord::new(1, 1);
    let dl = state.calc_diff_length(pos);
    let ds = state.calc_diff_score(pos);
    state.flip(pos, dl, ds);
    assert!(!state.grid[1][1]);
    assert_eq!(state.score, -1);
    assert_eq!(state.length, 32 + dl);
    assert_eq!(state.best_score, 0);
    let back_l = state.calc_diff_length(pos);
    let back_s = state.calc_diff_score(pos);
    assert_eq!(back_s, 1);
    state.flip(pos, back_l, back_s);
    assert!(state.grid[1][1]);
    assert_eq!(state.score, 0);
    state.flip(Coord::new(0, 0), 0, 5);
    assert_eq!(state.best_score, 5);
    assert_eq!(state.best_grid, state.grid);
}

#[test]
fn cluster_squares() {
    let input = Input {
        N: 20_000,
        size: 20_000,
        saba: vec![Coord::new(8_000, 8_000), Coord::new(12_000, 12_000), Coord::new(10_100, 10_000)],
        iwashi: vec![Coord::new(10_400, 10_400)],
    };
    let mut all = FxHashSet::default();
    all.insert(0);
    all.insert(1);
    all.insert(2);
    let km = KMeans { num: 2, centers: vec![Coord::new(10_123, 10_987), Coord::new(0, 0)], clusters: vec![all, FxHashSet::default()] };
    let sq = km.calc_square(0, &input).unwrap();
    assert_eq!(sq, [Coord::new(8_000, 8_000), Coord::new(12_000, 8_000), Coord::new(12_000, 12_000), Coord::new(8_000, 12_000)]);
    assert!(km.calc_square(1, &input).is_none());
    assert!(km.calc_good_square(1, &input).is_none());
    let good = km.calc_good_square(0, &input).unwrap();
    assert_eq!(good, [Coord::new(8_000, 8_000), Coord::new(12_000, 8_000), Coord::new(12_000, 12_000), Coord::new(8_000, 12_000)]);
}
