use ahc_solvers::ahc043::bfs::{bfs_multi_start, bfs_multi_start_revert, bfs_revert, A_star, BfsGenerator, CANNOT_VISIT, NOT_VISITED};
use ahc_solvers::ahc043::hash::CalcHash;
use ahc_solvers::ahc043::plan::{Best, ScoreOrder};
use ahc_solvers::ahc043::rail::{to_rail_type as rail_of, Entity, RailType};
use ahc_solvers::ahc043::state::{calc_wait_num, to_rail_type, Input, Op, State};
use ahc_solvers::ahc043::tree::RailTree;
use ahc_solvers::coord::Coord;

#[test]
fn multi_start_distances() {
    let mut dist = vec![vec![NOT_VISITED; 4]; 4];
    dist[1][1] = CANNOT_VISIT;
    bfs_multi_start(vec![Coord::new(0, 0), Coord::new(3, 3)], &mut dist);
    assert_eq!(dist[0][0], 0);
    assert_eq!(dist[3][3], 0);
    assert_eq!(dist[0][3], 3);
    assert_eq!(dist[2][1], 3);
    assert_eq!(dist[2][2], 2);
    assert_eq!(dist[1][1], CANNOT_VISIT);
    let routes = bfs_multi_start_revert(vec![Coord::new(0, 2)], &dist);
    assert_eq!(routes.len(), 1);
    assert_eq!(routes[0].len(), 3);
    assert_eq!(routes[0][0], Coord::new(0, 0));
    assert_eq!(routes[0][2], Coord::new(0, 2));
}

#[test]
fn route_between_two_squares() {
    let mut dist = vec![vec![NOT_VISITED; 5]; 5];
    dist[1][0] = CANNOT_VISIT;
    dist[1][1] = CANNOT_VISIT;
    dist[1][2] = CANNOT_VISIT;
    let start = Coord::new(0, 0);
    let goal = Coord::new(2, 0);
    A_star(start, goal, &mut dist);
    assert_eq!(dist[0][0], 0);
    assert_eq!(dist[2][0], 8);
    let mut exact = vec![vec![NOT_VISITED; 5]; 5];
    exact[1][0] = CANNOT_VISIT;
    exact[1][1] = CANNOT_VISIT;
    exact[1][2] = CANNOT_VISIT;
    bfs_multi_start(vec![start], &mut exact);
    let route = bfs_revert(start, goal, &exact);
    assert_eq!(route.len(), 9);
    assert_eq!(route[0], start);
    assert_eq!(route[8], goal);
}

#[test]
fn a_star_small_board() {
    let mut dist = vec![vec![NOT_VISITED, NOT_VISITED], vec![CANNOT_VISIT, NOT_VISITED]];
    let start = Coord::new(0, 0);
    let goal = Coord::new(1, 1);
    A_star(start, goal, &mut dist);
    assert_eq!(dist, vec![vec![0, 1], vec![CANNOT_VISIT, 2]]);
    let route = bfs_revert(start, goal, &dist);
    assert_eq!(route, vec![start, Coord::new(0, 1), goal]);
}

#[test]
fn a_star_table_walks_back() {
    let mut dist = vec![vec![NOT_VISITED; 5]; 5];
    dist[1][0] = CANNOT_VISIT;
    dist[1][1] = CANNOT_VISIT;
    dist[1][2] = CANNOT_VISIT;
    let start = Coord::new(0, 0);
    let goal = Coord::new(2, 0);
    A_star(start, goal, &mut dist);
    let route = bfs_revert(start, goal, &dist);
    assert_eq!(route.len(), 9);
    assert_eq!(route[0], start);
    assert_eq!(route[8], goal);
    for k in 0..route.len() {
        assert_eq!(dist[route[k].i][route[k].j], k);
    }
}

#[test]
fn a_star_unreachable_goal() {
    let mut dist = vec![vec![NOT_VISITED; 3]; 3];
    dist[0][1] = CANNOT_VISIT;
    dist[1][0] = CANNOT_VISIT;
    dist[1][1] = CANNOT_VISIT;
    A_star(Coord::new(0, 0), Coord::new(2, 2), &mut dist);
    assert_eq!(dist[0][0], 0);
    assert_eq!(dist[2][2], NOT_VISITED);
}

#[test]
fn generator_visits_inner_squares() {
    let mut visited = vec![vec![0usize; 4]; 4];
    let mut cnt = 0usize;
    let mut g = BfsGenerator::new(Coord::new(1, 1), &mut cnt, &mut visited);
    assert_eq!(cnt, 1);
    let mut seen = vec![];
    while let Some((c, _)) = g.next(cnt, &mut visited) {
        seen.push(c);
    }
    assert_eq!(seen.len(), 4);
    assert_eq!(seen[0], Coord::new(1, 1));
    assert!(seen.iter().all(|c| 1 <= c.i && c.i <= 2 && 1 <= c.j && c.j <= 2));
}

#[test]
fn rail_pieces() {
    let a = Coord::new(1, 0);
    let b = Coord::new(1, 1);
    let c = Coord::new(1, 2);
    let d = Coord::new(2, 1);
    assert_eq!(rail_of(a, b, c), RailType::LeftToRight);
    assert_eq!(to_rail_type(a, b, c), 1);
    assert_eq!(rail_of(a, b, d), RailType::LeftToDown);
    assert_eq!(to_rail_type(d, b, c), 6);
    assert_eq!(RailType::UpToRight.code(), 5);
}

#[test]
fn waiting() {
    assert_eq!(calc_wait_num(3, 6000, 10), 0);
    assert_eq!(calc_wait_num(3, 5000, 30), 7);
    assert_eq!(calc_wait_num(1, 4999, 1), 1);
}

#[test]
fn station_hash() {
    let h = CalcHash { hash_map: vec![vec![3, 5], vec![9, 17]] };
    assert_eq!(h.calc(1, Coord::new(1, 0)), 1 ^ 9);
    assert_eq!(h.calc(h.calc(1, Coord::new(1, 0)), Coord::new(1, 0)), 1);
}

#[test]
fn tree_board() {
    let mut t = RailTree::new(3);
    assert_eq!(t.field.len(), 3);
    assert!(!t.can_connect(Coord::new(0, 0), 3));
    t.field[0][0] = Entity::Station;
    assert!(t.can_connect(Coord::new(0, 0), 3));
    t.field[0][1] = Entity::Rail(RailType::LeftToRight);
    t.field[1][0] = Entity::Station;
    assert!(!t.can_connect(Coord::new(0, 0), 3));
}

#[test]
fn best_plan() {
    let mut b = Best::new();
    b.update(10, vec![Op { t: 0, pos: Coord::new(1, 1) }], 1);
    assert_eq!(b.score, 10);
    b.update(5, vec![], 0);
    assert_eq!(b.score, 10);
    assert_eq!(b.ops.len(), 1);
    assert!(ScoreOrder::Ascending.better(1, 2));
    assert!(ScoreOrder::Descending.better(3, 2));
    assert!(!ScoreOrder::Descending.better(2, 2));
}

#[test]
fn plans_along_routes() {
    let input = Input { N: 4, M: 1, K: 5_300, T: 20, home: vec![Coord::new(0, 0)], workspace: vec![Coord::new(2, 1)], covers: vec![], cover_field: vec![vec![vec![]; 4]; 4] };
    let mut state = State::new(&input);
    assert_eq!(state.money, 5_300);
    assert_eq!(state.connected, vec![false, false]);
    assert!(state.field.iter().all(|r| r.len() == 4 && r.iter().all(|&v| v == -1)));
    let route = vec![Coord::new(0, 0), Coord::new(1, 0), Coord::new(1, 1), Coord::new(2, 1)];
    let ops = state.to_initial_ops(&route);
    assert_eq!(
        ops,
        vec![
            Op { t: 0, pos: Coord::new(0, 0) },
            Op { t: 5, pos: Coord::new(1, 0) },
            Op { t: 3, pos: Coord::new(1, 1) },
            Op { t: 0, pos: Coord::new(2, 1) },
        ]
    );
    state.money = 5_000;
    state.income = 100;
    let more = state.to_ops(&route);
    assert_eq!(more.len(), 2 + 3);
    assert!(more[..2].iter().all(|op| op.t == -1));
    assert_eq!(more[4], Op { t: 0, pos: Coord::new(2, 1) });
    let short = vec![Coord::new(usize::MAX, usize::MAX), Coord::new(3, 3)];
    let ops = state.to_ops(&short);
    assert_eq!(ops, vec![Op { t: 0, pos: Coord::new(3, 3) }]);
    assert_eq!(ops[0].output(), "0 3 3");
    assert_eq!(Op { t: -1, pos: Coord::new(0, 0) }.output(), "-1");
}
