use ahc_solvers::ahc041::input::{build_graph, Input};
use ahc_solvers::ahc041::state::{Node, State};

fn sample() -> Input {
    // A path 0 - 1 - 2 - 3 - 4 - 5 - 6 and a spur 2 - 7.
    let a = vec![5, 1, 3, 2, 8, 4, 6, 7];
    let uv = vec![(0, 1), (1, 2), (2, 3), (3, 4), (4, 5), (5, 6), (2, 7)];
    let g = build_graph(8, &a, &uv);
    Input { N: 8, M: uv.len(), H: 5, A: a, G: g }
}

/// The depth of every vertex of a parent list, checking that it is a forest
/// of the graph within the height limit.
fn depths(input: &Input, ans: &[i32]) -> Vec<i64> {
    let mut d = vec![0i64; ans.len()];
    for v in 0..ans.len() {
        let mut x = v;
        let mut steps = 0;
        while ans[x] != -1 {
            let p = ans[x] as usize;
            assert!(input.G[p].contains(&x));
            x = p;
            steps += 1;
            assert!(steps <= input.H as i64);
        }
        d[v] = steps;
    }
    d
}

fn beauty(input: &Input, d: &[i64]) -> i64 {
    1 + (0..input.N).map(|v| input.A[v] * (d[v] + 1)).sum::<i64>()
}

#[test]
fn neighbours_by_beauty() {
    let input = sample();
    assert_eq!(input.G[2], vec![1, 3, 7]);
    assert_eq!(input.G[4], vec![3, 5]);
    assert_eq!(input.G[0], vec![1]);
}

#[test]
fn nodes_and_moves() {
    let input = sample();
    let s = State::new(&input);
    assert_eq!(s.score, 1 + 36);
    assert!(s.nodes.iter().all(|n| n.is_root() && n.is_leaf()));
    let child = Node { num: 3, h: 2, parent: 2, children: vec![], sum_A: 10, hmax: 4 };
    let parent = Node { num: 5, h: 1, parent: 4, children: vec![], sum_A: 4, hmax: 1 };
    assert!(s.is_valid(&child, &parent, &input));
    assert_eq!(s.calc_diff_score(&child, &parent), 0);
    let deep = Node { num: 5, h: 4, parent: 4, children: vec![], sum_A: 4, hmax: 4 };
    assert!(!s.is_valid(&child, &deep, &input));
    assert_eq!(s.calc_diff_score(&child, &deep), 30);
    let same = Node { num: 2, h: 1, parent: 1, children: vec![], sum_A: 3, hmax: 1 };
    assert!(!s.is_valid(&child, &same, &input));
}

#[test]
fn depth_first_forest() {
    let input = sample();
    let s = State::new(&input);
    let (score, ans) = s.dfs(&input);
    let d = depths(&input, &ans);
    assert_eq!(score, beauty(&input, &d));
    assert_eq!(ans[1], -1);
}

#[test]
fn greedy_forest_is_valid() {
    let input = sample();
    let mut s = State::new(&input);
    let (score, ans) = s.greedy_forest(&input);
    let d = depths(&input, &ans);
    assert_eq!(score, beauty(&input, &d));
    s.greedy(&input);
    assert_eq!(s.score, score);
    for v in 0..input.N {
        assert_eq!(s.nodes[v].parent, ans[v] as i64);
        assert_eq!(s.nodes[v].h, d[v]);
        for &c in s.nodes[v].children.iter() {
            assert_eq!(s.nodes[c].parent, v as i64);
        }
    }
    let total: i64 = input.A.iter().sum();
    for v in 0..input.N {
        if s.nodes[v].is_root() {
            let mut sum = 0;
            for w in 0..input.N {
                let mut x = w;
                while s.nodes[x].parent != -1 {
                    x = s.nodes[x].parent as usize;
                }
                if x == v {
                    sum += input.A[w];
                }
            }
            assert_eq!(s.nodes[v].sum_A, sum);
        }
    }
    assert!(total > 0);
    let line = s.output();
    let parents: Vec<i64> = line.split(' ').map(|t| t.parse().unwrap()).collect();
    assert_eq!(parents, ans.iter().map(|&p| p as i64).collect::<Vec<_>>());
}

#[test]
fn best_average_forest() {
    let input = sample();
    let mut s = State::new(&input);
    let (score, ans) = s.greedy_dfs_forest(&input);
    let d = depths(&input, &ans);
    assert_eq!(score, beauty(&input, &d));
    s.greedy_dfs(&input);
    assert_eq!(s.score, score);
    for v in 0..input.N {
        assert_eq!(s.nodes[v].parent, ans[v] as i64);
        assert_eq!(s.nodes[v].h, d[v]);
    }
}

fn square() -> Input {
    let a = vec![1, 2, 3, 4];
    let uv = vec![(0, 1), (1, 2), (2, 3), (0, 3)];
    let g = build_graph(4, &a, &uv);
    Input { N: 4, M: uv.len(), H: 10, A: a, G: g }
}

#[test]
fn moving_a_subtree() {
    let input = square();
    let mut state = State::new(&input);
    // 0 -> 1 -> 2, and 3 alone: 1 + 1*1 + 2*2 + 3*3 + 4*1.
    state.adopt(19, &vec![-1, 0, 1, -1], &input);
    let sums: Vec<i64> = state.nodes.iter().map(|n| n.sum_A).collect();
    assert_eq!(sums, vec![6, 5, 3, 4]);
    assert!(state.is_loop(&state.nodes[0], &state.nodes[1]));
    assert!(state.is_loop(&state.nodes[2], &state.nodes[2]));
    assert!(!state.is_loop(&state.nodes[2], &state.nodes[3]));
    assert!(state.is_valid(&state.nodes[2], &state.nodes[3], &input));
    let diff = state.calc_diff_score(&state.nodes[2], &state.nodes[3]);
    assert_eq!(diff, -3);
    state.reattach(2, 3, diff);
    assert_eq!(state.score, 16);
    let parents: Vec<i64> = state.nodes.iter().map(|n| n.parent).collect();
    assert_eq!(parents, vec![-1, 0, 3, -1]);
    let depths: Vec<i64> = state.nodes.iter().map(|n| n.h).collect();
    assert_eq!(depths, vec![0, 1, 1, 0]);
    assert!(state.nodes[1].children.is_empty());
    assert_eq!(state.nodes[3].children, vec![2]);
    let sums: Vec<i64> = state.nodes.iter().map(|n| n.sum_A).collect();
    assert_eq!(sums, vec![3, 2, 3, 7]);
    let hmax: Vec<i64> = state.nodes.iter().map(|n| n.hmax).collect();
    assert_eq!(hmax, vec![1, 1, 1, 1]);
    assert_eq!(state.output(), "-1 0 3 -1");
}

#[test]
fn greedy_on_a_path() {
    let a = vec![1, 2, 3];
    let uv = vec![(0, 1), (1, 2)];
    let g = build_graph(3, &a, &uv);
    let input = Input { N: 3, M: 2, H: 10, A: a, G: g };
    let mut state = State::new(&input);
    state.greedy(&input);
    assert_eq!(state.score, 15);
    let parents: Vec<i64> = state.nodes.iter().map(|n| n.parent).collect();
    assert_eq!(parents, vec![-1, 0, 1]);
    let depths: Vec<i64> = state.nodes.iter().map(|n| n.h).collect();
    assert_eq!(depths, vec![0, 1, 2]);
    let sums: Vec<i64> = state.nodes.iter().map(|n| n.sum_A).collect();
    assert_eq!(sums, vec![6, 5, 3]);
    let hmax: Vec<i64> = state.nodes.iter().map(|n| n.hmax).collect();
    assert_eq!(hmax, vec![2, 2, 2]);
    assert_eq!(state.nodes[0].children, vec![1]);
    assert_eq!(state.nodes[1].children, vec![2]);
    assert!(state.nodes[2].children.is_empty());
}

#[test]
fn greedy_keeps_first_best_route() {
    // 0 - 1 and 0 - 2 with equal beauties at 1 and 2: the path through 1
    // comes first and is kept; 2 then becomes a root of its own.
    let a = vec![1, 5, 5];
    let uv = vec![(0, 1), (0, 2)];
    let g = build_graph(3, &a, &uv);
    let input = Input { N: 3, M: 2, H: 6, A: a, G: g };
    let state = State::new(&input);
    let (score, ans) = state.greedy_forest(&input);
    assert_eq!(ans, vec![-1, 0, -1]);
    assert_eq!(score, 17);
}

#[test]
fn best_average_on_a_path() {
    let a = vec![1, 2, 3];
    let uv = vec![(0, 1), (1, 2)];
    let g = build_graph(3, &a, &uv);
    let input = Input { N: 3, M: 2, H: 10, A: a, G: g };
    let mut state = State::new(&input);
    state.greedy_dfs(&input);
    assert_eq!(state.score, 15);
    let parents: Vec<i64> = state.nodes.iter().map(|n| n.parent).collect();
    assert_eq!(parents, vec![-1, 0, 1]);
    let sums: Vec<i64> = state.nodes.iter().map(|n| n.sum_A).collect();
    assert_eq!(sums, vec![6, 5, 3]);
}
