use ahc_solvers::ahc045::coord::{isqrt, Coord};
use ahc_solvers::ahc045::forest::{calc_groups, hash_query, kruskal, limited_mst_mask, maskify, masks_of, mst_edges};
use ahc_solvers::ahc045::rectangle::Rect;
use ahc_solvers::ahc045::union_find::UnionFind;
use rand_pcg::Pcg64Mcg;

#[test]
fn whole_square_roots() {
    assert_eq!(isqrt(0), 0);
    assert_eq!(isqrt(1), 1);
    assert_eq!(isqrt(15), 3);
    assert_eq!(isqrt(16), 4);
    assert_eq!(isqrt(17), 4);
    assert_eq!(isqrt(usize::MAX), (1usize << 32) - 1);
}

#[test]
fn point_distances() {
    let a = Coord::new(1, 2);
    let b = Coord::new(4, 6);
    assert_eq!(a.manhattan_dist(b), 7);
    assert_eq!(a.euclidean_dist2(b), 25);
    assert_eq!(a.euclidean_dist(b), 5);
    assert_eq!(a.euclidean_dist(Coord::new(2, 3)), 1);
    assert!(a.in_map(3));
    assert!(!b.in_map(6));
    assert_eq!(a.add_wrapping(b), Coord::new(5, 8));
    assert_eq!(a.sub_wrapping(b), Coord::new(usize::MAX - 2, usize::MAX - 3));
    assert_eq!(a.mul_wrapping(b), Coord::new(4, 12));
}

#[test]
fn rectangles() {
    let r = Rect { x_min: 0, x_max: 10, y_min: 4, y_max: 7 };
    assert_eq!(r.center(), Coord::new(5, 5));
    assert_eq!(r.long_side(), 10);
    let s = Rect { x_min: 13, x_max: 20, y_min: 11, y_max: 12 };
    assert_eq!(r.min_dist(&s), 5);
    assert_eq!(s.min_dist(&r), 5);
    assert_eq!(r.min_dist(&r), 0);
    assert_eq!(r.max_dist(&s), isqrt(400 + 64));
    let mut rng = Pcg64Mcg::new(7);
    for _ in 0..100 {
        let c = r.random_coord(&mut rng);
        assert!(c.x <= 10 && 4 <= c.y && c.y <= 7);
    }
}

#[test]
fn union_find_joins_sets() {
    let mut uf = UnionFind::new(5);
    assert!(!uf.same(0, 1));
    assert!(uf.unite(0, 1));
    assert!(uf.unite(2, 3));
    assert!(!uf.unite(1, 0));
    assert!(uf.same(1, 0));
    assert!(!uf.same(1, 2));
    assert!(uf.unite(1, 3));
    assert!(uf.same(0, 2));
    assert!(!uf.same(4, 0));
    assert_eq!(uf.root(0), uf.root(3));
    // The root of the larger set holds minus its size.
    let r = uf.root(2);
    assert_eq!(uf.parent[r], -4);
    assert_eq!(uf.parent[4], -1);
}

#[test]
fn kruskal_takes_joining_edges() {
    let edges = vec![(0, 1), (1, 2), (0, 2), (3, 4), (2, 3), (1, 4)];
    assert_eq!(kruskal(5, &edges, 10), vec![0, 1, 3, 4]);
    assert_eq!(kruskal(5, &edges, 2), vec![0, 1]);
    assert_eq!(kruskal(5, &edges, 0), Vec::<usize>::new());
}

#[test]
fn neighbour_masks() {
    let masks = masks_of(3, &vec![(0, 1), (1, 2)]);
    assert_eq!(masks, vec![0b010, 0b101, 0b010]);
    // A path over four points: the last edge closes a cycle and is left out.
    let masks = limited_mst_mask(4, &vec![(0, 1), (1, 2), (2, 0), (2, 3), (3, 0)]);
    assert_eq!(masks, vec![0b0010, 0b0101, 0b1010, 0b0100]);
    assert_eq!(limited_mst_mask(1, &vec![(0, 0)]), vec![0]);
}

#[test]
fn masks_by_city_position() {
    let cities = vec![7, 3, 9];
    let masks = maskify(&cities, &vec![(3, 7), (9, 3)]);
    assert_eq!(masks, vec![0b010, 0b101, 0b010]);
}

#[test]
fn spanning_forest_of_group() {
    let group = vec![10, 20, 30];
    let edges = vec![(10, 20), (20, 10), (10, 30), (20, 30)];
    assert_eq!(mst_edges(&group, &edges), vec![(10, 20), (10, 30)]);
}

#[test]
fn groups_of_cities() {
    let groups = calc_groups(&vec![1, 0, 1, 2, 1], 4);
    assert_eq!(groups, vec![vec![1], vec![0, 2, 4], vec![3], vec![]]);
}

#[test]
fn query_hashes() {
    assert_eq!(hash_query(&vec![]), 0xcbf29ce484222325);
    assert_eq!(hash_query(&vec![1]), 0xaf63bc4c8601b62c);
    assert_eq!(hash_query(&vec![1, 2, 3]), 0xd0aa6218672cf5ab);
}

#[test]
fn rect_distances_both_ways() {
    let a = Rect { x_min: 0, x_max: 1, y_min: 0, y_max: 1 };
    let b = Rect { x_min: 4, x_max: 5, y_min: 5, y_max: 6 };
    assert_eq!(a.max_dist(&b), 7);
    assert_eq!(b.max_dist(&a), 7);
    assert_eq!(a.min_dist(&b), 5);
    assert_eq!(b.min_dist(&a), 5);
    assert!(a.min_dist(&b) <= a.max_dist(&b));
}
