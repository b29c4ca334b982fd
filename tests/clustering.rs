use k_means::{
    assign_clusters, calculate_centroid, generate_points, is_strictly_closer, k_means_algo,
    nearest_index, recompute_centroids, same_centroids, same_place, select_by_cumulative,
    sq_distance, Centroid, Centroids, ClusterError, Point,
};

type Init = fn(usize, &[Point], u64) -> Result<Vec<Centroid>, ClusterError>;

fn pt(x: i64, y: i64) -> Point {
    Point { x, y }
}

fn at(p: Point) -> Centroid {
    Centroid { sum: p, count: 1 }
}

fn initializers() -> Vec<Init> {
    vec![
        Centroids::randomly_initialize,
        Centroids::plus_plus_initialize,
        Centroids::fast_plus_plus_initialize,
    ]
}

fn sorted(mut v: Vec<Point>) -> Vec<(i64, i64)> {
    let mut out: Vec<(i64, i64)> = v.drain(..).map(|p| (p.x, p.y)).collect();
    out.sort();
    out
}

#[test]
fn squared_distance_is_exact() {
    assert_eq!(sq_distance(&pt(0, 0), &pt(3, 4)), 25);
    assert_eq!(sq_distance(&pt(-2, 7), &pt(-2, 7)), 0);
}

#[test]
fn closer_compares_exact_positions() {
    let half = Centroid { sum: pt(1, 1), count: 2 };
    assert!(is_strictly_closer(&pt(0, 0), &half, &at(pt(1, 1))));
    assert!(!is_strictly_closer(&pt(1, 0), &at(pt(0, 0)), &at(pt(2, 0))));
    assert!(!is_strictly_closer(&pt(1, 0), &at(pt(2, 0)), &at(pt(0, 0))));
}

#[test]
fn same_place_compares_values() {
    assert!(same_place(&Centroid { sum: pt(2, 4), count: 2 }, &at(pt(1, 2))));
    assert!(!same_place(&Centroid { sum: pt(2, 5), count: 2 }, &at(pt(1, 2))));
    assert!(same_centroids(&vec![at(pt(1, 2)), at(pt(3, 3))], &vec![Centroid { sum: pt(3, 6), count: 3 }, at(pt(3, 3))]));
    assert!(!same_centroids(&vec![at(pt(1, 2))], &vec![at(pt(1, 2)), at(pt(1, 2))]));
}

#[test]
fn nearest_breaks_ties_by_lowest_index() {
    let centers = vec![at(pt(0, 0)), at(pt(2, 0))];
    assert_eq!(nearest_index(&pt(1, 0), &centers), 0);
    assert_eq!(nearest_index(&pt(2, 1), &centers), 1);
}

#[test]
fn assignment_keeps_input_order_and_allows_empty_groups() {
    let points = vec![pt(5, 5), pt(0, 0), pt(6, 5), pt(1, 0)];
    let centers = vec![at(pt(0, 0)), at(pt(5, 5)), at(pt(0, 0))];
    let groups = assign_clusters(&points, &centers);
    assert_eq!(groups, vec![vec![pt(0, 0), pt(1, 0)], vec![pt(5, 5), pt(6, 5)], vec![]]);
}

#[test]
fn centroid_is_exact_mean() {
    let c = calculate_centroid(vec![pt(1, 2), pt(3, 5), pt(8, 1)]);
    assert_eq!(c, Centroid { sum: pt(12, 8), count: 3 });
}

#[test]
fn empty_group_keeps_previous_center() {
    let groups = vec![vec![pt(0, 0), pt(0, 1)], vec![]];
    let previous = vec![at(pt(9, 9)), at(pt(4, 4))];
    let next = recompute_centroids(&groups, &previous);
    assert_eq!(next, vec![Centroid { sum: pt(0, 1), count: 2 }, at(pt(4, 4))]);
}

#[test]
fn cumulative_selection_picks_first_running_total_above_draw() {
    let w = vec![0u64, 3, 0, 2];
    assert_eq!(select_by_cumulative(&w, 0), 1);
    assert_eq!(select_by_cumulative(&w, 2), 1);
    assert_eq!(select_by_cumulative(&w, 3), 3);
    assert_eq!(select_by_cumulative(&w, 4), 3);
    assert_eq!(select_by_cumulative(&w, 5), 3);
    assert_eq!(select_by_cumulative(&vec![1u64, 0, 0], 5), 2);
    assert_eq!(select_by_cumulative(&vec![0u64, 0], 0), 1);
}

#[test]
fn generated_points_are_in_range_and_reproducible() {
    let a = generate_points(200, 42);
    let b = generate_points(200, 42);
    assert_eq!(a.len(), 200);
    assert_eq!(a, b);
    assert!(a.iter().all(|p| 0 <= p.x && p.x < 100 && 0 <= p.y && p.y < 100));
    assert!(a.iter().any(|p| p.x != 0 || p.y != 0));
}

#[test]
fn invalid_cluster_count_is_refused() {
    let points = vec![pt(0, 0), pt(1, 1)];
    for init in initializers() {
        assert_eq!(init(0, &points, 1), Err(ClusterError::InvalidClusterCount));
        assert_eq!(init(3, &points, 1), Err(ClusterError::InvalidClusterCount));
        assert_eq!(k_means_algo(0, points.clone(), 10, init, 1), Err(ClusterError::InvalidClusterCount));
        assert_eq!(k_means_algo(3, points.clone(), 10, init, 1), Err(ClusterError::InvalidClusterCount));
    }
}

#[test]
fn initializers_return_k_centers_on_input_points() {
    let points = generate_points(50, 7);
    for init in initializers() {
        let cs = init(6, &points, 99).unwrap();
        assert_eq!(cs.len(), 6);
        assert!(cs.iter().all(|c| c.count == 1 && points.contains(&c.sum)));
    }
}

#[test]
fn plus_plus_starts_at_first_point() {
    let points = generate_points(30, 3);
    let cs = Centroids::plus_plus_initialize(4, &points, 11).unwrap();
    assert_eq!(cs[0], at(points[0]));
}

#[test]
fn weighted_rounds_never_pick_a_point_already_chosen() {
    let points = vec![pt(0, 0), pt(0, 0), pt(5, 5)];
    for seed in 0..20u64 {
        let pp = Centroids::plus_plus_initialize(2, &points, seed).unwrap();
        assert_eq!(pp, vec![at(pt(0, 0)), at(pt(5, 5))]);
        let fast = Centroids::fast_plus_plus_initialize(2, &points, seed).unwrap();
        assert_ne!(fast[0], fast[1]);
    }
}

#[test]
fn all_points_taken_falls_back_to_last_point() {
    let points = vec![pt(1, 1), pt(2, 2), pt(1, 1)];
    let pp = Centroids::plus_plus_initialize(3, &points, 5).unwrap();
    assert_eq!(pp[2], at(pt(1, 1)));
    let same = vec![pt(4, 4), pt(4, 4)];
    assert_eq!(Centroids::fast_plus_plus_initialize(2, &same, 5).unwrap(), vec![at(pt(4, 4)), at(pt(4, 4))]);
}

#[test]
fn initializers_are_deterministic() {
    let points = generate_points(100, 42);
    for init in initializers() {
        assert_eq!(init(5, &points, 420), init(5, &points, 420));
    }
}

#[test]
fn groups_partition_the_input() {
    let points = generate_points(120, 9);
    for init in initializers() {
        let groups = k_means_algo(4, points.clone(), 100, init, 17).unwrap();
        assert_eq!(groups.len(), 4);
        let all: Vec<Point> = groups.into_iter().flatten().collect();
        assert_eq!(sorted(all), sorted(points.clone()));
    }
}

#[test]
fn converged_centers_are_a_fixed_point() {
    let points = generate_points(80, 5);
    let groups = k_means_algo(3, points.clone(), 100, Centroids::plus_plus_initialize, 8).unwrap();
    let centers: Vec<Centroid> = groups.iter().map(|g| calculate_centroid(g.clone())).collect();
    let again = assign_clusters(&points, &centers);
    assert_eq!(again, groups);
    let next = recompute_centroids(&again, &centers);
    assert!(same_centroids(&next, &centers));
}

#[test]
fn two_pairs_split_into_two_groups() {
    let points = vec![pt(0, 0), pt(0, 1), pt(10, 0), pt(10, 1)];
    for init in initializers() {
        let groups = k_means_algo(2, points.clone(), 2, init, 42).unwrap();
        let mut found: Vec<Vec<(i64, i64)>> = groups.iter().map(|g| sorted(g.clone())).collect();
        found.sort();
        assert_eq!(found, vec![vec![(0, 0), (0, 1)], vec![(10, 0), (10, 1)]]);
        for g in groups {
            let c = calculate_centroid(g.clone());
            assert_eq!(c.count, 2);
            assert_eq!(c.sum.y, 1);
            assert!(c.sum.x == 0 || c.sum.x == 20);
        }
    }
}

#[test]
fn one_cluster_holds_everything_at_the_mean() {
    let points = vec![pt(1, 2), pt(3, 5), pt(8, 1)];
    for init in initializers() {
        let groups = k_means_algo(1, points.clone(), 1, init, 3).unwrap();
        assert_eq!(groups, vec![points.clone()]);
        assert_eq!(calculate_centroid(groups[0].clone()), Centroid { sum: pt(12, 8), count: 3 });
    }
}

#[test]
fn as_many_clusters_as_distinct_points() {
    let points = vec![pt(0, 0), pt(7, 1), pt(3, 9), pt(12, 4), pt(5, 5)];
    for seed in 0..5u64 {
        let cs = Centroids::plus_plus_initialize(5, &points, seed).unwrap();
        let mut taken: Vec<(i64, i64)> = cs.iter().map(|c| (c.sum.x, c.sum.y)).collect();
        taken.sort();
        assert_eq!(taken, sorted(points.clone()));
        let groups = k_means_algo(5, points.clone(), 100, Centroids::plus_plus_initialize, seed).unwrap();
        for g in &groups {
            assert_eq!(g.len(), 1);
            assert_eq!(calculate_centroid(g.clone()), at(g[0]));
        }
    }
}

fn within_cost(groups: &[Vec<Point>], centers: &[Centroid]) -> f64 {
    let mut total = 0.0;
    for (g, c) in groups.iter().zip(centers.iter()) {
        let cx = c.sum.x as f64 / c.count as f64;
        let cy = c.sum.y as f64 / c.count as f64;
        for p in g {
            let dx = p.x as f64 - cx;
            let dy = p.y as f64 - cy;
            total += dx * dx + dy * dy;
        }
    }
    total
}

#[test]
fn cost_never_rises_across_rounds() {
    let points = generate_points(150, 21);
    for init in initializers() {
        let mut centers = init(6, &points, 4).unwrap();
        let mut last = f64::INFINITY;
        for _ in 0..20 {
            let groups = assign_clusters(&points, &centers);
            let cost = within_cost(&groups, &centers);
            assert!(cost <= last + 1e-6);
            last = cost;
            centers = recompute_centroids(&groups, &centers);
        }
    }
}

#[test]
fn as_many_clusters_as_points_costs_nothing() {
    let points = vec![pt(2, 3), pt(9, 9), pt(4, 0)];
    let centers = Centroids::plus_plus_initialize(3, &points, 12).unwrap();
    let groups = assign_clusters(&points, &centers);
    assert_eq!(within_cost(&groups, &centers), 0.0);
}
