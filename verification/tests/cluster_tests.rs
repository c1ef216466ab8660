use puzzles::cluster::{
    dist2, find_full_connection, gen_edges, load_points, rank_edges, solve, solve_part1,
    solve_part2, summarize, ClusterStore, Point, SolveError,
};

fn pt(x: i64, y: i64, z: i64) -> Point {
    Point { x, y, z }
}

#[test]
fn dist2_basic() {
    assert_eq!(dist2(pt(0, 0, 0), pt(1, 2, 2)), 9);
    assert_eq!(dist2(pt(-1, -1, -1), pt(1, 1, 1)), 12);
    assert_eq!(dist2(pt(5, 5, 5), pt(5, 5, 5)), 0);
}

#[test]
fn load_points_ok() {
    let pts = load_points(b"1,2,3\n4,5,6").unwrap();
    assert_eq!(pts.len(), 2);
    assert_eq!(pts[0], pt(1, 2, 3));
    assert_eq!(pts[1], pt(4, 5, 6));
}

#[test]
fn load_points_skips_empty_lines() {
    let pts = load_points(b"1,2,3\n\n-4,5,-6\n").unwrap();
    assert_eq!(pts.len(), 2);
    assert_eq!(pts[1], pt(-4, 5, -6));
}

#[test]
fn load_points_malformed_few_fields() {
    assert_eq!(load_points(b"1,2"), Err(SolveError::MalformedInput));
}

#[test]
fn load_points_malformed_bad_int() {
    assert_eq!(load_points(b"1,2,x"), Err(SolveError::MalformedInput));
}

#[test]
fn load_points_malformed_out_of_range() {
    assert_eq!(
        load_points(b"1,2,999999999999"),
        Err(SolveError::MalformedInput)
    );
}

#[test]
fn edges_are_ranked_stably() {
    // two pairs at distance 9; the (0,1) pair is generated first
    let pts = vec![pt(0, 0, 0), pt(3, 0, 0), pt(6, 0, 0)];
    let ranked = rank_edges(&gen_edges(&pts));
    assert_eq!(ranked.len(), 3);
    assert_eq!((ranked[0].d2, ranked[0].a, ranked[0].b), (9, 0, 1));
    assert_eq!((ranked[1].d2, ranked[1].a, ranked[1].b), (9, 1, 2));
    assert_eq!((ranked[2].d2, ranked[2].a, ranked[2].b), (36, 0, 2));
}

// Scenario: budget of one edge merges only the two closest points.
#[test]
fn scenario_one_edge_budget() {
    let pts = vec![pt(0, 0, 0), pt(0, 0, 1), pt(10, 10, 10)];
    let ranked = rank_edges(&gen_edges(&pts));
    let mut store = ClusterStore::new(3);
    assert_eq!(store.active_cluster_count(), 3);
    let e = ranked[0];
    assert_eq!((e.a, e.b), (0, 1));
    let ca = store.find(e.a);
    let cb = store.find(e.b);
    store.merge(ca, cb);
    assert_eq!(store.active_cluster_count(), 2);
    assert_eq!(store.cluster_sizes(), vec![2, 1]);
}

// Scenario: a summary asked of a run that leaves fewer than three
// clusters is refused.
#[test]
fn scenario_insufficient_clusters() {
    let pts = vec![pt(0, 0, 0), pt(0, 0, 1), pt(10, 10, 10)];
    assert_eq!(summarize(&pts, 1), Err(SolveError::InsufficientClusters));
    assert_eq!(summarize(&pts, 1000), Err(SolveError::InsufficientClusters));
}

// Scenario: the full-connectivity search stops the moment one cluster
// remains and reports the pair completing that merge.
#[test]
fn scenario_full_connectivity_early_exit() {
    let pts = vec![pt(0, 0, 0), pt(5, 0, 0), pt(5, 5, 0)];
    // distances: (0,1) -> 25, (1,2) -> 25, (0,2) -> 50; the second ranked
    // edge (1,2) completes connectivity, so the answer is 5 * 5.
    assert_eq!(find_full_connection(&pts, 3), Ok(25));
    // the same result even with a larger budget: the third edge is never needed
    assert_eq!(find_full_connection(&pts, 1000), Ok(25));
}

// Scenario: equal squared distances are broken by generation order,
// observable in which pair completes the connection.
#[test]
fn scenario_tie_break_by_generation_order() {
    let pts = vec![pt(0, 0, 0), pt(3, 0, 0), pt(6, 0, 0)];
    // (0,1) and (1,2) both have distance 9; (0,1) is ranked first, so the
    // connection completes on (1,2): 3 * 6, not on (0,1): 0 * 3.
    assert_eq!(find_full_connection(&pts, 2), Ok(18));
}

#[test]
fn scenario_tie_break_in_store_sizes() {
    let pts = vec![pt(0, 0, 0), pt(3, 0, 0), pt(6, 0, 0)];
    let ranked = rank_edges(&gen_edges(&pts));
    let mut store = ClusterStore::new(3);
    let ca = store.find(ranked[0].a);
    let cb = store.find(ranked[0].b);
    store.merge(ca, cb);
    // the first merge joined points 0 and 1 (cluster id 0 survives), not 1 and 2
    assert_eq!(store.cluster_sizes(), vec![2, 1]);
    assert_eq!(store.find(0), store.find(1));
    assert_ne!(store.find(0), store.find(2));
}

#[test]
fn budget_exceeded() {
    let pts = vec![pt(0, 0, 0), pt(0, 0, 1), pt(10, 10, 10)];
    assert_eq!(find_full_connection(&pts, 1), Err(SolveError::BudgetExceeded));
    assert_eq!(find_full_connection(&pts, 0), Err(SolveError::BudgetExceeded));
}

#[test]
fn merge_is_idempotent_on_merged_clusters() {
    let mut store = ClusterStore::new(4);
    let c0 = store.find(0);
    let c1 = store.find(1);
    let surv = store.merge(c0, c1);
    assert_eq!(store.active_cluster_count(), 3);
    // the points now share one cluster; repeating the merge is a no-op
    let again_a = store.find(0);
    let again_b = store.find(1);
    assert_eq!(again_a, again_b);
    assert_eq!(again_a, surv);
    store.merge(again_a, again_b);
    assert_eq!(store.active_cluster_count(), 3);
    assert_eq!(store.cluster_sizes(), vec![2, 1, 1]);
}

#[test]
fn active_count_drops_by_one_per_merge() {
    let mut store = ClusterStore::new(5);
    assert_eq!(store.active_cluster_count(), 5);
    for p in 1..5usize {
        let ca = store.find(0);
        let cb = store.find(p);
        store.merge(ca, cb);
        assert_eq!(store.active_cluster_count(), 5 - p);
    }
    assert_eq!(store.cluster_sizes(), vec![5]);
}

#[test]
fn size_biased_merge_absorbs_smaller() {
    let mut store = ClusterStore::new(3);
    // make cluster 1 the bigger one: {1, 2}
    let surv = store.merge(1, 2);
    assert_eq!(surv, 1);
    // merging {0} with {1,2}: the smaller singleton is absorbed, id 1 survives
    let surv2 = store.merge(store.find(0), store.find(1));
    assert_eq!(surv2, 1);
    assert_eq!(store.find(0), 1);
}

#[test]
fn partition_is_preserved() {
    let mut store = ClusterStore::new(6);
    store.merge(0, 1);
    store.merge(2, 3);
    store.merge(store.find(0), store.find(2));
    let sizes = store.cluster_sizes();
    let total: usize = sizes.iter().sum();
    assert_eq!(total, 6);
    assert!(sizes.iter().all(|&s| s > 0));
}

#[test]
fn summarize_three_clusters() {
    // three groups of 27 collinear points, far apart: the 1000 cheapest
    // edges all lie inside the groups, leaving exactly three clusters
    let mut pts = Vec::new();
    for g in 0..3i64 {
        for i in 0..27i64 {
            pts.push(pt(i, 100_000 * g, 0));
        }
    }
    assert_eq!(summarize(&pts, 1000), Ok(27 * 27 * 27));
}

#[test]
fn solve_full_connectivity_text() {
    // distances: (0,1) -> 1, (1,2) -> 262, (0,2) -> 281; connection
    // completes on edge (1,2): 1 * 10
    let r = solve(b"1,0,0\n1,0,1\n10,10,10", true);
    assert_eq!(r, Ok(10));
    assert_eq!(solve_part2(b"1,0,0\n1,0,1\n10,10,10"), Ok(10));
}

#[test]
fn solve_part1_text_insufficient() {
    assert_eq!(
        solve_part1(b"1,0,0\n1,0,1\n10,10,10"),
        Err(SolveError::InsufficientClusters)
    );
}

#[test]
fn solve_malformed_text() {
    assert_eq!(solve(b"1,2,3\nbroken", false), Err(SolveError::MalformedInput));
    assert_eq!(solve(b"1;2;3", true), Err(SolveError::MalformedInput));
}
