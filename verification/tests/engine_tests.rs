use connectivity::dsf::DisjointSetForest;
use connectivity::engine::{bounded_merge, full_connectivity, merged_cluster_sizes, EngineError};
use connectivity::point::{PointSet, Position};

fn pt(x: u32, y: u32, z: u32) -> Position {
    Position { x, y, z }
}

fn ps(points: Vec<Position>) -> PointSet {
    PointSet::new(points).expect("distances must fit")
}

#[test]
fn dist_exact_values() {
    let a = pt(0, 0, 0);
    let b = pt(1, 2, 3);
    assert_eq!(a.dist(&b), 14);
    assert_eq!(b.dist(&a), 14);
    assert_eq!(a.dist(&a), 0);
    let c = pt(1, 0, 0);
    let d = pt(0, 5, 0);
    assert_eq!(a.dist(&c), 1);
    assert_eq!(a.dist(&d), 25);
    assert_eq!(c.dist(&d), 26);
}

#[test]
fn point_set_rejects_overflowing_distances() {
    let big = u32::MAX;
    assert!(PointSet::new(vec![pt(0, 0, 0), pt(big, big, big)]).is_none());
    assert!(PointSet::new(vec![pt(0, 0, 0), pt(1, 2, 3)]).is_some());
}

#[test]
fn scenario_three_points_bottleneck() {
    // weights: 1 (pair 0-1), 25 (pair 0-2), 26 (pair 1-2); the first union
    // joins 0-1, and edge 0-2 of weight 25 achieves full connectivity
    let p = ps(vec![pt(0, 0, 0), pt(1, 0, 0), pt(0, 5, 0)]);
    let r = full_connectivity(&p);
    assert_eq!(r, Ok((0, 2, 25)));
}

#[test]
fn scenario_two_triangles_and_outlier() {
    // two triangles far apart plus one far outlier; the two cheapest edges
    // are one per triangle, so two merge attempts leave {2, 2, 1, 1, 1}
    let p = ps(vec![
        pt(0, 0, 0),
        pt(1, 0, 0),
        pt(0, 10, 0),
        pt(1000, 0, 0),
        pt(1001, 1, 0),
        pt(1000, 3, 0),
        pt(5000, 5000, 5000),
    ]);
    assert_eq!(merged_cluster_sizes(&p, 2), vec![2, 2, 1, 1, 1]);
    assert_eq!(bounded_merge(&p, 2), Ok(4));
}

#[test]
fn boundary_two_points() {
    // full connectivity succeeds trivially with the single edge; the
    // bounded query can never leave three clusters
    let p = ps(vec![pt(0, 0, 0), pt(3, 4, 0)]);
    assert_eq!(full_connectivity(&p), Ok((0, 1, 25)));
    assert_eq!(bounded_merge(&p, 1), Err(EngineError::InsufficientClusters));
    assert_eq!(bounded_merge(&p, 5), Err(EngineError::InsufficientClusters));
    assert_eq!(bounded_merge(&p, 0), Err(EngineError::InsufficientClusters));
}

#[test]
fn never_fully_connected_on_tiny_inputs() {
    let empty = ps(vec![]);
    assert_eq!(full_connectivity(&empty), Err(EngineError::NeverFullyConnected));
    let single = ps(vec![pt(7, 7, 7)]);
    assert_eq!(full_connectivity(&single), Err(EngineError::NeverFullyConnected));
}

#[test]
fn determinism_with_ties() {
    // a unit square: four edges of weight 1, ties broken by index pair;
    // repeated runs return the identical bottleneck edge
    let mk = || ps(vec![pt(0, 0, 0), pt(1, 0, 0), pt(0, 1, 0), pt(1, 1, 0)]);
    let r1 = full_connectivity(&mk());
    let r2 = full_connectivity(&mk());
    assert_eq!(r1, r2);
    // sorted order is (1,(0,1)), (1,(0,2)), (1,(1,3)), (1,(2,3)), ...;
    // the third weight-1 edge joins the last stragglers
    assert_eq!(r1, Ok((1, 3, 1)));
}

#[test]
fn bounded_merge_counts_noop_attempts() {
    // collinear points: after the two cheapest merges the nearest pair is
    // already connected, so further attempts may be no-ops yet still count
    let p = ps(vec![pt(0, 0, 0), pt(1, 0, 0), pt(2, 0, 0), pt(100, 0, 0), pt(200, 0, 0)]);
    // edges sorted: (1,(0,1)), (1,(1,2)), (4,(0,2)) no-op, ...
    assert_eq!(merged_cluster_sizes(&p, 2), vec![3, 1, 1]);
    assert_eq!(merged_cluster_sizes(&p, 3), vec![3, 1, 1]);
    assert_eq!(bounded_merge(&p, 3), Ok(3));
}

#[test]
fn bounded_merge_limit_zero_and_exhaustion() {
    let p = ps(vec![pt(0, 0, 0), pt(1, 0, 0), pt(0, 1, 0), pt(9, 9, 9)]);
    assert_eq!(merged_cluster_sizes(&p, 0), vec![1, 1, 1, 1]);
    assert_eq!(bounded_merge(&p, 0), Ok(1));
    // a limit beyond the edge count consumes every edge: one cluster left
    assert_eq!(merged_cluster_sizes(&p, 1000), vec![4]);
    assert_eq!(bounded_merge(&p, 1000), Err(EngineError::InsufficientClusters));
}

#[test]
fn duplicate_points_merge_at_weight_zero() {
    let p = ps(vec![pt(5, 5, 5), pt(5, 5, 5), pt(60, 5, 5)]);
    assert_eq!(merged_cluster_sizes(&p, 1), vec![2, 1]);
    let r = full_connectivity(&p);
    assert_eq!(r, Ok((0, 2, 3025)));
}

#[test]
fn forest_find_idempotent_and_sizes_conserved() {
    let mut d = DisjointSetForest::new(8);
    assert_eq!(d.cluster_count(), 8);
    let merges = [(0usize, 1usize), (2, 3), (1, 2), (4, 5), (0, 3), (6, 7)];
    let mut expected = 8;
    for &(a, b) in merges.iter() {
        let before = d.cluster_count();
        let merged = d.union(a, b);
        if merged {
            expected -= 1;
            assert_eq!(d.cluster_count(), before - 1);
        } else {
            assert_eq!(d.cluster_count(), before);
        }
        assert_eq!(d.cluster_count(), expected);
        // find is idempotent at every step
        for i in 0..8 {
            let r = d.find(i);
            assert_eq!(d.find(r), r);
        }
        // the sizes of distinct clusters always sum to n
        let total: usize = d.cluster_sizes().iter().sum();
        assert_eq!(total, 8);
    }
    assert!(d.union(0, 2) == false);
    assert_eq!(d.cluster_size(1), 4);
    assert_eq!(d.cluster_size(4), 2);
    assert_eq!(d.cluster_sizes(), vec![4, 2, 2]);
}
