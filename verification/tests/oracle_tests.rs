use connectivity::engine::{full_connectivity, merged_cluster_sizes};
use connectivity::oracle::{oracle_bottleneck, oracle_cluster_sizes, RecomputeOracle};
use connectivity::point::{PointSet, Position};

fn pt(x: u32, y: u32, z: u32) -> Position {
    Position { x, y, z }
}

fn ps(points: Vec<Position>) -> PointSet {
    PointSet::new(points).expect("distances must fit")
}

/// Engine and oracle agree on the cluster-size multiset after every prefix
/// of the sorted edge order.
fn check_against_oracle(points: Vec<Position>) {
    let n = points.len();
    let edge_count = (n * n.saturating_sub(1)) / 2;
    let p = ps(points);
    for k in 0..=(edge_count as u64 + 1) {
        let fast = merged_cluster_sizes(&p, k);
        let slow = oracle_cluster_sizes(&p, k);
        assert_eq!(fast, slow, "cluster sizes diverge after {} merges", k);
    }
    if n >= 2 {
        assert_eq!(full_connectivity(&p), oracle_bottleneck(&p));
    }
}

#[test]
fn oracle_agrees_on_small_scattered_set() {
    check_against_oracle(vec![
        pt(3, 1, 4),
        pt(1, 5, 9),
        pt(2, 6, 5),
        pt(3, 5, 8),
        pt(97, 93, 23),
        pt(84, 62, 64),
        pt(33, 83, 27),
    ]);
}

#[test]
fn oracle_agrees_on_clustered_set() {
    check_against_oracle(vec![
        pt(0, 0, 0),
        pt(1, 0, 0),
        pt(0, 1, 0),
        pt(100, 100, 100),
        pt(101, 100, 100),
        pt(100, 101, 100),
        pt(1000, 0, 0),
        pt(1000, 1, 0),
    ]);
}

#[test]
fn oracle_agrees_with_many_ties() {
    // grid corners: many equal-weight edges exercise the tie-break
    check_against_oracle(vec![
        pt(0, 0, 0),
        pt(1, 0, 0),
        pt(0, 1, 0),
        pt(1, 1, 0),
        pt(0, 0, 1),
        pt(1, 0, 1),
        pt(0, 1, 1),
        pt(1, 1, 1),
    ]);
}

#[test]
fn oracle_agrees_on_line_and_duplicates() {
    check_against_oracle(vec![pt(0, 0, 0), pt(2, 0, 0), pt(4, 0, 0), pt(4, 0, 0), pt(9, 0, 0)]);
    check_against_oracle(vec![pt(5, 5, 5), pt(5, 5, 5)]);
    check_against_oracle(vec![pt(7, 0, 0)]);
}

#[test]
fn oracle_component_sizes_exact() {
    // 0-1 joined, 2-3-4 joined through two edges, 5 alone
    let mut o = RecomputeOracle::new(6);
    o.insert_edge(0, 1);
    o.insert_edge(2, 3);
    o.insert_edge(3, 4);
    assert_eq!(o.component_sizes(), vec![3, 2, 1]);
    // a cycle and a duplicate edge change nothing
    o.insert_edge(4, 2);
    o.insert_edge(0, 1);
    assert_eq!(o.component_sizes(), vec![3, 2, 1]);
    o.insert_edge(5, 0);
    assert_eq!(o.component_sizes(), vec![3, 3]);
}

#[test]
fn oracle_empty_graph_components() {
    let o = RecomputeOracle::new(4);
    assert_eq!(o.component_sizes(), vec![1, 1, 1, 1]);
}

#[test]
fn oracle_bottleneck_matches_scenario() {
    let p = ps(vec![pt(0, 0, 0), pt(1, 0, 0), pt(0, 5, 0)]);
    assert_eq!(oracle_bottleneck(&p), Ok((0, 2, 25)));
}
