use connectivity::edge::{pairwise_edges, sort_edges, EdgeQueue};
use connectivity::point::{PointSet, Position};

fn pt(x: u32, y: u32, z: u32) -> Position {
    Position { x, y, z }
}

#[test]
fn enumerates_each_pair_once_in_generation_order() {
    let p = PointSet::new(vec![pt(0, 0, 0), pt(1, 0, 0), pt(0, 5, 0)]).unwrap();
    let edges = pairwise_edges(&p);
    let triples: Vec<(usize, usize, u64)> = edges.iter().map(|e| (e.a, e.b, e.w)).collect();
    assert_eq!(triples, vec![(0, 1, 1), (0, 2, 25), (1, 2, 26)]);
}

#[test]
fn sorts_by_weight_with_index_tie_break() {
    let p = PointSet::new(vec![pt(0, 0, 0), pt(1, 0, 0), pt(0, 1, 0), pt(1, 1, 0)]).unwrap();
    let sorted = sort_edges(pairwise_edges(&p));
    let triples: Vec<(usize, usize, u64)> = sorted.iter().map(|e| (e.a, e.b, e.w)).collect();
    // four sides of weight 1 ordered by index pair, then the two diagonals
    assert_eq!(
        triples,
        vec![(0, 1, 1), (0, 2, 1), (1, 3, 1), (2, 3, 1), (0, 3, 2), (1, 2, 2)]
    );
}

#[test]
fn queue_pops_cheapest_first_until_empty() {
    let p = PointSet::new(vec![pt(0, 0, 0), pt(3, 0, 0), pt(4, 0, 0)]).unwrap();
    let mut q = EdgeQueue::new(sort_edges(pairwise_edges(&p)));
    let mut weights = Vec::new();
    while let Some(e) = q.pop_min() {
        weights.push(e.w);
    }
    assert_eq!(weights, vec![1, 9, 16]);
    assert!(q.pop_min().is_none());
}
