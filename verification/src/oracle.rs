//! The component-recompute oracle: the slow, obviously-correct baseline
//! against which the incremental engine is cross-checked.
//!
//! It keeps an explicit undirected graph over the point indices and, on
//! each query, recomputes the full partition into connected components
//! from scratch with petgraph's strongly-connected-components pass — on an
//! undirected graph, those are exactly the connected components.

use vstd::prelude::*;
use vstd::relations::sorted_by;
use crate::point::{PointSet, Position, pairwise_fit};
use crate::edge::{Edge, edge_wf, lemma_rows_upto_len, lemma_sorted_edges_wf, mk_edge, sorted_edges,
    spec_sorted_edges};
use crate::engine::{EngineError, capped_len, sort_desc, usize_geq};

verus! {

#[verifier::external_type_specification]
#[verifier::external_body]
#[verifier::reject_recursive_types(N)]
#[verifier::reject_recursive_types(E)]
#[verifier::reject_recursive_types(Ty)]
#[verifier::reject_recursive_types(Ix)]
pub struct ExGraph<N, E, Ty, Ix>(petgraph::graph::Graph<N, E, Ty, Ix>);

#[verifier::external_type_specification]
#[verifier::external_body]
pub struct ExUndirected(petgraph::Undirected);

/// The number of nodes a graph holds.
pub uninterp spec fn graph_node_count(
    g: petgraph::graph::Graph<(), (), petgraph::Undirected, u32>,
) -> nat;

/// The edges a graph holds, as endpoint index pairs in insertion order.
pub uninterp spec fn graph_edge_list(
    g: petgraph::graph::Graph<(), (), petgraph::Undirected, u32>,
) -> Seq<(int, int)>;

/// Relies on petgraph's `Graph::new_undirected`: an empty undirected
/// graph.
#[verifier::external_body]
fn graph_new() -> (g: petgraph::graph::Graph<(), (), petgraph::Undirected, u32>)
    ensures
        graph_node_count(g) == 0,
        graph_edge_list(g) == Seq::<(int, int)>::empty(),
{
    petgraph::graph::Graph::new_undirected()
}

/// Relies on petgraph's `Graph::add_node`: appends one node, whose index
/// is the node count before the call.
#[verifier::external_body]
fn graph_add_node(g: &mut petgraph::graph::Graph<(), (), petgraph::Undirected, u32>) -> (idx:
    usize)
    requires
        graph_node_count(*old(g)) < 0xFFFF_FFFF,
    ensures
        graph_node_count(*final(g)) == graph_node_count(*old(g)) + 1,
        graph_edge_list(*final(g)) == graph_edge_list(*old(g)),
        idx == graph_node_count(*old(g)),
{
    g.add_node(()).index()
}

/// Relies on petgraph's `Graph::add_edge`: appends one undirected edge
/// between two existing nodes.
#[verifier::external_body]
fn graph_add_edge(
    g: &mut petgraph::graph::Graph<(), (), petgraph::Undirected, u32>,
    a: usize,
    b: usize,
)
    requires
        a < graph_node_count(*old(g)),
        b < graph_node_count(*old(g)),
        graph_edge_list(*old(g)).len() < 0xFFFF_FFFF,
    ensures
        graph_node_count(*final(g)) == graph_node_count(*old(g)),
        graph_edge_list(*final(g)) == graph_edge_list(*old(g)).push((a as int, b as int)),
{
    g.add_edge(petgraph::graph::NodeIndex::new(a), petgraph::graph::NodeIndex::new(b), ());
}

/// The views of returned component lists.
pub open spec fn comp_views(r: Seq<Vec<usize>>) -> Seq<Seq<usize>> {
    r.map_values(|c: Vec<usize>| c@)
}

/// One edge joins `x` and `y`, in either orientation.
pub open spec fn step_ok(es: Seq<(int, int)>, x: int, y: int) -> bool {
    es.contains((x, y)) || es.contains((y, x))
}

/// A walk through the edge list over nodes below `n`.
pub open spec fn path_ok(n: nat, es: Seq<(int, int)>, p: Seq<int>) -> bool {
    &&& p.len() >= 1
    &&& forall|t: int| 0 <= t < p.len() ==> 0 <= #[trigger] p[t] < n
    &&& forall|t: int| 0 <= t < p.len() - 1 ==> step_ok(es, #[trigger] p[t], p[t + 1])
}

/// Nodes `u` and `v` are joined, directly or indirectly, by the edges.
pub open spec fn connected(n: nat, es: Seq<(int, int)>, u: int, v: int) -> bool {
    exists|p: Seq<int>| path_ok(n, es, p) && p.first() == u && p.last() == v
}

/// `u` and `v` stand in one of the component lists.
pub open spec fn same_component(cs: Seq<Seq<usize>>, u: usize, v: usize) -> bool {
    exists|k: int|
        0 <= k < cs.len() && (#[trigger] cs[k]).contains(u) && cs[k].contains(v)
}

/// The node indices `0 .. n`, as a list.
pub open spec fn range_ids(n: nat) -> Seq<usize> {
    Seq::new(n, |i: int| i as usize)
}

/// The component lists partition the node indices `0 .. n`: every index in
/// exactly one list, no list empty.
pub open spec fn components_partition(cs: Seq<Seq<usize>>, n: nat) -> bool {
    &&& cs.flatten().to_multiset() == range_ids(n).to_multiset()
    &&& forall|k: int| 0 <= k < cs.len() ==> (#[trigger] cs[k]).len() >= 1
}

/// The edge list of a series of candidate edges, as endpoint pairs.
pub open spec fn edge_pairs(es: Seq<Edge>) -> Seq<(int, int)> {
    es.map_values(|e: Edge| (e.a as int, e.b as int))
}

/// The connected component of node `u` under the edge list.
pub open spec fn conn_cluster(n: nat, es: Seq<(int, int)>, u: int) -> Set<usize> {
    Set::new(|j: usize| (j as nat) < n && connected(n, es, j as int, u))
}

/// Node `u` is connected to one of the chosen representatives.
pub open spec fn covered_by(n: nat, es: Seq<(int, int)>, reps: Seq<int>, u: int) -> bool {
    exists|q: int| 0 <= q < reps.len() && connected(n, es, u, #[trigger] reps[q])
}

/// `reps` holds one node from each connected component: pairwise
/// disconnected, and every node reaches one of them.
pub open spec fn valid_reps(n: nat, es: Seq<(int, int)>, reps: Seq<int>) -> bool {
    &&& forall|q: int| 0 <= q < reps.len() ==> 0 <= #[trigger] reps[q] < n
    &&& forall|q1: int, q2: int|
        #![trigger reps[q1], reps[q2]]
        0 <= q1 < reps.len() && 0 <= q2 < reps.len() && q1 != q2 ==> !connected(
            n,
            es,
            reps[q1],
            reps[q2],
        )
    &&& forall|u: int| 0 <= u < n ==> #[trigger] covered_by(n, es, reps, u)
}

/// The component sizes of the representatives, in their order.
pub open spec fn rep_sizes(n: nat, es: Seq<(int, int)>, reps: Seq<int>) -> Seq<usize> {
    Seq::new(reps.len(), |q: int| conn_cluster(n, es, reps[q]).len() as usize)
}

/// What a component-size query returns: for some choice of one
/// representative per connected component of the edge list, the sizes of
/// their components, largest first.  This pins the size multiset as a
/// function of the nodes and edges alone.
pub open spec fn component_sizes_post(n: nat, es: Seq<(int, int)>, sizes: Seq<usize>) -> bool {
    exists|reps: Seq<int>|
        #[trigger] valid_reps(n, es, reps) && sizes == rep_sizes(n, es, reps).sort_by(usize_geq())
}

/// All `n` nodes are joined by the edge list.
pub open spec fn conn_all(n: nat, es: Seq<(int, int)>) -> bool {
    forall|u: int, v: int| 0 <= u < n && 0 <= v < n ==> #[trigger] connected(n, es, u, v)
}

/// Scanning the candidate edges in order, the first one whose insertion
/// into the accumulated edge list `done` joins all `n` nodes.
pub open spec fn scan_conn(n: nat, es: Seq<Edge>, done: Seq<(int, int)>) -> Option<Edge>
    decreases es.len(),
{
    if es.len() == 0 {
        None
    } else {
        let d2 = done.push((es[0].a as int, es[0].b as int));
        if conn_all(n, d2) {
            Some(es[0])
        } else {
            scan_conn(n, es.drop_first(), d2)
        }
    }
}

/// The bounded oracle's contract: the reported sizes are the component
/// sizes of the graph holding the cheapest `limit` candidate edges.
pub open spec fn oracle_sizes_post(ps: Seq<Position>, limit: u64, sizes: Seq<usize>) -> bool {
    let es = spec_sorted_edges(ps);
    component_sizes_post(ps.len(), edge_pairs(es.take(capped_len(limit, es.len()))), sizes)
}

/// The naive full-connectivity contract: with fewer than two points the
/// query fails; otherwise it returns exactly the first sorted candidate
/// edge whose insertion joins all nodes.
pub open spec fn oracle_bottleneck_post(
    ps: Seq<Position>,
    r: Result<(usize, usize, u64), EngineError>,
) -> bool {
    match r {
        Ok(t) => ps.len() >= 2 && scan_conn(ps.len(), spec_sorted_edges(ps), Seq::empty())
            == Some(Edge { a: t.0, b: t.1, w: t.2 }),
        Err(e) => e == EngineError::NeverFullyConnected && ps.len() < 2,
    }
}

/// Every node is connected to itself.
pub(crate) proof fn lemma_connected_refl(n: nat, es: Seq<(int, int)>, u: int)
    requires
        0 <= u < n,
    ensures
        connected(n, es, u, u),
{
    let p = seq![u];
    assert(p[0] == u);
    assert(connected(n, es, u, u)) by {
        assert(path_ok(n, es, p) && p.first() == u && p.last() == u);
    }
}

/// A single edge connects its in-range endpoints.
pub(crate) proof fn lemma_connected_step(n: nat, es: Seq<(int, int)>, x: int, y: int)
    requires
        0 <= x < n,
        0 <= y < n,
        step_ok(es, x, y),
    ensures
        connected(n, es, x, y),
{
    let p = seq![x, y];
    assert(p[0] == x && p[1] == y);
    assert(path_ok(n, es, p));
    assert(p.first() == x && p.last() == y);
}

/// Connectivity is symmetric: walk the path backwards.
pub(crate) proof fn lemma_connected_sym(n: nat, es: Seq<(int, int)>, u: int, v: int)
    requires
        connected(n, es, u, v),
    ensures
        connected(n, es, v, u),
{
    let p = choose|p: Seq<int>| path_ok(n, es, p) && p.first() == u && p.last() == v;
    let l = p.len() as int;
    let q = Seq::new(p.len(), |t: int| p[l - 1 - t]);
    assert(path_ok(n, es, q)) by {
        assert forall|t: int| 0 <= t < q.len() - 1 implies step_ok(es, #[trigger] q[t], q[t + 1]) by {
            assert(q[t] == p[l - 1 - t] && q[t + 1] == p[l - 2 - t]);
            assert(step_ok(es, p[l - 2 - t], p[l - 2 - t + 1]));
        }
    }
    assert(q.first() == p.last() && q.last() == p.first());
}

/// Connectivity is transitive: join the walks at the shared node.
pub(crate) proof fn lemma_connected_trans(n: nat, es: Seq<(int, int)>, u: int, v: int, w: int)
    requires
        connected(n, es, u, v),
        connected(n, es, v, w),
    ensures
        connected(n, es, u, w),
{
    let p1 = choose|p: Seq<int>| path_ok(n, es, p) && p.first() == u && p.last() == v;
    let p2 = choose|p: Seq<int>| path_ok(n, es, p) && p.first() == v && p.last() == w;
    let q = p1 + p2.drop_first();
    let l1 = p1.len() as int;
    assert(path_ok(n, es, q)) by {
        assert forall|t: int| 0 <= t < q.len() implies 0 <= #[trigger] q[t] < n by {
            if t < l1 {
                assert(q[t] == p1[t]);
            } else {
                assert(q[t] == p2[t - l1 + 1]);
            }
        }
        assert forall|t: int| 0 <= t < q.len() - 1 implies step_ok(es, #[trigger] q[t], q[t + 1]) by {
            if t + 1 < l1 {
                assert(q[t] == p1[t] && q[t + 1] == p1[t + 1]);
            } else if t + 1 == l1 {
                assert(q[t] == p1[t]);
                assert(q[t + 1] == p2[1]);
                assert(p1[l1 - 1] == v == p2[0]);
                assert(step_ok(es, p2[0], p2[1]));
            } else {
                assert(q[t] == p2[t - l1 + 1] && q[t + 1] == p2[t - l1 + 2]);
                assert(step_ok(es, p2[t - l1 + 1], p2[t - l1 + 1 + 1]));
            }
        }
    }
    assert(q.first() == u);
    assert(q.last() == w) by {
        if p2.len() == 1 {
            assert(q =~= p1);
        } else {
            assert(q.last() == p2.last());
        }
    }
}

/// Occurrences of `x` summed over a sequence of lists.
spec fn total_count(cs: Seq<Seq<usize>>, x: usize) -> nat
    decreases cs.len(),
{
    if cs.len() == 0 {
        0
    } else {
        cs[0].to_multiset().count(x) + total_count(cs.drop_first(), x)
    }
}

/// Flattening preserves occurrence counts.
proof fn lemma_flatten_count(cs: Seq<Seq<usize>>, x: usize)
    ensures
        cs.flatten().to_multiset().count(x) == total_count(cs, x),
    decreases cs.len(),
{
    broadcast use vstd::multiset::group_multiset_axioms;
    broadcast use vstd::seq_lib::group_to_multiset_ensures;

    if cs.len() == 0 {
        assert(cs.flatten() =~= Seq::<usize>::empty());
        assert(!Seq::<usize>::empty().contains(x));
    } else {
        lemma_flatten_count(cs.drop_first(), x);
        assert(cs.flatten() == cs.first() + cs.drop_first().flatten());
        vstd::seq_lib::lemma_multiset_commutative(cs.first(), cs.drop_first().flatten());
        assert(cs.first() == cs[0]);
    }
}

/// One list's occurrences are part of the total.
proof fn lemma_total_count_one(cs: Seq<Seq<usize>>, k: int, x: usize)
    requires
        0 <= k < cs.len(),
    ensures
        total_count(cs, x) >= cs[k].to_multiset().count(x),
    decreases k,
{
    if k > 0 {
        lemma_total_count_one(cs.drop_first(), k - 1, x);
        assert(cs.drop_first()[k - 1] == cs[k]);
    }
}

/// Two different lists' occurrences are both part of the total.
proof fn lemma_total_count_two(cs: Seq<Seq<usize>>, k1: int, k2: int, x: usize)
    requires
        0 <= k1 < k2 < cs.len(),
    ensures
        total_count(cs, x) >= cs[k1].to_multiset().count(x) + cs[k2].to_multiset().count(x),
    decreases k1,
{
    if k1 == 0 {
        lemma_total_count_one(cs.drop_first(), k2 - 1, x);
        assert(cs.drop_first()[k2 - 1] == cs[k2]);
    } else {
        lemma_total_count_two(cs.drop_first(), k1 - 1, k2 - 1, x);
        assert(cs.drop_first()[k1 - 1] == cs[k1]);
        assert(cs.drop_first()[k2 - 1] == cs[k2]);
    }
}

/// A positive total names a list holding `x`.
proof fn lemma_total_count_member(cs: Seq<Seq<usize>>, x: usize)
    requires
        total_count(cs, x) > 0,
    ensures
        exists|k: int| 0 <= k < cs.len() && (#[trigger] cs[k]).contains(x),
    decreases cs.len(),
{
    broadcast use vstd::seq_lib::group_to_multiset_ensures;

    if cs[0].to_multiset().count(x) > 0 {
        assert(cs[0].contains(x));
    } else {
        lemma_total_count_member(cs.drop_first(), x);
        let rest = cs.drop_first();
        let k = choose|k: int| 0 <= k < rest.len() && (#[trigger] rest[k]).contains(x);
        assert(cs[k + 1].contains(x));
    }
}

/// Each id below `n` occurs exactly once in the identity list.
proof fn lemma_range_ids_count(n: nat, x: usize)
    requires
        n <= usize::MAX,
    ensures
        range_ids(n).to_multiset().count(x) == if (x as nat) < n {
            1nat
        } else {
            0nat
        },
    decreases n,
{
    broadcast use vstd::seq_lib::group_to_multiset_ensures;
    broadcast use vstd::multiset::group_multiset_axioms;

    if n == 0 {
        assert(range_ids(0) =~= Seq::<usize>::empty());
    } else {
        let m = (n - 1) as nat;
        lemma_range_ids_count(m, x);
        assert(range_ids(n) =~= range_ids(m).push((n - 1) as usize));
        assert(range_ids(m).push((n - 1) as usize).to_multiset() =~= range_ids(
            m,
        ).to_multiset().insert((n - 1) as usize));
    }
}

/// Every id of a list of a partition is below `n`.
proof fn lemma_partition_bounds(cs: Seq<Seq<usize>>, n: nat, k: int, x: usize)
    requires
        components_partition(cs, n),
        n <= usize::MAX,
        0 <= k < cs.len(),
        cs[k].contains(x),
    ensures
        (x as nat) < n,
{
    broadcast use vstd::seq_lib::group_to_multiset_ensures;

    lemma_total_count_one(cs, k, x);
    lemma_flatten_count(cs, x);
    lemma_range_ids_count(n, x);
}

/// An id names its list of a partition uniquely.
proof fn lemma_partition_unique(cs: Seq<Seq<usize>>, n: nat, k1: int, k2: int, x: usize)
    requires
        components_partition(cs, n),
        n <= usize::MAX,
        0 <= k1 < cs.len(),
        0 <= k2 < cs.len(),
        cs[k1].contains(x),
        cs[k2].contains(x),
    ensures
        k1 == k2,
{
    broadcast use vstd::seq_lib::group_to_multiset_ensures;

    if k1 < k2 {
        lemma_total_count_two(cs, k1, k2, x);
    } else if k2 < k1 {
        lemma_total_count_two(cs, k2, k1, x);
    }
    lemma_flatten_count(cs, x);
    lemma_range_ids_count(n, x);
}

/// Every id below `n` stands in some list of a partition.
proof fn lemma_partition_covers(cs: Seq<Seq<usize>>, n: nat, u: usize)
    requires
        components_partition(cs, n),
        n <= usize::MAX,
        (u as nat) < n,
    ensures
        exists|k: int| 0 <= k < cs.len() && (#[trigger] cs[k]).contains(u),
{
    lemma_flatten_count(cs, u);
    lemma_range_ids_count(n, u);
    lemma_total_count_member(cs, u);
}

/// No list of a partition repeats an id.
proof fn lemma_partition_nodup(cs: Seq<Seq<usize>>, n: nat, k: int)
    requires
        components_partition(cs, n),
        n <= usize::MAX,
        0 <= k < cs.len(),
    ensures
        cs[k].no_duplicates(),
{
    broadcast use vstd::seq_lib::group_to_multiset_ensures;

    assert forall|x: usize| cs[k].to_multiset().contains(x) implies cs[k].to_multiset().count(x)
        == 1 by {
        assert(cs[k].to_multiset().count(x) >= 1);
        lemma_total_count_one(cs, k, x);
        lemma_flatten_count(cs, x);
        lemma_range_ids_count(n, x);
    }
    cs[k].lemma_multiset_has_no_duplicates_conv();
}

/// Relies on petgraph's `kosaraju_scc`: on an undirected graph it returns
/// the connected components — a partition of the node indices in which two
/// nodes share a component exactly when the edge list connects them.
#[verifier::external_body]
fn graph_components(g: &petgraph::graph::Graph<(), (), petgraph::Undirected, u32>) -> (r: Vec<
    Vec<usize>,
>)
    ensures
        components_partition(comp_views(r@), graph_node_count(*g)),
        forall|u: usize, v: usize|
            u < graph_node_count(*g) && v < graph_node_count(*g) ==> (#[trigger] same_component(
                comp_views(r@),
                u,
                v,
            ) <==> connected(graph_node_count(*g), graph_edge_list(*g), u as int, v as int)),
{
    let comps = petgraph::algo::kosaraju_scc(g);
    comps.into_iter().map(|c| c.into_iter().map(|i| i.index()).collect()).collect()
}

/// If the scan finds no joining edge, even the whole accumulated edge list
/// leaves the nodes divided.
proof fn lemma_scan_conn_none(n: nat, es: Seq<Edge>, done: Seq<(int, int)>)
    requires
        es.len() > 0,
        scan_conn(n, es, done) is None,
    ensures
        !conn_all(n, done + edge_pairs(es)),
    decreases es.len(),
{
    let d2 = done.push((es[0].a as int, es[0].b as int));
    assert(!conn_all(n, d2));
    if es.len() == 1 {
        assert(done + edge_pairs(es) =~= d2);
    } else {
        lemma_scan_conn_none(n, es.drop_first(), d2);
        assert(d2 + edge_pairs(es.drop_first()) =~= done + edge_pairs(es));
    }
}

/// The complete candidate edge list joins every pair of nodes: each pair
/// has its own direct edge.
proof fn lemma_full_edges_connect(ps: Seq<Position>)
    requires
        pairwise_fit(ps),
        1 <= ps.len() <= usize::MAX,
    ensures
        conn_all(ps.len(), edge_pairs(spec_sorted_edges(ps))),
{
    let n = ps.len();
    let es = spec_sorted_edges(ps);
    let eps = edge_pairs(es);
    lemma_sorted_edges_wf(ps);
    assert forall|u: int, v: int| 0 <= u < n && 0 <= v < n implies #[trigger] connected(
        n,
        eps,
        u,
        v,
    ) by {
        if u == v {
            lemma_connected_refl(n, eps, u);
        } else {
            let lo = if u < v {
                u
            } else {
                v
            };
            let hi = if u < v {
                v
            } else {
                u
            };
            assert(es.contains(mk_edge(ps, lo, hi)));
            let k = choose|k: int| 0 <= k < es.len() && #[trigger] es[k] == mk_edge(ps, lo, hi);
            assert(eps[k] == (lo, hi));
            assert(eps.contains((lo, hi)));
            lemma_connected_step(n, eps, lo, hi);
            if u == hi {
                lemma_connected_sym(n, eps, lo, hi);
            }
        }
    }
}

/// Sum of a size list.
pub open spec fn sizes_sum(s: Seq<usize>) -> int
    decreases s.len(),
{
    if s.len() == 0 {
        0
    } else {
        s[0] + sizes_sum(s.drop_first())
    }
}

/// Splitting one element out of the sum.
proof fn lemma_sizes_sum_remove(t: Seq<usize>, j: int)
    requires
        0 <= j < t.len(),
    ensures
        sizes_sum(t) == t[j] + sizes_sum(t.remove(j)),
    decreases j,
{
    if j == 0 {
        assert(t.remove(0) =~= t.drop_first());
    } else {
        lemma_sizes_sum_remove(t.drop_first(), j - 1);
        assert(t.remove(j).drop_first() =~= t.drop_first().remove(j - 1));
        assert(t.drop_first()[j - 1] == t[j]);
    }
}

/// Permuting a size list leaves its sum unchanged.
proof fn lemma_sizes_sum_perm(s: Seq<usize>, t: Seq<usize>)
    requires
        s.to_multiset() == t.to_multiset(),
    ensures
        sizes_sum(s) == sizes_sum(t),
    decreases s.len(),
{
    broadcast use vstd::seq_lib::group_to_multiset_ensures;

    if s.len() == 0 {
        assert(s.to_multiset().len() == s.len());
        assert(t.to_multiset().len() == t.len());
    } else {
        let x = s[0];
        assert(s.contains(x));
        assert(t.to_multiset().count(x) > 0);
        assert(t.contains(x));
        let j = choose|j: int| 0 <= j < t.len() && t[j] == x;
        lemma_sizes_sum_remove(t, j);
        assert(s.drop_first() =~= s.remove(0));
        assert(s.remove(0).to_multiset() =~= s.to_multiset().remove(x));
        assert(t.remove(j).to_multiset() =~= t.to_multiset().remove(x));
        lemma_sizes_sum_perm(s.drop_first(), t.remove(j));
    }
}

/// The length of a flattened sequence of lists is the sum of their
/// lengths.
proof fn lemma_flatten_len_sum(cs: Seq<Seq<usize>>, szs: Seq<usize>)
    requires
        szs.len() == cs.len(),
        forall|k: int| 0 <= k < cs.len() ==> #[trigger] szs[k] == cs[k].len(),
    ensures
        sizes_sum(szs) == cs.flatten().len(),
    decreases cs.len(),
{
    if cs.len() > 0 {
        assert forall|k: int|
            0 <= k < cs.drop_first().len() implies #[trigger] szs.drop_first()[k]
            == cs.drop_first()[k].len() by {
            assert(szs.drop_first()[k] == szs[k + 1]);
            assert(cs.drop_first()[k] == cs[k + 1]);
        }
        lemma_flatten_len_sum(cs.drop_first(), szs.drop_first());
        assert(cs.flatten() == cs.first().add(cs.drop_first().flatten()));
    }
}

/// The slow baseline: an explicit undirected graph over the point indices,
/// rebuilt and decomposed into components on every query.
pub struct RecomputeOracle {
    n: usize,
    edges: Vec<(usize, usize)>,
}

impl RecomputeOracle {
    /// Number of nodes.
    pub closed spec fn node_count(&self) -> nat {
        self.n as nat
    }

    /// The accumulated edges.
    pub closed spec fn edge_list(&self) -> Seq<(int, int)> {
        self.edges@.map_values(|e: (usize, usize)| (e.0 as int, e.1 as int))
    }

    pub closed spec fn wf(&self) -> bool {
        &&& self.n < 0xFFFF_FFFF
        &&& self.edges@.len() < 0xFFFF_FFFF
        &&& forall|k: int|
            0 <= k < self.edges@.len() ==> (#[trigger] self.edges@[k]).0 < self.n
                && self.edges@[k].1 < self.n
    }

    /// A fresh oracle over `n` nodes and no edges.
    pub fn new(n: usize) -> (r: Self)
        requires
            n < 0xFFFF_FFFF,
        ensures
            r.wf(),
            r.node_count() == n,
            r.edge_list() == Seq::<(int, int)>::empty(),
    {
        let r = RecomputeOracle { n, edges: Vec::new() };
        proof {
            assert(r.edge_list() =~= Seq::<(int, int)>::empty());
        }
        r
    }

    /// Records one undirected edge between existing nodes.
    pub fn insert_edge(&mut self, a: usize, b: usize)
        requires
            old(self).wf(),
            a < old(self).node_count(),
            b < old(self).node_count(),
            old(self).edge_list().len() < 0xFFFF_FFFE,
        ensures
            final(self).wf(),
            final(self).node_count() == old(self).node_count(),
            final(self).edge_list() == old(self).edge_list().push((a as int, b as int)),
    {
        self.edges.push((a, b));
        proof {
            assert(final(self).edge_list() =~= old(self).edge_list().push((a as int, b as int)));
        }
    }

    /// Recomputes the partition into connected components from scratch and
    /// returns the component sizes, largest first: for one representative
    /// per component of the accumulated edge list, the sizes of their
    /// components, sorted descending.  Every node stands in exactly one
    /// component, so the sizes also sum to the node count.
    pub fn component_sizes(&self) -> (r: Vec<usize>)
        requires
            self.wf(),
        ensures
            component_sizes_post(self.node_count(), self.edge_list(), r@),
            sorted_by(r@, usize_geq()),
            sizes_sum(r@) == self.node_count(),
            forall|k: int| 0 <= k < r@.len() ==> 1 <= #[trigger] r@[k],
    {
        let mut g = graph_new();
        let mut i: usize = 0;
        while i < self.n
            invariant
                self.wf(),
                i <= self.n,
                graph_node_count(g) == i,
                graph_edge_list(g) == Seq::<(int, int)>::empty(),
            decreases self.n - i,
        {
            let _idx = graph_add_node(&mut g);
            i = i + 1;
        }
        let m = self.edges.len();
        let mut k: usize = 0;
        while k < m
            invariant
                self.wf(),
                m == self.edges@.len(),
                k <= m,
                graph_node_count(g) == self.node_count(),
                graph_edge_list(g) == self.edge_list().take(k as int),
            decreases m - k,
        {
            let e = self.edges[k];
            proof {
                assert(self.edge_list().take(k as int).len() == k);
            }
            graph_add_edge(&mut g, e.0, e.1);
            proof {
                assert(self.edge_list()[k as int] == (e.0 as int, e.1 as int));
                assert(self.edge_list().take(k + 1) =~= self.edge_list().take(k as int).push(
                    (e.0 as int, e.1 as int),
                ));
            }
            k = k + 1;
        }
        let comps = graph_components(&g);
        let ghost cs = comp_views(comps@);
        let cn = comps.len();
        let mut szs: Vec<usize> = Vec::new();
        let mut t: usize = 0;
        while t < cn
            invariant
                cn == comps@.len(),
                t <= cn,
                cs == comp_views(comps@),
                szs@.len() == t,
                forall|q: int| 0 <= q < t ==> #[trigger] szs@[q] == cs[q].len(),
            decreases cn - t,
        {
            let c_len = comps[t].len();
            proof {
                assert(cs[t as int] == comps@[t as int]@);
            }
            szs.push(c_len);
            t = t + 1;
        }
        let ghost n = self.node_count();
        let ghost es = self.edge_list();
        let ghost reps = Seq::new(cs.len(), |k: int| cs[k][0] as int);
        proof {
            broadcast use vstd::seq_lib::group_to_multiset_ensures;

            lemma_flatten_len_sum(cs, szs@);
            assert(cs.flatten().to_multiset().len() == range_ids(n).to_multiset().len());
            assert(range_ids(n).len() == n);
            assert(sizes_sum(szs@) == self.node_count());
            // the graph that was decomposed holds exactly the oracle's
            // nodes and edges
            assert(es.take(m as int) =~= es);
            assert(graph_edge_list(g) == es && graph_node_count(g) == n);
            assert(n <= usize::MAX);
            // list heads are one representative per component
            assert forall|q: int| 0 <= q < reps.len() implies 0 <= #[trigger] reps[q] < n by {
                assert(cs[q].contains(cs[q][0]));
                lemma_partition_bounds(cs, n, q, cs[q][0]);
            }
            assert forall|q1: int, q2: int|
                #![trigger reps[q1], reps[q2]]
                0 <= q1 < reps.len() && 0 <= q2 < reps.len() && q1 != q2 implies !connected(
                n,
                es,
                reps[q1],
                reps[q2],
            ) by {
                let h1 = cs[q1][0];
                let h2 = cs[q2][0];
                assert(cs[q1].contains(h1) && cs[q2].contains(h2));
                lemma_partition_bounds(cs, n, q1, h1);
                lemma_partition_bounds(cs, n, q2, h2);
                if connected(n, es, reps[q1], reps[q2]) {
                    assert(same_component(cs, h1, h2));
                    let t = choose|t: int|
                        0 <= t < cs.len() && (#[trigger] cs[t]).contains(h1) && cs[t].contains(h2);
                    lemma_partition_unique(cs, n, t, q1, h1);
                    lemma_partition_unique(cs, n, t, q2, h2);
                }
            }
            assert forall|u: int| 0 <= u < n implies #[trigger] covered_by(n, es, reps, u) by {
                let uu = u as usize;
                lemma_partition_covers(cs, n, uu);
                let k = choose|k: int| 0 <= k < cs.len() && (#[trigger] cs[k]).contains(uu);
                assert(cs[k].contains(cs[k][0]));
                assert(same_component(cs, uu, cs[k][0]));
                lemma_partition_bounds(cs, n, k, cs[k][0]);
                assert(connected(n, es, u, reps[k]));
            }
            assert(valid_reps(n, es, reps));
            // each list is exactly its head's component, without repeats
            assert forall|k: int| 0 <= k < cs.len() implies #[trigger] szs@[k] == conn_cluster(
                n,
                es,
                reps[k],
            ).len() by {
                let head = cs[k][0];
                assert(cs[k].contains(head));
                lemma_partition_bounds(cs, n, k, head);
                lemma_partition_nodup(cs, n, k);
                cs[k].unique_seq_to_set();
                assert(cs[k].to_set() =~= conn_cluster(n, es, reps[k])) by {
                    assert forall|j: usize| #[trigger] cs[k].contains(j) implies (j as nat) < n
                        && connected(n, es, j as int, reps[k]) by {
                        lemma_partition_bounds(cs, n, k, j);
                        assert(same_component(cs, j, head));
                    }
                    assert forall|j: usize|
                        (j as nat) < n && connected(n, es, j as int, reps[k]) implies #[trigger] cs[
                        k].contains(j) by {
                        assert(same_component(cs, j, head));
                        let t = choose|t: int|
                            0 <= t < cs.len() && (#[trigger] cs[t]).contains(j) && cs[t].contains(
                                head,
                            );
                        lemma_partition_unique(cs, n, t, k, head);
                    }
                }
            }
            assert(szs@ =~= rep_sizes(n, es, reps));
        }
        let r = sort_desc(szs);
        proof {
            broadcast use vstd::seq_lib::group_to_multiset_ensures;

            lemma_sizes_sum_perm(r@, szs@);
            assert forall|q: int| 0 <= q < r@.len() implies 1 <= #[trigger] r@[q] by {
                assert(r@.to_multiset().count(r@[q]) > 0);
                assert(szs@.contains(r@[q]));
            }
            assert(r@ == rep_sizes(n, es, reps).sort_by(usize_geq()));
            assert(component_sizes_post(n, es, r@));
        }
        r
    }
}

/// BoundedMerge recomputed naively: inserts the cheapest `edge_limit`
/// sorted edges and reports the resulting component sizes, largest first
/// — the cluster sizes of the graph holding exactly those edges, for
/// cross-checking the engine's incremental tally.
pub fn oracle_cluster_sizes(ps: &PointSet, edge_limit: u64) -> (r: Vec<usize>)
    requires
        ps.wf(),
        ps@.len() <= 46340,
    ensures
        oracle_sizes_post(ps@, edge_limit, r@),
        sorted_by(r@, usize_geq()),
        sizes_sum(r@) == ps@.len(),
        forall|k: int| 0 <= k < r@.len() ==> 1 <= #[trigger] r@[k],
{
    let n = ps.len();
    let edges = sorted_edges(ps);
    let ghost es = spec_sorted_edges(ps@);
    proof {
        lemma_edge_count_small(ps@);
        assert(edge_pairs(es.take(0)) =~= Seq::<(int, int)>::empty());
    }
    let total = edges.len();
    let steps: usize = if edge_limit <= total as u64 {
        edge_limit as usize
    } else {
        total
    };
    let mut o = RecomputeOracle::new(n);
    let mut k: usize = 0;
    while k < steps
        invariant
            ps.wf(),
            n == ps@.len(),
            es == spec_sorted_edges(ps@),
            edges@ == es,
            forall|t: int| 0 <= t < es.len() ==> #[trigger] edge_wf(ps@, es[t]),
            k <= steps <= es.len() < 0xFFFF_FFFE,
            steps as int == capped_len(edge_limit, es.len()),
            o.wf(),
            o.node_count() == n,
            o.edge_list() == edge_pairs(es.take(k as int)),
        decreases steps - k,
    {
        let e = edges[k];
        proof {
            assert(edge_wf(ps@, es[k as int]));
            assert(o.edge_list().len() == k);
        }
        o.insert_edge(e.a, e.b);
        proof {
            assert(edge_pairs(es.take(k + 1)) =~= edge_pairs(es.take(k as int)).push(
                (e.a as int, e.b as int),
            ));
        }
        k = k + 1;
    }
    let r = o.component_sizes();
    proof {
        assert(o.edge_list() == edge_pairs(es.take(capped_len(edge_limit, es.len()))));
    }
    r
}

/// FullConnectivity recomputed naively: inserts the sorted edges one at a
/// time, recomputing the full partition after each insertion, and returns
/// the first edge that leaves a single component.  Fails with
/// `NeverFullyConnected` exactly when fewer than two points were given.
pub fn oracle_bottleneck(ps: &PointSet) -> (r: Result<(usize, usize, u64), EngineError>)
    requires
        ps.wf(),
        ps@.len() <= 46340,
    ensures
        oracle_bottleneck_post(ps@, r),
        ps@.len() >= 2 ==> r is Ok,
{
    let n = ps.len();
    if n < 2 {
        return Err(EngineError::NeverFullyConnected);
    }
    let edges = sorted_edges(ps);
    let ghost es = spec_sorted_edges(ps@);
    proof {
        lemma_edge_count_small(ps@);
        assert(edge_pairs(es.take(0)) =~= Seq::<(int, int)>::empty());
        assert(es.skip(0) =~= es);
    }
    let total = edges.len();
    let mut o = RecomputeOracle::new(n);
    let mut k: usize = 0;
    while k < total
        invariant
            ps.wf(),
            2 <= n == ps@.len(),
            es == spec_sorted_edges(ps@),
            edges@ == es,
            forall|t: int| 0 <= t < es.len() ==> #[trigger] edge_wf(ps@, es[t]),
            k <= total == es.len() < 0xFFFF_FFFE,
            o.wf(),
            o.node_count() == n,
            o.edge_list() == edge_pairs(es.take(k as int)),
            scan_conn(n as nat, es.skip(k as int), edge_pairs(es.take(k as int))) == scan_conn(
                n as nat,
                es,
                Seq::empty(),
            ),
        decreases total - k,
    {
        let e = edges[k];
        let ghost done = edge_pairs(es.take(k as int));
        let ghost d2 = done.push((e.a as int, e.b as int));
        proof {
            assert(edge_wf(ps@, es[k as int]));
            assert(done.len() == k);
            assert(d2 =~= edge_pairs(es.take(k + 1)));
            assert(es.skip(k as int)[0] == es[k as int]);
            assert(es.skip(k as int).drop_first() =~= es.skip(k + 1));
        }
        o.insert_edge(e.a, e.b);
        let szs = o.component_sizes();
        proof {
            assert(component_sizes_post(n as nat, d2, szs@));
        }
        let ghost reps = choose|reps: Seq<int>|
            #[trigger] valid_reps(n as nat, d2, reps) && szs@ == rep_sizes(
                n as nat,
                d2,
                reps,
            ).sort_by(usize_geq());
        proof {
            // the sorted size list has one entry per component
            crate::engine::lemma_usize_geq_total();
            rep_sizes(n as nat, d2, reps).lemma_sort_by_ensures(usize_geq());
            broadcast use vstd::seq_lib::group_to_multiset_ensures;

            assert(szs@.to_multiset().len() == szs@.len());
            assert(rep_sizes(n as nat, d2, reps).to_multiset().len() == rep_sizes(
                n as nat,
                d2,
                reps,
            ).len());
            assert(szs@.len() == reps.len());
        }
        if szs.len() == 1 {
            proof {
                // a single representative covers every node, so all pairs
                // are joined through it
                assert forall|u: int, v: int| 0 <= u < n && 0 <= v < n implies #[trigger] connected(
                    n as nat,
                    d2,
                    u,
                    v,
                ) by {
                    assert(covered_by(n as nat, d2, reps, u));
                    assert(covered_by(n as nat, d2, reps, v));
                    let q1 = choose|q: int|
                        0 <= q < reps.len() && connected(n as nat, d2, u, #[trigger] reps[q]);
                    let q2 = choose|q: int|
                        0 <= q < reps.len() && connected(n as nat, d2, v, #[trigger] reps[q]);
                    assert(q1 == 0 && q2 == 0);
                    lemma_connected_sym(n as nat, d2, v, reps[0]);
                    lemma_connected_trans(n as nat, d2, u, reps[0], v);
                }
                assert(conn_all(n as nat, d2));
                assert(scan_conn(n as nat, es.skip(k as int), done) == Some(es[k as int]));
                assert(es[k as int] == (Edge { a: e.a, b: e.b, w: e.w }));
            }
            return Ok((e.a, e.b, e.w));
        }
        proof {
            // with zero or several representatives the nodes are divided
            assert(!conn_all(n as nat, d2)) by {
                if conn_all(n as nat, d2) {
                    if reps.len() == 0 {
                        assert(covered_by(n as nat, d2, reps, 0));
                        assert(false);
                    } else if reps.len() >= 2 {
                        assert(connected(n as nat, d2, reps[0], reps[1]));
                        assert(false);
                    }
                }
            }
            assert(scan_conn(n as nat, es.skip(k as int), done) == scan_conn(
                n as nat,
                es.skip(k + 1),
                d2,
            ));
        }
        k = k + 1;
    }
    proof {
        assert(es.skip(total as int) =~= Seq::<Edge>::empty());
        assert(scan_conn(n as nat, es, Seq::empty()) is None);
        assert(es.contains(mk_edge(ps@, 0, 1))) by {
            lemma_sorted_edges_wf(ps@);
        }
        assert(es.len() > 0);
        lemma_scan_conn_none(n as nat, es, Seq::empty());
        assert(Seq::<(int, int)>::empty() + edge_pairs(es) =~= edge_pairs(es));
        lemma_full_edges_connect(ps@);
        assert(false);
    }
    Err(EngineError::NeverFullyConnected)
}


/// For at most 46340 points, the candidate edge count stays far below the
/// graph index limit.
proof fn lemma_edge_count_small(ps: Seq<Position>)
    requires
        pairwise_fit(ps),
        ps.len() <= 46340,
    ensures
        spec_sorted_edges(ps).len() < 0xFFFF_FFFE,
{
    lemma_sorted_edges_wf(ps);
    lemma_rows_upto_len(ps, ps.len() as int);
    let n = ps.len() as int;
    assert(n * (2 * n - n - 1) == n * (n - 1)) by (nonlinear_arith);
    assert(n * (n - 1) <= 46340 * 46339) by (nonlinear_arith)
        requires
            0 <= n <= 46340,
    ;
}

} // verus!
