//! The connectivity engine: consumes candidate edges in increasing weight
//! order, driving disjoint-set merges, and answers the two queries — the
//! product of the three largest cluster sizes after a bounded number of
//! merge attempts, and the bottleneck edge that first makes the whole point
//! set one cluster.

use vstd::prelude::*;
use vstd::relations::{sorted_by, total_ordering};
use vstd::seq_lib::lemma_sorted_unique;
use vstd::pervasive::VecAdditionalExecFns;
use crate::point::{Position, PointSet, pairwise_fit};
use crate::edge::{Edge, EdgeQueue, edge_wf, mk_edge, spec_sorted_edges, sorted_edges,
    lemma_sorted_edges_wf};
use crate::dsf::{DisjointSetForest, all_one_cluster, identity_state, lemma_merge_state,
    lemma_one_cluster_iff, lemma_num_clusters_le, merge_state, num_clusters, sizes_in_order, state_wf,
    lemma_sizes_in_order_len, lemma_sizes_in_order_bounds};

verus! {

/// Why a query could not be answered.
#[derive(Clone, Copy, PartialEq, Eq, Structural, Debug)]
pub enum EngineError {
    /// The bounded query ended with fewer than three clusters.
    InsufficientClusters,
    /// The full-connectivity query had fewer than two points, or ran out
    /// of edges before the set became one cluster.
    NeverFullyConnected,
}

/// The canonical state after merging along each edge of `es`, in order.
pub open spec fn run_edges(s: Seq<int>, es: Seq<Edge>) -> Seq<int>
    decreases es.len(),
{
    if es.len() == 0 {
        s
    } else {
        run_edges(merge_state(s, es[0].a as int, es[0].b as int), es.drop_first())
    }
}

/// The first edge whose merge turns a still-divided state into a single
/// cluster, scanning `es` in order.
pub open spec fn scan_bottleneck(s: Seq<int>, es: Seq<Edge>) -> Option<Edge>
    decreases es.len(),
{
    if es.len() == 0 {
        None
    } else {
        let s2 = merge_state(s, es[0].a as int, es[0].b as int);
        if all_one_cluster(s2) && !all_one_cluster(s) {
            Some(es[0])
        } else {
            scan_bottleneck(s2, es.drop_first())
        }
    }
}

/// How many edges a bounded query consumes: the merge-attempt limit, or
/// every edge if there are fewer.
pub open spec fn capped_len(limit: u64, total: nat) -> int {
    if limit <= total {
        limit as int
    } else {
        total as int
    }
}

/// The canonical state after `limit` merge attempts over the sorted edges
/// of `ps`, starting from singleton clusters.
pub open spec fn bounded_state(ps: Seq<Position>, limit: u64) -> Seq<int> {
    let es = spec_sorted_edges(ps);
    run_edges(identity_state(ps.len()), es.take(capped_len(limit, es.len())))
}

/// Descending order on cluster sizes.
pub open spec fn usize_geq() -> spec_fn(usize, usize) -> bool {
    |x: usize, y: usize| x >= y
}

/// The cluster sizes after `limit` merge attempts, largest first.
pub open spec fn bounded_sizes(ps: Seq<Position>, limit: u64) -> Seq<usize> {
    sizes_in_order(bounded_state(ps, limit), ps.len() as int).sort_by(usize_geq())
}

/// The bottleneck edge of the merge process over `ps`, if scanning the
/// sorted edges ever connects everything.
pub open spec fn bottleneck_spec(ps: Seq<Position>) -> Option<Edge> {
    scan_bottleneck(identity_state(ps.len()), spec_sorted_edges(ps))
}

/// The full-connectivity contract: with fewer than two points the query
/// fails, otherwise it returns exactly the edge the scan specifies.
pub open spec fn full_connectivity_post(
    ps: Seq<Position>,
    r: Result<(usize, usize, u64), EngineError>,
) -> bool {
    match r {
        Ok(t) => ps.len() >= 2 && bottleneck_spec(ps) == Some(Edge { a: t.0, b: t.1, w: t.2 }),
        Err(e) => e == EngineError::NeverFullyConnected && ps.len() < 2,
    }
}

/// Determinism of the full-connectivity query: its contract pins the
/// result as a function of the point sequence alone, so two runs over the
/// same points return the identical bottleneck edge, endpoints and weight,
/// even in the presence of weight ties.
pub proof fn lemma_full_connectivity_deterministic(
    ps: Seq<Position>,
    r1: Result<(usize, usize, u64), EngineError>,
    r2: Result<(usize, usize, u64), EngineError>,
)
    requires
        full_connectivity_post(ps, r1),
        full_connectivity_post(ps, r2),
    ensures
        r1 == r2,
{
    match (r1, r2) {
        (Ok(t1), Ok(t2)) => {
            let e1 = Edge { a: t1.0, b: t1.1, w: t1.2 };
            let e2 = Edge { a: t2.0, b: t2.1, w: t2.2 };
            assert(e1 == e2);
            assert(t1.0 == t2.0 && t1.1 == t2.1 && t1.2 == t2.2);
        },
        _ => {},
    }
}

/// With fewer than three points the bounded query is owed a failure: a
/// valid state never holds more clusters than indices, so fewer than three
/// can ever exist and `bounded_merge` returns `InsufficientClusters` for
/// every merge limit.
pub proof fn lemma_bounded_merge_small_input(ps: Seq<Position>, limit: u64)
    requires
        pairwise_fit(ps),
        ps.len() < 3,
    ensures
        num_clusters(bounded_state(ps, limit)) < 3,
{
    let n = ps.len();
    let s0 = identity_state(n);
    let es = spec_sorted_edges(ps);
    let taken = es.take(capped_len(limit, es.len()));
    lemma_sorted_edges_wf(ps);
    assert(state_wf(s0)) by {
        assert(forall|i: int| 0 <= i < s0.len() ==> #[trigger] s0[i] == i);
    }
    assert forall|k: int|
        0 <= k < taken.len() implies (#[trigger] taken[k]).a < s0.len() && taken[k].b
        < s0.len() by {
        assert(taken[k] == es[k]);
        assert(edge_wf(ps, es[k]));
    }
    lemma_run_edges_connects(s0, taken);
    lemma_num_clusters_le(bounded_state(ps, limit));
}

/// The cluster count never rises as merges proceed: over any series of
/// merge attempts it is non-increasing, each attempt lowering it by one or
/// leaving it unchanged.
pub proof fn lemma_run_cluster_count_monotonic(s: Seq<int>, es: Seq<Edge>)
    requires
        state_wf(s),
        forall|k: int|
            0 <= k < es.len() ==> (#[trigger] es[k]).a < s.len() && es[k].b < s.len(),
    ensures
        num_clusters(run_edges(s, es)) <= num_clusters(s),
    decreases es.len(),
{
    if es.len() > 0 {
        let e = es[0];
        let s2 = merge_state(s, e.a as int, e.b as int);
        lemma_merge_state(s, e.a as int, e.b as int);
        assert(forall|k: int|
            0 <= k < es.drop_first().len() ==> (#[trigger] es.drop_first()[k]).a < s2.len()
                && es.drop_first()[k].b < s2.len());
        lemma_run_cluster_count_monotonic(s2, es.drop_first());
    }
}

/// Unfolding `run_edges` by one edge at the end.
proof fn lemma_run_edges_snoc(s: Seq<int>, es: Seq<Edge>, e: Edge)
    ensures
        run_edges(s, es.push(e)) == merge_state(run_edges(s, es), e.a as int, e.b as int),
    decreases es.len(),
{
    if es.len() == 0 {
        assert(es.push(e)[0] == e);
        assert(es.push(e).drop_first() =~= Seq::<Edge>::empty());
        assert(run_edges(s, es) == s);
        let s2 = merge_state(s, e.a as int, e.b as int);
        assert(run_edges(s, es.push(e)) == run_edges(s2, es.push(e).drop_first()));
        assert(run_edges(s2, Seq::<Edge>::empty()) == s2);
    } else {
        assert(es.push(e)[0] == es[0]);
        assert(es.push(e).drop_first() =~= es.drop_first().push(e));
        lemma_run_edges_snoc(merge_state(s, es[0].a as int, es[0].b as int), es.drop_first(), e);
    }
}

/// Running a series of merges never separates anything: joined indices
/// stay joined, every consumed edge's endpoints end up joined, and the
/// state stays valid.
proof fn lemma_run_edges_connects(s: Seq<int>, es: Seq<Edge>)
    requires
        state_wf(s),
        forall|k: int|
            0 <= k < es.len() ==> (#[trigger] es[k]).a < s.len() && es[k].b < s.len(),
    ensures
        state_wf(run_edges(s, es)),
        run_edges(s, es).len() == s.len(),
        forall|i: int, j: int|
            #![trigger run_edges(s, es)[i], run_edges(s, es)[j]]
            0 <= i < s.len() && 0 <= j < s.len() && s[i] == s[j] ==> run_edges(s, es)[i]
                == run_edges(s, es)[j],
        forall|k: int|
            0 <= k < es.len() ==> run_edges(s, es)[(#[trigger] es[k]).a as int] == run_edges(
                s,
                es,
            )[es[k].b as int],
    decreases es.len(),
{
    if es.len() > 0 {
        let e = es[0];
        let s2 = merge_state(s, e.a as int, e.b as int);
        lemma_merge_state(s, e.a as int, e.b as int);
        assert(forall|k: int|
            0 <= k < es.drop_first().len() ==> (#[trigger] es.drop_first()[k]).a < s2.len()
                && es.drop_first()[k].b < s2.len());
        lemma_run_edges_connects(s2, es.drop_first());
        assert(run_edges(s, es) == run_edges(s2, es.drop_first()));
        assert(s2[e.a as int] == s2[e.b as int]);
        assert forall|k: int|
            0 <= k < es.len() implies run_edges(s, es)[(#[trigger] es[k]).a as int] == run_edges(
            s,
            es,
        )[es[k].b as int] by {
            if k == 0 {
                assert(run_edges(s, es)[e.a as int] == run_edges(s, es)[e.b as int]);
            } else {
                assert(es.drop_first()[k - 1] == es[k]);
            }
        }
    }
}

/// If the scan finds no bottleneck over `es`, then running every edge of
/// `es` leaves a divided state divided.
proof fn lemma_scan_none(s: Seq<int>, es: Seq<Edge>)
    requires
        state_wf(s),
        !all_one_cluster(s),
        forall|k: int|
            0 <= k < es.len() ==> (#[trigger] es[k]).a < s.len() && es[k].b < s.len(),
        scan_bottleneck(s, es) == None::<Edge>,
    ensures
        !all_one_cluster(run_edges(s, es)),
    decreases es.len(),
{
    if es.len() > 0 {
        let e = es[0];
        let s2 = merge_state(s, e.a as int, e.b as int);
        lemma_merge_state(s, e.a as int, e.b as int);
        assert(!all_one_cluster(s2));
        lemma_scan_none(s2, es.drop_first());
    }
}

/// With at least two points, scanning the complete sorted edge list always
/// finds the bottleneck edge: the final state joins every pair.
proof fn lemma_scan_finds(ps: Seq<Position>)
    requires
        pairwise_fit(ps),
        2 <= ps.len() <= usize::MAX,
    ensures
        bottleneck_spec(ps) is Some,
{
    let n = ps.len();
    let s0 = identity_state(n);
    let es = spec_sorted_edges(ps);
    lemma_sorted_edges_wf(ps);
    assert(state_wf(s0)) by {
        assert(forall|i: int| 0 <= i < s0.len() ==> #[trigger] s0[i] == i);
    }
    assert(s0[0] == 0 && s0[1] == 1);
    assert(!all_one_cluster(s0));
    if scan_bottleneck(s0, es) is None {
        assert forall|k: int|
            0 <= k < es.len() implies (#[trigger] es[k]).a < s0.len() && es[k].b < s0.len() by {
            assert(edge_wf(ps, es[k]));
        }
        lemma_scan_none(s0, es);
        lemma_run_edges_connects(s0, es);
        let r = run_edges(s0, es);
        assert forall|i: int, j: int|
            #![trigger r[i], r[j]]
            0 <= i < r.len() && 0 <= j < r.len() implies r[i] == r[j] by {
            if i < j {
                lemma_pair_joined(ps, s0, es, i, j);
            } else if j < i {
                lemma_pair_joined(ps, s0, es, j, i);
            }
        }
        assert(all_one_cluster(r));
        assert(false);
    }
}

/// The endpoints of every enumerated pair are joined after the full run.
proof fn lemma_pair_joined(ps: Seq<Position>, s0: Seq<int>, es: Seq<Edge>, i: int, j: int)
    requires
        pairwise_fit(ps),
        ps.len() <= usize::MAX,
        s0 == identity_state(ps.len()),
        es == spec_sorted_edges(ps),
        state_wf(s0),
        0 <= i < j < ps.len(),
    ensures
        run_edges(s0, es)[i] == run_edges(s0, es)[j],
{
    lemma_sorted_edges_wf(ps);
    assert(es.contains(mk_edge(ps, i, j)));
    let k = choose|k: int| 0 <= k < es.len() && #[trigger] es[k] == mk_edge(ps, i, j);
    assert forall|t: int|
        0 <= t < es.len() implies (#[trigger] es[t]).a < s0.len() && es[t].b < s0.len() by {
        assert(edge_wf(ps, es[t]));
    }
    lemma_run_edges_connects(s0, es);
    assert(run_edges(s0, es)[es[k].a as int] == run_edges(s0, es)[es[k].b as int]);
    assert(es[k].a as int == i && es[k].b as int == j);
}

/// `usize_geq` is a total order.
pub(crate) proof fn lemma_usize_geq_total()
    ensures
        total_ordering(usize_geq()),
{
}

/// Merges two runs already in descending size order into one.
fn merge_size_runs(left: Vec<usize>, right: Vec<usize>) -> (r: Vec<usize>)
    requires
        sorted_by(left@, usize_geq()),
        sorted_by(right@, usize_geq()),
    ensures
        sorted_by(r@, usize_geq()),
        r@.to_multiset() == left@.to_multiset().add(right@.to_multiset()),
{
    let ghost ls = left@;
    let ghost rs = right@;
    let mut out: Vec<usize> = Vec::new();
    let mut i: usize = 0;
    let mut j: usize = 0;
    proof {
        broadcast use vstd::seq_lib::group_to_multiset_ensures;
        broadcast use vstd::multiset::group_multiset_axioms;

        assert(ls.take(0) =~= Seq::<usize>::empty());
        assert(rs.take(0) =~= Seq::<usize>::empty());
        assert(out@.to_multiset() =~= ls.take(0).to_multiset().add(rs.take(0).to_multiset()));
    }
    while i < left.len() || j < right.len()
        invariant
            ls == left@,
            rs == right@,
            sorted_by(ls, usize_geq()),
            sorted_by(rs, usize_geq()),
            i <= ls.len(),
            j <= rs.len(),
            sorted_by(out@, usize_geq()),
            out@.to_multiset() == ls.take(i as int).to_multiset().add(
                rs.take(j as int).to_multiset(),
            ),
            forall|t: int|
                0 <= t < out@.len() && i < ls.len() ==> #[trigger] out@[t] >= ls[i as int],
            forall|t: int|
                0 <= t < out@.len() && j < rs.len() ==> #[trigger] out@[t] >= rs[j as int],
        decreases ls.len() + rs.len() - i - j,
    {
        let take_left: bool = if i < left.len() && j < right.len() {
            left[i] >= right[j]
        } else {
            i < left.len()
        };
        proof {
            lemma_usize_geq_total();
            broadcast use vstd::seq_lib::group_to_multiset_ensures;
            broadcast use vstd::multiset::group_multiset_axioms;
        }
        if take_left {
            let e = left[i];
            let ghost out0 = out@;
            out.push(e);
            i = i + 1;
            proof {
                let ii = i as int;
                assert(ls.take(ii) =~= ls.take(ii - 1).push(e));
                assert(out@.to_multiset() =~= ls.take(ii).to_multiset().add(
                    rs.take(j as int).to_multiset(),
                ));
                assert(sorted_by(out@, usize_geq())) by {
                    assert forall|k1: int, k2: int|
                        0 <= k1 < k2 < out@.len() implies #[trigger] usize_geq()(
                        out@[k1],
                        out@[k2],
                    ) by {
                        if k2 == out@.len() - 1 {
                            assert(out@[k1] == out0[k1] && out@[k2] == e);
                            assert(out0[k1] >= ls[ii - 1]);
                        } else {
                            assert(out@[k1] == out0[k1] && out@[k2] == out0[k2]);
                        }
                    }
                }
                assert forall|t: int|
                    0 <= t < out@.len() && i < ls.len() implies #[trigger] out@[t] >= ls[ii] by {
                    assert(usize_geq()(ls[ii - 1], ls[ii]));
                    if t < out@.len() - 1 {
                        assert(out@[t] == out0[t]);
                        assert(out0[t] >= ls[ii - 1]);
                    } else {
                        assert(out@[t] == ls[ii - 1]);
                    }
                }
                assert forall|t: int|
                    0 <= t < out@.len() && j < rs.len() implies #[trigger] out@[t] >= rs[
                    j as int] by {
                    if t < out@.len() - 1 {
                        assert(out@[t] == out0[t]);
                    } else {
                        assert(out@[t] == ls[ii - 1]);
                        assert(ls[ii - 1] >= rs[j as int]);
                    }
                }
            }
        } else {
            let e = right[j];
            let ghost out0 = out@;
            proof {
                if i < ls.len() {
                    assert(rs[j as int] >= ls[i as int]);
                }
            }
            out.push(e);
            j = j + 1;
            proof {
                let jj = j as int;
                assert(rs.take(jj) =~= rs.take(jj - 1).push(e));
                assert(out@.to_multiset() =~= ls.take(i as int).to_multiset().add(
                    rs.take(jj).to_multiset(),
                ));
                assert(sorted_by(out@, usize_geq())) by {
                    assert forall|k1: int, k2: int|
                        0 <= k1 < k2 < out@.len() implies #[trigger] usize_geq()(
                        out@[k1],
                        out@[k2],
                    ) by {
                        if k2 == out@.len() - 1 {
                            assert(out@[k1] == out0[k1] && out@[k2] == e);
                            assert(out0[k1] >= rs[jj - 1]);
                        } else {
                            assert(out@[k1] == out0[k1] && out@[k2] == out0[k2]);
                        }
                    }
                }
                assert forall|t: int|
                    0 <= t < out@.len() && j < rs.len() implies #[trigger] out@[t] >= rs[jj] by {
                    assert(usize_geq()(rs[jj - 1], rs[jj]));
                    if t < out@.len() - 1 {
                        assert(out@[t] == out0[t]);
                        assert(out0[t] >= rs[jj - 1]);
                    } else {
                        assert(out@[t] == rs[jj - 1]);
                    }
                }
                assert forall|t: int|
                    0 <= t < out@.len() && i < ls.len() implies #[trigger] out@[t] >= ls[
                    i as int] by {
                    if t < out@.len() - 1 {
                        assert(out@[t] == out0[t]);
                    } else {
                        assert(out@[t] == rs[jj - 1]);
                        assert(rs[jj - 1] >= ls[i as int]);
                    }
                }
            }
        }
    }
    proof {
        assert(ls.take(ls.len() as int) =~= ls);
        assert(rs.take(rs.len() as int) =~= rs);
    }
    out
}

/// Sorts cluster sizes into non-increasing order with merge sort; the
/// result is exactly the specification-level sorted sequence.
pub(crate) fn sort_desc(sizes: Vec<usize>) -> (r: Vec<usize>)
    ensures
        r@ == sizes@.sort_by(usize_geq()),
        r@.to_multiset() == sizes@.to_multiset(),
        r@.len() == sizes@.len(),
        sorted_by(r@, usize_geq()),
    decreases sizes@.len(),
{
    let ghost orig = sizes@;
    let n = sizes.len();
    let mut v = sizes;
    proof {
        broadcast use vstd::seq_lib::group_to_multiset_ensures;
    }
    if n <= 1 {
        proof {
            lemma_usize_geq_total();
            orig.lemma_sort_by_ensures(usize_geq());
            lemma_sorted_unique(v@, orig.sort_by(usize_geq()), usize_geq());
        }
        v
    } else {
        let right_half = v.split_off(n / 2);
        let left_sorted = sort_desc(v);
        let right_sorted = sort_desc(right_half);
        let merged = merge_size_runs(left_sorted, right_sorted);
        proof {
            lemma_usize_geq_total();
            broadcast use vstd::seq_lib::group_to_multiset_ensures;

            let mid = (n / 2) as int;
            assert(orig =~= orig.subrange(0, mid) + orig.subrange(mid, n as int));
            vstd::seq_lib::lemma_multiset_commutative(
                orig.subrange(0, mid),
                orig.subrange(mid, n as int),
            );
            orig.subrange(0, mid).lemma_sort_by_ensures(usize_geq());
            orig.subrange(mid, n as int).lemma_sort_by_ensures(usize_geq());
            orig.lemma_sort_by_ensures(usize_geq());
            lemma_sorted_unique(merged@, orig.sort_by(usize_geq()), usize_geq());
            assert(merged@.to_multiset().len() == merged@.len());
            assert(orig.to_multiset().len() == orig.len());
        }
        merged
    }
}

/// Runs up to `edge_limit` merge attempts over the sorted edges, cheapest
/// first, on a fresh forest; no-op merges count as attempts.
fn run_bounded(ps: &PointSet, edge_limit: u64) -> (d: DisjointSetForest)
    requires
        ps.wf(),
    ensures
        d.wf(),
        d@ == bounded_state(ps@, edge_limit),
        d@.len() == ps@.len(),
        state_wf(d@),
{
    let n = ps.len();
    let edges = sorted_edges(ps);
    let ghost es = spec_sorted_edges(ps@);
    let total = edges.len();
    let mut q = EdgeQueue::new(edges);
    let mut d = DisjointSetForest::new(n);
    let steps: u64 = if edge_limit <= total as u64 {
        edge_limit
    } else {
        total as u64
    };
    proof {
        assert(es.skip(0) =~= es);
        assert(es.take(0) =~= Seq::<Edge>::empty());
        assert(d@ == run_edges(identity_state(ps@.len()), es.take(0)));
    }
    let mut t: u64 = 0;
    while t < steps
        invariant
            ps.wf(),
            q.wf(),
            d.wf(),
            state_wf(d@),
            es == spec_sorted_edges(ps@),
            forall|k: int| 0 <= k < es.len() ==> #[trigger] edge_wf(ps@, es[k]),
            es.len() == total,
            t <= steps,
            steps as int == capped_len(edge_limit, es.len()),
            q.remaining() == es.skip(t as int),
            d@ == run_edges(identity_state(ps@.len()), es.take(t as int)),
            d@.len() == ps@.len(),
        decreases steps - t,
    {
        let e_opt = q.pop_min();
        proof {
            assert(es.skip(t as int).len() == es.len() - t);
        }
        let e = e_opt.unwrap();
        proof {
            assert(es.skip(t as int)[0] == es[t as int]);
            assert(e == es[t as int]);
            assert(edge_wf(ps@, es[t as int]));
        }
        d.union(e.a, e.b);
        proof {
            assert(es.take(t + 1) =~= es.take(t as int).push(es[t as int]));
            lemma_run_edges_snoc(identity_state(ps@.len()), es.take(t as int), es[t as int]);
            assert(es.skip(t as int).drop_first() =~= es.skip(t + 1));
        }
        t = t + 1;
    }
    d
}

/// BoundedMerge: after `edge_limit` merge attempts in increasing weight
/// order — no-op merges included — returns the product of the three
/// largest cluster sizes, or `InsufficientClusters` when fewer than three
/// clusters remain.
pub fn bounded_merge(ps: &PointSet, edge_limit: u64) -> (r: Result<u64, EngineError>)
    requires
        ps.wf(),
        ps@.len() * ps@.len() * ps@.len() <= u64::MAX,
    ensures
        match r {
            Ok(v) => num_clusters(bounded_state(ps@, edge_limit)) >= 3 && v == bounded_sizes(
                ps@,
                edge_limit,
            )[0] * bounded_sizes(ps@, edge_limit)[1] * bounded_sizes(ps@, edge_limit)[2],
            Err(e) => e == EngineError::InsufficientClusters && num_clusters(
                bounded_state(ps@, edge_limit),
            ) < 3,
        },
{
    let d = run_bounded(ps, edge_limit);
    let ghost st = bounded_state(ps@, edge_limit);
    let count = d.cluster_count();
    if count < 3 {
        return Err(EngineError::InsufficientClusters);
    }
    let szs = d.cluster_sizes();
    let n = ps.len();
    proof {
        lemma_sizes_in_order_len(st, st.len() as int);
        lemma_sizes_in_order_bounds(st, st.len() as int);
    }
    let sorted = sort_desc(szs);
    proof {
        broadcast use vstd::seq_lib::group_to_multiset_ensures;

        assert(sorted@ == bounded_sizes(ps@, edge_limit));
        assert(sorted@.len() == num_clusters(st) >= 3);
        assert forall|k: int| 0 <= k < sorted@.len() implies 1 <= #[trigger] sorted@[k] <= n by {
            assert(sorted@.to_multiset().count(sorted@[k]) > 0);
            assert(szs@.contains(sorted@[k]));
        }
    }
    let m1 = sorted[0] as u64;
    let m2 = sorted[1] as u64;
    let m3 = sorted[2] as u64;
    proof {
        let nn = n as int;
        assert(m1 * m2 <= nn * nn * nn && m1 * m2 * m3 <= nn * nn * nn) by (nonlinear_arith)
            requires
                1 <= m1 <= nn,
                1 <= m2 <= nn,
                1 <= m3 <= nn,
        ;
        assert(nn * nn * nn <= u64::MAX);
        assert(m1 * m2 <= u64::MAX && m1 * m2 * m3 <= u64::MAX);
    }
    Ok(m1 * m2 * m3)
}

/// The cluster sizes after `edge_limit` merge attempts, largest first: the
/// tally behind the bounded query, exposed so that results can be held
/// against the recompute oracle.
pub fn merged_cluster_sizes(ps: &PointSet, edge_limit: u64) -> (r: Vec<usize>)
    requires
        ps.wf(),
    ensures
        r@ == bounded_sizes(ps@, edge_limit),
{
    let d = run_bounded(ps, edge_limit);
    let szs = d.cluster_sizes();
    sort_desc(szs)
}

/// FullConnectivity: consumes the sorted edges smallest-first, merging as
/// it goes, and returns the first edge whose merge makes the whole point
/// set one cluster — the bottleneck edge of the minimum spanning tree —
/// as `(endpoint, endpoint, weight)`.  Fails with `NeverFullyConnected`
/// exactly when fewer than two points were given.
pub fn full_connectivity(ps: &PointSet) -> (r: Result<(usize, usize, u64), EngineError>)
    requires
        ps.wf(),
    ensures
        full_connectivity_post(ps@, r),
        ps@.len() >= 2 ==> r is Ok,
{
    let n = ps.len();
    if n < 2 {
        return Err(EngineError::NeverFullyConnected);
    }
    let edges = sorted_edges(ps);
    let ghost es = spec_sorted_edges(ps@);
    let mut d = DisjointSetForest::new(n);
    proof {
        lemma_sorted_edges_wf(ps@);
        lemma_scan_finds(ps@);
        assert(d@[0] == 0 && d@[1] == 1);
        assert(!all_one_cluster(d@));
        assert(es.skip(0) =~= es);
        assert(es.take(0) =~= Seq::<Edge>::empty());
    }
    let total = edges.len();
    let mut k: usize = 0;
    while k < total
        invariant
            ps.wf(),
            d.wf(),
            state_wf(d@),
            2 <= n == ps@.len(),
            es == spec_sorted_edges(ps@),
            edges@ == es,
            es.len() == total,
            forall|t: int| 0 <= t < es.len() ==> #[trigger] edge_wf(ps@, es[t]),
            k <= total,
            d@ == run_edges(identity_state(n as nat), es.take(k as int)),
            d@.len() == n,
            !all_one_cluster(d@),
            scan_bottleneck(d@, es.skip(k as int)) == bottleneck_spec(ps@),
        decreases total - k,
    {
        let e = edges[k];
        let ghost st = d@;
        proof {
            assert(edge_wf(ps@, es[k as int]));
        }
        let merged = d.union(e.a, e.b);
        let ghost st2 = d@;
        proof {
            assert(st2 == merge_state(st, e.a as int, e.b as int));
            assert(es.skip(k as int)[0] == es[k as int]);
            assert(es.skip(k as int).drop_first() =~= es.skip(k + 1));
            assert(es.take(k + 1) =~= es.take(k as int).push(es[k as int]));
            lemma_run_edges_snoc(identity_state(n as nat), es.take(k as int), es[k as int]);
        }
        if merged {
            let count = d.cluster_count();
            if count == 1 {
                proof {
                    lemma_one_cluster_iff(st2);
                    assert(all_one_cluster(st2));
                    assert(scan_bottleneck(st, es.skip(k as int)) == Some(es[k as int]));
                }
                return Ok((e.a, e.b, e.w));
            }
            proof {
                lemma_one_cluster_iff(st2);
                assert(!all_one_cluster(st2));
            }
        } else {
            proof {
                assert(st2 == st);
            }
        }
        k = k + 1;
    }
    proof {
        assert(es.skip(total as int) =~= Seq::<Edge>::empty());
        assert(scan_bottleneck(d@, es.skip(total as int)) is None);
        assert(bottleneck_spec(ps@) is Some);
        assert(false);
    }
    Err(EngineError::NeverFullyConnected)
}

} // verus!
