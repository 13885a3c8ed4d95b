//! Why incremental union-find may stand in for recomputing connected
//! components: maintaining the disjoint-set forest along the sorted edges
//! yields, after every prefix, exactly the partition into connected
//! components of the edges consumed so far.  The incremental engine and
//! the naive recompute oracle therefore report the same cluster sizes
//! after any number of merge attempts, and identify the same bottleneck
//! edge.

use vstd::prelude::*;
use vstd::relations::sorted_by;
use vstd::seq_lib::lemma_sorted_unique;
use crate::point::{Position, pairwise_fit};
use crate::edge::{Edge, edge_wf, lemma_sorted_edges_wf, spec_sorted_edges};
use crate::dsf::{all_one_cluster, cluster_card, cluster_of, identity_state, lemma_bounded_set,
    lemma_merge_state, merge_state, sizes_in_order, state_wf};
use crate::engine::{EngineError, bottleneck_spec, bounded_sizes, bounded_state, capped_len,
    full_connectivity_post, lemma_usize_geq_total, run_edges, scan_bottleneck, usize_geq};
use crate::oracle::{conn_all, conn_cluster, connected, covered_by,
    edge_pairs, lemma_connected_refl, lemma_connected_step, lemma_connected_sym,
    lemma_connected_trans, oracle_bottleneck_post, oracle_sizes_post, path_ok, rep_sizes,
    scan_conn, step_ok, valid_reps};

verus! {

/// The forest state and the accumulated edge list describe the same
/// partition: two indices share a cluster exactly when the edges join
/// them.
pub open spec fn partition_matches(n: nat, s: Seq<int>, done: Seq<(int, int)>) -> bool {
    &&& s.len() == n
    &&& forall|i: int, j: int|
        #![trigger s[i], s[j]]
        0 <= i < n && 0 <= j < n ==> (s[i] == s[j] <==> connected(n, done, i, j))
}

/// With no edges, only an index is connected to itself.
proof fn lemma_connected_empty(n: nat, u: int, v: int)
    requires
        connected(n, Seq::<(int, int)>::empty(), u, v),
    ensures
        u == v,
{
    let p = choose|p: Seq<int>|
        path_ok(n, Seq::<(int, int)>::empty(), p) && p.first() == u && p.last() == v;
    if p.len() >= 2 {
        assert(step_ok(Seq::<(int, int)>::empty(), p[0], p[1]));
        assert(!Seq::<(int, int)>::empty().contains((p[0], p[1])));
        assert(!Seq::<(int, int)>::empty().contains((p[1], p[0])));
        assert(false);
    }
}

/// A step over a grown edge list is an old step or the new edge.
proof fn lemma_step_push(es: Seq<(int, int)>, pr: (int, int), x: int, y: int)
    requires
        step_ok(es.push(pr), x, y),
    ensures
        step_ok(es, x, y) || (x == pr.0 && y == pr.1) || (x == pr.1 && y == pr.0),
{
    if es.push(pr).contains((x, y)) {
        let k = choose|k: int| 0 <= k < es.push(pr).len() && #[trigger] es.push(pr)[k] == (x, y);
        if k < es.len() {
            assert(es[k] == (x, y));
        }
    } else {
        let k = choose|k: int| 0 <= k < es.push(pr).len() && #[trigger] es.push(pr)[k] == (y, x);
        if k < es.len() {
            assert(es[k] == (y, x));
        }
    }
}

/// Connectivity only grows with the edge list.
proof fn lemma_connected_mono(n: nat, es: Seq<(int, int)>, pr: (int, int), u: int, v: int)
    requires
        connected(n, es, u, v),
    ensures
        connected(n, es.push(pr), u, v),
{
    let p = choose|p: Seq<int>| path_ok(n, es, p) && p.first() == u && p.last() == v;
    assert(path_ok(n, es.push(pr), p)) by {
        assert forall|t: int| 0 <= t < p.len() - 1 implies step_ok(
            es.push(pr),
            #[trigger] p[t],
            p[t + 1],
        ) by {
            assert(step_ok(es, p[t], p[t + 1]));
            if es.contains((p[t], p[t + 1])) {
                let k = choose|k: int| 0 <= k < es.len() && #[trigger] es[k] == (p[t], p[t + 1]);
                assert(es.push(pr)[k] == (p[t], p[t + 1]));
            } else {
                let k = choose|k: int| 0 <= k < es.len() && #[trigger] es[k] == (p[t + 1], p[t]);
                assert(es.push(pr)[k] == (p[t + 1], p[t]));
            }
        }
    }
}

/// A walk over one added edge decomposes: the old edges already join its
/// ends, or they join each end to one side of the new edge.
proof fn lemma_walk_extra_edge(n: nat, es: Seq<(int, int)>, a: int, b: int, p: Seq<int>)
    requires
        path_ok(n, es.push((a, b)), p),
    ensures
        connected(n, es, p.first(), p.last()) || (connected(n, es, p.first(), a) && connected(
            n,
            es,
            b,
            p.last(),
        )) || (connected(n, es, p.first(), b) && connected(n, es, a, p.last())),
    decreases p.len(),
{
    let u = p.first();
    let v = p.last();
    if p.len() == 1 {
        lemma_connected_refl(n, es, u);
    } else {
        let x = p[1];
        assert(step_ok(es.push((a, b)), p[0], p[1]));
        lemma_step_push(es, (a, b), u, x);
        let rest = p.drop_first();
        assert(path_ok(n, es.push((a, b)), rest)) by {
            assert forall|t: int| 0 <= t < rest.len() - 1 implies step_ok(
                es.push((a, b)),
                #[trigger] rest[t],
                rest[t + 1],
            ) by {
                assert(rest[t] == p[t + 1] && rest[t + 1] == p[t + 2]);
                assert(step_ok(es.push((a, b)), p[t + 1], p[t + 1 + 1]));
            }
        }
        assert(rest.first() == x && rest.last() == v);
        lemma_walk_extra_edge(n, es, a, b, rest);
        if step_ok(es, u, x) {
            lemma_connected_step(n, es, u, x);
            if connected(n, es, x, v) {
                lemma_connected_trans(n, es, u, x, v);
            } else if connected(n, es, x, a) && connected(n, es, b, v) {
                lemma_connected_trans(n, es, u, x, a);
            } else {
                lemma_connected_trans(n, es, u, x, b);
            }
        } else if u == a && x == b {
            lemma_connected_refl(n, es, u);
            if connected(n, es, x, v) {
                assert(connected(n, es, u, a) && connected(n, es, b, v));
            } else if connected(n, es, x, a) && connected(n, es, b, v) {
                assert(connected(n, es, u, a) && connected(n, es, b, v));
            } else {
                assert(connected(n, es, a, v));
                assert(connected(n, es, u, v));
            }
        } else {
            assert(u == b && x == a);
            lemma_connected_refl(n, es, u);
            if connected(n, es, x, v) {
                assert(connected(n, es, u, b) && connected(n, es, a, v));
            } else if connected(n, es, x, a) && connected(n, es, b, v) {
                // u is b itself, so the old edges already join u to v
                assert(connected(n, es, u, v));
            } else {
                assert(connected(n, es, u, b) && connected(n, es, a, v));
            }
        }
    }
}

/// One merge keeps the partitions matched.
proof fn lemma_match_step(n: nat, s: Seq<int>, done: Seq<(int, int)>, e: Edge)
    requires
        state_wf(s),
        partition_matches(n, s, done),
        (e.a as int) < n,
        (e.b as int) < n,
    ensures
        state_wf(merge_state(s, e.a as int, e.b as int)),
        partition_matches(
            n,
            merge_state(s, e.a as int, e.b as int),
            done.push((e.a as int, e.b as int)),
        ),
{
    let a = e.a as int;
    let b = e.b as int;
    lemma_merge_state(s, a, b);
    let s2 = merge_state(s, a, b);
    let d2 = done.push((a, b));
    assert(d2[done.len() as int] == (a, b));
    assert(d2.contains((a, b)));
    assert(step_ok(d2, a, b));
    lemma_connected_step(n, d2, a, b);
    assert forall|i: int, j: int|
        #![trigger s2[i], s2[j]]
        0 <= i < n && 0 <= j < n implies (s2[i] == s2[j] <==> connected(n, d2, i, j)) by {
        if s2[i] == s2[j] {
            if s[i] == s[j] {
                assert(connected(n, done, i, j));
                lemma_connected_mono(n, done, (a, b), i, j);
            } else if s[i] == s[a] && s[j] == s[b] {
                assert(connected(n, done, i, a) && connected(n, done, j, b));
                lemma_connected_mono(n, done, (a, b), i, a);
                lemma_connected_mono(n, done, (a, b), j, b);
                lemma_connected_sym(n, d2, j, b);
                lemma_connected_trans(n, d2, i, a, b);
                lemma_connected_trans(n, d2, i, b, j);
            } else {
                assert(s[i] == s[b] && s[j] == s[a]);
                assert(connected(n, done, i, b) && connected(n, done, j, a));
                lemma_connected_mono(n, done, (a, b), i, b);
                lemma_connected_mono(n, done, (a, b), j, a);
                lemma_connected_sym(n, d2, a, b);
                lemma_connected_sym(n, d2, j, a);
                lemma_connected_trans(n, d2, i, b, a);
                lemma_connected_trans(n, d2, i, a, j);
            }
        }
        if connected(n, d2, i, j) {
            let p = choose|p: Seq<int>| path_ok(n, d2, p) && p.first() == i && p.last() == j;
            lemma_walk_extra_edge(n, done, a, b, p);
            if connected(n, done, i, j) {
                assert(s[i] == s[j]);
            } else if connected(n, done, i, a) && connected(n, done, b, j) {
                assert(s[i] == s[a] && s[b] == s[j]);
            } else {
                assert(s[i] == s[b] && s[a] == s[j]);
            }
            assert(s2[i] == s2[j]);
        }
    }
}

/// Matched configurations drive the incremental scan and the connectivity
/// scan to the same answer.
proof fn lemma_scans_agree(n: nat, s: Seq<int>, done: Seq<(int, int)>, rem: Seq<Edge>)
    requires
        state_wf(s),
        partition_matches(n, s, done),
        !all_one_cluster(s),
        forall|k: int| 0 <= k < rem.len() ==> (#[trigger] rem[k]).a < n && rem[k].b < n,
    ensures
        scan_bottleneck(s, rem) == scan_conn(n, rem, done),
    decreases rem.len(),
{
    if rem.len() > 0 {
        let e = rem[0];
        let s2 = merge_state(s, e.a as int, e.b as int);
        let d2 = done.push((e.a as int, e.b as int));
        lemma_match_step(n, s, done, e);
        if all_one_cluster(s2) {
            assert(conn_all(n, d2)) by {
                assert forall|u: int, v: int| 0 <= u < n && 0 <= v < n implies #[trigger] connected(
                    n,
                    d2,
                    u,
                    v,
                ) by {
                    assert(s2[u] == s2[v]);
                }
            }
        } else {
            assert(!conn_all(n, d2)) by {
                if conn_all(n, d2) {
                    assert forall|i: int, j: int|
                        #![trigger s2[i], s2[j]]
                        0 <= i < s2.len() && 0 <= j < s2.len() implies s2[i] == s2[j] by {
                        assert(connected(n, d2, i, j));
                    }
                    assert(all_one_cluster(s2));
                }
            }
            assert(forall|k: int|
                0 <= k < rem.drop_first().len() ==> (#[trigger] rem.drop_first()[k]).a < n
                    && rem.drop_first()[k].b < n);
            lemma_scans_agree(n, s2, d2, rem.drop_first());
        }
    }
}

/// The equivalence at the heart of the design: the incremental engine's
/// bottleneck scan over the disjoint-set forest and the oracle's scan over
/// recomputed connectivity identify the same edge.
pub proof fn lemma_bottleneck_equivalence(ps: Seq<Position>)
    requires
        pairwise_fit(ps),
        2 <= ps.len() <= usize::MAX,
    ensures
        bottleneck_spec(ps) == scan_conn(ps.len(), spec_sorted_edges(ps), Seq::empty()),
{
    let n = ps.len();
    let s0 = identity_state(n);
    let es = spec_sorted_edges(ps);
    lemma_sorted_edges_wf(ps);
    assert(state_wf(s0)) by {
        assert(forall|i: int| 0 <= i < s0.len() ==> #[trigger] s0[i] == i);
    }
    assert(s0[0] == 0 && s0[1] == 1);
    assert(!all_one_cluster(s0));
    assert(partition_matches(n, s0, Seq::<(int, int)>::empty())) by {
        assert forall|i: int, j: int|
            #![trigger s0[i], s0[j]]
            0 <= i < n && 0 <= j < n implies (s0[i] == s0[j] <==> connected(
            n,
            Seq::<(int, int)>::empty(),
            i,
            j,
        )) by {
            if s0[i] == s0[j] {
                lemma_connected_refl(n, Seq::<(int, int)>::empty(), i);
            }
            if connected(n, Seq::<(int, int)>::empty(), i, j) {
                lemma_connected_empty(n, i, j);
            }
        }
    }
    assert forall|k: int| 0 <= k < es.len() implies (#[trigger] es[k]).a < n && es[k].b < n by {
        assert(edge_wf(ps, es[k]));
    }
    lemma_scans_agree(n, s0, Seq::<(int, int)>::empty(), es);
}

/// Running merges along a series of edges keeps the partitions matched.
proof fn lemma_run_matches(n: nat, s: Seq<int>, done: Seq<(int, int)>, rem: Seq<Edge>)
    requires
        state_wf(s),
        partition_matches(n, s, done),
        forall|k: int| 0 <= k < rem.len() ==> (#[trigger] rem[k]).a < n && rem[k].b < n,
    ensures
        state_wf(run_edges(s, rem)),
        partition_matches(n, run_edges(s, rem), done + edge_pairs(rem)),
    decreases rem.len(),
{
    if rem.len() == 0 {
        assert(done + edge_pairs(rem) =~= done);
    } else {
        let e = rem[0];
        let s2 = merge_state(s, e.a as int, e.b as int);
        let d2 = done.push((e.a as int, e.b as int));
        lemma_match_step(n, s, done, e);
        assert(forall|k: int|
            0 <= k < rem.drop_first().len() ==> (#[trigger] rem.drop_first()[k]).a < n
                && rem.drop_first()[k].b < n);
        lemma_run_matches(n, s2, d2, rem.drop_first());
        assert(d2 + edge_pairs(rem.drop_first()) =~= done + edge_pairs(rem));
    }
}

/// Cardinality transfers between the two readings of one bounded index
/// set.
proof fn lemma_card_cast(s: Set<usize>, t: Set<int>)
    requires
        t.finite(),
        forall|j: usize| #[trigger] s.contains(j) <==> t.contains(j as int),
        forall|i: int| #[trigger] t.contains(i) ==> 0 <= i <= usize::MAX,
    ensures
        s.finite(),
        s.len() == t.len(),
    decreases t.len(),
{
    broadcast use vstd::set::group_set_axioms;
    broadcast use vstd::set_lib::group_set_lib_default;

    if t.len() == 0 {
        assert(s =~= Set::<usize>::empty()) by {
            assert forall|j: usize| !(#[trigger] s.contains(j)) by {
                if s.contains(j) {
                    assert(t.contains(j as int));
                    vstd::set_lib::lemma_set_empty_equivalency_len(t);
                }
            }
        }
    } else {
        let x = t.choose();
        assert(t.contains(x));
        let xu = x as usize;
        assert(s.contains(xu));
        let t2 = t.remove(x);
        let s2 = s.remove(xu);
        assert forall|j: usize| #[trigger] s2.contains(j) <==> t2.contains(j as int) by {
            if j != xu {
                assert(s2.contains(j) <==> s.contains(j));
                assert(j as int != x);
            }
        }
        lemma_card_cast(s2, t2);
        assert(s =~= s2.insert(xu));
        assert(!s2.contains(xu));
    }
}

/// A valid component cluster has the cardinality of the matching canonical
/// cluster.
proof fn lemma_cluster_cards(n: nat, s: Seq<int>, done: Seq<(int, int)>, u: int)
    requires
        state_wf(s),
        partition_matches(n, s, done),
        0 <= u < n,
        n <= usize::MAX,
    ensures
        conn_cluster(n, done, u).len() == cluster_card(s, u),
        conn_cluster(n, done, u).finite(),
{
    let cs = conn_cluster(n, done, u);
    let ct = cluster_of(s, u);
    lemma_bounded_set(ct, n as int);
    assert forall|j: usize| #[trigger] cs.contains(j) <==> ct.contains(j as int) by {
        if (j as nat) < n {
            assert(s[j as int] == s[u] <==> connected(n, done, j as int, u));
        }
    }
    assert(forall|i: int| #[trigger] ct.contains(i) ==> 0 <= i <= usize::MAX);
    lemma_card_cast(cs, ct);
}

/// The cluster sizes of the canonical roots drawn from `rset`, in
/// increasing root order.
spec fn sizes_for_roots(s: Seq<int>, rset: Set<int>, k: int) -> Seq<usize>
    decreases k,
{
    if k <= 0 {
        Seq::empty()
    } else {
        sizes_for_roots(s, rset, k - 1) + (if s[k - 1] == k - 1 && rset.contains(k - 1) {
            seq![cluster_card(s, k - 1) as usize]
        } else {
            Seq::empty()
        })
    }
}

/// With no chosen roots, no sizes are listed.
proof fn lemma_sizes_for_roots_empty(s: Seq<int>, k: int)
    ensures
        sizes_for_roots(s, Set::<int>::empty(), k) == Seq::<usize>::empty(),
    decreases k,
{
    if k > 0 {
        lemma_sizes_for_roots_empty(s, k - 1);
        assert(sizes_for_roots(s, Set::<int>::empty(), k) =~= Seq::<usize>::empty());
    }
}

/// When every root below `k` is chosen, the listing is `sizes_in_order`.
proof fn lemma_sizes_for_roots_full(s: Seq<int>, rset: Set<int>, k: int)
    requires
        forall|r: int| 0 <= r < k && s[r] == r ==> #[trigger] rset.contains(r),
    ensures
        sizes_for_roots(s, rset, k) == sizes_in_order(s, k),
    decreases k,
{
    if k > 0 {
        lemma_sizes_for_roots_full(s, rset, k - 1);
        assert(sizes_for_roots(s, rset, k) =~= sizes_in_order(s, k));
    }
}

/// Choosing one more root adds exactly its cluster size to the listing.
proof fn lemma_sizes_for_roots_insert(s: Seq<int>, rset: Set<int>, r0: int, k: int)
    requires
        s[r0] == r0,
        !rset.contains(r0),
    ensures
        0 <= r0 < k ==> sizes_for_roots(s, rset.insert(r0), k).to_multiset() == sizes_for_roots(
            s,
            rset,
            k,
        ).to_multiset().insert(cluster_card(s, r0) as usize),
        !(0 <= r0 < k) ==> sizes_for_roots(s, rset.insert(r0), k) == sizes_for_roots(s, rset, k),
    decreases k,
{
    broadcast use vstd::seq_lib::group_to_multiset_ensures;
    broadcast use vstd::multiset::group_multiset_axioms;
    broadcast use vstd::set::group_set_axioms;

    if k <= 0 {
    } else {
        lemma_sizes_for_roots_insert(s, rset, r0, k - 1);
        let pre_old = sizes_for_roots(s, rset, k - 1);
        let pre_new = sizes_for_roots(s, rset.insert(r0), k - 1);
        if k - 1 == r0 {
            assert(pre_new == pre_old);
            assert(sizes_for_roots(s, rset, k) =~= pre_old);
            assert(sizes_for_roots(s, rset.insert(r0), k) =~= pre_old.push(
                cluster_card(s, r0) as usize,
            ));
        } else {
            let entry = (if s[k - 1] == k - 1 && rset.contains(k - 1) {
                seq![cluster_card(s, k - 1) as usize]
            } else {
                Seq::<usize>::empty()
            });
            assert(sizes_for_roots(s, rset, k) == pre_old + entry);
            assert(sizes_for_roots(s, rset.insert(r0), k) =~= pre_new + entry);
            vstd::seq_lib::lemma_multiset_commutative(pre_old, entry);
            vstd::seq_lib::lemma_multiset_commutative(pre_new, entry);
            if 0 <= r0 < k - 1 {
                assert((pre_new + entry).to_multiset() =~= (pre_old + entry)
                    .to_multiset().insert(cluster_card(s, r0) as usize));
            }
        }
    }
}

/// The canonical representatives of the chosen family.
spec fn canon_roots(s: Seq<int>, reps: Seq<int>) -> Set<int> {
    Set::new(|r: int| exists|q: int| 0 <= q < reps.len() && s[#[trigger] reps[q]] == r)
}

/// A pairwise-disconnected family lists exactly the cluster sizes of its
/// canonical representatives.
proof fn lemma_rep_sizes_partial(n: nat, s: Seq<int>, done: Seq<(int, int)>, reps: Seq<int>)
    requires
        state_wf(s),
        partition_matches(n, s, done),
        n <= usize::MAX,
        forall|q: int| 0 <= q < reps.len() ==> 0 <= #[trigger] reps[q] < n,
        forall|q1: int, q2: int|
            #![trigger reps[q1], reps[q2]]
            0 <= q1 < reps.len() && 0 <= q2 < reps.len() && q1 != q2 ==> !connected(
                n,
                done,
                reps[q1],
                reps[q2],
            ),
    ensures
        rep_sizes(n, done, reps).to_multiset() == sizes_for_roots(
            s,
            canon_roots(s, reps),
            n as int,
        ).to_multiset(),
    decreases reps.len(),
{
    broadcast use vstd::seq_lib::group_to_multiset_ensures;
    broadcast use vstd::multiset::group_multiset_axioms;
    broadcast use vstd::set::group_set_axioms;

    if reps.len() == 0 {
        assert(canon_roots(s, reps) =~= Set::<int>::empty());
        lemma_sizes_for_roots_empty(s, n as int);
        assert(rep_sizes(n, done, reps) =~= Seq::<usize>::empty());
    } else {
        let m = reps.len() - 1;
        let rest = reps.drop_last();
        let rl = reps[m as int];
        let c = s[rl];
        assert(s[c] == c && 0 <= c < n);
        assert(forall|q: int| 0 <= q < rest.len() ==> #[trigger] rest[q] == reps[q]);
        lemma_rep_sizes_partial(n, s, done, rest);
        assert(canon_roots(s, reps) =~= canon_roots(s, rest).insert(c)) by {
            assert forall|r: int| #[trigger] canon_roots(s, reps).contains(r) implies canon_roots(
                s,
                rest,
            ).insert(c).contains(r) by {
                let q = choose|q: int| 0 <= q < reps.len() && s[#[trigger] reps[q]] == r;
                if q < m {
                    assert(rest[q] == reps[q]);
                    assert(canon_roots(s, rest).contains(r));
                }
            }
            assert forall|r: int|
                #[trigger] canon_roots(s, rest).insert(c).contains(r) implies canon_roots(
                s,
                reps,
            ).contains(r) by {
                if r == c {
                    assert(s[reps[m as int]] == c);
                } else {
                    let q = choose|q: int| 0 <= q < rest.len() && s[#[trigger] rest[q]] == r;
                    assert(reps[q] == rest[q]);
                    assert(s[reps[q]] == r);
                }
            }
        }
        assert(!canon_roots(s, rest).contains(c)) by {
            if canon_roots(s, rest).contains(c) {
                let q = choose|q: int| 0 <= q < rest.len() && s[#[trigger] rest[q]] == c;
                assert(s[reps[q]] == s[rl]);
                assert(connected(n, done, reps[q], rl));
                assert(false);
            }
        }
        lemma_sizes_for_roots_insert(s, canon_roots(s, rest), c, n as int);
        lemma_cluster_cards(n, s, done, rl);
        assert(cluster_of(s, rl) =~= cluster_of(s, c));
        assert(rep_sizes(n, done, reps) =~= rep_sizes(n, done, rest).push(
            conn_cluster(n, done, rl).len() as usize,
        ));
        assert(conn_cluster(n, done, rl).len() as usize == cluster_card(s, c) as usize);
        assert(rep_sizes(n, done, reps).to_multiset() =~= rep_sizes(
            n,
            done,
            rest,
        ).to_multiset().insert(cluster_card(s, c) as usize));
        assert(sizes_for_roots(s, canon_roots(s, reps), n as int).to_multiset()
            =~= sizes_for_roots(s, canon_roots(s, rest), n as int).to_multiset().insert(
            cluster_card(s, c) as usize,
        ));
    }
}

/// The incremental engine's bounded tally and the recompute oracle report
/// the identical cluster-size list for every merge limit: the multiset of
/// sizes is determined by the partition both maintain.
pub proof fn lemma_bounded_sizes_agree(
    ps: Seq<Position>,
    limit: u64,
    r_fast: Seq<usize>,
    r_slow: Seq<usize>,
)
    requires
        pairwise_fit(ps),
        ps.len() <= usize::MAX,
        r_fast == bounded_sizes(ps, limit),
        oracle_sizes_post(ps, limit, r_slow),
    ensures
        r_fast == r_slow,
{
    let n = ps.len();
    let es = spec_sorted_edges(ps);
    let taken = es.take(capped_len(limit, es.len()));
    let done = edge_pairs(taken);
    let st = bounded_state(ps, limit);
    let s0 = identity_state(n);
    lemma_sorted_edges_wf(ps);
    assert(state_wf(s0)) by {
        assert(forall|i: int| 0 <= i < s0.len() ==> #[trigger] s0[i] == i);
    }
    assert(partition_matches(n, s0, Seq::<(int, int)>::empty())) by {
        assert forall|i: int, j: int|
            #![trigger s0[i], s0[j]]
            0 <= i < n && 0 <= j < n implies (s0[i] == s0[j] <==> connected(
            n,
            Seq::<(int, int)>::empty(),
            i,
            j,
        )) by {
            if s0[i] == s0[j] {
                lemma_connected_refl(n, Seq::<(int, int)>::empty(), i);
            }
            if connected(n, Seq::<(int, int)>::empty(), i, j) {
                lemma_connected_empty(n, i, j);
            }
        }
    }
    assert forall|k: int| 0 <= k < taken.len() implies (#[trigger] taken[k]).a < n && taken[k].b
        < n by {
        assert(taken[k] == es[k]);
        assert(edge_wf(ps, es[k]));
    }
    lemma_run_matches(n, s0, Seq::<(int, int)>::empty(), taken);
    assert(Seq::<(int, int)>::empty() + done =~= done);
    assert(partition_matches(n, st, done));
    let reps = choose|reps: Seq<int>|
        #[trigger] valid_reps(n, done, reps) && r_slow == rep_sizes(n, done, reps).sort_by(
            usize_geq(),
        );
    lemma_rep_sizes_partial(n, st, done, reps);
    assert forall|r: int| 0 <= r < n && st[r] == r implies #[trigger] canon_roots(
        st,
        reps,
    ).contains(r) by {
        assert(covered_by(n, done, reps, r));
        let q = choose|q: int| 0 <= q < reps.len() && connected(n, done, r, #[trigger] reps[q]);
        assert(st[r] == st[reps[q]]);
        assert(st[reps[q]] == r);
    }
    lemma_sizes_for_roots_full(st, canon_roots(st, reps), n as int);
    lemma_usize_geq_total();
    rep_sizes(n, done, reps).lemma_sort_by_ensures(usize_geq());
    sizes_in_order(st, n as int).lemma_sort_by_ensures(usize_geq());
    lemma_sorted_unique(
        rep_sizes(n, done, reps).sort_by(usize_geq()),
        sizes_in_order(st, n as int).sort_by(usize_geq()),
        usize_geq(),
    );
}

/// Agreement of the two public queries: any results meeting the engine's
/// and the oracle's contracts are equal — same bottleneck edge, endpoints
/// and weight, or the same failure.
pub proof fn lemma_queries_agree(
    ps: Seq<Position>,
    r_fast: Result<(usize, usize, u64), EngineError>,
    r_slow: Result<(usize, usize, u64), EngineError>,
)
    requires
        pairwise_fit(ps),
        ps.len() <= usize::MAX,
        full_connectivity_post(ps, r_fast),
        oracle_bottleneck_post(ps, r_slow),
    ensures
        r_fast == r_slow,
{
    match (r_fast, r_slow) {
        (Ok(t1), Ok(t2)) => {
            lemma_bottleneck_equivalence(ps);
            let e1 = Edge { a: t1.0, b: t1.1, w: t1.2 };
            let e2 = Edge { a: t2.0, b: t2.1, w: t2.2 };
            assert(e1 == e2);
            assert(t1.0 == t2.0 && t1.1 == t2.1 && t1.2 == t2.2);
        },
        _ => {},
    }
}

} // verus!
