//! Candidate edges of the complete graph over a point set: enumeration of
//! all unordered index pairs with their weights, and the deterministic total
//! order in which the engine consumes them.

use vstd::prelude::*;
use vstd::relations::{sorted_by, total_ordering};
use vstd::seq_lib::lemma_sorted_unique;
use vstd::pervasive::VecAdditionalExecFns;
use crate::point::{Position, PointSet, pairwise_fit, sq_dist};

verus! {

/// An unordered pair of point indices `a < b` with its weight, the squared
/// distance between the two points.
#[derive(Clone, Copy)]
pub struct Edge {
    pub a: usize,
    pub b: usize,
    pub w: u64,
}

/// The edge between points `i` and `j` of the sequence.
pub open spec fn mk_edge(ps: Seq<Position>, i: int, j: int) -> Edge {
    Edge { a: i as usize, b: j as usize, w: sq_dist(ps[i], ps[j]) as u64 }
}

/// A well-formed candidate edge for `ps`: ordered in-range endpoints and the
/// weight the distance function gives.
pub open spec fn edge_wf(ps: Seq<Position>, e: Edge) -> bool {
    e.a < e.b < ps.len() && e.w == sq_dist(ps[e.a as int], ps[e.b as int])
}

/// Total order on edges: by weight, ties broken lexicographically by the
/// index pair, so that repeated runs are bit-for-bit reproducible.
pub open spec fn edge_le(x: Edge, y: Edge) -> bool {
    if x.w != y.w {
        x.w < y.w
    } else if x.a != y.a {
        x.a < y.a
    } else {
        x.b <= y.b
    }
}

/// The edge order as a closure value, for use with sequence sorting.
pub open spec fn edge_leq() -> spec_fn(Edge, Edge) -> bool {
    |x: Edge, y: Edge| edge_le(x, y)
}

/// `edge_le` is a total order.
pub proof fn lemma_edge_le_total()
    ensures
        total_ordering(edge_leq()),
{
    let leq = edge_leq();
    assert forall|x: Edge, y: Edge| #[trigger] leq(x, y) && leq(y, x) implies x == y by {
        assert(x.w == y.w && x.a == y.a && x.b == y.b);
    }
}

/// Edges of row `i`: pairs `(i, j)` for every `j > i`, in increasing `j`.
pub open spec fn row_seq(ps: Seq<Position>, i: int) -> Seq<Edge> {
    Seq::new((ps.len() - i - 1) as nat, |t: int| mk_edge(ps, i, i + 1 + t))
}

/// Concatenation of the rows below `i`, in increasing row order.
pub open spec fn rows_upto(ps: Seq<Position>, i: int) -> Seq<Edge>
    decreases i,
{
    if i <= 0 {
        Seq::empty()
    } else {
        rows_upto(ps, i - 1) + row_seq(ps, i - 1)
    }
}

/// Every unordered index pair exactly once, in generation order: row by row,
/// each row in increasing second index.
pub open spec fn pair_seq(ps: Seq<Position>) -> Seq<Edge> {
    rows_upto(ps, ps.len() as int)
}

/// Squared distances are non-negative.
pub proof fn lemma_sq_dist_nonneg(p: Position, q: Position)
    ensures
        sq_dist(p, q) >= 0,
{
    assert(crate::point::sq(p.x - q.x) >= 0 && crate::point::sq(p.y - q.y) >= 0
        && crate::point::sq(p.z - q.z) >= 0) by (nonlinear_arith);
}

/// All edges of `pair_seq` are well-formed.
pub proof fn lemma_rows_upto_wf(ps: Seq<Position>, i: int)
    requires
        0 <= i <= ps.len() <= usize::MAX,
        pairwise_fit(ps),
    ensures
        forall|k: int|
            0 <= k < rows_upto(ps, i).len() ==> #[trigger] edge_wf(ps, rows_upto(ps, i)[k]),
    decreases i,
{
    if i > 0 {
        lemma_rows_upto_wf(ps, i - 1);
        assert forall|k: int| 0 <= k < rows_upto(ps, i).len() implies #[trigger] edge_wf(
            ps,
            rows_upto(ps, i)[k],
        ) by {
            let pre = rows_upto(ps, i - 1);
            if k < pre.len() {
                assert(rows_upto(ps, i)[k] == pre[k]);
                assert(edge_wf(ps, pre[k]));
            } else {
                let t = k - pre.len();
                assert(rows_upto(ps, i)[k] == row_seq(ps, i - 1)[t]);
                lemma_sq_dist_nonneg(ps[i - 1], ps[i + t]);
                assert(sq_dist(ps[i - 1], ps[i + t]) <= i64::MAX);
            }
        }
    }
}

/// Every pair `i < j` occurs in `pair_seq`.
pub proof fn lemma_rows_upto_complete(ps: Seq<Position>, m: int, i: int, j: int)
    requires
        0 <= i < j < ps.len() <= usize::MAX,
        i < m <= ps.len(),
    ensures
        rows_upto(ps, m).contains(mk_edge(ps, i, j)),
    decreases m,
{
    if m - 1 == i {
        let t = j - i - 1;
        assert(row_seq(ps, i)[t] == mk_edge(ps, i, j));
        assert(rows_upto(ps, m)[rows_upto(ps, m - 1).len() + t] == mk_edge(ps, i, j));
    } else {
        lemma_rows_upto_complete(ps, m - 1, i, j);
        let k = choose|k: int|
            0 <= k < rows_upto(ps, m - 1).len() && #[trigger] rows_upto(ps, m - 1)[k] == mk_edge(
                ps,
                i,
                j,
            );
        assert(rows_upto(ps, m)[k] == mk_edge(ps, i, j));
    }
}

/// Twice the number of candidate edges of the first `i` rows is
/// `i (2n - i - 1)`; for the whole enumeration, `n (n - 1)`.
pub proof fn lemma_rows_upto_len(ps: Seq<Position>, i: int)
    requires
        0 <= i <= ps.len(),
    ensures
        2 * rows_upto(ps, i).len() == i * (2 * ps.len() - i - 1),
    decreases i,
{
    let n = ps.len() as int;
    if i > 0 {
        lemma_rows_upto_len(ps, i - 1);
        assert(rows_upto(ps, i).len() == rows_upto(ps, i - 1).len() + (n - i));
        assert(2 * rows_upto(ps, i - 1).len() == (i - 1) * (2 * n - i));
        assert((i - 1) * (2 * n - i) + 2 * (n - i) == i * (2 * n - i - 1)) by (nonlinear_arith);
        assert(2 * rows_upto(ps, i).len() == i * (2 * n - i - 1));
    } else {
        assert(i * (2 * n - i - 1) == 0) by (nonlinear_arith)
            requires
                i == 0,
        ;
    }
}

/// The sorted candidate edge sequence: `pair_seq` under the deterministic
/// total order `edge_le`.  The engine's results are functions of this
/// sequence alone.
pub open spec fn spec_sorted_edges(ps: Seq<Position>) -> Seq<Edge> {
    pair_seq(ps).sort_by(edge_leq())
}

/// Decides `edge_le`.
fn edge_le_exec(x: &Edge, y: &Edge) -> (r: bool)
    ensures
        r == edge_le(*x, *y),
{
    if x.w != y.w {
        x.w < y.w
    } else if x.a != y.a {
        x.a < y.a
    } else {
        x.b <= y.b
    }
}

/// Enumerates every unordered index pair with its weight, in generation
/// order, exactly as `pair_seq` describes.
pub fn pairwise_edges(ps: &PointSet) -> (r: Vec<Edge>)
    requires
        ps.wf(),
    ensures
        r@ == pair_seq(ps@),
{
    let n = ps.len();
    let mut r: Vec<Edge> = Vec::new();
    let mut i: usize = 0;
    while i < n
        invariant
            ps.wf(),
            n == ps@.len(),
            i <= n,
            r@ == rows_upto(ps@, i as int),
        decreases n - i,
    {
        let mut j: usize = i + 1;
        while j < n
            invariant
                ps.wf(),
                n == ps@.len(),
                i < n,
                i + 1 <= j <= n,
                r@ == rows_upto(ps@, i as int) + row_seq(ps@, i as int).take(j - i - 1),
            decreases n - j,
        {
            let pi = ps.point(i);
            let pj = ps.point(j);
            let w = pi.dist(&pj);
            r.push(Edge { a: i, b: j, w });
            proof {
                assert(row_seq(ps@, i as int).take(j - i) =~= row_seq(ps@, i as int).take(
                    j - i - 1,
                ).push(mk_edge(ps@, i as int, j as int)));
                assert(r@ =~= rows_upto(ps@, i as int) + row_seq(ps@, i as int).take(j - i));
            }
            j = j + 1;
        }
        proof {
            assert(row_seq(ps@, i as int).take(n - i - 1) =~= row_seq(ps@, i as int));
            assert(r@ =~= rows_upto(ps@, i + 1));
        }
        i = i + 1;
    }
    proof {
        assert(r@ =~= pair_seq(ps@));
    }
    r
}

/// Merges two runs already in edge order into one.
fn merge_edge_runs(left: Vec<Edge>, right: Vec<Edge>) -> (r: Vec<Edge>)
    requires
        sorted_by(left@, edge_leq()),
        sorted_by(right@, edge_leq()),
    ensures
        sorted_by(r@, edge_leq()),
        r@.to_multiset() == left@.to_multiset().add(right@.to_multiset()),
{
    let ghost ls = left@;
    let ghost rs = right@;
    let mut out: Vec<Edge> = Vec::new();
    let mut i: usize = 0;
    let mut j: usize = 0;
    proof {
        broadcast use vstd::seq_lib::group_to_multiset_ensures;
        broadcast use vstd::multiset::group_multiset_axioms;

        assert(ls.take(0) =~= Seq::<Edge>::empty());
        assert(rs.take(0) =~= Seq::<Edge>::empty());
        assert(out@.to_multiset() =~= ls.take(0).to_multiset().add(rs.take(0).to_multiset()));
    }
    while i < left.len() || j < right.len()
        invariant
            ls == left@,
            rs == right@,
            sorted_by(ls, edge_leq()),
            sorted_by(rs, edge_leq()),
            i <= ls.len(),
            j <= rs.len(),
            sorted_by(out@, edge_leq()),
            out@.to_multiset() == ls.take(i as int).to_multiset().add(
                rs.take(j as int).to_multiset(),
            ),
            forall|t: int|
                0 <= t < out@.len() && i < ls.len() ==> edge_le(#[trigger] out@[t], ls[i as int]),
            forall|t: int|
                0 <= t < out@.len() && j < rs.len() ==> edge_le(#[trigger] out@[t], rs[j as int]),
        decreases ls.len() + rs.len() - i - j,
    {
        let take_left: bool = if i < left.len() && j < right.len() {
            edge_le_exec(&left[i], &right[j])
        } else {
            i < left.len()
        };
        proof {
            lemma_edge_le_total();
            broadcast use vstd::seq_lib::group_to_multiset_ensures;
            broadcast use vstd::multiset::group_multiset_axioms;
        }
        if take_left {
            let e = left[i];
            let ghost out0 = out@;
            out.push(e);
            i = i + 1;
            proof {
                let ii = i as int;
                assert(ls.take(ii) =~= ls.take(ii - 1).push(e));
                assert(out@.to_multiset() =~= ls.take(ii).to_multiset().add(
                    rs.take(j as int).to_multiset(),
                ));
                assert(sorted_by(out@, edge_leq())) by {
                    assert forall|k1: int, k2: int|
                        0 <= k1 < k2 < out@.len() implies #[trigger] edge_leq()(
                        out@[k1],
                        out@[k2],
                    ) by {
                        if k2 == out@.len() - 1 {
                            assert(out@[k1] == out0[k1] && out@[k2] == e);
                            assert(edge_le(out0[k1], ls[ii - 1]));
                        } else {
                            assert(out@[k1] == out0[k1] && out@[k2] == out0[k2]);
                        }
                    }
                }
                assert forall|t: int|
                    0 <= t < out@.len() && i < ls.len() implies edge_le(
                    #[trigger] out@[t],
                    ls[ii],
                ) by {
                    assert(edge_leq()(ls[ii - 1], ls[ii]));
                    if t < out@.len() - 1 {
                        assert(out@[t] == out0[t]);
                        assert(edge_le(out0[t], ls[ii - 1]));
                    } else {
                        assert(out@[t] == ls[ii - 1]);
                    }
                }
                assert forall|t: int|
                    0 <= t < out@.len() && j < rs.len() implies edge_le(
                    #[trigger] out@[t],
                    rs[j as int],
                ) by {
                    if t < out@.len() - 1 {
                        assert(out@[t] == out0[t]);
                    } else {
                        assert(out@[t] == ls[ii - 1]);
                        assert(edge_le(ls[ii - 1], rs[j as int]));
                    }
                }
            }
        } else {
            let e = right[j];
            let ghost out0 = out@;
            proof {
                // the left run is exhausted, or its head does not precede
                // the right head; either way the right head may go out
                if i < ls.len() {
                    assert(!edge_le(ls[i as int], rs[j as int]));
                    assert(edge_le(rs[j as int], ls[i as int]));
                }
            }
            out.push(e);
            j = j + 1;
            proof {
                let jj = j as int;
                assert(rs.take(jj) =~= rs.take(jj - 1).push(e));
                assert(out@.to_multiset() =~= ls.take(i as int).to_multiset().add(
                    rs.take(jj).to_multiset(),
                ));
                assert(sorted_by(out@, edge_leq())) by {
                    assert forall|k1: int, k2: int|
                        0 <= k1 < k2 < out@.len() implies #[trigger] edge_leq()(
                        out@[k1],
                        out@[k2],
                    ) by {
                        if k2 == out@.len() - 1 {
                            assert(out@[k1] == out0[k1] && out@[k2] == e);
                            assert(edge_le(out0[k1], rs[jj - 1]));
                        } else {
                            assert(out@[k1] == out0[k1] && out@[k2] == out0[k2]);
                        }
                    }
                }
                assert forall|t: int|
                    0 <= t < out@.len() && j < rs.len() implies edge_le(
                    #[trigger] out@[t],
                    rs[jj],
                ) by {
                    assert(edge_leq()(rs[jj - 1], rs[jj]));
                    if t < out@.len() - 1 {
                        assert(out@[t] == out0[t]);
                        assert(edge_le(out0[t], rs[jj - 1]));
                    } else {
                        assert(out@[t] == rs[jj - 1]);
                    }
                }
                assert forall|t: int|
                    0 <= t < out@.len() && i < ls.len() implies edge_le(
                    #[trigger] out@[t],
                    ls[i as int],
                ) by {
                    if t < out@.len() - 1 {
                        assert(out@[t] == out0[t]);
                    } else {
                        assert(out@[t] == rs[jj - 1]);
                        assert(edge_le(rs[jj - 1], ls[i as int]));
                    }
                }
            }
        }
    }
    proof {
        assert(ls.take(ls.len() as int) =~= ls);
        assert(rs.take(rs.len() as int) =~= rs);
    }
    out
}

/// Sorts edges by `edge_le` with merge sort; the result is exactly the
/// specification-level sorted sequence.
pub fn sort_edges(edges: Vec<Edge>) -> (r: Vec<Edge>)
    ensures
        r@ == edges@.sort_by(edge_leq()),
        r@.to_multiset() == edges@.to_multiset(),
        sorted_by(r@, edge_leq()),
    decreases edges@.len(),
{
    let ghost orig = edges@;
    let n = edges.len();
    let mut v = edges;
    if n <= 1 {
        proof {
            lemma_edge_le_total();
            orig.lemma_sort_by_ensures(edge_leq());
            lemma_sorted_unique(v@, orig.sort_by(edge_leq()), edge_leq());
        }
        v
    } else {
        let right_half = v.split_off(n / 2);
        let left_sorted = sort_edges(v);
        let right_sorted = sort_edges(right_half);
        let merged = merge_edge_runs(left_sorted, right_sorted);
        proof {
            lemma_edge_le_total();
            let mid = (n / 2) as int;
            assert(orig =~= orig.subrange(0, mid) + orig.subrange(mid, n as int));
            vstd::seq_lib::lemma_multiset_commutative(
                orig.subrange(0, mid),
                orig.subrange(mid, n as int),
            );
            orig.subrange(0, mid).lemma_sort_by_ensures(edge_leq());
            orig.subrange(mid, n as int).lemma_sort_by_ensures(edge_leq());
            orig.lemma_sort_by_ensures(edge_leq());
            lemma_sorted_unique(merged@, orig.sort_by(edge_leq()), edge_leq());
        }
        merged
    }
}

/// The full sorted candidate edge list of a point set.
pub fn sorted_edges(ps: &PointSet) -> (r: Vec<Edge>)
    requires
        ps.wf(),
    ensures
        r@ == spec_sorted_edges(ps@),
        sorted_by(r@, edge_leq()),
        forall|k: int| 0 <= k < r@.len() ==> #[trigger] edge_wf(ps@, r@[k]),
{
    let n = ps.len();
    let pairs = pairwise_edges(ps);
    let r = sort_edges(pairs);
    proof {
        assert(ps@.len() == n <= usize::MAX);
        lemma_sorted_edges_wf(ps@);
    }
    r
}

/// Every edge of the sorted sequence is well-formed, and every pair `i < j`
/// occurs in it.
pub proof fn lemma_sorted_edges_wf(ps: Seq<Position>)
    requires
        pairwise_fit(ps),
        ps.len() <= usize::MAX,
    ensures
        forall|k: int|
            0 <= k < spec_sorted_edges(ps).len() ==> #[trigger] edge_wf(
                ps,
                spec_sorted_edges(ps)[k],
            ),
        forall|i: int, j: int|
            0 <= i < j < ps.len() ==> #[trigger] spec_sorted_edges(ps).contains(mk_edge(ps, i, j)),
        spec_sorted_edges(ps).len() == pair_seq(ps).len(),
{
    broadcast use vstd::seq_lib::group_to_multiset_ensures;

    lemma_edge_le_total();
    pair_seq(ps).lemma_sort_by_ensures(edge_leq());
    lemma_rows_upto_wf(ps, ps.len() as int);
    let s = spec_sorted_edges(ps);
    assert(s.to_multiset().len() == pair_seq(ps).to_multiset().len());
    assert forall|k: int| 0 <= k < s.len() implies #[trigger] edge_wf(ps, s[k]) by {
        assert(s.to_multiset().count(s[k]) > 0);
        assert(pair_seq(ps).contains(s[k]));
    }
    assert forall|i: int, j: int| 0 <= i < j < ps.len() implies #[trigger] s.contains(
        mk_edge(ps, i, j),
    ) by {
        lemma_rows_upto_complete(ps, ps.len() as int, i, j);
        assert(pair_seq(ps).to_multiset().count(mk_edge(ps, i, j)) > 0);
    }
}

/// A pop-minimum view of a sorted edge sequence: edges leave in
/// non-decreasing weight order, cheapest first.
pub struct EdgeQueue {
    edges: Vec<Edge>,
    next: usize,
}

impl EdgeQueue {
    /// The edges not yet popped, cheapest first.
    pub closed spec fn remaining(&self) -> Seq<Edge> {
        self.edges@.skip(self.next as int)
    }

    pub closed spec fn wf(&self) -> bool {
        self.next <= self.edges@.len() && sorted_by(self.edges@, edge_leq())
    }

    /// Builds the queue over an already sorted edge list.
    pub fn new(edges: Vec<Edge>) -> (r: EdgeQueue)
        requires
            sorted_by(edges@, edge_leq()),
        ensures
            r.wf(),
            r.remaining() == edges@,
    {
        let r = EdgeQueue { edges, next: 0 };
        proof {
            assert(r.remaining() =~= r.edges@);
        }
        r
    }

    /// Pops the minimum remaining edge — it comes no later in the edge
    /// order than anything still queued — or nothing once exhausted.
    pub fn pop_min(&mut self) -> (r: Option<Edge>)
        requires
            old(self).wf(),
        ensures
            final(self).wf(),
            match r {
                Some(e) => old(self).remaining().len() > 0 && e == old(self).remaining()[0]
                    && final(self).remaining() == old(self).remaining().drop_first() && (forall|
                    k: int,
                |
                    0 <= k < final(self).remaining().len() ==> edge_le(
                        e,
                        #[trigger] final(self).remaining()[k],
                    )),
                None => old(self).remaining().len() == 0 && final(self).remaining() == old(
                    self,
                ).remaining(),
            },
    {
        if self.next < self.edges.len() {
            let e = self.edges[self.next];
            self.next = self.next + 1;
            proof {
                assert(self.edges@.skip(self.next as int) =~= self.edges@.skip(
                    self.next - 1,
                ).drop_first());
                assert forall|k: int| 0 <= k < self.remaining().len() implies edge_le(
                    e,
                    #[trigger] self.remaining()[k],
                ) by {
                    assert(self.remaining()[k] == self.edges@[self.next + k]);
                    assert(edge_leq()(self.edges@[self.next - 1], self.edges@[self.next + k]));
                }
            }
            Some(e)
        } else {
            None
        }
    }
}

} // verus!
