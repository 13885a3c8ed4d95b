//! Disjoint-set forest over point indices: find and union with
//! union-by-size, plus the canonical partition model that the contracts
//! speak of.
//!
//! A forest over `n` indices is modelled by a canonical state: a sequence
//! whose entry at `i` is the least index of the cluster containing `i`.
//! Merges relabel the greater of two canonical representatives to the
//! smaller, so the state after any series of merges is a function of the
//! merge arguments alone, independent of the forest's internal tree shape.

use vstd::prelude::*;
use vstd::set_lib::{lemma_int_range, lemma_len_subset, set_int_range};

verus! {

/// A valid canonical partition state over indices `0 .. len`: every entry
/// names the least index of its cluster.
pub open spec fn state_wf(s: Seq<int>) -> bool {
    forall|i: int| 0 <= i < s.len() ==> 0 <= #[trigger] s[i] <= i && s[s[i]] == s[i]
}

/// The initial state: every index is its own singleton cluster.
pub open spec fn identity_state(n: nat) -> Seq<int> {
    Seq::new(n, |i: int| i)
}

/// The cluster of `i`: every index with the same representative.
pub open spec fn cluster_of(s: Seq<int>, i: int) -> Set<int> {
    Set::new(|j: int| 0 <= j < s.len() && s[j] == s[i])
}

/// The number of indices in the cluster of `i`.
pub open spec fn cluster_card(s: Seq<int>, i: int) -> nat {
    cluster_of(s, i).len()
}

/// The representatives: indices that name their own cluster.
pub open spec fn roots_of(s: Seq<int>) -> Set<int> {
    Set::new(|r: int| 0 <= r < s.len() && s[r] == r)
}

/// The number of distinct clusters.
pub open spec fn num_clusters(s: Seq<int>) -> nat {
    roots_of(s).len()
}

/// All indices belong to a single cluster.
pub open spec fn all_one_cluster(s: Seq<int>) -> bool {
    forall|i: int, j: int|
        #![trigger s[i], s[j]]
        0 <= i < s.len() && 0 <= j < s.len() ==> s[i] == s[j]
}

/// The state after merging the clusters of `a` and `b`: the greater of the
/// two representatives gives way to the smaller; a no-op when `a` and `b`
/// are already in one cluster.
pub open spec fn merge_state(s: Seq<int>, a: int, b: int) -> Seq<int> {
    if s[a] == s[b] {
        s
    } else {
        let lo = if s[a] < s[b] {
            s[a]
        } else {
            s[b]
        };
        let hi = if s[a] < s[b] {
            s[b]
        } else {
            s[a]
        };
        Seq::new(s.len(), |i: int| if s[i] == hi {
            lo
        } else {
            s[i]
        })
    }
}

/// A set of integers all lying in `[0, n)` is finite, with at most `n`
/// members.
pub proof fn lemma_bounded_set(s: Set<int>, n: int)
    requires
        n >= 0,
        forall|x: int| #[trigger] s.contains(x) ==> 0 <= x < n,
    ensures
        s.finite(),
        s.len() <= n,
{
    lemma_int_range(0, n);
    assert(s.subset_of(set_int_range(0, n)));
    lemma_len_subset(s, set_int_range(0, n));
}

/// What one merge does to the canonical state: it stays valid, exactly the
/// two clusters are joined, and when they were distinct exactly one
/// representative is retired.
pub proof fn lemma_merge_state(s: Seq<int>, a: int, b: int)
    requires
        state_wf(s),
        0 <= a < s.len(),
        0 <= b < s.len(),
    ensures
        state_wf(merge_state(s, a, b)),
        merge_state(s, a, b).len() == s.len(),
        forall|i: int, j: int|
            #![trigger merge_state(s, a, b)[i], merge_state(s, a, b)[j]]
            0 <= i < s.len() && 0 <= j < s.len() ==> (merge_state(s, a, b)[i] == merge_state(
                s,
                a,
                b,
            )[j] <==> (s[i] == s[j] || (s[i] == s[a] && s[j] == s[b]) || (s[i] == s[b] && s[j]
                == s[a]))),
        s[a] == s[b] ==> merge_state(s, a, b) == s,
        s[a] != s[b] ==> roots_of(merge_state(s, a, b)) == roots_of(s).remove(
            if s[a] < s[b] {
                s[b]
            } else {
                s[a]
            },
        ),
        num_clusters(merge_state(s, a, b)) == if s[a] != s[b] {
            num_clusters(s) - 1
        } else {
            num_clusters(s) as int
        },
{
    let m = merge_state(s, a, b);
    if s[a] != s[b] {
        let lo = if s[a] < s[b] {
            s[a]
        } else {
            s[b]
        };
        let hi = if s[a] < s[b] {
            s[b]
        } else {
            s[a]
        };
        assert(s[lo] == lo && s[hi] == hi);
        assert(state_wf(m)) by {
            assert forall|i: int| 0 <= i < m.len() implies 0 <= #[trigger] m[i] <= i && m[m[i]]
                == m[i] by {
                if s[i] == hi {
                    assert(m[i] == lo);
                    assert(hi <= i);
                    assert(m[lo] == lo);
                } else {
                    assert(m[i] == s[i]);
                    assert(s[s[i]] == s[i]);
                    assert(m[s[i]] == s[i]);
                }
            }
        }
        assert(roots_of(m) =~= roots_of(s).remove(hi)) by {
            assert forall|r: int| #[trigger] roots_of(m).contains(r) implies roots_of(
                s,
            ).remove(hi).contains(r) by {
                assert(m[r] == r);
                if s[r] == hi {
                    assert(m[r] == lo && lo != hi);
                    assert(r != hi || m[r] != r);
                }
            }
            assert forall|r: int| #[trigger] roots_of(s).remove(hi).contains(r) implies roots_of(
                m,
            ).contains(r) by {
                assert(s[r] == r && r != hi);
                assert(m[r] == r);
            }
        }
        assert(roots_of(s).contains(hi));
        lemma_bounded_set(roots_of(s), s.len() as int);
        assert(roots_of(s).remove(hi).len() == roots_of(s).len() - 1);
    } else {
        assert(m == s);
    }
}

/// Sum of an integer sequence.
pub open spec fn seq_sum(s: Seq<int>) -> int
    decreases s.len(),
{
    if s.len() == 0 {
        0
    } else {
        s[0] + seq_sum(s.drop_first())
    }
}

/// Two equal-length sequences that agree everywhere but at `idx`, where
/// they differ by `d`, have sums differing by `d`.
proof fn lemma_seq_sum_delta(t1: Seq<int>, t2: Seq<int>, idx: int, d: int)
    requires
        t1.len() == t2.len(),
        0 <= idx < t1.len(),
        forall|k: int| 0 <= k < t1.len() && k != idx ==> #[trigger] t1[k] == t2[k],
        t1[idx] == t2[idx] + d,
    ensures
        seq_sum(t1) == seq_sum(t2) + d,
    decreases t1.len(),
{
    if idx == 0 {
        assert(t1.drop_first() =~= t2.drop_first());
    } else {
        lemma_seq_sum_delta(t1.drop_first(), t2.drop_first(), idx - 1, d);
    }
}

/// A sequence of zeroes sums to zero.
proof fn lemma_seq_sum_zero(t: Seq<int>)
    requires
        forall|k: int| 0 <= k < t.len() ==> #[trigger] t[k] == 0,
    ensures
        seq_sum(t) == 0,
    decreases t.len(),
{
    if t.len() > 0 {
        lemma_seq_sum_zero(t.drop_first());
    }
}

/// The positions among the first `m` entries of `s` holding the value `r`.
spec fn prefix_set(s: Seq<int>, m: int, r: int) -> Set<int> {
    Set::new(|i: int| 0 <= i < m && i < s.len() && s[i] == r)
}

/// How many of the first `m` entries of `s` hold the value `r`.
spec fn prefix_count(s: Seq<int>, m: int, r: int) -> nat {
    prefix_set(s, m, r).len()
}

/// Summed over every possible value, the occurrence counts of the first `m`
/// entries add up to `m`: each entry is counted exactly once.
proof fn lemma_prefix_counts_sum(s: Seq<int>, m: int)
    requires
        0 <= m <= s.len(),
        forall|i: int| 0 <= i < s.len() ==> 0 <= #[trigger] s[i] < s.len(),
    ensures
        seq_sum(Seq::new(s.len(), |r: int| prefix_count(s, m, r) as int)) == m,
    decreases m,
{
    let n = s.len() as int;
    let t = Seq::new(s.len(), |r: int| prefix_count(s, m, r) as int);
    if m == 0 {
        assert forall|k: int| 0 <= k < t.len() implies #[trigger] t[k] == 0 by {
            assert(prefix_set(s, 0, k) =~= Set::empty());
        }
        lemma_seq_sum_zero(t);
    } else {
        lemma_prefix_counts_sum(s, m - 1);
        let prev = Seq::new(s.len(), |r: int| prefix_count(s, m - 1, r) as int);
        let r0 = s[m - 1];
        assert forall|r: int| 0 <= r < n && r != r0 implies #[trigger] t[r] == prev[r] by {
            assert(prefix_set(s, m, r) =~= prefix_set(s, m - 1, r));
        }
        let old_set = prefix_set(s, m - 1, r0);
        lemma_bounded_set(old_set, n);
        assert(prefix_set(s, m, r0) =~= old_set.insert(m - 1));
        assert(!old_set.contains(m - 1));
        vstd::set::axiom_set_insert_len(old_set, m - 1);
        assert(t[r0] == prev[r0] + 1);
        lemma_seq_sum_delta(t, prev, r0, 1);
    }
}

/// Size conservation: over all distinct representatives, the cluster sizes
/// of a valid state sum to the number of indices.
pub proof fn lemma_size_conservation(s: Seq<int>)
    requires
        state_wf(s),
    ensures
        seq_sum(
            Seq::new(s.len(), |r: int| if s[r] == r {
                cluster_card(s, r) as int
            } else {
                0
            }),
        ) == s.len(),
{
    let n = s.len() as int;
    lemma_prefix_counts_sum(s, n);
    let t = Seq::new(s.len(), |r: int| prefix_count(s, n, r) as int);
    let u = Seq::new(s.len(), |r: int| if s[r] == r {
        cluster_card(s, r) as int
    } else {
        0
    });
    assert forall|r: int| 0 <= r < n implies #[trigger] t[r] == u[r] by {
        if s[r] == r {
            assert(prefix_set(s, n, r) =~= cluster_of(s, r));
        } else {
            assert forall|i: int| !(0 <= i < n && i < s.len() && #[trigger] s[i] == r) by {
                if 0 <= i < n && s[i] == r {
                    assert(s[s[i]] == s[i]);
                }
            }
            assert(prefix_set(s, n, r) =~= Set::empty());
        }
    }
    assert(t =~= u);
}

/// The cluster sizes of a valid state, listed in increasing representative
/// order: one entry for each representative below `k`.
pub open spec fn sizes_in_order(s: Seq<int>, k: int) -> Seq<usize>
    decreases k,
{
    if k <= 0 {
        Seq::empty()
    } else {
        sizes_in_order(s, k - 1) + (if s[k - 1] == k - 1 {
            seq![cluster_card(s, k - 1) as usize]
        } else {
            Seq::empty()
        })
    }
}

/// The representatives below `k`.
pub open spec fn roots_below(s: Seq<int>, k: int) -> Set<int> {
    Set::new(|r: int| 0 <= r < k && s[r] == r)
}

/// `sizes_in_order` over the whole state has one entry per cluster.
pub proof fn lemma_sizes_in_order_len(s: Seq<int>, k: int)
    requires
        0 <= k <= s.len(),
    ensures
        sizes_in_order(s, k).len() == roots_below(s, k).len(),
        k == s.len() ==> sizes_in_order(s, k).len() == num_clusters(s),
    decreases k,
{
    let cur = roots_below(s, k);
    lemma_bounded_set(cur, k);
    if k == 0 {
        assert(cur =~= Set::empty());
    } else {
        lemma_sizes_in_order_len(s, k - 1);
        let prev = roots_below(s, k - 1);
        lemma_bounded_set(prev, k - 1);
        if s[k - 1] == k - 1 {
            assert(!prev.contains(k - 1));
            vstd::set::axiom_set_insert_len(prev, k - 1);
            assert(cur =~= prev.insert(k - 1));
        } else {
            assert(cur =~= prev);
        }
    }
    if k == s.len() {
        assert(cur =~= roots_of(s));
    }
}

/// Every entry of `sizes_in_order` is a cluster size: at least 1 and at
/// most the number of indices.
pub proof fn lemma_sizes_in_order_bounds(s: Seq<int>, k: int)
    requires
        state_wf(s),
        0 <= k <= s.len() <= usize::MAX,
    ensures
        forall|t: int|
            0 <= t < sizes_in_order(s, k).len() ==> 1 <= #[trigger] sizes_in_order(s, k)[t]
                <= s.len(),
    decreases k,
{
    if k > 0 {
        lemma_sizes_in_order_bounds(s, k - 1);
        if s[k - 1] == k - 1 {
            let c = cluster_of(s, k - 1);
            lemma_bounded_set(c, s.len() as int);
            assert(c.contains(k - 1));
            vstd::set::axiom_set_insert_len(c.remove(k - 1), k - 1);
            assert(c.remove(k - 1).insert(k - 1) =~= c);
            assert(c.len() >= 1);
        }
        assert forall|t: int|
            0 <= t < sizes_in_order(s, k).len() implies 1 <= #[trigger] sizes_in_order(s, k)[t]
            <= s.len() by {
            let prev = sizes_in_order(s, k - 1);
            if t < prev.len() {
                assert(sizes_in_order(s, k)[t] == prev[t]);
            } else {
                assert(s[k - 1] == k - 1);
                assert(sizes_in_order(s, k)[t] == cluster_card(s, k - 1) as usize);
            }
        }
    }
}

/// The members of the actual tree rooted at `r`, for a forest of `n`
/// indices whose actual representatives are `arep`.
spec fn cluster_a(n: int, arep: Seq<int>, r: int) -> Set<int> {
    Set::new(|i: int| 0 <= i < n && arep[i] == r)
}

/// The actual roots: indices that are their own parent.
spec fn roots_a(parent: Seq<usize>) -> Set<int> {
    Set::new(|r: int| 0 <= r < parent.len() && parent[r] == r)
}

/// Union-find over point indices, with per-representative cluster sizes.
///
/// The abstract value (`@`) is the canonical partition state.  Internally
/// the forest keeps parent pointers: an index is a root exactly when it is
/// its own parent, and then its `size` entry is the number of indices in
/// its cluster.  Ghost data carries the actual representative of every
/// index, a level measure that makes parent chains provably finite, and the
/// canonical state itself.
pub struct DisjointSetForest {
    parent: Vec<usize>,
    size: Vec<usize>,
    count: usize,
    canon: Ghost<Seq<int>>,
    arep: Ghost<Seq<int>>,
    lvl: Ghost<Seq<nat>>,
}

impl View for DisjointSetForest {
    type V = Seq<int>;

    closed spec fn view(&self) -> Seq<int> {
        self.canon@
    }
}

impl DisjointSetForest {
    /// The representative that `find` returns for index `i`.
    pub closed spec fn repr(&self, i: int) -> int {
        self.arep@[i]
    }

    pub closed spec fn wf(&self) -> bool {
        let n = self.parent@.len() as int;
        &&& self.size@.len() == n
        &&& self.canon@.len() == n
        &&& self.arep@.len() == n
        &&& self.lvl@.len() == n
        &&& forall|i: int| 0 <= i < n ==> #[trigger] self.parent@[i] < n
        &&& forall|i: int| 0 <= i < n ==> 0 <= #[trigger] self.arep@[i] < n
        &&& forall|i: int|
            0 <= i < n ==> self.parent@[#[trigger] self.arep@[i]] == self.arep@[i]
        &&& forall|i: int| 0 <= i < n && self.parent@[i] == i ==> #[trigger] self.arep@[i] == i
        &&& forall|i: int|
            0 <= i < n && #[trigger] self.parent@[i] != i ==> self.arep@[i]
                == self.arep@[self.parent@[i] as int] && self.lvl@[self.parent@[i] as int]
                < self.lvl@[i]
        &&& forall|i: int, j: int|
            #![trigger self.arep@[i], self.arep@[j]]
            0 <= i < n && 0 <= j < n ==> (self.arep@[i] == self.arep@[j] <==> self.canon@[i]
                == self.canon@[j])
        &&& state_wf(self.canon@)
        &&& forall|r: int|
            0 <= r < n && #[trigger] self.parent@[r] == r ==> self.size@[r] == cluster_a(
                n,
                self.arep@,
                r,
            ).len()
        &&& self.count == roots_a(self.parent@).len()
        &&& self.count == num_clusters(self.canon@)
    }

    /// A fresh forest of `n` singleton clusters.
    pub fn new(n: usize) -> (r: DisjointSetForest)
        ensures
            r.wf(),
            r@ == identity_state(n as nat),
            r@.len() == n,
            num_clusters(r@) == n,
            state_wf(r@),
    {
        let mut parent: Vec<usize> = Vec::new();
        let mut size: Vec<usize> = Vec::new();
        let mut i: usize = 0;
        while i < n
            invariant
                i <= n,
                parent@.len() == i,
                size@.len() == i,
                forall|k: int| 0 <= k < i ==> #[trigger] parent@[k] == k,
                forall|k: int| 0 <= k < i ==> #[trigger] size@[k] == 1,
            decreases n - i,
        {
            parent.push(i);
            size.push(1);
            i = i + 1;
        }
        let r = DisjointSetForest {
            parent,
            size,
            count: n,
            canon: Ghost(identity_state(n as nat)),
            arep: Ghost(identity_state(n as nat)),
            lvl: Ghost(Seq::new(n as nat, |k: int| 0nat)),
        };
        proof {
            assert forall|r0: int| 0 <= r0 < n && #[trigger] r.parent@[r0] == r0 implies r.size@[r0]
                == cluster_a(n as int, r.arep@, r0).len() by {
                assert(cluster_a(n as int, r.arep@, r0) =~= Set::empty().insert(r0));
                vstd::set::axiom_set_insert_len(Set::empty(), r0);
            }
            assert(roots_a(r.parent@) =~= set_int_range(0, n as int));
            assert(roots_of(r.canon@) =~= set_int_range(0, n as int));
            lemma_int_range(0, n as int);
            assert(r.wf());
        }
        r
    }

    /// The representative of the cluster currently containing `i`; follows
    /// parent pointers until it reaches a root.
    pub fn find(&self, i: usize) -> (r: usize)
        requires
            self.wf(),
            i < self@.len(),
        ensures
            r == self.repr(i as int),
            r < self@.len(),
            self@[r as int] == self@[i as int],
    {
        let mut cur = i;
        while self.parent[cur] != cur
            invariant
                self.wf(),
                cur < self@.len(),
                self.arep@[cur as int] == self.arep@[i as int],
            decreases self.lvl@[cur as int],
        {
            cur = self.parent[cur];
        }
        proof {
            assert(self.arep@[cur as int] == cur);
            assert(self.arep@[self.arep@[i as int]] == self.arep@[i as int]);
        }
        cur
    }

    /// The number of distinct clusters.
    pub fn cluster_count(&self) -> (r: usize)
        requires
            self.wf(),
        ensures
            r == num_clusters(self@),
    {
        self.count
    }

    /// Merges the clusters containing `a` and `b`: a no-op returning
    /// `false` when they are already one cluster, otherwise the smaller
    /// cluster's root is attached beneath the larger cluster's root
    /// (union-by-size), sizes are added, and the cluster count drops by
    /// exactly one.
    pub fn union(&mut self, a: usize, b: usize) -> (merged: bool)
        requires
            old(self).wf(),
            a < old(self)@.len(),
            b < old(self)@.len(),
        ensures
            final(self).wf(),
            final(self)@ == merge_state(old(self)@, a as int, b as int),
            final(self)@.len() == old(self)@.len(),
            state_wf(final(self)@),
            merged <==> old(self)@[a as int] != old(self)@[b as int],
            num_clusters(final(self)@) == if merged {
                num_clusters(old(self)@) - 1
            } else {
                num_clusters(old(self)@) as int
            },
    {
        let ghost p0 = self.parent@;
        let ghost a0 = self.arep@;
        let ghost l0 = self.lvl@;
        let ghost c0 = self.canon@;
        let ghost n = p0.len() as int;
        let ra = self.find(a);
        let rb = self.find(b);
        proof {
            lemma_merge_state(c0, a as int, b as int);
        }
        if ra == rb {
            proof {
                assert(c0[a as int] == c0[b as int]);
            }
            return false;
        }
        proof {
            assert(c0[a as int] != c0[b as int]);
            // at least two roots stand, so the count can drop by one
            lemma_bounded_set(roots_a(p0), n);
            assert(roots_a(p0).contains(ra as int) && roots_a(p0).contains(rb as int));
            vstd::set::axiom_set_remove_len(roots_a(p0), ra as int);
            assert(roots_a(p0).remove(ra as int).contains(rb as int));
            vstd::set::axiom_set_remove_len(roots_a(p0).remove(ra as int), rb as int);
        }
        let nn = self.parent.len();
        let small_first = self.size[ra] < self.size[rb];
        let rs = if small_first {
            ra
        } else {
            rb
        };
        let rl = if small_first {
            rb
        } else {
            ra
        };
        let ssmall = self.size[rs];
        let slarge = self.size[rl];
        proof {
            // the two trees are disjoint subsets of [0, n), so the summed
            // size fits and equals the merged cluster's cardinality
            lemma_bounded_set(cluster_a(n, a0, rs as int), n);
            lemma_bounded_set(cluster_a(n, a0, rl as int), n);
            lemma_bounded_set(cluster_a(n, a0, rs as int) + cluster_a(n, a0, rl as int), n);
            assert(cluster_a(n, a0, rs as int).disjoint(cluster_a(n, a0, rl as int)));
            vstd::set_lib::lemma_set_disjoint_lens(
                cluster_a(n, a0, rs as int),
                cluster_a(n, a0, rl as int),
            );
            assert(ssmall == cluster_a(n, a0, rs as int).len());
            assert(slarge == cluster_a(n, a0, rl as int).len());
            assert(ssmall + slarge <= n <= nn <= usize::MAX);
        }
        self.parent.set(rs, rl);
        self.size.set(rl, ssmall + slarge);
        self.count = self.count - 1;
        self.arep = Ghost(
            Seq::new(n as nat, |i: int| if a0[i] == rs {
                rl as int
            } else {
                a0[i]
            }),
        );
        self.lvl = Ghost(
            Seq::new(n as nat, |i: int| if a0[i] == rs {
                (l0[i] + l0[rl as int] + 1) as nat
            } else {
                l0[i]
            }),
        );
        self.canon = Ghost(merge_state(c0, a as int, b as int));
        proof {
            let p1 = self.parent@;
            let a1 = self.arep@;
            let l1 = self.lvl@;
            let c1 = self.canon@;
            let rsi = rs as int;
            let rli = rl as int;
            assert(a0[rsi] == rsi && a0[rli] == rli);
            assert(a1[rsi] == rli && a1[rli] == rli);
            // parent chains still reach roots, with strictly dropping levels
            assert forall|i: int| 0 <= i < n implies 0 <= #[trigger] a1[i] < n && p1[a1[i]]
                == a1[i] by {
                if a0[i] == rsi {
                    assert(a1[i] == rli);
                    assert(p1[rli] == p0[rli]);
                } else {
                    assert(a1[i] == a0[i] && a0[i] != rsi);
                    assert(p1[a0[i]] == p0[a0[i]]);
                }
            }
            assert forall|i: int| 0 <= i < n && #[trigger] p1[i] == i implies a1[i] == i by {
                assert(i != rsi);
                assert(p0[i] == i);
                assert(a0[i] == i);
            }
            assert forall|i: int| 0 <= i < n && #[trigger] p1[i] != i implies a1[i] == a1[p1[i] as int]
                && l1[p1[i] as int] < l1[i] by {
                if i == rsi {
                    assert(p1[i] == rli);
                    assert(a1[rsi] == rli && a1[rli] == rli);
                    assert(l1[rli] == l0[rli]);
                    assert(l1[rsi] == l0[rsi] + l0[rli] + 1);
                } else {
                    assert(p1[i] == p0[i] && p0[i] != i);
                    assert(a0[p0[i] as int] == a0[i]);
                    assert(l0[p0[i] as int] < l0[i]);
                    if a0[i] == rsi {
                        assert(a1[i] == rli && a1[p0[i] as int] == rli);
                        assert(l1[i] == l0[i] + l0[rli] + 1);
                        assert(l1[p0[i] as int] == l0[p0[i] as int] + l0[rli] + 1);
                    } else {
                        assert(a1[i] == a0[i] && a1[p0[i] as int] == a0[i]);
                    }
                }
            }
            // the actual partition and the canonical partition still agree
            assert forall|i: int, j: int|
                #![trigger a1[i], a1[j]]
                0 <= i < n && 0 <= j < n implies (a1[i] == a1[j] <==> c1[i] == c1[j]) by {
                assert(a0[i] == a0[j] <==> c0[i] == c0[j]);
                assert(a0[i] == a0[a as int] <==> c0[i] == c0[a as int]);
                assert(a0[i] == a0[b as int] <==> c0[i] == c0[b as int]);
                assert(a0[j] == a0[a as int] <==> c0[j] == c0[a as int]);
                assert(a0[j] == a0[b as int] <==> c0[j] == c0[b as int]);
                assert(a1[i] == a1[j] <==> (a0[i] == a0[j] || (a0[i] == rsi && a0[j] == rli) || (
                a0[i] == rli && a0[j] == rsi))) by {
                    if a0[i] == rsi {
                        assert(a1[i] == rli);
                    } else {
                        assert(a1[i] == a0[i]);
                    }
                    if a0[j] == rsi {
                        assert(a1[j] == rli);
                    } else {
                        assert(a1[j] == a0[j]);
                    }
                }
                assert(c1[i] == c1[j] <==> (c0[i] == c0[j] || (c0[i] == c0[a as int] && c0[j]
                    == c0[b as int]) || (c0[i] == c0[b as int] && c0[j] == c0[a as int])));
            }
            // sizes at the surviving roots still count their trees
            assert(cluster_a(n, a1, rli) =~= cluster_a(n, a0, rsi) + cluster_a(n, a0, rli));
            assert forall|r: int| 0 <= r < n && #[trigger] p1[r] == r implies self.size@[r]
                == cluster_a(n, a1, r).len() by {
                if r == rli {
                    assert(self.size@[rli] == ssmall + slarge);
                    assert((cluster_a(n, a0, rsi) + cluster_a(n, a0, rli)).len() == ssmall
                        + slarge);
                } else {
                    assert(r != rsi && p0[r] == r);
                    assert(cluster_a(n, a1, r) =~= cluster_a(n, a0, r));
                }
            }
            // exactly one root retires on each side
            assert(roots_a(p1) =~= roots_a(p0).remove(rsi));
            assert(self.count == roots_a(p1).len());
            assert(self.count == num_clusters(c1));
            assert(self.wf());
        }
        true
    }

    /// The number of indices in the cluster currently containing `i`.
    pub fn cluster_size(&self, i: usize) -> (r: usize)
        requires
            self.wf(),
            i < self@.len(),
        ensures
            r == cluster_card(self@, i as int),
    {
        let root = self.find(i);
        proof {
            assert(self.arep@[root as int] == root);
            assert(cluster_a(self.parent@.len() as int, self.arep@, root as int) =~= cluster_of(
                self.canon@,
                i as int,
            ));
        }
        self.size[root]
    }

    /// The cluster sizes, one entry per cluster, in canonical order: each
    /// cluster is reported at its least member index.
    pub fn cluster_sizes(&self) -> (r: Vec<usize>)
        requires
            self.wf(),
        ensures
            r@ == sizes_in_order(self@, self@.len() as int),
    {
        let n = self.parent.len();
        let mut r: Vec<usize> = Vec::new();
        let mut i: usize = 0;
        while i < n
            invariant
                self.wf(),
                n == self@.len(),
                i <= n,
                r@ == sizes_in_order(self@, i as int),
            decreases n - i,
        {
            let ri = self.find(i);
            let mut j: usize = 0;
            let mut least = true;
            while j < i && least
                invariant
                    self.wf(),
                    n == self@.len(),
                    i < n,
                    j <= i,
                    ri == self.repr(i as int),
                    least <==> (forall|k: int|
                        0 <= k < j ==> #[trigger] self@[k] != self@[i as int]),
                decreases i - j,
            {
                let rj = self.find(j);
                if rj == ri {
                    proof {
                        assert(self.arep@[j as int] == self.arep@[i as int]);
                        assert(self@[j as int] == self@[i as int]);
                    }
                    least = false;
                } else {
                    proof {
                        assert(self.arep@[j as int] != self.arep@[i as int]);
                        assert(self@[j as int] != self@[i as int]);
                    }
                }
                j = j + 1;
            }
            proof {
                let s = self@;
                let ii = i as int;
                if least {
                    assert(j == i);
                    assert(0 <= s[ii] <= ii && s[s[ii]] == s[ii]);
                    if s[ii] != ii {
                        assert(s[s[ii]] == s[ii]);
                        assert(false);
                    }
                } else {
                    if s[ii] == ii {
                        let k = choose|k: int| 0 <= k < j && #[trigger] s[k] == s[ii];
                        assert(0 <= s[k] <= k);
                        assert(false);
                    }
                }
            }
            if least {
                let c = self.cluster_size(i);
                r.push(c);
                proof {
                    lemma_bounded_set(cluster_of(self@, i as int), n as int);
                    assert(r@ =~= sizes_in_order(self@, i as int) + seq![
                        cluster_card(self@, i as int) as usize,
                    ]);
                }
            } else {
                proof {
                    assert(sizes_in_order(self@, i + 1) =~= sizes_in_order(self@, i as int));
                }
            }
            i = i + 1;
        }
        r
    }
}

/// `find` is idempotent: the representative of a representative is itself.
pub proof fn lemma_find_idempotent(d: &DisjointSetForest, i: int)
    requires
        d.wf(),
        0 <= i < d@.len(),
    ensures
        d.repr(d.repr(i)) == d.repr(i),
{
}

/// Monotonicity of the cluster count: a merge attempt decreases the number
/// of clusters by exactly one when it joins two distinct clusters, and
/// leaves it unchanged when the endpoints were already joined.
pub proof fn lemma_cluster_count_monotonic(s: Seq<int>, a: int, b: int)
    requires
        state_wf(s),
        0 <= a < s.len(),
        0 <= b < s.len(),
    ensures
        num_clusters(merge_state(s, a, b)) <= num_clusters(s),
        s[a] != s[b] ==> num_clusters(merge_state(s, a, b)) == num_clusters(s) - 1,
        s[a] == s[b] ==> num_clusters(merge_state(s, a, b)) == num_clusters(s),
{
    lemma_merge_state(s, a, b);
}

/// A non-empty valid state is one cluster exactly when its count is one.
pub proof fn lemma_one_cluster_iff(s: Seq<int>)
    requires
        state_wf(s),
        s.len() > 0,
    ensures
        all_one_cluster(s) <==> num_clusters(s) == 1,
{
    if all_one_cluster(s) {
        assert(s[s[0]] == s[0]);
        assert(roots_of(s) =~= Set::empty().insert(s[0])) by {
            assert forall|r: int| #[trigger] roots_of(s).contains(r) implies r == s[0] by {
                assert(s[r] == s[0]);
            }
            assert(roots_of(s).contains(s[0]));
        }
        vstd::set::axiom_set_insert_len(Set::empty(), s[0]);
    }
    if num_clusters(s) == 1 {
        lemma_bounded_set(roots_of(s), s.len() as int);
        assert forall|i: int, j: int|
            #![trigger s[i], s[j]]
            0 <= i < s.len() && 0 <= j < s.len() implies s[i] == s[j] by {
            assert(roots_of(s).contains(s[i]) && roots_of(s).contains(s[j]));
            if s[i] != s[j] {
                vstd::set::axiom_set_remove_len(roots_of(s), s[i]);
                assert(roots_of(s).remove(s[i]).contains(s[j]));
                vstd::set::axiom_set_remove_len(roots_of(s).remove(s[i]), s[j]);
                assert(false);
            }
        }
    }
}

/// There are never more clusters than indices.
pub proof fn lemma_num_clusters_le(s: Seq<int>)
    requires
        state_wf(s),
    ensures
        num_clusters(s) <= s.len(),
{
    lemma_bounded_set(roots_of(s), s.len() as int);
}

} // verus!
