use crate::combinations::{all_pairs, combinations};
use rayon::iter::{IntoParallelIterator, ParallelIterator};
use vstd::prelude::*;

mod levenshtein;
mod osa;

pub use levenshtein::Levenshtein;
pub use osa::OSA;

verus! {

/// A partition of records into clusters of similar ones.
pub struct Cluster<'a> {
    pub(crate) records: &'a Vec<String>,
    pub(crate) clusters: Vec<Vec<usize>>,
}

/// An accepted pair joins `a` and `b`, in either order.
pub open spec fn linked(edges: Seq<(usize, usize)>, a: int, b: int) -> bool {
    exists|e: int|
        0 <= e < edges.len() && ((edges[e].0 == a && edges[e].1 == b) || (edges[e].0 == b
            && edges[e].1 == a))
}

/// A walk: consecutive positions are linked by an accepted pair.
pub open spec fn is_walk(edges: Seq<(usize, usize)>, w: Seq<int>) -> bool {
    &&& w.len() > 0
    &&& forall|k: int| 0 <= k < w.len() - 1 ==> #[trigger] linked(edges, w[k], w[k + 1])
}

/// Some walk leads from `a` to `b`.
pub open spec fn connected(edges: Seq<(usize, usize)>, a: int, b: int) -> bool {
    exists|w: Seq<int>| #[trigger] is_walk(edges, w) && w[0] == a && w.last() == b
}

/// `p` splits the positions `0..n` into non-empty, pairwise disjoint clusters,
/// each position coming exactly once.
pub open spec fn is_partition(p: Seq<Seq<usize>>, n: int) -> bool {
    &&& forall|c: int| 0 <= c < p.len() ==> #[trigger] p[c].len() > 0
    &&& forall|c: int, k: int| 0 <= c < p.len() && 0 <= k < p[c].len() ==> #[trigger] p[c][k] < n
    &&& forall|c: int, k1: int, k2: int|
        0 <= c < p.len() && 0 <= k1 < p[c].len() && 0 <= k2 < p[c].len() && k1 != k2
            ==> #[trigger] p[c][k1] != #[trigger] p[c][k2]
    &&& forall|c1: int, c2: int, k1: int, k2: int|
        0 <= c1 < p.len() && 0 <= c2 < p.len() && c1 != c2 && 0 <= k1 < p[c1].len() && 0 <= k2
            < p[c2].len() ==> #[trigger] p[c1][k1] != #[trigger] p[c2][k2]
    &&& forall|i: int| 0 <= i < n ==> #[trigger] in_some_cluster(p, i)
}

pub open spec fn in_some_cluster(p: Seq<Seq<usize>>, i: int) -> bool {
    exists|c: int, k: int| 0 <= c < p.len() && 0 <= k < p[c].len() && p[c][k] == i
}

pub open spec fn in_cluster(p: Seq<Seq<usize>>, c: int, i: int) -> bool {
    exists|k: int| 0 <= k < p[c].len() && p[c][k] == i
}

/// Positions `i` and `j` lie in one cluster of `p`.
pub open spec fn same_cluster(p: Seq<Seq<usize>>, i: int, j: int) -> bool {
    exists|c: int| 0 <= c < p.len() && #[trigger] in_cluster(p, c, i) && in_cluster(p, c, j)
}

/// Every accepted pair names two positions below `n`.
pub open spec fn edges_within(edges: Seq<(usize, usize)>, n: int) -> bool {
    forall|e: int| 0 <= e < edges.len() ==> #[trigger] edges[e].0 < n && edges[e].1 < n
}

/// `p` is the partition of `0..n` into the connected components of the
/// graph whose edges are the accepted pairs: a partition in which the members
/// of a cluster are connected, and the two ends of each accepted pair share a
/// cluster.
pub open spec fn is_components(p: Seq<Seq<usize>>, n: int, edges: Seq<(usize, usize)>) -> bool {
    &&& is_partition(p, n)
    &&& forall|c: int, k1: int, k2: int|
        0 <= c < p.len() && 0 <= k1 < p[c].len() && 0 <= k2 < p[c].len() ==> connected(
            edges,
            #[trigger] p[c][k1] as int,
            #[trigger] p[c][k2] as int,
        )
    &&& forall|e: int|
        0 <= e < edges.len() ==> same_cluster(p, #[trigger] edges[e].0 as int, edges[e].1 as int)
}

pub proof fn lemma_connected_refl(edges: Seq<(usize, usize)>, a: int)
    ensures
        connected(edges, a, a),
{
    let w = seq![a];
    assert(is_walk(edges, w));
}

pub proof fn lemma_connected_edge(edges: Seq<(usize, usize)>, a: int, b: int)
    requires
        linked(edges, a, b),
    ensures
        connected(edges, a, b),
{
    let w = seq![a, b];
    assert(w[0] == a && w[1] == b);
    assert(is_walk(edges, w));
}

pub proof fn lemma_connected_trans(edges: Seq<(usize, usize)>, a: int, b: int, c: int)
    requires
        connected(edges, a, b),
        connected(edges, b, c),
    ensures
        connected(edges, a, c),
{
    let w1 = choose|w: Seq<int>| #[trigger] is_walk(edges, w) && w[0] == a && w.last() == b;
    let w2 = choose|w: Seq<int>| #[trigger] is_walk(edges, w) && w[0] == b && w.last() == c;
    let w = w1 + w2.drop_first();
    assert forall|k: int| 0 <= k < w.len() - 1 implies #[trigger] linked(edges, w[k], w[k + 1]) by {
        if k < w1.len() - 1 {
            assert(linked(edges, w1[k], w1[k + 1]));
        } else if k == w1.len() - 1 {
            assert(w[k] == w2[0]);
            assert(w[k + 1] == w2[1]);
            assert(linked(edges, w2[0], w2[1]));
        } else {
            let j = k - w1.len() + 1;
            assert(w[k] == w2[j]);
            assert(w[k + 1] == w2[j + 1]);
            assert(linked(edges, w2[j], w2[j + 1]));
        }
    }
    assert(is_walk(edges, w));
    if w2.len() == 1 {
        assert(w.last() == w1.last());
    } else {
        assert(w.last() == w2.last());
    }
}

pub proof fn lemma_connected_sym(edges: Seq<(usize, usize)>, a: int, b: int)
    requires
        connected(edges, a, b),
    ensures
        connected(edges, b, a),
{
    let w = choose|w: Seq<int>| #[trigger] is_walk(edges, w) && w[0] == a && w.last() == b;
    let n = w.len() as int;
    let r = Seq::new(w.len(), |k: int| w[n - 1 - k]);
    assert forall|k: int| 0 <= k < r.len() - 1 implies #[trigger] linked(edges, r[k], r[k + 1]) by {
        let j = n - 2 - k;
        assert(linked(edges, w[j], w[j + 1]));
    }
    assert(is_walk(edges, r));
}

/// A walk over some accepted pairs is a walk over any larger set of them.
pub proof fn lemma_connected_mono(
    small: Seq<(usize, usize)>,
    large: Seq<(usize, usize)>,
    a: int,
    b: int,
)
    requires
        connected(small, a, b),
        forall|x: int, y: int| linked(small, x, y) ==> linked(large, x, y),
    ensures
        connected(large, a, b),
{
    let w = choose|w: Seq<int>| #[trigger] is_walk(small, w) && w[0] == a && w.last() == b;
    assert forall|k: int| 0 <= k < w.len() - 1 implies #[trigger] linked(large, w[k], w[k + 1]) by {
        assert(linked(small, w[k], w[k + 1]));
    }
    assert(is_walk(large, w));
}

proof fn lemma_same_cluster_trans(p: Seq<Seq<usize>>, n: int, i: int, j: int, l: int)
    requires
        is_partition(p, n),
        same_cluster(p, i, j),
        same_cluster(p, j, l),
    ensures
        same_cluster(p, i, l),
{
    let c1 = choose|c: int| 0 <= c < p.len() && #[trigger] in_cluster(p, c, i) && in_cluster(p, c, j);
    let c2 = choose|c: int| 0 <= c < p.len() && #[trigger] in_cluster(p, c, j) && in_cluster(p, c, l);
    let k1 = choose|k: int| 0 <= k < p[c1].len() && p[c1][k] == j;
    let k2 = choose|k: int| 0 <= k < p[c2].len() && p[c2][k] == j;
    if c1 != c2 {
        assert(p[c1][k1] != p[c2][k2]);
    }
    assert(in_cluster(p, c1, i) && in_cluster(p, c1, l));
}

/// In the components of a graph, positions that a walk connects share a cluster.
pub proof fn lemma_connected_same_cluster(
    p: Seq<Seq<usize>>,
    n: int,
    edges: Seq<(usize, usize)>,
    a: int,
    b: int,
)
    requires
        is_components(p, n, edges),
        0 <= a < n,
        connected(edges, a, b),
    ensures
        same_cluster(p, a, b),
{
    let w = choose|w: Seq<int>| #[trigger] is_walk(edges, w) && w[0] == a && w.last() == b;
    lemma_walk_same_cluster(p, n, edges, w);
}

proof fn lemma_walk_same_cluster(p: Seq<Seq<usize>>, n: int, edges: Seq<(usize, usize)>, w: Seq<int>)
    requires
        is_components(p, n, edges),
        is_walk(edges, w),
        0 <= w[0] < n,
    ensures
        same_cluster(p, w[0], w.last()),
    decreases w.len(),
{
    if w.len() == 1 {
        assert(in_some_cluster(p, w[0]));
        let (c, k) = choose|c: int, k: int| 0 <= c < p.len() && 0 <= k < p[c].len() && p[c][k] == w[0];
        assert(in_cluster(p, c, w[0]));
    } else {
        let v = w.drop_last();
        assert forall|k: int| 0 <= k < v.len() - 1 implies #[trigger] linked(edges, v[k], v[k + 1]) by {
            assert(linked(edges, w[k], w[k + 1]));
        }
        lemma_walk_same_cluster(p, n, edges, v);
        let j = w.len() - 2;
        let x = w[j];
        assert(linked(edges, w[j], w[j + 1]));
        assert(w[j + 1] == w.last());
        let e = choose|e: int|
            0 <= e < edges.len() && ((edges[e].0 == x && edges[e].1 == w.last()) || (edges[e].0
                == w.last() && edges[e].1 == x));
        assert(same_cluster(p, edges[e].0 as int, edges[e].1 as int));
        if edges[e].0 != x {
            let c = choose|c: int|
                0 <= c < p.len() && #[trigger] in_cluster(p, c, edges[e].0 as int) && in_cluster(
                    p,
                    c,
                    edges[e].1 as int,
                );
            assert(same_cluster(p, x, w.last()));
        }
        lemma_same_cluster_trans(p, n, w[0], x, w.last());
    }
}

proof fn lemma_prefix_linked(edges: Seq<(usize, usize)>, k1: int, k2: int)
    requires
        0 <= k1 <= k2 <= edges.len(),
    ensures
        forall|x: int, y: int|
            linked(edges.take(k1), x, y) ==> #[trigger] linked(edges.take(k2), x, y),
{
    assert forall|x: int, y: int| linked(edges.take(k1), x, y) implies #[trigger] linked(
        edges.take(k2),
        x,
        y,
    ) by {
        let e = choose|e: int|
            0 <= e < edges.take(k1).len() && ((edges.take(k1)[e].0 == x && edges.take(k1)[e].1
                == y) || (edges.take(k1)[e].0 == y && edges.take(k1)[e].1 == x));
        assert(edges.take(k2)[e] == edges.take(k1)[e]);
    }
}

/// Each label names a position of its class that carries that label itself.
spec fn labels_ok(l: Seq<usize>, n: int) -> bool {
    &&& l.len() == n
    &&& forall|i: int| 0 <= i < n ==> #[trigger] l[i] < n && l[l[i] as int] == l[i]
}

/// Positions with one label are connected.
spec fn labels_sound(l: Seq<usize>, edges: Seq<(usize, usize)>) -> bool {
    forall|i: int, j: int|
        0 <= i < l.len() && 0 <= j < l.len() && #[trigger] l[i] == #[trigger] l[j] ==> connected(
            edges,
            i,
            j,
        )
}

/// The two ends of each accepted pair carry one label.
spec fn labels_closed(l: Seq<usize>, edges: Seq<(usize, usize)>) -> bool {
    forall|e: int| 0 <= e < edges.len() ==> l[#[trigger] edges[e].0 as int] == l[edges[e].1 as int]
}

/// Moves every position labelled `from` to the label `to`, joining two clusters.
fn merge_clusters(labels: &mut Vec<usize>, from: usize, to: usize)
    ensures
        final(labels)@.len() == old(labels)@.len(),
        forall|x: int|
            0 <= x < old(labels)@.len() ==> #[trigger] final(labels)@[x] == if old(labels)@[x]
                == from {
                to
            } else {
                old(labels)@[x]
            },
{
    let n = labels.len();
    let mut i: usize = 0;
    while i < n
        invariant
            labels@.len() == n == old(labels)@.len(),
            i <= n,
            forall|x: int|
                0 <= x < n ==> #[trigger] labels@[x] == if x < i && old(labels)@[x] == from {
                    to
                } else {
                    old(labels)@[x]
                },
        decreases n - i,
    {
        if labels[i] == from {
            labels.set(i, to);
        }
        i = i + 1;
    }
}

/// Gathers the positions of each label into one cluster, in increasing order
/// of label and, within a cluster, of position.
fn group_by_label(labels: &Vec<usize>) -> (r: Vec<Vec<usize>>)
    requires
        labels_ok(labels@, labels@.len() as int),
    ensures
        is_partition(r@.map_values(|v: Vec<usize>| v@), labels@.len() as int),
        forall|c: int, k1: int, k2: int|
            0 <= c < r@.len() && 0 <= k1 < r@[c]@.len() && 0 <= k2 < r@[c]@.len() ==> labels@[#[trigger] r@[c]@[k1] as int]
                == labels@[#[trigger] r@[c]@[k2] as int],
        forall|c1: int, c2: int, k1: int, k2: int|
            0 <= c1 < r@.len() && 0 <= c2 < r@.len() && 0 <= k1 < r@[c1]@.len() && 0 <= k2
                < r@[c2]@.len() && labels@[#[trigger] r@[c1]@[k1] as int]
                == labels@[#[trigger] r@[c2]@[k2] as int] ==> c1 == c2,
{
    let n = labels.len();
    let ghost l = labels@;
    let mut out: Vec<Vec<usize>> = Vec::new();
    let ghost mut reps: Seq<usize> = Seq::empty();
    let mut r: usize = 0;
    while r < n
        invariant
            n == l.len(),
            l == labels@,
            labels_ok(l, n as int),
            r <= n,
            reps.len() == out@.len(),
            forall|c: int| 0 <= c < reps.len() ==> #[trigger] reps[c] < r,
            forall|c1: int, c2: int| 0 <= c1 < c2 < reps.len() ==> #[trigger] reps[c1] < #[trigger] reps[c2],
            forall|c: int| 0 <= c < out@.len() ==> #[trigger] out@[c]@.len() > 0,
            forall|c: int, k: int|
                0 <= c < out@.len() && 0 <= k < out@[c]@.len() ==> #[trigger] out@[c]@[k] < n
                    && l[out@[c]@[k] as int] == reps[c],
            forall|c: int, k1: int, k2: int|
                0 <= c < out@.len() && 0 <= k1 < k2 < out@[c]@.len() ==> #[trigger] out@[c]@[k1]
                    < #[trigger] out@[c]@[k2],
            forall|i: int|
                0 <= i < n && l[i] < r ==> exists|c: int, k: int|
                    0 <= c < out@.len() && 0 <= k < out@[c]@.len() && #[trigger] out@[c]@[k] == i,
        decreases n - r,
    {
        if labels[r] == r {
            let mut cur: Vec<usize> = Vec::new();
            let mut i: usize = 0;
            while i < n
                invariant
                    n == l.len(),
                    l == labels@,
                    labels_ok(l, n as int),
                    r < n,
                    l[r as int] == r,
                    i <= n,
                    forall|k: int| 0 <= k < cur@.len() ==> #[trigger] cur@[k] < i && l[cur@[k] as int] == r,
                    forall|k1: int, k2: int| 0 <= k1 < k2 < cur@.len() ==> #[trigger] cur@[k1] < #[trigger] cur@[k2],
                    forall|j: usize| j < i && l[j as int] == r ==> #[trigger] cur@.contains(j),
                decreases n - i,
            {
                if labels[i] == r {
                    let ghost prev = cur@;
                    cur.push(i);
                    proof {
                        assert(cur@[cur@.len() - 1] == i);
                        assert forall|j: usize| j < i + 1 && l[j as int] == r implies #[trigger] cur@.contains(j) by {
                            if j < i {
                                assert(prev.contains(j));
                                let k = choose|k: int| 0 <= k < prev.len() && prev[k] == j;
                                assert(cur@[k] == j);
                            } else {
                                assert(cur@[cur@.len() - 1] == j);
                            }
                        }
                    }
                }
                i = i + 1;
            }
            proof {
                assert(cur@.contains(r));
            }
            let ghost before = out@;
            out.push(cur);
            proof {
                reps = reps.push(r);
                assert forall|j: int| 0 <= j < n && l[j] < r + 1 implies exists|c: int, k: int|
                    0 <= c < out@.len() && 0 <= k < out@[c]@.len() && #[trigger] out@[c]@[k] == j by {
                    if l[j] < r {
                        let (c, k) = choose|c: int, k: int|
                            0 <= c < before.len() && 0 <= k < before[c]@.len() && #[trigger] before[c]@[k] == j;
                        assert(out@[c] == before[c]);
                    } else {
                        let last = out@.len() - 1;
                        assert(out@[last]@.contains(j as usize));
                        let k = choose|k: int| 0 <= k < out@[last]@.len() && out@[last]@[k] == j as usize;
                        assert(out@[last]@[k] == j);
                    }
                }
            }
        } else {
            proof {
                assert forall|j: int| 0 <= j < n && l[j] < r + 1 implies exists|c: int, k: int|
                    0 <= c < out@.len() && 0 <= k < out@[c]@.len() && #[trigger] out@[c]@[k] == j by {
                    if l[j] == r {
                        assert(l[l[j] as int] == l[j]);
                    }
                }
            }
        }
        r = r + 1;
    }
    let ghost p = out@.map_values(|v: Vec<usize>| v@);
    proof {
        assert forall|c: int, k1: int, k2: int|
            0 <= c < p.len() && 0 <= k1 < p[c].len() && 0 <= k2 < p[c].len() && k1 != k2
                implies #[trigger] p[c][k1] != #[trigger] p[c][k2] by {
            if k1 < k2 {
                assert(out@[c]@[k1] < out@[c]@[k2]);
            } else {
                assert(out@[c]@[k2] < out@[c]@[k1]);
            }
        }
        assert forall|c1: int, c2: int, k1: int, k2: int|
            0 <= c1 < out@.len() && 0 <= c2 < out@.len() && 0 <= k1 < out@[c1]@.len() && 0 <= k2
                < out@[c2]@.len() && l[#[trigger] out@[c1]@[k1] as int]
                == l[#[trigger] out@[c2]@[k2] as int] implies c1 == c2 by {
            if c1 < c2 {
                assert(reps[c1] < reps[c2]);
            } else if c2 < c1 {
                assert(reps[c2] < reps[c1]);
            }
        }
        assert forall|i: int| 0 <= i < n implies #[trigger] in_some_cluster(p, i) by {
            assert(l[i] < n);
            let (c, k) = choose|c: int, k: int|
                0 <= c < out@.len() && 0 <= k < out@[c]@.len() && #[trigger] out@[c]@[k] == i;
            assert(p[c][k] == i);
        }
    }
    out
}

impl<'a> Cluster<'a> {
    /// The records that the clusters hold by position.
    pub closed spec fn records(&self) -> Seq<String> {
        self.records@
    }

    /// The clusters, each a sequence of record positions.
    pub closed spec fn parts(&self) -> Seq<Seq<usize>> {
        self.clusters@.map_values(|v: Vec<usize>| v@)
    }

    /// The clusters, each a list of record positions.
    pub fn groups(&self) -> (r: &Vec<Vec<usize>>)
        ensures
            r@.len() == self.parts().len(),
            forall|c: int| 0 <= c < r@.len() ==> #[trigger] r@[c]@ == self.parts()[c],
    {
        &self.clusters
    }

    pub(crate) proof fn lemma_view(&self)
        ensures
            self.parts().len() == self.clusters@.len(),
            forall|x: int| 0 <= x < self.clusters@.len() ==> #[trigger] self.parts()[x] == self.clusters@[x]@,
            self.records() == self.records@,
    {
    }

    /// Builds the clusters of `records` that the accepted `pairs` of positions
    /// define: the connected components of the graph of accepted pairs, where
    /// a record that no pair names forms a cluster of its own.
    ///
    /// Each record starts with its own label; an accepted pair whose ends carry
    /// two labels moves one class onto the other. A merge costs one pass over
    /// the labels and there are fewer merges than records, so the whole stays
    /// within the quadratic cost of judging every pair.
    pub fn pairwise(records: &'a Vec<String>, pairs: &Vec<(usize, usize)>) -> (r: Cluster<'a>)
        requires
            edges_within(pairs@, records@.len() as int),
        ensures
            r.records() == records@,
            is_components(r.parts(), records@.len() as int, pairs@),
    {
        let n = records.len();
        let mut labels: Vec<usize> = Vec::new();
        let mut i: usize = 0;
        while i < n
            invariant
                i <= n,
                labels@.len() == i,
                forall|x: int| 0 <= x < i ==> #[trigger] labels@[x] == x,
            decreases n - i,
        {
            labels.push(i);
            i = i + 1;
        }
        proof {
            assert forall|x: int, y: int|
                0 <= x < labels@.len() && 0 <= y < labels@.len() && #[trigger] labels@[x]
                    == #[trigger] labels@[y] implies connected(pairs@.take(0), x, y) by {
                lemma_connected_refl(pairs@.take(0), x);
            }
        }
        let mut k: usize = 0;
        while k < pairs.len()
            invariant
                n == records@.len(),
                k <= pairs@.len(),
                edges_within(pairs@, n as int),
                labels_ok(labels@, n as int),
                labels_sound(labels@, pairs@.take(k as int)),
                labels_closed(labels@, pairs@.take(k as int)),
            decreases pairs@.len() - k,
        {
            let (a, b) = pairs[k];
            let la = labels[a];
            let lb = labels[b];
            let ghost old_l = labels@;
            let ghost small = pairs@.take(k as int);
            let ghost large = pairs@.take(k + 1);
            proof {
                lemma_prefix_linked(pairs@, k as int, k + 1);
                assert(large[k as int] == (a, b));
                assert(linked(large, a as int, b as int));
                lemma_connected_edge(large, a as int, b as int);
            }
            if la != lb {
                merge_clusters(&mut labels, lb, la);
            }
            proof {
                let l = labels@;
                assert forall|x: int| 0 <= x < n implies #[trigger] l[x] < n && l[l[x] as int] == l[x] by {
                    assert(old_l[old_l[x] as int] == old_l[x]);
                    assert(old_l[la as int] == la);
                }
                assert forall|x: int, y: int|
                    0 <= x < l.len() && 0 <= y < l.len() && #[trigger] l[x] == #[trigger] l[y]
                        implies connected(large, x, y) by {
                    if old_l[x] == old_l[y] {
                        lemma_connected_mono(small, large, x, y);
                    } else if old_l[x] == lb {
                        assert(old_l[b as int] == lb);
                        lemma_connected_mono(small, large, x, b as int);
                        assert(old_l[y] == la);
                        lemma_connected_mono(small, large, a as int, y);
                        lemma_connected_sym(large, a as int, b as int);
                        lemma_connected_trans(large, x, b as int, a as int);
                        lemma_connected_trans(large, x, a as int, y);
                    } else {
                        assert(old_l[y] == lb && old_l[x] == la);
                        lemma_connected_mono(small, large, x, a as int);
                        lemma_connected_mono(small, large, b as int, y);
                        lemma_connected_trans(large, x, a as int, b as int);
                        lemma_connected_trans(large, x, b as int, y);
                    }
                }
                assert forall|e: int| 0 <= e < large.len() implies l[#[trigger] large[e].0 as int]
                    == l[large[e].1 as int] by {
                    if e < k {
                        assert(large[e] == small[e]);
                        assert(old_l[small[e].0 as int] == old_l[small[e].1 as int]);
                    }
                }
            }
            k = k + 1;
        }
        let clusters = group_by_label(&labels);
        proof {
            let l = labels@;
            let p = clusters@.map_values(|v: Vec<usize>| v@);
            assert(pairs@.take(pairs@.len() as int) =~= pairs@);
            assert forall|c: int, k1: int, k2: int|
                0 <= c < p.len() && 0 <= k1 < p[c].len() && 0 <= k2 < p[c].len() implies connected(
                    pairs@,
                    #[trigger] p[c][k1] as int,
                    #[trigger] p[c][k2] as int,
                ) by {
                assert(l[clusters@[c]@[k1] as int] == l[clusters@[c]@[k2] as int]);
            }
            assert forall|e: int| 0 <= e < pairs@.len() implies same_cluster(
                p,
                #[trigger] pairs@[e].0 as int,
                pairs@[e].1 as int,
            ) by {
                let x = pairs@[e].0 as int;
                let y = pairs@[e].1 as int;
                assert(in_some_cluster(p, x));
                assert(in_some_cluster(p, y));
                let (c1, k1) = choose|c: int, k: int| 0 <= c < p.len() && 0 <= k < p[c].len() && p[c][k] == x;
                let (c2, k2) = choose|c: int, k: int| 0 <= c < p.len() && 0 <= k < p[c].len() && p[c][k] == y;
                assert(l[clusters@[c1]@[k1] as int] == l[clusters@[c2]@[k2] as int]);
                assert(in_cluster(p, c1, x));
                assert(in_cluster(p, c1, y));
            }
        }
        Cluster { records, clusters }
    }
}

proof fn lemma_one_cluster_each(p: Seq<Seq<usize>>, n: int, c1: int, c2: int, x: int)
    requires
        is_partition(p, n),
        0 <= c1 < p.len(),
        0 <= c2 < p.len(),
        in_cluster(p, c1, x),
        in_cluster(p, c2, x),
    ensures
        c1 == c2,
{
    let k1 = choose|k: int| 0 <= k < p[c1].len() && p[c1][k] == x;
    let k2 = choose|k: int| 0 <= k < p[c2].len() && p[c2][k] == x;
    if c1 != c2 {
        assert(p[c1][k1] != p[c2][k2]);
    }
}

/// Where `(a, b)` and `(b, c)` are accepted pairs, `a`, `b` and `c` lie in one
/// cluster, whether or not `(a, c)` was accepted.
pub proof fn lemma_transitive_closure(
    p: Seq<Seq<usize>>,
    n: int,
    edges: Seq<(usize, usize)>,
    a: int,
    b: int,
    c: int,
)
    requires
        edges_within(edges, n),
        is_components(p, n, edges),
        linked(edges, a, b),
        linked(edges, b, c),
    ensures
        exists|x: int|
            0 <= x < p.len() && in_cluster(p, x, a) && in_cluster(p, x, b) && in_cluster(p, x, c),
{
    let e = choose|e: int|
        0 <= e < edges.len() && ((edges[e].0 == a && edges[e].1 == b) || (edges[e].0 == b
            && edges[e].1 == a));
    assert(edges[e].0 < n && edges[e].1 < n);
    lemma_connected_edge(edges, a, b);
    lemma_connected_edge(edges, b, c);
    lemma_connected_same_cluster(p, n, edges, a, b);
    lemma_connected_same_cluster(p, n, edges, b, c);
    let x1 = choose|x: int| 0 <= x < p.len() && #[trigger] in_cluster(p, x, a) && in_cluster(p, x, b);
    let x2 = choose|x: int| 0 <= x < p.len() && #[trigger] in_cluster(p, x, b) && in_cluster(p, x, c);
    lemma_one_cluster_each(p, n, x1, x2, b);
    assert(in_cluster(p, x1, a) && in_cluster(p, x1, b) && in_cluster(p, x1, c));
}

/// A position that no accepted pair names is a cluster of its own.
pub proof fn lemma_singleton(p: Seq<Seq<usize>>, n: int, edges: Seq<(usize, usize)>, i: int)
    requires
        is_components(p, n, edges),
        0 <= i < n,
        forall|e: int| 0 <= e < edges.len() ==> #[trigger] edges[e].0 != i && edges[e].1 != i,
    ensures
        exists|c: int| 0 <= c < p.len() && p[c] == seq![i as usize],
{
    assert(in_some_cluster(p, i));
    let (c, k) = choose|c: int, k: int| 0 <= c < p.len() && 0 <= k < p[c].len() && p[c][k] == i;
    assert forall|k2: int| 0 <= k2 < p[c].len() implies p[c][k2] == i by {
        assert(connected(edges, p[c][k] as int, p[c][k2] as int));
        let w = choose|w: Seq<int>|
            #[trigger] is_walk(edges, w) && w[0] == i && w.last() == p[c][k2] as int;
        if w.len() > 1 {
            let k0: int = 0;
            assert(linked(edges, w[k0], w[k0 + 1]));
            assert(w[k0 + 1] == w[1]);
            let e = choose|e: int|
                0 <= e < edges.len() && ((edges[e].0 == w[0] && edges[e].1 == w[1]) || (
                edges[e].0 == w[1] && edges[e].1 == w[0]));
            assert(edges[e].0 != i && edges[e].1 != i);
        }
    }
    if p[c].len() > 1 {
        let j = if k == 0 { 1int } else { 0int };
        assert(p[c][j] == i);
        assert(p[c][k] != p[c][j]);
    }
    assert(p[c] =~= seq![i as usize]);
}

/// The clusters of `p`, each as a set of positions.
pub open spec fn cluster_sets(p: Seq<Seq<usize>>) -> Set<Set<usize>> {
    Set::new(|s: Set<usize>| exists|c: int| 0 <= c < p.len() && #[trigger] p[c].to_set() == s)
}

proof fn lemma_components_included(
    p1: Seq<Seq<usize>>,
    p2: Seq<Seq<usize>>,
    n: int,
    edges: Seq<(usize, usize)>,
)
    requires
        is_components(p1, n, edges),
        is_components(p2, n, edges),
    ensures
        cluster_sets(p1).subset_of(cluster_sets(p2)),
{
    assert forall|s: Set<usize>| cluster_sets(p1).contains(s) implies cluster_sets(p2).contains(s) by {
        let c1 = choose|c: int| 0 <= c < p1.len() && #[trigger] p1[c].to_set() == s;
        let x = p1[c1][0] as int;
        assert(p1[c1][0] < n);
        assert(in_some_cluster(p2, x));
        let (c2, k2) = choose|c: int, k: int| 0 <= c < p2.len() && 0 <= k < p2[c].len() && p2[c][k] == x;
        assert(in_cluster(p2, c2, x));
        assert forall|y: usize| #[trigger] p1[c1].to_set().contains(y) <==> p2[c2].to_set().contains(y) by {
            if p1[c1].to_set().contains(y) {
                let k = choose|k: int| 0 <= k < p1[c1].len() && p1[c1][k] == y;
                assert(connected(edges, p1[c1][0] as int, p1[c1][k] as int));
                lemma_connected_same_cluster(p2, n, edges, x, y as int);
                let c = choose|c: int| 0 <= c < p2.len() && #[trigger] in_cluster(p2, c, x) && in_cluster(p2, c, y as int);
                lemma_one_cluster_each(p2, n, c, c2, x);
                let k3 = choose|k: int| 0 <= k < p2[c2].len() && p2[c2][k] == y as int;
                assert(p2[c2][k3] == y);
            }
            if p2[c2].to_set().contains(y) {
                let k = choose|k: int| 0 <= k < p2[c2].len() && p2[c2][k] == y;
                assert(connected(edges, p2[c2][k2] as int, p2[c2][k] as int));
                lemma_connected_same_cluster(p1, n, edges, x, y as int);
                let c = choose|c: int| 0 <= c < p1.len() && #[trigger] in_cluster(p1, c, x) && in_cluster(p1, c, y as int);
                assert(in_cluster(p1, c1, x));
                lemma_one_cluster_each(p1, n, c, c1, x);
                let k3 = choose|k: int| 0 <= k < p1[c1].len() && p1[c1][k] == y as int;
                assert(p1[c1][k3] == y);
            }
        }
        assert(p1[c1].to_set() =~= p2[c2].to_set());
    }
}

/// Two partitions into the components of one graph hold the same clusters,
/// whatever their order: the clusters are a function of the positions and the
/// accepted pairs alone.
pub proof fn lemma_components_unique(
    p1: Seq<Seq<usize>>,
    p2: Seq<Seq<usize>>,
    n: int,
    edges: Seq<(usize, usize)>,
)
    requires
        is_components(p1, n, edges),
        is_components(p2, n, edges),
    ensures
        cluster_sets(p1) == cluster_sets(p2),
{
    lemma_components_included(p1, p2, n, edges);
    lemma_components_included(p2, p1, n, edges);
    assert(cluster_sets(p1) =~= cluster_sets(p2));
}

/// The position pairs `(i, j)`, `i < j`, whose records `algo` accepts, in
/// lexicographic order.
pub open spec fn accepted_pairs<A: ClusterAlgo>(algo: &A, lines: Seq<String>) -> Seq<(usize, usize)> {
    all_pairs(lines.len() as int).map_values(|p: (int, int)| (p.0 as usize, p.1 as usize)).filter(
        |p: (usize, usize)| accepts_at(algo, lines, p),
    )
}

/// Both positions name a record, and `algo` accepts the two records.
pub open spec fn accepts_at<A: ClusterAlgo>(algo: &A, lines: Seq<String>, p: (usize, usize)) -> bool {
    p.0 < lines.len() && p.1 < lines.len() && algo.accepts(lines[p.0 as int]@, lines[p.1 as int]@)
}

/// Relies on rayon: `filter` on the parallel iterator of a `Vec`, collected
/// into a `Vec`, keeps the items that pass, in their order.
#[verifier::external_body]
fn par_accepted<A: ClusterAlgo>(algo: &A, lines: &Vec<String>, pairs: Vec<(usize, usize)>) -> (r: Vec<
    (usize, usize),
>)
    ensures
        r@ == pairs@.filter(|p: (usize, usize)| accepts_at(algo, lines@, p)),
{
    pairs.into_par_iter().filter(|p| accept_pair(algo, lines, *p)).collect()
}

/// A similarity judgment on records: pure, deterministic and symmetric.
pub trait ClusterAlgo: Sized + Sync {
    spec fn accepts(&self, first: Seq<char>, second: Seq<char>) -> bool;

    fn accept(&self, first: &String, second: &String) -> (r: bool)
        ensures
            r == self.accepts(first@, second@),
    ;
}

/// Judges the records at the two positions of `pair`; a position past
/// the end is never accepted.
fn accept_pair<A: ClusterAlgo>(algo: &A, lines: &Vec<String>, pair: (usize, usize)) -> (r: bool)
    ensures
        r == accepts_at(algo, lines@, pair),
{
    if pair.0 < lines.len() && pair.1 < lines.len() {
        algo.accept(&lines[pair.0], &lines[pair.1])
    } else {
        false
    }
}

/// Judges every pair of records, in parallel, and clusters the records
/// by the accepted pairs.
pub fn cluster<'a, A: ClusterAlgo>(algo: &A, lines: &'a Vec<String>) -> (r: Cluster<'a>)
    ensures
        r.records() == lines@,
        is_components(r.parts(), lines@.len() as int, accepted_pairs(algo, lines@)),
{
    let pairs = combinations(lines.as_slice()).index_pairs();
    let ghost all = all_pairs(lines@.len() as int).map_values(
        |p: (int, int)| (p.0 as usize, p.1 as usize),
    );
    proof {
        assert(pairs@ =~= all);
    }
    let accepted = par_accepted(algo, lines, pairs);
    proof {
        broadcast use Seq::lemma_filter_pred;

        assert forall|e: int| 0 <= e < accepted@.len() implies #[trigger] accepted@[e].0
            < lines@.len() && accepted@[e].1 < lines@.len() by {
            assert(accepts_at(algo, lines@, accepted@[e]));
        }
    }
    Cluster::pairwise(lines, &accepted)
}

} // verus!
