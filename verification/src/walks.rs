//! Walks in a graph given by its list of edges, and their weights.
//!
//! A walk is a sequence of edge indices in which each edge starts where the
//! one before it ends. Naming edges rather than nodes keeps the weight of a
//! walk unambiguous where two edges join the same pair.

use crate::store::{Edge, NodeId};
use vstd::prelude::*;
use vstd::set_lib::{lemma_int_range, lemma_len_subset, set_int_range};

verus! {

/// Whether `w` leads from `a` to `b` along edges of the graph. The empty walk
/// leads from every node to itself.
pub open spec fn is_walk(edges: Seq<Edge>, w: Seq<int>, a: NodeId, b: NodeId) -> bool
    decreases w.len(),
{
    if w.len() == 0 {
        a == b
    } else {
        &&& 0 <= w.last() < edges.len()
        &&& edges[w.last()].to == b
        &&& is_walk(edges, w.drop_last(), a, edges[w.last()].from)
    }
}

/// The sum of the weights of the edges of `w`.
pub open spec fn walk_weight(edges: Seq<Edge>, w: Seq<int>) -> int
    decreases w.len(),
{
    if w.len() == 0 {
        0
    } else {
        walk_weight(edges, w.drop_last()) + edges[w.last()].weight
    }
}

/// Whether some walk leads from `a` to `b`.
pub open spec fn reachable(edges: Seq<Edge>, a: NodeId, b: NodeId) -> bool {
    exists|w: Seq<int>| is_walk(edges, w, a, b)
}

/// Whether `w` is a cycle through `at` whose weights sum to less than zero.
pub open spec fn is_negative_cycle(edges: Seq<Edge>, w: Seq<int>, at: NodeId) -> bool {
    w.len() > 0 && is_walk(edges, w, at, at) && walk_weight(edges, w) < 0
}

/// Whether the graph has a negative cycle through a node that can be reached
/// from `source`.
pub open spec fn negative_cycle_reachable(edges: Seq<Edge>, source: NodeId) -> bool {
    exists|w: Seq<int>, at: NodeId|
        reachable(edges, source, at) && #[trigger] is_negative_cycle(edges, w, at)
}

/// The node that a walk from `a` stands on after `i` edges.
pub open spec fn node_at(edges: Seq<Edge>, w: Seq<int>, a: NodeId, i: int) -> NodeId {
    if i == 0 {
        a
    } else {
        edges[w[i - 1]].to
    }
}

/// Two walks that meet give one walk, and their weights add up.
pub proof fn lemma_walk_concat(
    edges: Seq<Edge>,
    v: Seq<int>,
    w: Seq<int>,
    a: NodeId,
    b: NodeId,
    c: NodeId,
)
    requires
        is_walk(edges, v, a, b),
        is_walk(edges, w, b, c),
    ensures
        is_walk(edges, v + w, a, c),
        walk_weight(edges, v + w) == walk_weight(edges, v) + walk_weight(edges, w),
    decreases w.len(),
{
    if w.len() == 0 {
        assert(v + w =~= v);
    } else {
        lemma_walk_concat(edges, v, w.drop_last(), a, b, edges[w.last()].from);
        assert((v + w).drop_last() =~= v + w.drop_last());
        assert((v + w).last() == w.last());
    }
}

/// A walk cut after `i` edges gives two walks that meet where it was cut,
/// and their weights add up to its own.
pub proof fn lemma_walk_split(edges: Seq<Edge>, w: Seq<int>, a: NodeId, b: NodeId, i: int)
    requires
        is_walk(edges, w, a, b),
        0 <= i <= w.len(),
    ensures
        is_walk(edges, w.take(i), a, node_at(edges, w, a, i)),
        is_walk(edges, w.skip(i), node_at(edges, w, a, i), b),
        walk_weight(edges, w) == walk_weight(edges, w.take(i)) + walk_weight(edges, w.skip(i)),
        i < w.len() ==> 0 <= w[i] < edges.len() && edges[w[i]].from == node_at(edges, w, a, i),
    decreases w.len(),
{
    if i == w.len() {
        assert(w.take(i) =~= w);
        assert(w.skip(i) =~= Seq::<int>::empty());
        if i > 0 {
            assert(w[i - 1] == w.last());
        }
    } else {
        let front = w.drop_last();
        lemma_walk_split(edges, front, a, edges[w.last()].from, i);
        assert(front.take(i) =~= w.take(i));
        assert(w.skip(i).drop_last() =~= front.skip(i));
        assert(w.skip(i).last() == w.last());
        assert(node_at(edges, front, a, i) == node_at(edges, w, a, i));
        if i == front.len() {
            assert(front.skip(i) =~= Seq::<int>::empty());
        } else {
            assert(front[i] == w[i]);
        }
    }
}

/// Every node on a walk is an end of one of its edges or the start.
pub proof fn lemma_node_at_within(
    edges: Seq<Edge>,
    w: Seq<int>,
    a: NodeId,
    b: NodeId,
    i: int,
    n: nat,
)
    requires
        is_walk(edges, w, a, b),
        0 <= i <= w.len(),
        a < n,
        forall|j: int| 0 <= j < edges.len() ==> (#[trigger] edges[j]).from < n && edges[j].to < n,
    ensures
        node_at(edges, w, a, i) < n,
        node_at(edges, w, a, w.len() as int) == b,
{
    lemma_walk_split(edges, w, a, b, i);
    if i > 0 {
        lemma_walk_split(edges, w, a, b, i - 1);
    }
    lemma_walk_split(edges, w, a, b, w.len() as int);
    assert(w.skip(w.len() as int) =~= Seq::<int>::empty());
}

/// More than `n` values below `n` cannot all differ.
pub proof fn lemma_pigeonhole(s: Seq<NodeId>, n: nat)
    requires
        forall|i: int| 0 <= i < s.len() ==> s[i] < n,
        s.len() > n,
    ensures
        exists|i: int, j: int| 0 <= i < j < s.len() && s[i] == s[j],
{
    let t = s.map_values(|x: NodeId| x as int);
    if t.no_duplicates() {
        t.unique_seq_to_set();
        lemma_int_range(0, n as int);
        assert(t.to_set().subset_of(set_int_range(0, n as int))) by {
            assert forall|x: int|
                t.to_set().contains(x) implies set_int_range(0, n as int).contains(x) by {
                let k = choose|k: int| 0 <= k < t.len() && t[k] == x;
                assert(s[k] < n);
            }
        }
        lemma_len_subset(t.to_set(), set_int_range(0, n as int));
        assert(false);
    }
    let (i, j) = choose|i: int, j: int|
        0 <= i < t.len() && 0 <= j < t.len() && i != j && t[i] == t[j];
    if i < j {
        assert(s[i] == s[j]);
    } else {
        assert(s[j] == s[i]);
    }
}

} // verus!
