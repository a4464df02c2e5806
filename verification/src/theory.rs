//! Why the search is right. It reports a path exactly where a negative cycle
//! can be reached from the source; the path is a loop over the graph's nodes;
//! and in a graph without two edges for one ordered pair the path is itself
//! such a cycle, unless the walk back ran out of predecessors.

use crate::cycle::linked;
use crate::detect::{
    ancestor, cycle_from, edges_within, first_relaxable, improving, initial, less, negative_cycle,
    plus, relax, relax_pass, relax_rounds, relaxable, runs_out, settled, walk, Labels,
};
use crate::scan::{first_index, lemma_first_index};
use crate::store::{edge_index, has_edge, pairs, Edge, NodeId};
use crate::walks::{
    is_negative_cycle, is_walk, lemma_node_at_within, lemma_pigeonhole, lemma_walk_concat,
    lemma_walk_split, negative_cycle_reachable, node_at, reachable, walk_weight,
};
use vstd::prelude::*;

verus! {

/// At most as long: everything is at most as long as "unreached".
pub open spec fn at_most(a: Option<int>, b: Option<int>) -> bool {
    match b {
        None => true,
        Some(y) => a matches Some(x) && x <= y,
    }
}

/// The labels `now` cover the same nodes as `then`, and no distance is longer.
pub open spec fn improves(then: Labels, now: Labels) -> bool {
    &&& now.dist.len() == then.dist.len()
    &&& now.pred.len() == then.pred.len()
    &&& forall|v: int| 0 <= v < then.dist.len() ==> at_most(#[trigger] now.dist[v], then.dist[v])
}

/// The labels after the first `i` edges of a round that began with `l`.
pub open spec fn pass_upto(l: Labels, edges: Seq<Edge>, i: int) -> Labels {
    relax_pass(l, edges.take(i))
}

/// A round goes edge by edge.
pub proof fn lemma_pass_step(l: Labels, edges: Seq<Edge>, i: int)
    requires
        0 <= i < edges.len(),
    ensures
        pass_upto(l, edges, i + 1) == relax(pass_upto(l, edges, i), edges[i]),
        pass_upto(l, edges, 0) == l,
        pass_upto(l, edges, edges.len() as int) == relax_pass(l, edges),
{
    assert(edges.take(i + 1).drop_last() =~= edges.take(i));
    assert(edges.take(i + 1).last() == edges[i]);
    assert(edges.take(0) =~= Seq::<Edge>::empty());
    assert(edges.take(edges.len() as int) =~= edges);
}

/// Relaxing never makes a distance longer.
pub proof fn lemma_pass_improves(l: Labels, edges: Seq<Edge>, n: nat, i: int)
    requires
        l.dist.len() == n,
        l.pred.len() == n,
        edges_within(edges, n),
        0 <= i <= edges.len(),
    ensures
        improves(l, pass_upto(l, edges, i)),
    decreases i,
{
    if i == 0 {
        assert(edges.take(0) =~= Seq::<Edge>::empty());
    } else {
        lemma_pass_improves(l, edges, n, i - 1);
        lemma_pass_step(l, edges, i - 1);
        let before = pass_upto(l, edges, i - 1);
        let after = pass_upto(l, edges, i);
        let e = edges[i - 1];
        assert forall|v: int| 0 <= v < n implies at_most(#[trigger] after.dist[v], l.dist[v]) by {
            assert(at_most(before.dist[v], l.dist[v]));
        }
    }
}

/// Rounds never make a distance longer.
pub proof fn lemma_rounds_improve(l: Labels, edges: Seq<Edge>, n: nat, k: nat)
    requires
        l.dist.len() == n,
        l.pred.len() == n,
        edges_within(edges, n),
    ensures
        improves(l, relax_rounds(l, edges, k)),
    decreases k,
{
    if k > 0 {
        lemma_rounds_improve(l, edges, n, (k - 1) as nat);
        let before = relax_rounds(l, edges, (k - 1) as nat);
        lemma_pass_improves(before, edges, n, edges.len() as int);
        assert(edges.take(edges.len() as int) =~= edges);
        let after = relax_rounds(l, edges, k);
        assert forall|v: int| 0 <= v < n implies at_most(#[trigger] after.dist[v], l.dist[v]) by {
            assert(at_most(after.dist[v], before.dist[v]));
            assert(at_most(before.dist[v], l.dist[v]));
        }
    }
}

/// No edge improves its target under `l`.
pub open spec fn stable(l: Labels, edges: Seq<Edge>) -> bool {
    forall|j: int| 0 <= j < edges.len() ==> !relaxable(l, #[trigger] edges[j])
}

/// Under stable labels a walk cannot beat the distance of its end: that
/// distance is at most the distance of the start plus the walk's weight.
pub proof fn lemma_stable_walk(l: Labels, edges: Seq<Edge>, w: Seq<int>, a: NodeId, b: NodeId)
    requires
        stable(l, edges),
        is_walk(edges, w, a, b),
        l.dist[a as int] is Some,
    ensures
        l.dist[b as int] is Some,
        l.dist[b as int]->0 <= l.dist[a as int]->0 + walk_weight(edges, w),
    decreases w.len(),
{
    if w.len() > 0 {
        let e = edges[w.last()];
        lemma_stable_walk(l, edges, w.drop_last(), a, e.from);
        assert(!relaxable(l, e));
    }
}

/// Where the search reports nothing, no negative cycle can be reached from
/// the source.
pub proof fn lemma_nothing_found(n: nat, edges: Seq<Edge>, source: NodeId)
    requires
        source < n,
        edges_within(edges, n),
        negative_cycle(n, edges, source) is None,
    ensures
        !negative_cycle_reachable(edges, source),
{
    let l = settled(n, edges, source);
    lemma_rounds_improve(initial(n, source), edges, n, (n - 1) as nat);
    assert(at_most(l.dist[source as int], initial(n, source).dist[source as int]));
    lemma_first_index(improving(l, edges), true);
    assert forall|j: int| 0 <= j < edges.len() implies !relaxable(l, #[trigger] edges[j]) by {
        assert(improving(l, edges)[j] == relaxable(l, edges[j]));
    }
    if negative_cycle_reachable(edges, source) {
        let (w, at) = choose|w: Seq<int>, at: NodeId|
            reachable(edges, source, at) && #[trigger] is_negative_cycle(edges, w, at);
        let r = choose|r: Seq<int>| is_walk(edges, r, source, at);
        lemma_stable_walk(l, edges, r, source, at);
        lemma_stable_walk(l, edges, w, at, at);
    }
}

/// Whether some walk from `source` to `v` has weight `d`.
pub open spec fn attains(edges: Seq<Edge>, source: NodeId, v: NodeId, d: int) -> bool {
    exists|w: Seq<int>| #[trigger] is_walk(edges, w, source, v) && walk_weight(edges, w) == d
}

/// Whether the distance of `v`, if one was found, is the weight of a walk
/// from the source.
pub open spec fn witnessed_at(edges: Seq<Edge>, source: NodeId, l: Labels, v: int) -> bool {
    l.dist[v] matches Some(d) ==> attains(edges, source, v as NodeId, d)
}

/// Every distance found is the weight of a walk from the source.
pub open spec fn witnessed(edges: Seq<Edge>, source: NodeId, l: Labels) -> bool {
    forall|v: int|
        #![trigger l.dist[v]]
        0 <= v < l.dist.len() ==> witnessed_at(edges, source, l, v)
}

/// A relaxation extends the walk to the edge's start by the edge.
pub proof fn lemma_relax_witnessed(edges: Seq<Edge>, source: NodeId, l: Labels, n: nat, j: int)
    requires
        l.dist.len() == n,
        l.pred.len() == n,
        edges_within(edges, n),
        0 <= j < edges.len(),
        witnessed(edges, source, l),
    ensures
        witnessed(edges, source, relax(l, edges[j])),
{
    let e = edges[j];
    let after = relax(l, e);
    assert forall|v: int|
        #![trigger after.dist[v]]
        0 <= v < after.dist.len() implies witnessed_at(edges, source, after, v) by {
        if relaxable(l, e) && v == e.to {
            let d0 = l.dist[e.from as int]->0;
            assert(attains(edges, source, e.from, d0));
            let w = choose|w: Seq<int>| #[trigger]
                is_walk(edges, w, source, e.from) && walk_weight(edges, w) == d0;
            let longer = w.push(j);
            assert(longer.drop_last() =~= w);
            assert(is_walk(edges, longer, source, e.to));
            assert(walk_weight(edges, longer) == d0 + e.weight);
        } else {
            assert(after.dist[v] == l.dist[v]);
        }
    }
}

/// Rounds keep every distance the weight of a walk from the source.
pub proof fn lemma_pass_witnessed(edges: Seq<Edge>, source: NodeId, l: Labels, n: nat, i: int)
    requires
        l.dist.len() == n,
        l.pred.len() == n,
        edges_within(edges, n),
        0 <= i <= edges.len(),
        witnessed(edges, source, l),
    ensures
        witnessed(edges, source, pass_upto(l, edges, i)),
    decreases i,
{
    if i == 0 {
        assert(edges.take(0) =~= Seq::<Edge>::empty());
    } else {
        lemma_pass_witnessed(edges, source, l, n, i - 1);
        lemma_pass_improves(l, edges, n, i - 1);
        lemma_pass_step(l, edges, i - 1);
        lemma_relax_witnessed(edges, source, pass_upto(l, edges, i - 1), n, i - 1);
    }
}

/// After `k` rounds no walk of at most `k` edges from the source beats the
/// distance of its end.
pub open spec fn covers(edges: Seq<Edge>, source: NodeId, l: Labels, k: nat) -> bool {
    forall|w: Seq<int>, v: NodeId| #[trigger]
        is_walk(edges, w, source, v) && w.len() <= k ==> at_most(
            l.dist[v as int],
            Some(walk_weight(edges, w)),
        )
}

/// What a round has done after its first `i` edges: no distance is longer
/// than at the round's start, and the target of each edge taken is at most
/// as far as the edge's start was at the round's start, plus the edge.
pub open spec fn pass_done(then: Labels, now: Labels, edges: Seq<Edge>, i: int) -> bool {
    &&& improves(then, now)
    &&& forall|j: int| 0 <= j < i ==> edge_done(then, now, #[trigger] edges[j])
}

/// Whether the target of `e` is now at most as far as the start of `e` was
/// then, plus the weight of `e`.
pub open spec fn edge_done(then: Labels, now: Labels, e: Edge) -> bool {
    at_most(now.dist[e.to as int], plus(then.dist[e.from as int], e.weight as int))
}

/// Every edge that a round has taken leaves its target within reach of the
/// distance that its start had when the round began.
pub proof fn lemma_pass_done(l: Labels, edges: Seq<Edge>, n: nat, i: int)
    requires
        l.dist.len() == n,
        l.pred.len() == n,
        edges_within(edges, n),
        0 <= i <= edges.len(),
    ensures
        pass_done(l, pass_upto(l, edges, i), edges, i),
    decreases i,
{
    lemma_pass_improves(l, edges, n, i);
    if i > 0 {
        lemma_pass_done(l, edges, n, i - 1);
        lemma_pass_step(l, edges, i - 1);
        let before = pass_upto(l, edges, i - 1);
        let after = pass_upto(l, edges, i);
        let e = edges[i - 1];
        assert(improves(l, before));
        assert forall|j: int| 0 <= j < i implies edge_done(l, after, #[trigger] edges[j]) by {
            let f = edges[j];
            assert(at_most(before.dist[f.from as int], l.dist[f.from as int]));
            assert(at_most(before.dist[e.from as int], l.dist[e.from as int]));
            if j < i - 1 {
                assert(at_most(
                    before.dist[f.to as int],
                    plus(l.dist[f.from as int], f.weight as int),
                ));
            }
        }
    }
}

/// One more round covers walks of one more edge.
pub proof fn lemma_round_covers(edges: Seq<Edge>, source: NodeId, l: Labels, n: nat, k: nat)
    requires
        l.dist.len() == n,
        l.pred.len() == n,
        edges_within(edges, n),
        source < n,
        covers(edges, source, l, k),
    ensures
        covers(edges, source, relax_pass(l, edges), k + 1),
{
    let after = relax_pass(l, edges);
    lemma_pass_done(l, edges, n, edges.len() as int);
    assert(edges.take(edges.len() as int) =~= edges);
    assert forall|w: Seq<int>, v: NodeId|
        #[trigger] is_walk(edges, w, source, v) && w.len() <= k + 1 implies
        at_most(after.dist[v as int], Some(walk_weight(edges, w))) by {
        if w.len() == 0 {
            assert(at_most(l.dist[v as int], Some(walk_weight(edges, w))));
            assert(at_most(after.dist[v as int], l.dist[v as int]));
        } else {
            let e = edges[w.last()];
            let front = w.drop_last();
            assert(is_walk(edges, front, source, e.from));
            assert(at_most(l.dist[e.from as int], Some(walk_weight(edges, front))));
            assert(at_most(after.dist[e.to as int], plus(l.dist[e.from as int], e.weight as int)));
        }
    }
}

/// The labels after `k` rounds from the start are sized for `n` nodes, hold
/// only distances of walks, and cover the walks of at most `k` edges.
pub proof fn lemma_rounds(n: nat, edges: Seq<Edge>, source: NodeId, k: nat)
    requires
        source < n,
        edges_within(edges, n),
    ensures
        relax_rounds(initial(n, source), edges, k).dist.len() == n,
        relax_rounds(initial(n, source), edges, k).pred.len() == n,
        witnessed(edges, source, relax_rounds(initial(n, source), edges, k)),
        covers(edges, source, relax_rounds(initial(n, source), edges, k), k),
    decreases k,
{
    let start = initial(n, source);
    lemma_rounds_improve(start, edges, n, k);
    if k == 0 {
        assert forall|v: int|
            #![trigger start.dist[v]]
            0 <= v < start.dist.len() implies witnessed_at(edges, source, start, v) by {
            if v == source {
                assert(is_walk(edges, Seq::<int>::empty(), source, source));
            }
        }
    } else {
        lemma_rounds(n, edges, source, (k - 1) as nat);
        let before = relax_rounds(start, edges, (k - 1) as nat);
        lemma_pass_witnessed(edges, source, before, n, edges.len() as int);
        assert(edges.take(edges.len() as int) =~= edges);
        lemma_round_covers(edges, source, before, n, (k - 1) as nat);
    }
}

/// A walk from the source that beats the distance of its end, although the
/// labels cover all walks of fewer than `n` edges, runs through a negative
/// cycle: it is long enough to visit a node twice, and if the loop between
/// the two visits were not negative, the walk without it would beat the
/// distance as well.
pub proof fn lemma_long_walk(
    edges: Seq<Edge>,
    source: NodeId,
    l: Labels,
    n: nat,
    w: Seq<int>,
    v: NodeId,
)
    requires
        source < n,
        edges_within(edges, n),
        covers(edges, source, l, (n - 1) as nat),
        is_walk(edges, w, source, v),
        !at_most(l.dist[v as int], Some(walk_weight(edges, w))),
    ensures
        negative_cycle_reachable(edges, source),
    decreases w.len(),
{
    assert(w.len() >= n);
    let nodes = Seq::new((w.len() + 1) as nat, |i: int| node_at(edges, w, source, i));
    assert forall|i: int| 0 <= i < nodes.len() implies nodes[i] < n by {
        lemma_node_at_within(edges, w, source, v, i, n);
    }
    lemma_pigeonhole(nodes, n);
    let (i, j) = choose|i: int, j: int| 0 <= i < j < nodes.len() && nodes[i] == nodes[j];
    let x = nodes[i];
    lemma_walk_split(edges, w, source, v, i);
    let head = w.take(i);
    let tail = w.skip(i);
    lemma_walk_split(edges, tail, x, v, j - i);
    let cycle = tail.take(j - i);
    let rest = tail.skip(j - i);
    assert(tail[j - i - 1] == w[j - 1]);
    assert(node_at(edges, tail, x, j - i) == x);
    if walk_weight(edges, cycle) < 0 {
        assert(is_walk(edges, head, source, x));
        assert(reachable(edges, source, x));
        assert(is_negative_cycle(edges, cycle, x));
    } else {
        lemma_walk_concat(edges, head, rest, source, x, v);
        lemma_long_walk(edges, source, l, n, head + rest, v);
    }
}

/// Where the search reports a path, a negative cycle can be reached from the
/// source.
pub proof fn lemma_something_found(n: nat, edges: Seq<Edge>, source: NodeId)
    requires
        source < n,
        edges_within(edges, n),
        negative_cycle(n, edges, source) is Some,
    ensures
        negative_cycle_reachable(edges, source),
{
    let l = settled(n, edges, source);
    lemma_rounds(n, edges, source, (n - 1) as nat);
    lemma_first_index(improving(l, edges), true);
    let j = first_relaxable(l, edges);
    let e = edges[j];
    assert(improving(l, edges)[j] == relaxable(l, e));
    let d = l.dist[e.from as int]->0;
    assert(attains(edges, source, e.from, d));
    let w = choose|w: Seq<int>| #[trigger]
        is_walk(edges, w, source, e.from) && walk_weight(edges, w) == d;
    let longer = w.push(j);
    assert(longer.drop_last() =~= w);
    assert(is_walk(edges, longer, source, e.to));
    lemma_long_walk(edges, source, l, n, longer, e.to);
}

/// The search reports a path exactly where a negative cycle can be reached
/// from the source.
pub proof fn lemma_found_iff_reachable(n: nat, edges: Seq<Edge>, source: NodeId)
    requires
        edges_within(edges, n),
    ensures
        negative_cycle(n, edges, source) is Some <==> negative_cycle_reachable(edges, source),
{
    if source >= n {
        if negative_cycle_reachable(edges, source) {
            let (w, at) = choose|w: Seq<int>, at: NodeId|
                reachable(edges, source, at) && #[trigger] is_negative_cycle(edges, w, at);
            let r = choose|r: Seq<int>| is_walk(edges, r, source, at);
            if r.len() == 0 {
                assert(edges[w.last()].to == source);
            } else {
                lemma_walk_split(edges, r, source, at, 0);
                assert(edges[r[0]].from == source);
            }
        }
    } else if negative_cycle(n, edges, source) is Some {
        lemma_something_found(n, edges, source);
    } else {
        lemma_nothing_found(n, edges, source);
    }
}

/// Every predecessor is one of the `n` nodes.
pub open spec fn preds_within(pred: Seq<Option<NodeId>>, n: nat) -> bool {
    &&& pred.len() == n
    &&& forall|v: int| 0 <= v < n ==> (#[trigger] pred[v] matches Some(p) ==> p < n)
}

/// Each entry after the first is one step back from the entry before it.
pub open spec fn steps_back(pred: Seq<Option<NodeId>>, s: Seq<NodeId>) -> bool {
    forall|k: int| 0 <= k < s.len() - 1 ==> #[trigger] s[k + 1] == ancestor(pred, s[k])
}

/// Each entry before the last is one step back from the entry after it: the
/// path runs in the direction of the edges.
pub open spec fn steps_forward(pred: Seq<Option<NodeId>>, s: Seq<NodeId>) -> bool {
    forall|k: int| 0 <= k < s.len() - 1 ==> #[trigger] s[k] == ancestor(pred, s[k + 1])
}

/// A closed path of at least two entries over the `n` nodes that meets no
/// node twice but the one it begins and ends with.
pub open spec fn is_loop(s: Seq<NodeId>, n: nat) -> bool {
    &&& s.len() >= 2
    &&& s.first() == s.last()
    &&& s.drop_last().no_duplicates()
    &&& forall|k: int| 0 <= k < s.len() ==> s[k] < n
}

/// The walk back always comes to a node that it has seen, and what it
/// returns is a loop in which each entry is one step back from the one
/// before.
pub proof fn lemma_walk_loop(pred: Seq<Option<NodeId>>, seen: Seq<NodeId>, n: nat)
    requires
        preds_within(pred, n),
        seen.len() >= 1,
        seen.no_duplicates(),
        steps_back(pred, seen),
        forall|k: int| 0 <= k < seen.len() ==> seen[k] < n,
    ensures
        is_loop(walk(pred, seen), n),
        steps_back(pred, walk(pred, seen)),
    decreases n - seen.len(),
{
    let next = ancestor(pred, seen.last());
    let at = first_index(seen, next);
    lemma_first_index(seen, next);
    assert(pred[seen.last() as int] matches Some(p) ==> p < n);
    assert(seen.len() <= n) by {
        if seen.len() > n {
            lemma_pigeonhole(seen, n);
        }
    }
    if at < seen.len() {
        let r = seen.subrange(at, seen.len() as int).push(next);
        assert(r.drop_last() =~= seen.subrange(at, seen.len() as int));
        assert forall|k: int|
            0 <= k < r.len() - 1 implies #[trigger] r[k + 1] == ancestor(pred, r[k]) by {
            if k + 1 < r.len() - 1 {
                assert(seen[at + k + 1] == ancestor(pred, seen[at + k]));
            }
        }
    } else {
        let longer = seen.push(next);
        assert forall|i: int, j: int|
            0 <= i < longer.len() && 0 <= j < longer.len() && i != j implies
            longer[i] != longer[j] by {
            if i < seen.len() && j < seen.len() {
                assert(seen[i] != seen[j]);
            }
        }
        if seen.len() >= n {
            lemma_pigeonhole(longer, n);
        }
        assert forall|k: int|
            0 <= k < longer.len() - 1 implies
            #[trigger] longer[k + 1] == ancestor(pred, longer[k]) by {
            if k + 1 < seen.len() {
                assert(seen[k + 1] == ancestor(pred, seen[k]));
            }
        }
        lemma_walk_loop(pred, longer, n);
    }
}

/// The path that a search returns is a loop that runs in the direction of
/// the edges: each entry is the predecessor of the next, or the same node
/// where that has none.
pub proof fn lemma_cycle_from(pred: Seq<Option<NodeId>>, anchor: NodeId, n: nat)
    requires
        preds_within(pred, n),
        anchor < n,
    ensures
        is_loop(cycle_from(pred, anchor), n),
        steps_forward(pred, cycle_from(pred, anchor)),
{
    let r = walk(pred, seq![anchor]);
    lemma_walk_loop(pred, seq![anchor], n);
    let p = r.reverse();
    let inner = p.drop_last();
    assert(inner =~= r.drop_first().reverse());
    assert forall|i: int, j: int|
        0 <= i < inner.len() && 0 <= j < inner.len() && i != j implies inner[i] != inner[j] by {
        let a = r.len() - 1 - i;
        let b = r.len() - 1 - j;
        if a == r.len() - 1 {
            assert(r[a] == r[0]);
            assert(r.drop_last()[0] != r.drop_last()[b]);
        } else if b == r.len() - 1 {
            assert(r[b] == r[0]);
            assert(r.drop_last()[0] != r.drop_last()[a]);
        } else {
            assert(r.drop_last()[a] != r.drop_last()[b]);
        }
    }
    assert forall|k: int|
        0 <= k < p.len() - 1 implies #[trigger] p[k] == ancestor(pred, p[k + 1]) by {
        let a = r.len() - 1 - (k + 1);
        assert(r[a + 1] == ancestor(pred, r[a]));
    }
}

/// The weight of the edge from `a` to `b`.
pub open spec fn weight_between(edges: Seq<Edge>, a: NodeId, b: NodeId) -> int {
    edges[edge_index(edges, a, b)].weight as int
}

/// The sum of the weights of the steps of a path of nodes.
pub open spec fn path_weight(edges: Seq<Edge>, p: Seq<NodeId>) -> int
    decreases p.len(),
{
    if p.len() <= 1 {
        0
    } else {
        path_weight(edges, p.drop_last()) + weight_between(edges, p[p.len() - 2], p.last())
    }
}

/// A path cut at one of its nodes: the weights of the two parts add up.
pub proof fn lemma_path_weight_split(edges: Seq<Edge>, p: Seq<NodeId>, i: int)
    requires
        0 <= i < p.len(),
    ensures
        path_weight(edges, p) == path_weight(edges, p.subrange(0, i + 1)) + path_weight(
            edges,
            p.subrange(i, p.len() as int),
        ),
    decreases p.len(),
{
    if i == p.len() - 1 {
        assert(p.subrange(0, i + 1) =~= p);
    } else {
        let front = p.drop_last();
        lemma_path_weight_split(edges, front, i);
        assert(front.subrange(0, i + 1) =~= p.subrange(0, i + 1));
        let back = p.subrange(i, p.len() as int);
        assert(back.drop_last() =~= front.subrange(i, front.len() as int));
        assert(back[back.len() - 2] == p[p.len() - 2]);
    }
}

/// Each entry after the first has the entry before it as its predecessor.
pub open spec fn is_pred_path(l: Labels, p: Seq<NodeId>) -> bool {
    forall|k: int| 0 <= k < p.len() - 1 ==> l.pred[(#[trigger] p[k + 1]) as int] == Some(p[k])
}

/// Whether the predecessor link of `v`, if it has one, is an edge that does
/// not undercut `v`: the predecessor's distance plus the edge's weight is at
/// most the distance of `v`.
pub open spec fn link_holds(edges: Seq<Edge>, l: Labels, n: nat, v: int) -> bool {
    l.pred[v] matches Some(u) ==> {
        &&& u < n
        &&& has_edge(edges, u, v as NodeId)
        &&& l.dist[u as int] is Some
        &&& l.dist[v] is Some
        &&& l.dist[u as int]->0 + weight_between(edges, u, v as NodeId) <= l.dist[v]->0
    }
}

/// Every predecessor link is an edge that does not undercut its target.
pub open spec fn links_hold(edges: Seq<Edge>, l: Labels, n: nat) -> bool {
    forall|v: int| #![trigger l.pred[v]] 0 <= v < n ==> link_holds(edges, l, n, v)
}

/// Every loop of predecessor links has negative weight.
pub open spec fn loops_negative(edges: Seq<Edge>, l: Labels, n: nat) -> bool {
    forall|p: Seq<NodeId>|
        #[trigger] is_pred_path(l, p) && is_loop(p, n) ==> path_weight(edges, p) < 0
}

/// Along a path of predecessor links the distances grow at least by the weights.
pub proof fn lemma_pred_path_bound(edges: Seq<Edge>, l: Labels, n: nat, p: Seq<NodeId>)
    requires
        l.dist.len() == n,
        l.pred.len() == n,
        links_hold(edges, l, n),
        is_pred_path(l, p),
        p.len() >= 1,
        forall|k: int| 0 <= k < p.len() ==> p[k] < n,
        l.dist[p.last() as int] is Some,
    ensures
        l.dist[p.first() as int] is Some,
        l.dist[p.first() as int]->0 + path_weight(edges, p) <= l.dist[p.last() as int]->0,
    decreases p.len(),
{
    if p.len() >= 2 {
        let front = p.drop_last();
        let x = p.last();
        assert(p[p.len() - 2 + 1] == x);
        assert(l.pred[x as int] == Some(p[p.len() - 2]));
        assert forall|k: int|
            0 <= k < front.len() - 1 implies
            l.pred[(#[trigger] front[k + 1]) as int] == Some(front[k]) by {
            assert(p[k + 1] == front[k + 1]);
        }
        lemma_pred_path_bound(edges, l, n, front);
    }
}

/// One relaxation keeps the predecessor links sound and their loops negative.
pub proof fn lemma_relax_grounded(edges: Seq<Edge>, l: Labels, n: nat, j: int)
    requires
        l.dist.len() == n,
        l.pred.len() == n,
        edges_within(edges, n),
        pairs(edges).no_duplicates(),
        0 <= j < edges.len(),
        links_hold(edges, l, n),
        loops_negative(edges, l, n),
    ensures
        links_hold(edges, relax(l, edges[j]), n),
        loops_negative(edges, relax(l, edges[j]), n),
{
    let e = edges[j];
    let after = relax(l, e);
    if relaxable(l, e) {
        let u = e.from;
        let v = e.to;
        assert(pairs(edges)[j] == (u, v));
        lemma_first_index(pairs(edges), (u, v));
        assert(edge_index(edges, u, v) == j);
        assert forall|x: int|
            #![trigger after.pred[x]]
            0 <= x < n implies link_holds(edges, after, n, x) by {
            if x != v {
                assert(l.pred[x] == after.pred[x]);
            }
        }
        assert forall|p: Seq<NodeId>|
            #[trigger] is_pred_path(after, p) && is_loop(p, n) implies
            path_weight(edges, p) < 0 by {
            if exists|i: int| 1 <= i < p.len() && p[i] == v {
                let i = choose|i: int| 1 <= i < p.len() && p[i] == v;
                assert forall|k: int| 1 <= k < p.len() && k != i implies p[k] != v by {
                    let a = if k == p.len() - 1 {
                        0
                    } else {
                        k
                    };
                    let b = if i == p.len() - 1 {
                        0
                    } else {
                        i
                    };
                    assert(p.drop_last()[a] == p[k]);
                    assert(p.drop_last()[b] == p[i]);
                }
                let front = p.subrange(0, i);
                let back = p.subrange(i, p.len() as int);
                assert(p[i - 1 + 1] == v);
                assert(after.pred[v as int] == Some(p[i - 1]));
                assert(p[i - 1] == u);
                assert forall|k: int|
                    0 <= k < front.len() - 1 implies
                    l.pred[(#[trigger] front[k + 1]) as int] == Some(front[k]) by {
                    assert(p[k + 1] == front[k + 1]);
                    assert(after.pred[p[k + 1] as int] == Some(p[k]));
                }
                assert forall|k: int|
                    0 <= k < back.len() - 1 implies
                    l.pred[(#[trigger] back[k + 1]) as int] == Some(back[k]) by {
                    assert(p[i + k + 1] == back[k + 1]);
                    assert(after.pred[p[i + k + 1] as int] == Some(p[i + k]));
                }
                lemma_pred_path_bound(edges, l, n, front);
                lemma_pred_path_bound(edges, l, n, back);
                lemma_path_weight_split(edges, p, i);
                let upto = p.subrange(0, i + 1);
                assert(upto.drop_last() =~= front);
                assert(upto[upto.len() - 2] == u && upto.last() == v);
            } else {
                assert forall|k: int|
                    0 <= k < p.len() - 1 implies
                    l.pred[(#[trigger] p[k + 1]) as int] == Some(p[k]) by {
                    assert(after.pred[p[k + 1] as int] == Some(p[k]));
                }
                assert(is_pred_path(l, p));
            }
        }
    }
}

/// A round keeps the predecessor links sound and their loops negative.
pub proof fn lemma_pass_grounded(edges: Seq<Edge>, l: Labels, n: nat, i: int)
    requires
        l.dist.len() == n,
        l.pred.len() == n,
        edges_within(edges, n),
        pairs(edges).no_duplicates(),
        0 <= i <= edges.len(),
        links_hold(edges, l, n),
        loops_negative(edges, l, n),
    ensures
        links_hold(edges, pass_upto(l, edges, i), n),
        loops_negative(edges, pass_upto(l, edges, i), n),
    decreases i,
{
    if i == 0 {
        assert(edges.take(0) =~= Seq::<Edge>::empty());
    } else {
        lemma_pass_grounded(edges, l, n, i - 1);
        lemma_pass_improves(l, edges, n, i - 1);
        lemma_pass_step(l, edges, i - 1);
        lemma_relax_grounded(edges, pass_upto(l, edges, i - 1), n, i - 1);
    }
}

/// After any number of rounds from the start the predecessor links are sound
/// and their loops negative.
pub proof fn lemma_rounds_grounded(n: nat, edges: Seq<Edge>, source: NodeId, k: nat)
    requires
        source < n,
        edges_within(edges, n),
        pairs(edges).no_duplicates(),
    ensures
        links_hold(edges, relax_rounds(initial(n, source), edges, k), n),
        loops_negative(edges, relax_rounds(initial(n, source), edges, k), n),
    decreases k,
{
    let start = initial(n, source);
    if k == 0 {
        assert forall|p: Seq<NodeId>|
            #[trigger] is_pred_path(start, p) && is_loop(p, n) implies
            path_weight(edges, p) < 0 by {
            assert(start.pred[p[0int + 1] as int] == Some(p[0]));
        }
    } else {
        lemma_rounds_grounded(n, edges, source, (k - 1) as nat);
        lemma_rounds_improve(start, edges, n, (k - 1) as nat);
        let before = relax_rounds(start, edges, (k - 1) as nat);
        lemma_pass_grounded(edges, before, n, edges.len() as int);
        assert(edges.take(edges.len() as int) =~= edges);
    }
}

/// Rounds keep every predecessor among the `n` nodes.
pub proof fn lemma_pass_preds(edges: Seq<Edge>, l: Labels, n: nat, i: int)
    requires
        l.dist.len() == n,
        preds_within(l.pred, n),
        edges_within(edges, n),
        0 <= i <= edges.len(),
    ensures
        preds_within(pass_upto(l, edges, i).pred, n),
    decreases i,
{
    if i == 0 {
        assert(edges.take(0) =~= Seq::<Edge>::empty());
    } else {
        lemma_pass_preds(edges, l, n, i - 1);
        lemma_pass_improves(l, edges, n, i - 1);
        lemma_pass_step(l, edges, i - 1);
        let before = pass_upto(l, edges, i - 1);
        let after = pass_upto(l, edges, i);
        assert forall|v: int|
            0 <= v < n implies (#[trigger] after.pred[v] matches Some(p) ==> p < n) by {
            assert(before.pred[v] matches Some(p) ==> p < n);
        }
    }
}

/// After any number of rounds from the start every predecessor is among the
/// `n` nodes.
pub proof fn lemma_rounds_preds(n: nat, edges: Seq<Edge>, source: NodeId, k: nat)
    requires
        source < n,
        edges_within(edges, n),
    ensures
        preds_within(relax_rounds(initial(n, source), edges, k).pred, n),
    decreases k,
{
    let start = initial(n, source);
    if k > 0 {
        lemma_rounds_preds(n, edges, source, (k - 1) as nat);
        lemma_rounds_improve(start, edges, n, (k - 1) as nat);
        lemma_pass_preds(edges, relax_rounds(start, edges, (k - 1) as nat), n, edges.len() as int);
        assert(edges.take(edges.len() as int) =~= edges);
    }
}

/// The path that a search returns is a loop over the graph's nodes.
pub proof fn lemma_path_is_loop(n: nat, edges: Seq<Edge>, source: NodeId)
    requires
        source < n,
        edges_within(edges, n),
        negative_cycle(n, edges, source) is Some,
    ensures
        is_loop(negative_cycle(n, edges, source)->0, n),
        steps_forward(settled(n, edges, source).pred, negative_cycle(n, edges, source)->0),
{
    let l = settled(n, edges, source);
    lemma_rounds_preds(n, edges, source, (n - 1) as nat);
    lemma_first_index(improving(l, edges), true);
    let j = first_relaxable(l, edges);
    assert(edges[j].to < n);
    lemma_cycle_from(l.pred, edges[j].to, n);
}

/// Whether the path is a loop of edges of the graph, over its `n` nodes,
/// whose weights sum to less than zero.
pub open spec fn is_negative_loop(edges: Seq<Edge>, path: Seq<NodeId>, n: nat) -> bool {
    is_loop(path, n) && linked(edges, path) && path_weight(edges, path) < 0
}

/// In a graph without two edges for one ordered pair, the path that a search
/// returns is a negative cycle of the graph, unless the walk back ran out of
/// predecessors.
pub proof fn lemma_path_negative(n: nat, edges: Seq<Edge>, source: NodeId)
    requires
        source < n,
        edges_within(edges, n),
        pairs(edges).no_duplicates(),
        negative_cycle(n, edges, source) is Some,
    ensures
        !runs_out(n, edges, source) ==> is_negative_loop(
            edges,
            negative_cycle(n, edges, source)->0,
            n,
        ) && is_pred_path(settled(n, edges, source), negative_cycle(n, edges, source)->0),
{
    let l = settled(n, edges, source);
    let path = negative_cycle(n, edges, source)->0;
    lemma_rounds_grounded(n, edges, source, (n - 1) as nat);
    lemma_rounds_improve(initial(n, source), edges, n, (n - 1) as nat);
    lemma_path_is_loop(n, edges, source);
    if !runs_out(n, edges, source) {
        assert forall|k: int|
            0 <= k < path.len() - 1 implies
            l.pred[(#[trigger] path[k + 1]) as int] == Some(path[k]) by {
            assert(path[k] == ancestor(l.pred, path[k + 1]));
            if l.pred[path[k + 1] as int] is None {
                if path.len() > 2 {
                    let a = k;
                    let b = if k + 1 == path.len() - 1 {
                        0
                    } else {
                        k + 1
                    };
                    assert(path.drop_last()[a] == path[k]);
                    assert(path.drop_last()[b] == path[k + 1]);
                } else {
                    assert(path[k + 1] == path.last());
                }
            }
        }
        assert(is_pred_path(l, path));
        assert forall|k: int|
            0 <= k < path.len() - 1 implies has_edge(edges, #[trigger] path[k], path[k + 1]) by {
            assert(l.pred[path[k + 1] as int] == Some(path[k]));
        }
        assert(linked(edges, path));
        assert(path_weight(edges, path) < 0);
    }
}

/// The walk that a path of nodes stands for: for each step, its edge.
pub open spec fn edges_along(edges: Seq<Edge>, path: Seq<NodeId>) -> Seq<int> {
    if path.len() == 0 {
        Seq::empty()
    } else {
        Seq::new((path.len() - 1) as nat, |k: int| edge_index(edges, path[k], path[k + 1]))
    }
}

/// A path of nodes in which every step is an edge stands for a walk from its
/// first node to its last, of the same weight.
pub proof fn lemma_edges_along(edges: Seq<Edge>, path: Seq<NodeId>)
    requires
        path.len() >= 1,
        linked(edges, path),
    ensures
        is_walk(edges, edges_along(edges, path), path.first(), path.last()),
        walk_weight(edges, edges_along(edges, path)) == path_weight(edges, path),
    decreases path.len(),
{
    let w = edges_along(edges, path);
    if path.len() >= 2 {
        let front = path.drop_last();
        assert forall|k: int|
            0 <= k < front.len() - 1 implies has_edge(edges, #[trigger] front[k], front[k + 1]) by {
            assert(has_edge(edges, path[k], path[k + 1]));
        }
        lemma_edges_along(edges, front);
        assert(w.drop_last() =~= edges_along(edges, front));
        let a = path[path.len() - 2];
        let b = path.last();
        assert(has_edge(edges, a, b));
        lemma_first_index(pairs(edges), (a, b));
        assert(pairs(edges)[edge_index(edges, a, b)] == (a, b));
        assert(w.last() == edge_index(edges, a, b));
    }
}

/// In a graph without two edges for one ordered pair, a path that a search
/// returns and that is a negative loop is a negative cycle through a node
/// that can be reached from the source.
pub proof fn lemma_path_reachable(n: nat, edges: Seq<Edge>, source: NodeId)
    requires
        source < n,
        edges_within(edges, n),
        pairs(edges).no_duplicates(),
        negative_cycle(n, edges, source) is Some,
        !runs_out(n, edges, source),
    ensures
        reachable(edges, source, negative_cycle(n, edges, source)->0[0]),
        is_negative_cycle(
            edges,
            edges_along(edges, negative_cycle(n, edges, source)->0),
            negative_cycle(n, edges, source)->0[0],
        ),
{
    let l = settled(n, edges, source);
    let path = negative_cycle(n, edges, source)->0;
    lemma_path_negative(n, edges, source);
    lemma_path_is_loop(n, edges, source);
    lemma_edges_along(edges, path);
    lemma_rounds(n, edges, source, (n - 1) as nat);
    lemma_rounds_grounded(n, edges, source, (n - 1) as nat);
    assert(l.pred[path[0int + 1] as int] == Some(path[0]));
    assert(l.dist[path[0] as int] is Some);
    assert(attains(edges, source, path[0], l.dist[path[0] as int]->0));
}

} // verus!
