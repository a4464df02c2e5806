//! Negative-cycle detection: shortest-path relaxation from one source, one
//! more scan for an edge that still improves, and a walk along predecessor
//! links that closes the cycle.

use crate::scan::{first_index, lemma_first_index, position};
use crate::store::{pairs, Edge, NodeId, CAPACITY};
use crate::theory::{
    is_loop, is_negative_loop, lemma_cycle_from, lemma_found_iff_reachable, lemma_path_is_loop,
    lemma_path_negative, lemma_path_reachable, steps_forward,
};
use crate::walks::{lemma_pigeonhole, negative_cycle_reachable, reachable};
use vstd::prelude::*;

verus! {

/// The length of the best path found so far from the source to a node.
#[derive(Clone, Copy, Debug, PartialEq, Eq, Structural)]
pub enum Distance {
    /// No path has been found: longer than every path.
    Unreached,
    /// The sum of the weights along the best path found.
    Reached(i128),
}

impl View for Distance {
    type V = Option<int>;

    open spec fn view(&self) -> Option<int> {
        match *self {
            Distance::Unreached => None,
            Distance::Reached(d) => Some(d as int),
        }
    }
}

/// A distance extended by an edge of weight `w`; nothing extends "unreached".
pub open spec fn plus(d: Option<int>, w: int) -> Option<int> {
    match d {
        Some(x) => Some(x + w),
        None => None,
    }
}

/// Strictly shorter: every length is shorter than "unreached", and "unreached"
/// is shorter than nothing.
pub open spec fn less(a: Option<int>, b: Option<int>) -> bool {
    match a {
        Some(x) => match b {
            Some(y) => x < y,
            None => true,
        },
        None => false,
    }
}

impl Distance {
    /// The length of the empty path.
    pub fn zero() -> (d: Distance)
        ensures
            d@ == Some(0int),
    {
        Distance::Reached(0)
    }

    /// The distance of a node that no path has reached.
    pub fn infinite() -> (d: Distance)
        ensures
            d@ == None::<int>,
    {
        Distance::Unreached
    }

    /// This distance extended by an edge of weight `w`.
    pub fn add(self, w: i64) -> (d: Distance)
        requires
            self@ matches Some(x) ==> i128::MIN <= x + w <= i128::MAX,
        ensures
            d@ == plus(self@, w as int),
    {
        match self {
            Distance::Unreached => Distance::Unreached,
            Distance::Reached(x) => Distance::Reached(x + w as i128),
        }
    }

    /// Whether this distance is strictly shorter than `other`.
    pub fn lt(self, other: Distance) -> (b: bool)
        ensures
            b == less(self@, other@),
    {
        match self {
            Distance::Unreached => false,
            Distance::Reached(x) => match other {
                Distance::Unreached => true,
                Distance::Reached(y) => x < y,
            },
        }
    }
}

/// The state of a search: for each node the best distance found so far and
/// the node from which it was last improved.
pub struct Labels {
    pub dist: Seq<Option<int>>,
    pub pred: Seq<Option<NodeId>>,
}

/// Before any relaxation: the source at distance zero, every other node
/// unreached, no predecessors.
pub open spec fn initial(n: nat, source: NodeId) -> Labels {
    Labels {
        dist: Seq::new(n, |v: int| if v == source { Some(0int) } else { None }),
        pred: Seq::new(n, |v: int| None),
    }
}

/// Whether going through `e` strictly improves the distance of its target.
pub open spec fn relaxable(l: Labels, e: Edge) -> bool {
    less(plus(l.dist[e.from as int], e.weight as int), l.dist[e.to as int])
}

/// One relaxation: where `e` improves its target, the target takes the new
/// distance and `e.from` as predecessor. A tie changes nothing.
pub open spec fn relax(l: Labels, e: Edge) -> Labels {
    if relaxable(l, e) {
        Labels {
            dist: l.dist.update(e.to as int, plus(l.dist[e.from as int], e.weight as int)),
            pred: l.pred.update(e.to as int, Some(e.from)),
        }
    } else {
        l
    }
}

/// One round: every edge relaxed once, in order.
pub open spec fn relax_pass(l: Labels, edges: Seq<Edge>) -> Labels
    decreases edges.len(),
{
    if edges.len() == 0 {
        l
    } else {
        relax(relax_pass(l, edges.drop_last()), edges.last())
    }
}

/// `k` rounds in a row.
pub open spec fn relax_rounds(l: Labels, edges: Seq<Edge>, k: nat) -> Labels
    decreases k,
{
    if k == 0 {
        l
    } else {
        relax_pass(relax_rounds(l, edges, (k - 1) as nat), edges)
    }
}

/// The labels after the `n - 1` rounds that a search from `source` makes.
pub open spec fn settled(n: nat, edges: Seq<Edge>, source: NodeId) -> Labels {
    relax_rounds(initial(n, source), edges, (n - 1) as nat)
}

/// Every edge joins nodes below `n`.
pub open spec fn edges_within(edges: Seq<Edge>, n: nat) -> bool {
    forall|i: int| 0 <= i < edges.len() ==> (#[trigger] edges[i]).from < n && edges[i].to < n
}

/// The labels cover `n` nodes, every predecessor is a node, and every
/// distance found is at most `bound` in size.
pub open spec fn labels_within(l: Labels, n: nat, bound: int) -> bool {
    &&& l.dist.len() == n
    &&& l.pred.len() == n
    &&& forall|v: int| 0 <= v < n ==> (#[trigger] l.pred[v] matches Some(p) ==> p < n)
    &&& forall|v: int|
        0 <= v < n ==> (#[trigger] l.dist[v] matches Some(d) ==> -bound <= d <= bound)
}

/// The labels that a pair of working vectors stands for.
pub open spec fn labels_of(dist: Seq<Distance>, pred: Seq<Option<NodeId>>) -> Labels {
    Labels { dist: dist.map_values(|d: Distance| d@), pred }
}

/// The size of the largest weight.
pub open spec fn span() -> int {
    0x8000_0000_0000_0000
}

/// How far from zero a distance can lie after `steps` relaxations.
pub open spec fn reach(steps: int) -> int {
    steps * span()
}

/// In round `round` of a search among `n` nodes and `m` edges, at edge `i`,
/// one more relaxation keeps every distance within 128 bits.
proof fn lemma_reach(n: int, m: int, round: int, i: int)
    requires
        1 <= round <= n <= CAPACITY,
        0 <= i <= m <= CAPACITY,
        round < n || i == 0,
    ensures
        0 <= reach((round - 1) * m + i),
        reach((round - 1) * m + i + 1) == reach((round - 1) * m + i) + span(),
        reach((round - 1) * m + i) + span() <= i128::MAX,
        reach((round - 1) * m + m) == reach(round * m),
{
    assert(0 <= (round - 1) * m + i < 0xffff_ffff * 0xffff_ffff) by (nonlinear_arith)
        requires
            1 <= round <= n <= 0xffff_ffff,
            0 <= i <= m <= 0xffff_ffff,
            round < n || i == 0,
    ;
    assert((round - 1) * m + m == round * m) by (nonlinear_arith);
    assert(((round - 1) * m + i + 1) * span() == ((round - 1) * m + i) * span() + span())
        by (nonlinear_arith);
}

/// A relaxation keeps the labels in shape and moves no distance further out
/// than by the size of one weight.
proof fn lemma_relax_within(l: Labels, e: Edge, n: nat, bound: int)
    requires
        labels_within(l, n, bound),
        e.from < n,
        e.to < n,
        0 <= bound,
    ensures
        labels_within(relax(l, e), n, bound + span()),
{
    let r = relax(l, e);
    assert forall|v: int| 0 <= v < n implies (#[trigger] r.pred[v] matches Some(p) ==> p < n) by {
        assert(l.pred[v] matches Some(p) ==> p < n);
    }
    assert forall|v: int|
        0 <= v < n implies
        (#[trigger] r.dist[v] matches Some(d) ==> -(bound + span()) <= d <= bound + span()) by {
        assert(l.dist[v] matches Some(d) ==> -bound <= d <= bound);
        assert(l.dist[e.from as int] matches Some(d) ==> -bound <= d <= bound);
    }
}

/// Makes the labels for a search from `source` and runs its `n - 1` rounds.
fn relax_all(n: usize, edges: &Vec<Edge>, source: NodeId) -> (r: (
    Vec<Distance>,
    Vec<Option<NodeId>>,
))
    requires
        source < n <= CAPACITY,
        edges.len() <= CAPACITY,
        edges_within(edges@, n as nat),
    ensures
        labels_of(r.0@, r.1@) == settled(n as nat, edges@, source),
        labels_within(settled(n as nat, edges@, source), n as nat, reach((n - 1) * edges.len())),
{
    let mut dist: Vec<Distance> = Vec::new();
    let mut pred: Vec<Option<NodeId>> = Vec::new();
    let mut v: usize = 0;
    while v < n
        invariant
            0 <= v <= n,
            source < n,
            dist.len() == v,
            pred.len() == v,
            forall|u: int| 0 <= u < v ==> dist[u]@ == if u == source { Some(0int) } else { None },
            forall|u: int| 0 <= u < v ==> pred[u] is None,
        decreases n - v,
    {
        if v == source {
            dist.push(Distance::zero());
        } else {
            dist.push(Distance::infinite());
        }
        pred.push(None);
        v += 1;
    }
    let m = edges.len();
    let ghost start = initial(n as nat, source);
    proof {
        assert(labels_of(dist@, pred@).dist =~= start.dist);
        assert(pred@ =~= start.pred);
    }
    let mut round: usize = 1;
    while round < n
        invariant
            1 <= round <= n <= CAPACITY,
            m == edges.len(),
            m <= CAPACITY,
            edges_within(edges@, n as nat),
            start == initial(n as nat, source),
            labels_of(dist@, pred@) == relax_rounds(start, edges@, (round - 1) as nat),
            labels_within(labels_of(dist@, pred@), n as nat, reach((round - 1) * m)),
        decreases n - round,
    {
        let ghost before = labels_of(dist@, pred@);
        let mut i: usize = 0;
        proof {
            assert(edges@.take(0) =~= Seq::<Edge>::empty());
        }
        while i < m
            invariant
                0 <= i <= m,
                1 <= round < n <= CAPACITY,
                m == edges.len(),
                m <= CAPACITY,
                edges_within(edges@, n as nat),
                labels_of(dist@, pred@) == relax_pass(before, edges@.take(i as int)),
                labels_within(labels_of(dist@, pred@), n as nat, reach((round - 1) * m + i)),
            decreases m - i,
        {
            let e = edges[i];
            let ghost here = labels_of(dist@, pred@);
            let ghost bound = reach((round - 1) * m + i);
            proof {
                lemma_reach(n as int, m as int, round as int, i as int);
                assert(here.dist[e.from as int] == dist[e.from as int]@);
                assert(here.dist[e.from as int] matches Some(d) ==> -bound <= d <= bound);
                lemma_relax_within(here, e, n as nat, bound);
                assert(edges@.take(i + 1).drop_last() =~= edges@.take(i as int));
                assert(edges@.take(i + 1).last() == e);
            }
            let through = dist[e.from].add(e.weight);
            if through.lt(dist[e.to]) {
                dist.set(e.to, through);
                pred.set(e.to, Some(e.from));
            }
            proof {
                let now = labels_of(dist@, pred@);
                assert(now.dist =~= relax(here, e).dist);
                assert(now.pred =~= relax(here, e).pred);
            }
            i += 1;
        }
        proof {
            assert(edges@.take(m as int) =~= edges@);
            lemma_reach(n as int, m as int, round as int, m as int);
        }
        round += 1;
    }
    (dist, pred)
}

/// For each edge in order, whether it is relaxable under `l`.
pub open spec fn improving(l: Labels, edges: Seq<Edge>) -> Seq<bool> {
    edges.map_values(|e: Edge| relaxable(l, e))
}

/// The index of the first edge that is relaxable under `l`, or `edges.len()`
/// if no edge is.
pub open spec fn first_relaxable(l: Labels, edges: Seq<Edge>) -> int {
    first_index(improving(l, edges), true)
}

/// One step back along the predecessor links; a node without a predecessor
/// counts as its own.
pub open spec fn ancestor(pred: Seq<Option<NodeId>>, x: NodeId) -> NodeId {
    match pred[x as int] {
        Some(p) => p,
        None => x,
    }
}

/// The walk back from the last node of `seen` until it steps on a node that
/// it has seen: the part of the walk from that node's first visit on, with
/// the node once more at the end. (The walk cannot see more nodes than there
/// are; saying so makes the definition end.)
pub open spec fn walk(pred: Seq<Option<NodeId>>, seen: Seq<NodeId>) -> Seq<NodeId>
    decreases pred.len() - seen.len(),
{
    let next = ancestor(pred, seen.last());
    let at = first_index(seen, next);
    if at < seen.len() || seen.len() >= pred.len() {
        seen.subrange(at, seen.len() as int).push(next)
    } else {
        walk(pred, seen.push(next))
    }
}

/// The closed path that the walk back from `anchor` ends in, in the direction
/// of its edges: it starts and ends at the node that the walk visits twice.
pub open spec fn cycle_from(pred: Seq<Option<NodeId>>, anchor: NodeId) -> Seq<NodeId> {
    walk(pred, seq![anchor]).reverse()
}

/// What a search from `source` returns: nothing where `source` is no node or
/// no edge improves any more after `n - 1` rounds; else the closed path found
/// by walking back from the target of the first edge that still does.
pub open spec fn negative_cycle(n: nat, edges: Seq<Edge>, source: NodeId) -> Option<Seq<NodeId>> {
    let l = settled(n, edges, source);
    let i = first_relaxable(l, edges);
    if source < n && i < edges.len() {
        Some(cycle_from(l.pred, edges[i].to))
    } else {
        None
    }
}

/// Whether the search from `source` reports a path that is no cycle of the
/// graph: the walk back came to a node without a predecessor, and the path
/// is that node alone, given twice.
pub open spec fn runs_out(n: nat, edges: Seq<Edge>, source: NodeId) -> bool {
    negative_cycle(n, edges, source) matches Some(path) && path.len() == 2 && settled(
        n,
        edges,
        source,
    ).pred[path[0] as int] is None
}

/// Walks back from `anchor` along the predecessor links until a node comes up
/// a second time, and returns the loop so closed, in the direction of the
/// links: it begins and ends with that node. A node without a predecessor
/// counts as its own.
pub fn trace(pred: &Vec<Option<NodeId>>, anchor: NodeId) -> (path: Vec<NodeId>)
    requires
        anchor < pred.len(),
        forall|v: int|
            0 <= v < pred.len() ==> (#[trigger] pred[v] matches Some(p) ==> p < pred.len()),
    ensures
        path@ == cycle_from(pred@, anchor),
        is_loop(path@, pred.len() as nat),
        steps_forward(pred@, path@),
{
    let n = pred.len();
    let mut seen: Vec<NodeId> = Vec::new();
    seen.push(anchor);
    assert(seen@ =~= seq![anchor]);
    loop
        invariant
            n == pred.len(),
            anchor < n,
            1 <= seen.len() <= n,
            seen@.no_duplicates(),
            forall|k: int| 0 <= k < seen.len() ==> seen[k] < n,
            forall|v: int| 0 <= v < n ==> (#[trigger] pred[v] matches Some(p) ==> p < n),
            walk(pred@, seen@) == walk(pred@, seq![anchor]),
        decreases n - seen.len(),
    {
        let last = seen[seen.len() - 1];
        let next = match pred[last] {
            Some(p) => p,
            None => last,
        };
        assert(next == ancestor(pred@, seen@.last()));
        let at = position(&seen, next);
        proof {
            lemma_first_index(seen@, next);
        }
        if at < seen.len() {
            let ghost segment = seen@.subrange(at as int, seen.len() as int).push(next);
            let mut path: Vec<NodeId> = Vec::new();
            path.push(next);
            let mut j: usize = seen.len();
            while j > at
                invariant
                    at <= j <= seen.len(),
                    path.len() == 1 + seen.len() - j,
                    segment == seen@.subrange(at as int, seen.len() as int).push(next),
                    forall|k: int|
                        0 <= k < path.len() ==> path[k] == segment[segment.len() - 1 - k],
                decreases j - at,
            {
                j -= 1;
                path.push(seen[j]);
            }
            assert(path@ =~= segment.reverse());
            proof {
                lemma_cycle_from(pred@, anchor, n as nat);
            }
            return path;
        }
        proof {
            let longer = seen@.push(next);
            assert forall|i: int, j: int|
                0 <= i < longer.len() && 0 <= j < longer.len() && i != j implies longer[i]
                != longer[j] by {
                if i < seen.len() && j < seen.len() {
                    assert(seen[i] != seen[j]);
                }
            }
            if seen.len() >= n {
                lemma_pigeonhole(longer, n as nat);
            }
        }
        seen.push(next);
    }
}

/// Searches for a negative cycle that can be reached from `source`, among
/// `n` nodes joined by `edges`. From a `source` that is none of the nodes
/// nothing can be reached, and the result is `None`. Neither the nodes nor
/// the edges may be more than `CAPACITY`: that keeps every distance within
/// 128 bits, whatever the weights.
///
/// The source starts at distance zero and every other node unreached. For
/// `n - 1` rounds every edge is relaxed, in the order given; only a strictly
/// shorter distance counts. If after that no edge improves its target, the
/// result is `None`. Otherwise the walk starts at the target of the first
/// edge that does and follows the predecessor links until a node comes up a
/// second time. The result is the loop so closed, in the direction of its
/// edges: it begins and ends with the node met twice, which need not be
/// `source`.
///
/// A path is returned exactly where the graph has a negative cycle that can
/// be reached from `source`. Where no two edges join the same ordered pair,
/// the path is itself such a cycle, unless the walk came to a node without
/// a predecessor; the path is then that node, twice.
pub fn find_negative_cycle(n: usize, edges: &Vec<Edge>, source: NodeId) -> (r: Option<Vec<NodeId>>)
    requires
        n <= CAPACITY,
        edges.len() <= CAPACITY,
        edges_within(edges@, n as nat),
    ensures
        match r {
            Some(path) => negative_cycle(n as nat, edges@, source) == Some(path@),
            None => negative_cycle(n as nat, edges@, source) is None,
        },
        r is Some <==> negative_cycle_reachable(edges@, source),
        r matches Some(path) ==> is_loop(path@, n as nat),
        r matches Some(path) ==> (pairs(edges@).no_duplicates() && !runs_out(
            n as nat,
            edges@,
            source,
        ) ==> is_negative_loop(edges@, path@, n as nat) && reachable(edges@, source, path[0])),
{
    if source >= n {
        proof {
            lemma_found_iff_reachable(n as nat, edges@, source);
        }
        return None;
    }
    let (dist, pred) = relax_all(n, edges, source);
    let ghost l = settled(n as nat, edges@, source);
    let m = edges.len();
    let ghost bound = reach((n - 1) * m);
    proof {
        lemma_reach(n as int, m as int, n as int, 0);
    }
    let mut i: usize = 0;
    while i < m
        invariant
            0 <= i <= m,
            source < n,
            m == edges.len(),
            edges_within(edges@, n as nat),
            l == labels_of(dist@, pred@),
            l == settled(n as nat, edges@, source),
            labels_within(l, n as nat, bound),
            0 <= bound,
            bound + span() <= i128::MAX,
            forall|j: int| 0 <= j < i ==> !improving(l, edges@)[j],
        decreases m - i,
    {
        let e = edges[i];
        proof {
            assert(l.dist[e.from as int] == dist[e.from as int]@);
            assert(l.dist[e.from as int] matches Some(d) ==> -bound <= d <= bound);
        }
        let through = dist[e.from].add(e.weight);
        if through.lt(dist[e.to]) {
            proof {
                lemma_first_index(improving(l, edges@), true);
                assert(improving(l, edges@)[i as int]);
                assert(improving(l, edges@).contains(true));
                lemma_found_iff_reachable(n as nat, edges@, source);
                lemma_path_is_loop(n as nat, edges@, source);
                if pairs(edges@).no_duplicates() {
                    lemma_path_negative(n as nat, edges@, source);
                    if !runs_out(n as nat, edges@, source) {
                        lemma_path_reachable(n as nat, edges@, source);
                    }
                }
                assert(forall|v: int|
                    0 <= v < n ==> (#[trigger] l.pred[v] matches Some(p) ==> p < n));
            }
            return Some(trace(&pred, e.to));
        }
        i += 1;
    }
    proof {
        lemma_first_index(improving(l, edges@), true);
        lemma_found_iff_reachable(n as nat, edges@, source);
    }
    None
}

} // verus!
