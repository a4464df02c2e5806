//! The graph store: currency identity and the weighted edge set.

use crate::backend::{
    graph_add_node, graph_edge_count, graph_edge_list, graph_edge_weight, graph_edges,
    graph_find_edge, graph_new, graph_node_count, graph_node_name, graph_nodes, graph_update_edge,
    joins,
};
use crate::scan::{
    first_index, lemma_first_index, lemma_first_index_absent, lemma_first_index_at,
    lemma_first_index_push,
};
use petgraph::graph::Graph;
use petgraph::Directed;
use vstd::prelude::*;

verus! {

/// A handle for a currency: its position in the order of first appearance.
pub type NodeId = usize;

/// The largest number of nodes, and of edges, that a store can hold.
pub const CAPACITY: usize = 0xffff_ffff;

/// Whether `rate` is the bit pattern of a positive number: a 64-bit binary
/// floating-point value, as IEEE 754 lays it out, that is greater than zero
/// and finite. Such patterns are the integers from 1 up to, and not
/// including, the pattern of positive infinity.
pub open spec fn positive(rate: u64) -> bool {
    0 < rate < 0x7ff0_0000_0000_0000
}

/// Whether `rate` is the bit pattern of a positive number.
pub fn is_positive(rate: u64) -> (b: bool)
    ensures
        b == positive(rate),
{
    0 < rate && rate < 0x7ff0_0000_0000_0000
}

/// A directed edge: converting one unit of `from` yields `rate` units of `to`.
/// `weight` is the additive path weight that stands for the rate, in the
/// caller's fixed-point unit; `rate` is the rate itself as a bit pattern,
/// which the store keeps and hands back.
#[derive(Clone, Copy, Debug, PartialEq, Eq, Structural)]
pub struct Edge {
    pub from: NodeId,
    pub to: NodeId,
    pub weight: i64,
    pub rate: u64,
}

/// What a store holds: the currencies by node id, and the edges in the order
/// in which their ordered pairs first appeared.
pub struct GraphView {
    pub names: Seq<Seq<char>>,
    pub edges: Seq<Edge>,
}

/// The ordered pairs that the edges join, in the edges' order.
pub open spec fn pairs(edges: Seq<Edge>) -> Seq<(NodeId, NodeId)> {
    edges.map_values(|e: Edge| (e.from, e.to))
}

/// The index of the edge from `a` to `b`, or `edges.len()` if there is none.
pub open spec fn edge_index(edges: Seq<Edge>, a: NodeId, b: NodeId) -> int {
    first_index(pairs(edges), (a, b))
}

/// Whether there is an edge from `a` to `b`.
pub open spec fn has_edge(edges: Seq<Edge>, a: NodeId, b: NodeId) -> bool {
    edge_index(edges, a, b) < edges.len()
}

/// The edge from `a` to `b`, if there is one.
pub open spec fn lookup(edges: Seq<Edge>, a: NodeId, b: NodeId) -> Option<Edge> {
    if has_edge(edges, a, b) {
        Some(edges[edge_index(edges, a, b)])
    } else {
        None
    }
}

/// Insert or overwrite: the edge that joins the same ordered pair as `e` is
/// replaced in place; without one, `e` is appended.
pub open spec fn upsert(edges: Seq<Edge>, e: Edge) -> Seq<Edge> {
    if has_edge(edges, e.from, e.to) {
        edges.update(edge_index(edges, e.from, e.to), e)
    } else {
        edges.push(e)
    }
}

/// The names after `currency` has been given an id: unchanged if it had one.
pub open spec fn intern(names: Seq<Seq<char>>, currency: Seq<char>) -> Seq<Seq<char>> {
    if names.contains(currency) {
        names
    } else {
        names.push(currency)
    }
}

/// An upsert keeps the count where the pair has an edge and adds one where it
/// has none; afterwards the pair has an edge, at the index it had or else at
/// the end, and that edge is the new one.
pub proof fn lemma_upsert(edges: Seq<Edge>, e: Edge)
    ensures
        edges.len() <= upsert(edges, e).len() <= edges.len() + 1,
        0 <= edge_index(edges, e.from, e.to) <= edges.len(),
        has_edge(upsert(edges, e), e.from, e.to),
        edge_index(upsert(edges, e), e.from, e.to) == edge_index(edges, e.from, e.to),
        upsert(edges, e)[edge_index(edges, e.from, e.to)] == e,
        has_edge(edges, e.from, e.to) ==> pairs(upsert(edges, e)) == pairs(edges),
        !has_edge(edges, e.from, e.to) ==> pairs(upsert(edges, e)) == pairs(edges).push(
            (e.from, e.to),
        ),
{
    let p = pairs(edges);
    let u = upsert(edges, e);
    let key = (e.from, e.to);
    lemma_first_index(p, key);
    if has_edge(edges, e.from, e.to) {
        assert(pairs(u) =~= p);
    } else {
        assert(pairs(u) =~= p.push(key));
        assert forall|j: int| 0 <= j < p.len() implies pairs(u)[j] != key by {
            assert(pairs(u)[j] == p[j]);
        }
        lemma_first_index_at(pairs(u), key, p.len() as int);
    }
}

/// An upsert leaves the edges of all other pairs as they are, each at its index.
pub proof fn lemma_upsert_other(edges: Seq<Edge>, e: Edge, a: NodeId, b: NodeId)
    requires
        (a, b) != (e.from, e.to),
    ensures
        has_edge(upsert(edges, e), a, b) == has_edge(edges, a, b),
        has_edge(edges, a, b) ==> edge_index(upsert(edges, e), a, b) == edge_index(edges, a, b)
            && upsert(edges, e)[edge_index(edges, a, b)] == edges[edge_index(edges, a, b)],
{
    let p = pairs(edges);
    let u = upsert(edges, e);
    let key = (e.from, e.to);
    lemma_upsert(edges, e);
    lemma_first_index(p, (a, b));
    lemma_first_index(p, key);
    if has_edge(edges, a, b) {
        assert(p[edge_index(edges, a, b)] == (a, b));
        if !has_edge(edges, e.from, e.to) {
            lemma_first_index_push(p, key, (a, b));
        }
    } else {
        assert forall|j: int| 0 <= j < pairs(u).len() implies pairs(u)[j] != (a, b) by {
            if j < p.len() {
                assert(pairs(u)[j] == p[j]);
            }
        }
        lemma_first_index_absent(pairs(u), (a, b));
    }
}

/// Whether an edge joins two of `n` nodes and carries a positive rate.
pub open spec fn edge_fits(e: Edge, n: nat) -> bool {
    e.from < n && e.to < n && positive(e.rate)
}

impl GraphView {
    /// No currency has two ids, every edge joins known nodes and carries a
    /// positive rate, no ordered pair has two edges, and both counts are
    /// within `CAPACITY`.
    pub open spec fn wf(self) -> bool {
        &&& self.names.no_duplicates()
        &&& self.names.len() <= CAPACITY
        &&& self.edges.len() <= CAPACITY
        &&& forall|i: int|
            0 <= i < self.edges.len() ==> edge_fits(#[trigger] self.edges[i], self.names.len())
        &&& pairs(self.edges).no_duplicates()
    }
}

/// Whether the numbers of nodes and of edges are within `CAPACITY`.
pub open spec fn within_capacity(g: GraphView) -> bool {
    g.names.len() <= CAPACITY && g.edges.len() <= CAPACITY
}

/// Whether `count` exchanges fit in even if each brings two new currencies
/// and two new edges.
pub open spec fn has_room(g: GraphView, count: nat) -> bool {
    g.names.len() + 2 * count <= CAPACITY && g.edges.len() + 2 * count <= CAPACITY
}

/// The edge that the container's (source, target, weight, rate) stands for.
pub open spec fn edge_of(t: (usize, usize, i64, u64)) -> Edge {
    Edge { from: t.0, to: t.1, weight: t.2, rate: t.3 }
}

/// The currencies seen so far and the edges between them.
pub struct GraphStore {
    graph: Graph<String, (i64, u64), Directed, u32>,
}

impl View for GraphStore {
    type V = GraphView;

    closed spec fn view(&self) -> GraphView {
        GraphView {
            names: graph_nodes(self.graph),
            edges: graph_edges(self.graph).map_values(|t: (usize, usize, i64, u64)| edge_of(t)),
        }
    }
}

impl GraphStore {
    /// The store's invariant: what it holds is well formed.
    pub open spec fn wf(&self) -> bool {
        self@.wf()
    }

    /// An empty store.
    pub fn new() -> (s: GraphStore)
        ensures
            s.wf(),
            s@.names == Seq::<Seq<char>>::empty(),
            s@.edges == Seq::<Edge>::empty(),
    {
        let s = GraphStore { graph: graph_new() };
        assert(s@.edges =~= Seq::<Edge>::empty());
        s
    }

    /// The number of currencies seen so far.
    pub fn node_count(&self) -> (n: usize)
        ensures
            n == self@.names.len(),
    {
        graph_node_count(&self.graph)
    }

    /// The number of edges.
    pub fn edge_count(&self) -> (n: usize)
        ensures
            n == self@.edges.len(),
    {
        graph_edge_count(&self.graph)
    }

    /// Whether the store can take in `count` more exchanges whatever they
    /// are: each may bring two new currencies and two new edges. A batch of
    /// `count` exchanges then keeps the store within `CAPACITY`.
    pub fn fits(&self, count: usize) -> (b: bool)
        requires
            self.wf(),
        ensures
            b == has_room(self@, count as nat),
    {
        let nodes = graph_node_count(&self.graph);
        let edges = graph_edge_count(&self.graph);
        count <= CAPACITY / 2 && nodes <= CAPACITY - 2 * count && edges <= CAPACITY - 2 * count
    }

    /// The id of `currency`, if it has one.
    pub fn find(&self, currency: &String) -> (r: Option<NodeId>)
        requires
            self.wf(),
        ensures
            r == if self@.names.contains(currency@) {
                Some(first_index(self@.names, currency@) as usize)
            } else {
                None
            },
    {
        let n = graph_node_count(&self.graph);
        let mut i: usize = 0;
        while i < n
            invariant
                self.wf(),
                n == self@.names.len(),
                0 <= i <= n,
                forall|j: int| 0 <= j < i ==> self@.names[j] != currency@,
            decreases n - i,
        {
            let name = graph_node_name(&self.graph, i);
            if *name == *currency {
                proof {
                    lemma_first_index(self@.names, currency@);
                }
                return Some(i);
            }
            i += 1;
        }
        None
    }

    /// The id of `currency`: the one it has, or else the next one in sequence,
    /// which is then bound to it for good.
    pub fn id_for(&mut self, currency: String) -> (id: NodeId)
        requires
            old(self).wf(),
            old(self)@.names.contains(currency@) || old(self)@.names.len() < CAPACITY,
        ensures
            final(self).wf(),
            final(self)@.names == intern(old(self)@.names, currency@),
            final(self)@.edges == old(self)@.edges,
            id == first_index(final(self)@.names, currency@),
            id < final(self)@.names.len(),
    {
        proof {
            lemma_first_index(self@.names, currency@);
        }
        match self.find(&currency) {
            Some(id) => id,
            None => {
                let ghost before = self@;
                let id = graph_add_node(&mut self.graph, currency);
                proof {
                    lemma_first_index(self@.names, currency@);
                    assert(self@.names[id as int] == currency@);
                    assert(self@.names.no_duplicates()) by {
                        let names = self@.names;
                        assert forall|i: int, j: int|
                            0 <= i < names.len() && 0 <= j < names.len() && i != j implies names[i]
                            != names[j] by {
                            if i < before.names.len() {
                                assert(before.names[i] == self@.names[i]);
                            }
                            if j < before.names.len() {
                                assert(before.names[j] == self@.names[j]);
                            }
                        }
                    }
                    assert(self@.edges == before.edges);
                    assert forall|i: int| 0 <= i < self@.edges.len() implies edge_fits(
                        #[trigger] self@.edges[i],
                        self@.names.len(),
                    ) by {
                        assert(edge_fits(before.edges[i], before.names.len()));
                    }
                }
                id
            },
        }
    }

    /// Inserts the edge from `a` to `b`, or overwrites the one that is there:
    /// the latest weight and rate win, and no pair ever has two edges.
    pub fn upsert_edge(&mut self, a: NodeId, b: NodeId, weight: i64, rate: u64)
        requires
            old(self).wf(),
            a < old(self)@.names.len(),
            b < old(self)@.names.len(),
            positive(rate),
            has_edge(old(self)@.edges, a, b) || old(self)@.edges.len() < CAPACITY,
        ensures
            final(self).wf(),
            final(self)@.names == old(self)@.names,
            final(self)@.edges == upsert(old(self)@.edges, Edge { from: a, to: b, weight, rate }),
    {
        let ghost before = self@;
        let ghost raw = graph_edges(self.graph);
        let ghost e = Edge { from: a, to: b, weight, rate };
        proof {
            lemma_first_index(pairs(before.edges), (a, b));
            if has_edge(before.edges, a, b) {
                assert(joins(raw, edge_index(before.edges, a, b), a, b));
            }
        }
        graph_update_edge(&mut self.graph, a, b, weight, rate);
        proof {
            let now = graph_edges(self.graph);
            if exists|i: int| joins(raw, i, a, b) {
                let i = choose|i: int|
                    #![trigger raw[i]]
                    joins(raw, i, a, b) && now == raw.update(i, (a, b, weight, rate));
                assert(pairs(before.edges)[i] == (a, b));
                assert(edge_index(before.edges, a, b) == i);
                assert(self@.edges =~= before.edges.update(i, e));
                assert(pairs(self@.edges) =~= pairs(before.edges));
            } else {
                assert forall|i: int|
                    0 <= i < before.edges.len() implies pairs(before.edges)[i] != (a, b) by {
                    assert(!joins(raw, i, a, b));
                }
                assert(self@.edges =~= before.edges.push(e));
                assert(pairs(self@.edges) =~= pairs(before.edges).push((a, b)));
            }
            assert forall|i: int| 0 <= i < self@.edges.len() implies edge_fits(
                #[trigger] self@.edges[i],
                self@.names.len(),
            ) by {
                if i < before.edges.len() && self@.edges[i] != e {
                    assert(edge_fits(before.edges[i], before.names.len()));
                }
            }
        }
    }

    /// The edge from `a` to `b`, if there is one.
    pub fn edge_between(&self, a: NodeId, b: NodeId) -> (r: Option<Edge>)
        requires
            self.wf(),
        ensures
            r == lookup(self@.edges, a, b),
    {
        let n = graph_node_count(&self.graph);
        proof {
            lemma_first_index(pairs(self@.edges), (a, b));
        }
        if a >= n || b >= n {
            proof {
                if has_edge(self@.edges, a, b) {
                    assert(self@.edges[edge_index(self@.edges, a, b)].from < n);
                }
            }
            return None;
        }
        match graph_find_edge(&self.graph, a, b) {
            Some(i) => {
                let w = graph_edge_weight(&self.graph, i);
                proof {
                    assert(pairs(self@.edges)[i as int] == (a, b));
                }
                Some(Edge { from: a, to: b, weight: w.0, rate: w.1 })
            },
            None => {
                proof {
                    if has_edge(self@.edges, a, b) {
                        assert(joins(graph_edges(self.graph), edge_index(self@.edges, a, b), a, b));
                    }
                }
                None
            },
        }
    }

    /// The rate of the edge from `a` to `b`, a positive number's bit pattern;
    /// `None` where the store has no such edge.
    pub fn rate_of(&self, a: NodeId, b: NodeId) -> (r: Option<u64>)
        requires
            self.wf(),
        ensures
            r == match lookup(self@.edges, a, b) {
                Some(e) => Some(e.rate),
                None => None,
            },
            r matches Some(rate) ==> positive(rate),
    {
        proof {
            lemma_first_index(pairs(self@.edges), (a, b));
        }
        match self.edge_between(a, b) {
            Some(e) => Some(e.rate),
            None => None,
        }
    }

    /// The ids handed out so far, in the order in which they were assigned.
    pub fn all_node_ids(&self) -> (ids: Vec<NodeId>)
        ensures
            ids@ == Seq::new(self@.names.len(), |i: int| i as NodeId),
    {
        let n = graph_node_count(&self.graph);
        let mut ids: Vec<NodeId> = Vec::new();
        let mut i: usize = 0;
        while i < n
            invariant
                0 <= i <= n,
                ids@ == Seq::new(i as nat, |i: int| i as NodeId),
            decreases n - i,
        {
            ids.push(i);
            assert(ids@ =~= Seq::new((i + 1) as nat, |i: int| i as NodeId));
            i += 1;
        }
        ids
    }

    /// The currency that `id` stands for.
    pub fn name_of(&self, id: NodeId) -> (name: String)
        requires
            self.wf(),
            id < self@.names.len(),
        ensures
            name@ == self@.names[id as int],
    {
        graph_node_name(&self.graph, id).clone()
    }

    /// All edges, in the store's order.
    pub fn edge_list(&self) -> (edges: Vec<Edge>)
        ensures
            edges@ == self@.edges,
    {
        let raw = graph_edge_list(&self.graph);
        let mut edges: Vec<Edge> = Vec::new();
        let mut i: usize = 0;
        while i < raw.len()
            invariant
                0 <= i <= raw.len(),
                raw@ == graph_edges(self.graph),
                edges@ == self@.edges.take(i as int),
            decreases raw.len() - i,
        {
            let t = raw[i];
            edges.push(Edge { from: t.0, to: t.1, weight: t.2, rate: t.3 });
            assert(edges@ =~= self@.edges.take(i + 1));
            i += 1;
        }
        assert(self@.edges.take(i as int) =~= self@.edges);
        edges
    }
}

} // verus!
