//! The graph container that holds currencies and rate edges, and what this
//! crate relies on for each of its operations.
//!
//! The container keeps its nodes and its edges in two arrays, in the order in
//! which they were added; a node or an edge is never removed here, so an index
//! stays valid once handed out. The two functions without a body below name
//! those arrays; every contract in this file is stated over them and is taken
//! on trust from the container's implementation.

use petgraph::graph::{EdgeIndex, Graph, NodeIndex};
use petgraph::Directed;
use vstd::prelude::*;

verus! {

/// `petgraph::graph::Graph`, taken as opaque: node labels `N`, edge data `E`,
/// direction marker `Ty`, index type `Ix`.
#[verifier::external_type_specification]
#[verifier::external_body]
#[verifier::reject_recursive_types(N)]
#[verifier::reject_recursive_types(E)]
#[verifier::reject_recursive_types(Ty)]
#[verifier::reject_recursive_types(Ix)]
pub struct ExGraph<N, E, Ty, Ix>(Graph<N, E, Ty, Ix>);

/// `petgraph::Directed`, the marker of a graph whose edges have a direction.
#[verifier::external_type_specification]
#[verifier::external_body]
pub struct ExDirected(Directed);

/// The node labels of a graph, by node index.
pub uninterp spec fn graph_nodes(g: Graph<String, (i64, u64), Directed, u32>) -> Seq<Seq<char>>;

/// The edges of a graph by edge index, each as (source, target, weight, rate).
pub uninterp spec fn graph_edges(g: Graph<String, (i64, u64), Directed, u32>) -> Seq<
    (usize, usize, i64, u64),
>;

/// Whether `edges` holds an edge from `a` to `b` at index `i`.
pub open spec fn joins(edges: Seq<(usize, usize, i64, u64)>, i: int, a: usize, b: usize) -> bool {
    0 <= i < edges.len() && edges[i].0 == a && edges[i].1 == b
}

/// `Graph::new`: a graph without nodes or edges.
#[verifier::external_body]
pub(crate) fn graph_new() -> (g: Graph<String, (i64, u64), Directed, u32>)
    ensures
        graph_nodes(g) == Seq::<Seq<char>>::empty(),
        graph_edges(g) == Seq::<(usize, usize, i64, u64)>::empty(),
{
    Graph::new()
}

/// `Graph::node_count`: the number of nodes.
#[verifier::external_body]
pub(crate) fn graph_node_count(g: &Graph<String, (i64, u64), Directed, u32>) -> (n: usize)
    ensures
        n == graph_nodes(*g).len(),
{
    g.node_count()
}

/// `Graph::edge_count`: the number of edges.
#[verifier::external_body]
pub(crate) fn graph_edge_count(g: &Graph<String, (i64, u64), Directed, u32>) -> (n: usize)
    ensures
        n == graph_edges(*g).len(),
{
    g.edge_count()
}

/// `Graph::add_node`: appends a node with the given label and returns its
/// index, which is the node count before the call. Edges are untouched. The
/// container panics once its 32-bit index space is used up; the precondition
/// keeps clear of that.
#[verifier::external_body]
pub(crate) fn graph_add_node(g: &mut Graph<String, (i64, u64), Directed, u32>, name: String) -> (id:
    usize)
    requires
        graph_nodes(*old(g)).len() < u32::MAX,
    ensures
        graph_nodes(*final(g)) == graph_nodes(*old(g)).push(name@),
        graph_edges(*final(g)) == graph_edges(*old(g)),
        id == graph_nodes(*old(g)).len(),
{
    g.add_node(name).index()
}

/// Indexing a graph by a node index: the label of node `i`. Panics for an
/// index that is not a node's, which the precondition excludes.
#[verifier::external_body]
pub(crate) fn graph_node_name(g: &Graph<String, (i64, u64), Directed, u32>, i: usize) -> (name:
    &String)
    requires
        i < graph_nodes(*g).len(),
        graph_nodes(*g).len() <= u32::MAX,
    ensures
        name@ == graph_nodes(*g)[i as int],
{
    &g[NodeIndex::new(i)]
}

/// `Graph::update_edge`: where an edge from `a` to `b` exists, one such edge
/// gets the new weight and rate and keeps its index; where none exists, a new
/// edge is appended. Nodes and all other edges are untouched. Panics when `a`
/// or `b` is no node, or when an edge has to be added and the 32-bit index
/// space is used up; the preconditions exclude both.
#[verifier::external_body]
pub(crate) fn graph_update_edge(
    g: &mut Graph<String, (i64, u64), Directed, u32>,
    a: usize,
    b: usize,
    weight: i64,
    rate: u64,
)
    requires
        a < graph_nodes(*old(g)).len(),
        b < graph_nodes(*old(g)).len(),
        graph_nodes(*old(g)).len() <= u32::MAX,
        (exists|i: int| joins(graph_edges(*old(g)), i, a, b)) || graph_edges(*old(g)).len()
            < u32::MAX,
    ensures
        graph_nodes(*final(g)) == graph_nodes(*old(g)),
        (exists|i: int| joins(graph_edges(*old(g)), i, a, b)) ==> (exists|i: int|
            #![trigger graph_edges(*old(g))[i]]
            joins(graph_edges(*old(g)), i, a, b) && graph_edges(*final(g)) == graph_edges(
                *old(g),
            ).update(i, (a, b, weight, rate))),
        !(exists|i: int| joins(graph_edges(*old(g)), i, a, b)) ==> graph_edges(*final(g))
            == graph_edges(*old(g)).push((a, b, weight, rate)),
{
    g.update_edge(NodeIndex::new(a), NodeIndex::new(b), (weight, rate));
}

/// `Graph::find_edge`: the index of an edge from `a` to `b`, or `None` where
/// the graph has no such edge.
#[verifier::external_body]
pub(crate) fn graph_find_edge(
    g: &Graph<String, (i64, u64), Directed, u32>,
    a: usize,
    b: usize,
) -> (r: Option<usize>)
    requires
        a < graph_nodes(*g).len(),
        b < graph_nodes(*g).len(),
        graph_nodes(*g).len() <= u32::MAX,
    ensures
        match r {
            Some(i) => joins(graph_edges(*g), i as int, a, b),
            None => forall|i: int| !joins(graph_edges(*g), i, a, b),
        },
{
    g.find_edge(NodeIndex::new(a), NodeIndex::new(b)).map(|e| e.index())
}

/// Indexing a graph by an edge index: the weight and rate of edge `i`. Panics
/// for an index that is not an edge's, which the precondition excludes.
#[verifier::external_body]
pub(crate) fn graph_edge_weight(g: &Graph<String, (i64, u64), Directed, u32>, i: usize) -> (r: (
    i64,
    u64,
))
    requires
        i < graph_edges(*g).len(),
        graph_edges(*g).len() <= u32::MAX,
    ensures
        r.0 == graph_edges(*g)[i as int].2,
        r.1 == graph_edges(*g)[i as int].3,
{
    g[EdgeIndex::new(i)]
}

/// `Graph::raw_edges`: all edges, in the order of their indices.
#[verifier::external_body]
pub(crate) fn graph_edge_list(g: &Graph<String, (i64, u64), Directed, u32>) -> (r: Vec<
    (usize, usize, i64, u64),
>)
    ensures
        r@ == graph_edges(*g),
{
    g.raw_edges()
        .iter()
        .map(|e| (e.source().index(), e.target().index(), e.weight.0, e.weight.1))
        .collect()
}

} // verus!
