//! The inclusion-edge relation, held in a petgraph directed graph whose nodes
//! and edges carry no weights: node `i` of the graph is the variable with
//! handle `i`.
use petgraph::graph::{DiGraph, Graph, NodeIndex};
use petgraph::visit::EdgeRef;
use petgraph::Directed;
use vstd::prelude::*;

verus! {

#[verifier::external_type_specification]
#[verifier::external_body]
#[verifier::reject_recursive_types(N)]
#[verifier::reject_recursive_types(E)]
#[verifier::reject_recursive_types(Ty)]
#[verifier::reject_recursive_types(Ix)]
pub struct ExGraph<N, E, Ty, Ix>(Graph<N, E, Ty, Ix>);

#[verifier::external_type_specification]
#[verifier::external_body]
pub struct ExDirected(Directed);

/// How many nodes a graph holds.
pub uninterp spec fn graph_node_count(g: DiGraph<(), ()>) -> nat;

/// A graph's edges as (source, target) handles, in the order they were added.
pub uninterp spec fn graph_edges(g: DiGraph<(), ()>) -> Seq<(usize, usize)>;

/// Relies on petgraph's `Graph::new`: a graph without nodes or edges.
#[verifier::external_body]
pub(crate) fn graph_new() -> (g: DiGraph<(), ()>)
    ensures
        graph_node_count(g) == 0,
        graph_edges(g) == Seq::<(usize, usize)>::empty(),
{
    DiGraph::new()
}

/// Relies on petgraph's `Graph::add_node`: the new node's index is the old node
/// count, and the edges stay. It panics when that index would be `u32::MAX`.
#[verifier::external_body]
pub(crate) fn graph_add_node(g: &mut DiGraph<(), ()>) -> (r: usize)
    requires
        graph_node_count(*old(g)) < u32::MAX,
    ensures
        r == graph_node_count(*old(g)),
        graph_node_count(*final(g)) == graph_node_count(*old(g)) + 1,
        graph_edges(*final(g)) == graph_edges(*old(g)),
{
    g.add_node(()).index()
}

/// Relies on petgraph's `Graph::add_edge`: the edge is appended to the edge
/// list, parallel edges allowed. It panics on an unknown node, and when the
/// new edge's index would be `u32::MAX`.
#[verifier::external_body]
pub(crate) fn graph_add_edge(g: &mut DiGraph<(), ()>, a: usize, b: usize)
    requires
        a < graph_node_count(*old(g)),
        b < graph_node_count(*old(g)),
        graph_edges(*old(g)).len() < u32::MAX,
    ensures
        graph_node_count(*final(g)) == graph_node_count(*old(g)),
        graph_edges(*final(g)) == graph_edges(*old(g)).push((a, b)),
{
    g.add_edge(NodeIndex::new(a), NodeIndex::new(b), ());
}

/// Relies on petgraph's `Graph::contains_edge`: whether some edge goes from
/// `a` to `b`.
#[verifier::external_body]
pub(crate) fn graph_contains_edge(g: &DiGraph<(), ()>, a: usize, b: usize) -> (r: bool)
    requires
        a < graph_node_count(*g),
        b < graph_node_count(*g),
    ensures
        r == graph_edges(*g).contains((a, b)),
{
    g.contains_edge(NodeIndex::new(a), NodeIndex::new(b))
}

/// Relies on petgraph's `Graph::edge_references`: every edge, in index order,
/// which is the order of insertion.
#[verifier::external_body]
pub(crate) fn graph_edge_list(g: &DiGraph<(), ()>) -> (r: Vec<(usize, usize)>)
    ensures
        r@ == graph_edges(*g),
{
    g.edge_references().map(|e| (e.source().index(), e.target().index())).collect()
}

} // verus!
