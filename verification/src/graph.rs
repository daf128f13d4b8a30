//! The distance graph: a directed graph keyed by event IDs with one weight
//! per ordered pair, stored in a `petgraph` graph map.
//!
//! Nothing here is proved. Each function makes one call into `petgraph` and
//! states what that call does to the nodes and edges of the graph.

use petgraph::graphmap::{DiGraphMap, GraphMap};
use petgraph::Directed;
use std::hash::BuildHasher;
use vstd::prelude::*;

verus! {

/// `petgraph`'s graph map. The verifier sees none of its fields.
#[verifier::external_type_specification]
#[verifier::external_body]
#[verifier::reject_recursive_types(N)]
#[verifier::reject_recursive_types(E)]
#[verifier::reject_recursive_types(Ty)]
#[verifier::reject_recursive_types(S)]
pub struct ExGraphMap<N, E, Ty, S: BuildHasher>(GraphMap<N, E, Ty, S>);

/// `petgraph`'s marker for graphs with directed edges.
#[verifier::external_type_specification]
#[verifier::external_body]
pub struct ExDirected(Directed);

/// The nodes of the graph, in the order in which the graph lists them. A
/// node that is added comes last.
pub uninterp spec fn graph_nodes(g: DiGraphMap<i32, i64>) -> Seq<i32>;

/// The weight of each edge of the graph, keyed by `(source, target)`.
pub uninterp spec fn graph_edges(g: DiGraphMap<i32, i64>) -> Map<(i32, i32), i64>;

/// `nodes` with `n` appended unless it is already there.
pub open spec fn with_node(nodes: Seq<i32>, n: i32) -> Seq<i32> {
    if nodes.contains(n) {
        nodes
    } else {
        nodes.push(n)
    }
}

/// The weight of the edge from `a` to `b`, if there is one.
pub open spec fn edge_of(edges: Map<(i32, i32), i64>, a: i32, b: i32) -> Option<i64> {
    if edges.dom().contains((a, b)) {
        Some(edges[(a, b)])
    } else {
        None
    }
}

/// The edges of a graph that has none.
pub open spec fn no_edges() -> Map<(i32, i32), i64> {
    Map::empty()
}

/// `DiGraphMap::new`: a graph without nodes or edges.
#[verifier::external_body]
pub(crate) fn graph_new() -> (g: DiGraphMap<i32, i64>)
    ensures
        graph_nodes(g) == Seq::<i32>::empty(),
        graph_edges(g) == no_edges(),
{
    DiGraphMap::new()
}

/// `GraphMap::add_node`: appends `n` to the nodes unless it is already one
/// of them, leaves the edges alone and hands `n` back.
#[verifier::external_body]
pub(crate) fn graph_add_node(g: &mut DiGraphMap<i32, i64>, n: i32) -> (r: i32)
    ensures
        r == n,
        graph_nodes(*final(g)) == with_node(graph_nodes(*old(g)), n),
        graph_edges(*final(g)) == graph_edges(*old(g)),
{
    g.add_node(n)
}

/// `GraphMap::add_edge`: sets the weight of the edge from `a` to `b`, and
/// returns the weight it had before, if any. Where the edge is new, `a` and
/// then `b` become nodes unless they already are.
#[verifier::external_body]
pub(crate) fn graph_add_edge(g: &mut DiGraphMap<i32, i64>, a: i32, b: i32, weight: i64) -> (r:
    Option<i64>)
    ensures
        r == edge_of(graph_edges(*old(g)), a, b),
        graph_edges(*final(g)) == graph_edges(*old(g)).insert((a, b), weight),
        graph_nodes(*final(g)) == if r.is_some() {
            graph_nodes(*old(g))
        } else {
            with_node(with_node(graph_nodes(*old(g)), a), b)
        },
{
    g.add_edge(a, b, weight)
}

/// `GraphMap::contains_node`: whether `n` is a node of the graph.
#[verifier::external_body]
pub(crate) fn graph_contains_node(g: &DiGraphMap<i32, i64>, n: i32) -> (r: bool)
    ensures
        r == graph_nodes(*g).contains(n),
{
    g.contains_node(n)
}

/// `GraphMap::node_count`: the number of nodes.
#[verifier::external_body]
pub(crate) fn graph_node_count(g: &DiGraphMap<i32, i64>) -> (r: usize)
    ensures
        r == graph_nodes(*g).len(),
{
    g.node_count()
}

/// `GraphMap::edge_weight`: the weight of the edge from `a` to `b`, or `None`
/// where the graph has no such edge.
#[verifier::external_body]
pub(crate) fn graph_edge_weight(g: &DiGraphMap<i32, i64>, a: i32, b: i32) -> (r: Option<i64>)
    ensures
        r == edge_of(graph_edges(*g), a, b),
{
    g.edge_weight(a, b).copied()
}

/// `GraphMap::nodes`: every node once, in the order in which the graph
/// lists them.
#[verifier::external_body]
pub(crate) fn graph_node_list(g: &DiGraphMap<i32, i64>) -> (r: Vec<i32>)
    ensures
        r@ == graph_nodes(*g),
        r@.no_duplicates(),
{
    g.nodes().collect()
}

/// `GraphMap::neighbors`: the targets of the edges that leave `a`, each once.
/// The order is not stated.
#[verifier::external_body]
pub(crate) fn graph_neighbors(g: &DiGraphMap<i32, i64>, a: i32) -> (r: Vec<i32>)
    ensures
        r@.no_duplicates(),
        forall|b: i32| r@.contains(b) <==> graph_edges(*g).dom().contains((a, b)),
{
    g.neighbors(a).collect()
}

/// `GraphMap::neighbors_directed` with `Incoming`: the sources of the edges
/// that enter `a`, each once. The order is not stated.
#[verifier::external_body]
pub(crate) fn graph_incoming(g: &DiGraphMap<i32, i64>, a: i32) -> (r: Vec<i32>)
    ensures
        r@.no_duplicates(),
        forall|b: i32| r@.contains(b) <==> graph_edges(*g).dom().contains((b, a)),
{
    g.neighbors_directed(a, petgraph::Incoming).collect()
}

} // verus!
