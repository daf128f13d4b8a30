//! A directed graph with indexed nodes and edges, stored in a `petgraph`
//! graph. Nodes carry an ID, edges a weight; both are known by the index at
//! which they were added.
//!
//! Nothing here is proved. Each function makes one call into `petgraph` and
//! states what that call does to the nodes and edges of the graph.

use petgraph::graph::{EdgeIndex, Graph, NodeIndex};
use vstd::prelude::*;

verus! {

/// `petgraph`'s graph. The verifier sees none of its fields.
#[verifier::external_type_specification]
#[verifier::external_body]
#[verifier::reject_recursive_types(N)]
#[verifier::reject_recursive_types(E)]
#[verifier::reject_recursive_types(Ty)]
#[verifier::reject_recursive_types(Ix)]
pub struct ExGraph<N, E, Ty, Ix>(Graph<N, E, Ty, Ix>);

/// The ID that each node of the graph carries, by node index.
pub uninterp spec fn digraph_nodes(g: Graph<i32, i64>) -> Seq<i32>;

/// The edges of the graph by edge index, each as the index of its source,
/// the index of its target, and its weight.
pub uninterp spec fn digraph_edges(g: Graph<i32, i64>) -> Seq<(usize, usize, i64)>;

/// Whether the edge at index `e` leads from node `a` to node `b`.
pub open spec fn joins(edges: Seq<(usize, usize, i64)>, e: int, a: usize, b: usize) -> bool {
    0 <= e < edges.len() && edges[e].0 == a && edges[e].1 == b
}

/// Whether some edge leads from node `a` to node `b`.
pub open spec fn linked(edges: Seq<(usize, usize, i64)>, a: usize, b: usize) -> bool {
    exists|e: int| joins(edges, e, a, b)
}

/// `Graph::new`: a graph without nodes or edges.
#[verifier::external_body]
pub(crate) fn digraph_new() -> (g: Graph<i32, i64>)
    ensures
        digraph_nodes(g).len() == 0,
        digraph_edges(g).len() == 0,
{
    Graph::new()
}

/// `Graph::node_count`: the number of nodes.
#[verifier::external_body]
pub(crate) fn digraph_node_count(g: &Graph<i32, i64>) -> (r: usize)
    ensures
        r == digraph_nodes(*g).len(),
{
    g.node_count()
}

/// `Graph::edge_count`: the number of edges.
#[verifier::external_body]
pub(crate) fn digraph_edge_count(g: &Graph<i32, i64>) -> (r: usize)
    ensures
        r == digraph_edges(*g).len(),
{
    g.edge_count()
}

/// `Graph::add_node`: appends a node that carries `id` and returns its
/// index. The graph takes fewer nodes than `u32::MAX`.
#[verifier::external_body]
pub(crate) fn digraph_add_node(g: &mut Graph<i32, i64>, id: i32) -> (r: usize)
    requires
        digraph_nodes(*old(g)).len() < 0xffff_ffff,
    ensures
        r == digraph_nodes(*old(g)).len(),
        digraph_nodes(*final(g)) == digraph_nodes(*old(g)).push(id),
        digraph_edges(*final(g)) == digraph_edges(*old(g)),
{
    g.add_node(id).index()
}

/// `Graph::add_edge`: appends an edge from node `a` to node `b`, beside any
/// edge that already leads there, and returns its index. Both nodes must
/// exist, and the graph takes fewer edges than `u32::MAX`.
#[verifier::external_body]
pub(crate) fn digraph_add_edge(g: &mut Graph<i32, i64>, a: usize, b: usize, weight: i64) -> (r:
    usize)
    requires
        a < digraph_nodes(*old(g)).len(),
        b < digraph_nodes(*old(g)).len(),
        digraph_edges(*old(g)).len() < 0xffff_ffff,
    ensures
        r == digraph_edges(*old(g)).len(),
        digraph_nodes(*final(g)) == digraph_nodes(*old(g)),
        digraph_edges(*final(g)) == digraph_edges(*old(g)).push((a, b, weight)),
{
    g.add_edge(NodeIndex::new(a), NodeIndex::new(b), weight).index()
}

/// `Graph::update_edge`: where an edge leads from node `a` to node `b`, one
/// such edge takes the weight; otherwise a new edge is appended. Returns the
/// index of that edge. Both nodes must exist, and the graph takes fewer
/// edges than `u32::MAX`.
#[verifier::external_body]
pub(crate) fn digraph_update_edge(g: &mut Graph<i32, i64>, a: usize, b: usize, weight: i64) -> (r:
    usize)
    requires
        a < digraph_nodes(*old(g)).len(),
        b < digraph_nodes(*old(g)).len(),
        digraph_edges(*old(g)).len() < 0xffff_ffff,
    ensures
        digraph_nodes(*final(g)) == digraph_nodes(*old(g)),
        linked(digraph_edges(*old(g)), a, b) ==> joins(digraph_edges(*old(g)), r as int, a, b),
        digraph_edges(*final(g)) == if linked(digraph_edges(*old(g)), a, b) {
            digraph_edges(*old(g)).update(r as int, (a, b, weight))
        } else {
            digraph_edges(*old(g)).push((a, b, weight))
        },
        !linked(digraph_edges(*old(g)), a, b) ==> r == digraph_edges(*old(g)).len(),
{
    g.update_edge(NodeIndex::new(a), NodeIndex::new(b), weight).index()
}

/// `Graph::find_edge`: the index of an edge from node `a` to node `b`, or
/// `None` where no edge leads there. Indices are 32 bits wide.
#[verifier::external_body]
pub(crate) fn digraph_find_edge(g: &Graph<i32, i64>, a: usize, b: usize) -> (r: Option<usize>)
    requires
        a <= 0xffff_ffff,
        b <= 0xffff_ffff,
    ensures
        r matches Some(e) ==> joins(digraph_edges(*g), e as int, a, b),
        r is None ==> !linked(digraph_edges(*g), a, b),
{
    g.find_edge(NodeIndex::new(a), NodeIndex::new(b)).map(|e| e.index())
}

/// `Graph::edge_weight`: the weight of the edge at index `e`, or `None`
/// where the graph has no such edge. Indices are 32 bits wide.
#[verifier::external_body]
pub(crate) fn digraph_edge_weight(g: &Graph<i32, i64>, e: usize) -> (r: Option<i64>)
    requires
        e <= 0xffff_ffff,
    ensures
        r == if e < digraph_edges(*g).len() {
            Some(digraph_edges(*g)[e as int].2)
        } else {
            None
        },
{
    g.edge_weight(EdgeIndex::new(e)).copied()
}

} // verus!
