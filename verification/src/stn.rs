//! A simple temporal network registered in one piece: a list of edges
//! between numbered nodes becomes a distance graph, the graph a table of
//! shortest distances, and the table the bounds within which each node can
//! be scheduled.

use crate::algorithms::{cell, close_table, table_of, DistanceTable};
use crate::digraph::{
    digraph_add_edge, digraph_add_node, digraph_edge_count, digraph_edge_weight, digraph_edges,
    digraph_find_edge, digraph_new, digraph_node_count, digraph_nodes, digraph_update_edge, joins,
    linked,
};
use crate::error::ScheduleError;
use crate::indexing::{
    first_nodes, has_index, holds_id, ids_of, index_for, indexed, lemma_ascending_distinct,
    lemma_index_for,
    lemma_link_weight, lemma_listed, lemma_old_index_below, lemma_refresh, lemma_update, set_index,
    simple, weights_of,
};
use crate::interval::{clamp, clamp_negated, clamp_ticks, Interval, TIME_MAX};
use crate::network::Network;
pub use crate::registration::{
    edge_constraint, Edge, RegistrationEnum, RegistrationOptions, RegistrationPayload,
};
use crate::registration::{
    added, ascending, named_nodes, names, payload_nodes, recorded, refreshed, reset_bounds,
};
use crate::render::{decimal, integer_text, push_decimal, push_integer, push_ticks, ticks_text};
use petgraph::graph::Graph;
use std::collections::HashMap;
use vstd::prelude::*;
use vstd::string::StringExecFns;

verus! {

broadcast use vstd::std_specs::hash::group_hash_axioms;

/// A simple temporal network: its nodes, its distance graph, the table of
/// shortest distances between the nodes, and the bounds of each node.
#[derive(Debug)]
pub struct STN {
    /// The index in the graph of each node, in ascending order of the IDs.
    node_indices: Vec<(i32, usize)>,
    distance_graph: Graph<i32, i64>,
    /// The shortest distances, as of the last time they were computed.
    constraint_table: DistanceTable,
    /// The interval within which each node can be scheduled, by ID.
    bounds: HashMap<i32, Interval>,
}

impl STN {
    /// The index in the graph of each node, in ascending order of the IDs.
    pub closed spec fn pairs(&self) -> Seq<(i32, usize)> {
        self.node_indices@
    }

    /// The number of nodes that the graph has ever been given.
    pub closed spec fn node_count(&self) -> nat {
        digraph_nodes(self.distance_graph).len()
    }

    /// The edges of the graph by edge index, each as the index of its
    /// source, the index of its target, and its weight.
    pub closed spec fn edges(&self) -> Seq<(usize, usize, i64)> {
        digraph_edges(self.distance_graph)
    }

    /// The table of shortest distances.
    pub closed spec fn table(&self) -> DistanceTable {
        self.constraint_table
    }

    /// The bounds of each node, by ID.
    pub closed spec fn bounds(&self) -> Map<i32, Interval> {
        self.bounds@
    }

    /// The distance graph as a network: the nodes in ascending order, and
    /// the weight of each edge by the IDs of its source and target.
    pub open spec fn network(&self) -> Network {
        Network { nodes: ids_of(self.pairs()), weights: weights_of(self.pairs(), self.edges()) }
    }

    /// What holds of every network: each node is listed once with an index
    /// of its own, no two edges join the same nodes in the same direction,
    /// and nodes and edges are few enough for 32-bit indices.
    pub open spec fn wf(&self) -> bool {
        &&& indexed(self.pairs(), self.node_count())
        &&& simple(self.edges(), self.node_count())
        &&& self.node_count() <= 0xffff_ffff
        &&& self.edges().len() <= 0xffff_ffff
        &&& self.table().wf()
    }

    /// Creates a network without nodes.
    pub fn new() -> (r: STN)
        ensures
            r.wf(),
            r.pairs().len() == 0,
            r.node_count() == 0,
            r.edges().len() == 0,
            r.table().nodes().len() == 0,
            r.bounds() == Map::<i32, Interval>::empty(),
    {
        STN {
            bounds: HashMap::new(),
            node_indices: Vec::new(),
            distance_graph: digraph_new(),
            constraint_table: DistanceTable::new(),
        }
    }

    /// The number of nodes and the number of edges that the graph holds.
    pub fn graph_size(&self) -> (r: (usize, usize))
        ensures
            r.0 == self.node_count(),
            r.1 == self.edges().len(),
    {
        (digraph_node_count(&self.distance_graph), digraph_edge_count(&self.distance_graph))
    }

    /// The index in the graph of node `id`.
    pub fn node_index(&self, id: i32) -> (r: Option<usize>)
        requires
            self.wf(),
        ensures
            r == index_for(self.pairs(), id),
    {
        let mut p: usize = 0;
        while p < self.node_indices.len()
            invariant
                p <= self.node_indices@.len(),
                indexed(self.node_indices@, self.node_count()),
                forall|r: int| 0 <= r < p ==> self.node_indices@[r].0 != id,
            decreases self.node_indices@.len() - p,
        {
            if self.node_indices[p].0 == id {
                proof {
                    lemma_index_for(self.node_indices@, self.node_count(), p as int);
                }
                return Some(self.node_indices[p].1);
            }
            p += 1;
        }
        assert(forall|r: int| !holds_id(self.pairs(), r, id));
        None
    }

    /// The index of the edge from the node at index `a` to the node at index
    /// `b` of the graph.
    pub fn find_edge(&self, a: usize, b: usize) -> (r: Option<usize>)
        requires
            self.wf(),
        ensures
            r matches Some(e) ==> joins(self.edges(), e as int, a, b),
            r is None ==> !linked(self.edges(), a, b),
    {
        if a > 0xffff_ffff || b > 0xffff_ffff {
            assert forall|e: int| !joins(self.edges(), e, a, b) by {
                if 0 <= e < self.edges().len() {
                    assert(self.edges()[e].0 < self.node_count());
                }
            }
            return None;
        }
        digraph_find_edge(&self.distance_graph, a, b)
    }

    /// The weight of the edge at index `e` of the graph.
    pub fn edge_weight(&self, e: usize) -> (r: Option<i64>)
        requires
            self.wf(),
        ensures
            r == if e < self.edges().len() {
                Some(self.edges()[e as int].2)
            } else {
                None
            },
    {
        if e > 0xffff_ffff {
            return None;
        }
        digraph_edge_weight(&self.distance_graph, e)
    }

    /// The shortest distance from node `from` to node `to`, as of the last
    /// time the distances were computed.
    pub fn constraint(&self, from: i32, to: i32) -> (r: Option<i128>)
        requires
            self.wf(),
        ensures
            cell(r) == self.table().spec_distance(from, to),
    {
        self.constraint_table.distance(from, to)
    }

    /// The bounds of node `id`.
    pub fn bound(&self, id: i32) -> (r: Option<Interval>)
        ensures
            r == if self.bounds().dom().contains(id) {
                Some(self.bounds()[id])
            } else {
                None
            },
    {
        match self.bounds.get(&id) {
            Some(b) => Some(*b),
            None => None,
        }
    }

    /// The number of nodes that have bounds.
    pub fn bounds_len(&self) -> (r: usize)
        ensures
            r == self.bounds().dom().len(),
    {
        self.bounds.len()
    }
}

/// Builds the distance graph from the edges of a payload.
///
/// Every node that the payload names is registered anew, in ascending order
/// of the IDs: it gets the bounds `[0, 0]`, a fresh node in the graph, and
/// an edge of weight zero to itself. Then every edge of the payload records
/// its constraint `[lower, upper]`, in the order of the payload: `-lower` on
/// the edge from target to source, then `upper` on the edge from source to
/// target. Returns the number of nodes and the number of edges of the graph.
pub fn build_distance_graph(
    stn: &mut STN,
    data: &RegistrationPayload,
    options: &RegistrationOptions,
) -> (r: Result<(usize, usize), ScheduleError>)
    requires
        old(stn).wf(),
        old(stn).node_count() + 2 * data.edges@.len() <= 0xffff_ffff,
        old(stn).edges().len() + 4 * data.edges@.len() <= 0xffff_ffff,
    ensures
        final(stn).wf(),
        final(stn).table() == old(stn).table(),
        forall|y: i32| #[trigger]
            final(stn).network().nodes.contains(y) <==> old(stn).network().nodes.contains(y)
                || named_nodes(data.edges@).contains(y),
        final(stn).network().weights == recorded(
            refreshed(old(stn).network().weights, named_nodes(data.edges@)),
            data.edges@,
            *options,
            data.edges@.len(),
        ),
        final(stn).bounds() == reset_bounds(old(stn).bounds(), named_nodes(data.edges@)),
        named_nodes(data.edges@).finite(),
        final(stn).node_count() == old(stn).node_count() + named_nodes(data.edges@).len(),
        final(stn).edges().len() == old(stn).edges().len() + named_nodes(data.edges@).len() + added(
            refreshed(old(stn).network().weights, named_nodes(data.edges@)),
            data.edges@,
            *options,
            data.edges@.len(),
        ),
        r == Ok::<(usize, usize), ScheduleError>(
            (final(stn).node_count() as usize, final(stn).edges().len() as usize),
        ),
{
    let ghost w0 = stn.network().weights;
    let ghost b0 = stn.bounds();
    let ghost pairs0 = stn.pairs();
    let ghost n0 = stn.node_count();
    let ghost e0 = stn.edges().len();
    let nodes = payload_nodes(&data.edges);
    let mut r: usize = 0;
    while r < nodes.len()
        invariant
            r <= nodes@.len(),
            ascending(nodes@),
            nodes@.len() <= 2 * data.edges@.len(),
            n0 + 2 * data.edges@.len() <= 0xffff_ffff,
            e0 + 4 * data.edges@.len() <= 0xffff_ffff,
            stn.wf(),
            stn.table() == old(stn).table(),
            stn.node_count() == n0 + r,
            stn.edges().len() == e0 + r,
            stn.network().weights == refreshed(w0, first_nodes(nodes@, r as int)),
            stn.bounds() == reset_bounds(b0, first_nodes(nodes@, r as int)),
            forall|y: i32| #[trigger]
                has_index(stn.pairs(), y) <==> has_index(pairs0, y) || first_nodes(
                    nodes@,
                    r as int,
                ).contains(y),
        decreases nodes@.len() - r,
    {
        let node = nodes[r];
        let ghost before = *stn;
        stn.bounds.insert(node, Interval::default());
        let node_index = digraph_add_node(&mut stn.distance_graph, node);
        set_index(&mut stn.node_indices, node, node_index);
        digraph_add_edge(&mut stn.distance_graph, node_index, node_index, 0);
        proof {
            let done = first_nodes(nodes@, r as int);
            let next = first_nodes(nodes@, r + 1);
            assert forall|y: i32| next.contains(y) <==> done.contains(y) || y == node by {
                if done.contains(y) {
                    let t = choose|t: int| 0 <= t < r && nodes@[t] == y;
                    assert(0 <= t < r + 1 && nodes@[t] == y);
                }
                if y == node {
                    assert(0 <= r < r + 1 && nodes@[r as int] == y);
                }
            }
            lemma_refresh(before.pairs(), stn.pairs(), before.edges(), node_index, node);
            assert(stn.network().weights =~= refreshed(w0, next));
            assert(stn.bounds() =~= reset_bounds(b0, next));
            assert forall|y: i32| #[trigger]
                has_index(stn.pairs(), y) <==> has_index(pairs0, y) || next.contains(y) by {
                assert(index_for(stn.pairs(), y) == if y == node {
                    Some(node_index)
                } else {
                    index_for(before.pairs(), y)
                });
                assert(has_index(before.pairs(), y) <==> has_index(pairs0, y) || done.contains(y));
            }
        }
        r += 1;
    }
    let ghost fresh = named_nodes(data.edges@);
    proof {
        assert(first_nodes(nodes@, nodes@.len() as int) =~= fresh) by {
            assert forall|y: i32| first_nodes(nodes@, nodes@.len() as int).contains(y)
                <==> fresh.contains(y) by {
                if nodes@.contains(y) {
                    let t = choose|t: int| 0 <= t < nodes@.len() && nodes@[t] == y;
                    assert(0 <= t < nodes@.len() && nodes@[t] == y);
                }
            }
        }
        assert(nodes@.to_set() =~= fresh);
        nodes@.unique_seq_to_set();
        vstd::seq_lib::seq_to_set_is_finite(nodes@);
    }
    let ghost base = refreshed(w0, fresh);
    let ghost e1 = stn.edges().len();
    let mut k: usize = 0;
    while k < data.edges.len()
        invariant
            k <= data.edges@.len(),
            nodes@.len() <= 2 * data.edges@.len(),
            e0 + 4 * data.edges@.len() <= 0xffff_ffff,
            e1 == e0 + nodes@.len(),
            stn.wf(),
            stn.table() == old(stn).table(),
            stn.node_count() == n0 + nodes@.len(),
            stn.bounds() == reset_bounds(b0, fresh),
            stn.edges().len() == e1 + added(base, data.edges@, *options, k as nat),
            added(base, data.edges@, *options, k as nat) <= 2 * k,
            stn.network().weights == recorded(base, data.edges@, *options, k as nat),
            fresh == named_nodes(data.edges@),
            base == refreshed(w0, fresh),
            forall|y: i32| #[trigger]
                has_index(stn.pairs(), y) <==> has_index(pairs0, y) || fresh.contains(y),
        decreases data.edges@.len() - k,
    {
        let edge = &data.edges[k];
        proof {
            assert(names(data.edges@, k as int, edge.source));
            assert(names(data.edges@, k as int, edge.target));
            assert(fresh.contains(edge.source) && fresh.contains(edge.target));
            assert(has_index(stn.pairs(), edge.source) && has_index(stn.pairs(), edge.target));
        }
        let source = stn.node_index(edge.source).unwrap();
        let target = stn.node_index(edge.target).unwrap();
        let bounds = edge_constraint(edge, options);
        let ghost first = *stn;
        let back = digraph_update_edge(
            &mut stn.distance_graph,
            target,
            source,
            clamp_ticks(-(bounds.lower() as i128)),
        );
        proof {
            lemma_old_index_below(first.pairs(), first.node_count(), edge.source);
            lemma_old_index_below(first.pairs(), first.node_count(), edge.target);
            lemma_update(
                first.pairs(),
                first.edges(),
                stn.edges(),
                first.node_count(),
                edge.target,
                edge.source,
                back as int,
                clamp(-bounds.0),
            );
        }
        let ghost second = *stn;
        let forth = digraph_update_edge(&mut stn.distance_graph, source, target, bounds.upper());
        proof {
            lemma_update(
                second.pairs(),
                second.edges(),
                stn.edges(),
                second.node_count(),
                edge.source,
                edge.target,
                forth as int,
                bounds.1,
            );
        }
        k += 1;
    }
    proof {
        assert forall|y: i32| #[trigger]
            stn.network().nodes.contains(y) <==> old(stn).network().nodes.contains(y)
                || fresh.contains(y) by {
            lemma_listed(stn.pairs(), y);
            lemma_listed(pairs0, y);
            assert(has_index(stn.pairs(), y) <==> has_index(pairs0, y) || fresh.contains(y));
        }
    }
    Ok((digraph_node_count(&stn.distance_graph), digraph_edge_count(&stn.distance_graph)))
}

impl STN {
    /// What the graph holds between the nodes at positions `i` and `j` is
    /// the weight between them in the network.
    proof fn lemma_weight_at(&self, i: int, j: int)
        requires
            self.wf(),
            0 <= i < self.pairs().len(),
            0 <= j < self.pairs().len(),
        ensures
            self.network().nodes[i] == self.pairs()[i].0,
            self.network().nodes[j] == self.pairs()[j].0,
            self.network().has_edge(self.pairs()[i].0, self.pairs()[j].0) <==> linked(
                self.edges(),
                self.pairs()[i].1,
                self.pairs()[j].1,
            ),
            forall|e: int|
                joins(self.edges(), e, self.pairs()[i].1, self.pairs()[j].1)
                    ==> self.network().has_edge(self.pairs()[i].0, self.pairs()[j].0)
                    && self.network().weights[(self.pairs()[i].0, self.pairs()[j].0)]
                    == self.edges()[e].2,
    {
        lemma_index_for(self.pairs(), self.node_count(), i);
        lemma_index_for(self.pairs(), self.node_count(), j);
        assert forall|e: int|
            joins(
                self.edges(),
                e,
                self.pairs()[i].1,
                self.pairs()[j].1,
            ) implies self.network().has_edge(self.pairs()[i].0, self.pairs()[j].0)
            && self.network().weights[(self.pairs()[i].0, self.pairs()[j].0)]
            == self.edges()[e].2 by {
            lemma_link_weight(self.edges(), self.node_count(), e);
        }
    }
}

/// Computes the shortest distance between every ordered pair of nodes and
/// keeps the distances as the constraint table.
///
/// Fails where the graph contains a negative cycle; the table then stays as
/// it was.
pub fn perform_apsp(stn: &mut STN) -> (r: Result<(), ScheduleError>)
    requires
        old(stn).wf(),
    ensures
        final(stn).wf(),
        final(stn).pairs() == old(stn).pairs(),
        final(stn).edges() == old(stn).edges(),
        final(stn).node_count() == old(stn).node_count(),
        final(stn).bounds() == old(stn).bounds(),
        match r {
            Ok(()) => {
                &&& final(stn).table().closes(old(stn).network())
                &&& !old(stn).network().has_negative_cycle()
            },
            Err(e) => {
                &&& final(stn).table() == old(stn).table()
                &&& e matches ScheduleError::NegativeCycle(v, a, b)
                &&& old(stn).network().dips_at(v, a as int, b as int)
                &&& old(stn).network().first_dip(v, a as int, b as int)
                &&& old(stn).network().has_negative_cycle()
            },
        },
{
    let ghost net = stn.network();
    let n = stn.node_indices.len();
    let ghost mid = net.pivots_from(n as int);
    proof {
        assert(ascending(net.nodes));
        lemma_ascending_distinct(net.nodes);
    }
    let mut ids: Vec<i32> = Vec::new();
    let mut rows: Vec<Vec<Option<i128>>> = Vec::new();
    let mut i: usize = 0;
    while i < n
        invariant
            i <= n,
            n == stn.pairs().len(),
            *stn == *old(stn),
            stn.wf(),
            net == stn.network(),
            net.wf(),
            mid == net.pivots_from(n as int),
            ids@ == net.nodes.subrange(0, i as int),
            rows@.len() == i,
            forall|r: int| 0 <= r < i ==> (#[trigger] rows@[r])@.len() == n,
            forall|r: int, c: int|
                0 <= r < i && 0 <= c < n ==> net.entry_ok(
                    mid,
                    net.nodes[r],
                    net.nodes[c],
                    cell(#[trigger] rows@[r]@[c]),
                ),
            forall|r: int| 0 <= r < i ==> !#[trigger] net.loops_back(r),
        decreases n - i,
    {
        let from = stn.node_indices[i];
        let mut row: Vec<Option<i128>> = Vec::new();
        let mut j: usize = 0;
        while j < n
            invariant
                i < n,
                j <= n,
                n == stn.pairs().len(),
                *stn == *old(stn),
                stn.wf(),
                net == stn.network(),
                net.wf(),
                mid == net.pivots_from(n as int),
                from == stn.pairs()[i as int],
                row@.len() == j,
                forall|c: int|
                    0 <= c < j ==> net.entry_ok(
                        mid,
                        net.nodes[i as int],
                        net.nodes[c],
                        cell(#[trigger] row@[c]),
                    ),
                forall|r: int| 0 <= r < i ==> !#[trigger] net.loops_back(r),
                j > i ==> !net.loops_back(i as int),
            decreases n - j,
        {
            let to = stn.node_indices[j];
            proof {
                stn.lemma_weight_at(i as int, j as int);
            }
            let found = match digraph_find_edge(&stn.distance_graph, from.1, to.1) {
                Some(edge_index) => {
                    let distance = digraph_edge_weight(&stn.distance_graph, edge_index);
                    assert(distance is Some);
                    distance
                },
                None => None,
            };
            let e: Option<i128> = if i == j {
                match found {
                    Some(distance) => {
                        if distance < 0 {
                            proof {
                                net.lemma_self_dip(from.0);
                                net.lemma_dip_is_negative_cycle(from.0, distance as int, 0);
                                assert(net.loops_back(i as int));
                            }
                            return Err(ScheduleError::NegativeCycle(from.0, distance as i128, 0));
                        }
                    },
                    None => {},
                }
                Some(0)
            } else {
                match found {
                    Some(distance) => Some(distance as i128),
                    None => None,
                }
            };
            proof {
                net.lemma_direct_entry(i as int, j as int, cell(e));
            }
            row.push(e);
            j += 1;
        }
        rows.push(row);
        ids.push(from.0);
        assert(ids@ =~= net.nodes.subrange(0, i + 1));
        i += 1;
    }
    proof {
        assert(ids@ =~= net.nodes);
        let t = table_of(rows@);
        assert forall|r: int, c: int| 0 <= r < n && 0 <= c < n implies net.entry_ok(
            mid,
            net.nodes[r],
            net.nodes[c],
            #[trigger] t[r][c],
        ) by {
            assert(t[r][c] == cell(rows@[r]@[c]));
        }
    }
    match close_table(rows, ids, Ghost(net)) {
        Ok(table) => {
            stn.constraint_table = table;
            Ok(())
        },
        Err(e) => Err(e),
    }
}

/// The bounds of node `y` as seen from node `root`: the shortest distance
/// from `root` to `y` above, the negated shortest distance back below, each
/// saturated to a time. There are none unless the table holds both
/// distances.
pub open spec fn bound_from(table: DistanceTable, root: i32, y: i32) -> Option<Interval> {
    if table.spec_distance(root, y) is Some && table.spec_distance(y, root) is Some {
        Some(
            Interval(
                clamp(-table.spec_distance(y, root)->0),
                clamp(table.spec_distance(root, y)->0),
            ),
        )
    } else {
        None
    }
}

/// How far node `y` can lie from node `root`: at most the shortest distance
/// from `root` to `y` after it and at most the shortest distance back before
/// it, each saturated to a time. Where the table holds no distance, that
/// side is unbounded.
pub open spec fn reach_from(table: DistanceTable, root: i32, y: i32) -> Interval {
    Interval(
        match table.spec_distance(y, root) {
            Some(d) => clamp(-d),
            None => (-TIME_MAX) as i64,
        },
        match table.spec_distance(root, y) {
            Some(d) => clamp(d),
            None => TIME_MAX,
        },
    )
}

/// The bounds after the nodes `1` to `upto` have been given their reach
/// from node `1` as their bounds.
pub open spec fn with_bounds(b: Map<i32, Interval>, table: DistanceTable, upto: int) -> Map<
    i32,
    Interval,
> {
    Map::new(
        |y: i32| b.dom().contains(y) || 1 <= y <= upto,
        |y: i32|
            if 1 <= y <= upto {
                reach_from(table, 1, y)
            } else {
                b[y]
            },
    )
}

/// The highest ID that the nodes `1, 2, ..` can have where there are `n`
/// nodes.
pub open spec fn last_id(n: nat) -> int {
    if n <= 0x7fff_ffff {
        n as int
    } else {
        0x7fff_ffff
    }
}

/// The bounds between two nodes, read from the constraint table.
fn bound_between(stn: &STN, root: i32, y: i32) -> (r: Result<Interval, ScheduleError>)
    requires
        stn.wf(),
    ensures
        match r {
            Ok(b) => bound_from(stn.table(), root, y) == Some(b),
            Err(e) => bound_from(stn.table(), root, y) is None && e == if stn.table().spec_distance(
                root,
                y,
            ) is None {
                ScheduleError::MissingEdge(root, y)
            } else {
                ScheduleError::MissingEdge(y, root)
            },
        },
{
    let d_upper = match stn.constraint(root, y) {
        Some(d) => d,
        None => {
            return Err(ScheduleError::MissingEdge(root, y));
        },
    };
    let d_lower = match stn.constraint(y, root) {
        Some(d) => d,
        None => {
            return Err(ScheduleError::MissingEdge(y, root));
        },
    };
    Ok(Interval::new(clamp_negated(d_lower), clamp_ticks(d_upper)))
}

/// Sets the bounds of the nodes `1, 2, ..` up to the number of nodes, as
/// seen from node `1`: `[-d(i, 1), d(1, i)]` over the constraint table,
/// with an unbounded side where the table holds no distance.
pub fn set_bounds(stn: &mut STN) -> (r: Result<(), ScheduleError>)
    requires
        old(stn).wf(),
    ensures
        final(stn).wf(),
        final(stn).pairs() == old(stn).pairs(),
        final(stn).edges() == old(stn).edges(),
        final(stn).node_count() == old(stn).node_count(),
        final(stn).table() == old(stn).table(),
        r is Ok,
        final(stn).bounds() == with_bounds(
            old(stn).bounds(),
            old(stn).table(),
            last_id(old(stn).pairs().len()),
        ),
{
    let n = stn.node_indices.len();
    let last: i32 = if n <= 0x7fff_ffff {
        n as i32
    } else {
        0x7fff_ffff
    };
    let ghost b0 = stn.bounds();
    let ghost table = stn.table();
    assert(stn.bounds() =~= with_bounds(b0, table, 0));
    let mut i: i32 = 1;
    while i <= last
        invariant
            1 <= i <= last + 1,
            last == last_id(old(stn).pairs().len()),
            stn.wf(),
            stn.pairs() == old(stn).pairs(),
            stn.edges() == old(stn).edges(),
            stn.node_count() == old(stn).node_count(),
            stn.table() == table,
            table == old(stn).table(),
            b0 == old(stn).bounds(),
            stn.bounds() == with_bounds(b0, table, i - 1),
        decreases last + 1 - i,
    {
        let d_upper = match stn.constraint(1, i) {
            Some(d) => clamp_ticks(d),
            None => TIME_MAX,
        };
        let d_lower = match stn.constraint(i, 1) {
            Some(d) => clamp_negated(d),
            None => -TIME_MAX,
        };
        stn.bounds.insert(i, Interval::new(d_lower, d_upper));
        assert(stn.bounds() =~= with_bounds(b0, table, i as int));
        if i == last {
            return Ok(());
        }
        i += 1;
    }
    Ok(())
}

/// The bounds after node `node` has been scheduled at `time` and the
/// nodes `1` to `upto` have been tightened: `node` has the bounds
/// `[time, time]`, and every other node among them that has bounds, and
/// that the table relates to `node`, has its bounds cut down to
/// `[time, time]` shifted by its bounds as seen from `node`.
pub open spec fn scheduled(
    b: Map<i32, Interval>,
    table: DistanceTable,
    node: i32,
    time: i64,
    upto: int,
) -> Map<i32, Interval> {
    Map::new(
        |y: i32| b.dom().contains(y),
        |y: i32|
            if y == node {
                Interval::spec_point(time)
            } else if 1 <= y <= upto && bound_from(table, node, y) is Some {
                b[y].meet(Interval::spec_point(time).plus(bound_from(table, node, y)->0))
            } else {
                b[y]
            },
    )
}

/// Commits node `node_id` to the time `as_performed` and tightens the
/// bounds of the nodes `1, 2, ..` up to the number of nodes. The nodes are
/// taken in no particular order of time, so the bounds of a node that lies
/// earlier may come out empty.
///
/// Fails, and changes nothing, where the node has no bounds or the time lies
/// outside them.
pub fn naive_schedule(stn: &mut STN, node_id: i32, as_performed: i64) -> (r: Result<
    (),
    ScheduleError,
>)
    requires
        old(stn).wf(),
    ensures
        final(stn).wf(),
        final(stn).pairs() == old(stn).pairs(),
        final(stn).edges() == old(stn).edges(),
        final(stn).node_count() == old(stn).node_count(),
        final(stn).table() == old(stn).table(),
        match r {
            Ok(()) => {
                &&& old(stn).bounds().dom().contains(node_id)
                &&& old(stn).bounds()[node_id].spec_contains(as_performed)
                &&& final(stn).bounds() == scheduled(
                    old(stn).bounds(),
                    old(stn).table(),
                    node_id,
                    as_performed,
                    last_id(old(stn).pairs().len()),
                )
            },
            Err(e) => {
                &&& final(stn).bounds() == old(stn).bounds()
                &&& if !old(stn).bounds().dom().contains(node_id) {
                    e == ScheduleError::UnknownEvent(node_id)
                } else {
                    &&& !old(stn).bounds()[node_id].spec_contains(as_performed)
                    &&& e == ScheduleError::OutsideBounds(node_id, as_performed)
                }
            },
        },
{
    let b = match stn.bound(node_id) {
        Some(b) => b,
        None => {
            return Err(ScheduleError::UnknownEvent(node_id));
        },
    };
    if !b.contains(as_performed) {
        return Err(ScheduleError::OutsideBounds(node_id, as_performed));
    }
    let b_as_performed = Interval::new(as_performed, as_performed);
    let ghost b0 = stn.bounds();
    let ghost table = stn.table();
    stn.bounds.insert(node_id, b_as_performed);
    assert(stn.bounds() =~= scheduled(b0, table, node_id, as_performed, 0));
    let n = stn.node_indices.len();
    let last: i32 = if n <= 0x7fff_ffff {
        n as i32
    } else {
        0x7fff_ffff
    };
    let mut i: i32 = 1;
    while i <= last
        invariant
            1 <= i <= last + 1,
            last == last_id(old(stn).pairs().len()),
            stn.wf(),
            stn.pairs() == old(stn).pairs(),
            stn.edges() == old(stn).edges(),
            stn.node_count() == old(stn).node_count(),
            stn.table() == table,
            table == old(stn).table(),
            b0 == old(stn).bounds(),
            b0.dom().contains(node_id),
            b0[node_id].spec_contains(as_performed),
            b_as_performed == Interval::spec_point(as_performed),
            stn.bounds() == scheduled(b0, table, node_id, as_performed, i - 1),
        decreases last + 1 - i,
    {
        if i != node_id {
            match (stn.bound(i), bound_between(stn, node_id, i)) {
                (Some(b_i), Ok(interval_to_neighbor)) => {
                    let updated_bounds = b_i & (b_as_performed + interval_to_neighbor);
                    stn.bounds.insert(i, updated_bounds);
                },
                _ => {},
            }
        }
        assert(stn.bounds() =~= scheduled(b0, table, node_id, as_performed, i as int));
        if i == last {
            return Ok(());
        }
        i += 1;
    }
    Ok(())
}

/// `after` is what `before` becomes when it is initialized from `data` with
/// the outcome `r`: the graph is built, then the shortest distances are
/// computed, then the bounds are set. Where the graph contains a negative
/// cycle the table and the bounds stay as the graph building left them.
pub open spec fn initialized_from(
    before: STN,
    after: STN,
    data: RegistrationPayload,
    options: RegistrationOptions,
    r: Result<(usize, usize), ScheduleError>,
) -> bool {
    let fresh = named_nodes(data.edges@);
    let base = refreshed(before.network().weights, fresh);
    let b1 = reset_bounds(before.bounds(), fresh);
    let last = last_id(after.pairs().len());
    &&& after.wf()
    &&& forall|y: i32| #[trigger]
        after.network().nodes.contains(y) <==> before.network().nodes.contains(y) || fresh.contains(
            y,
        )
    &&& after.network().weights == recorded(base, data.edges@, options, data.edges@.len())
    &&& fresh.finite()
    &&& after.node_count() == before.node_count() + fresh.len()
    &&& after.edges().len() == before.edges().len() + fresh.len() + added(
        base,
        data.edges@,
        options,
        data.edges@.len(),
    )
    &&& match r {
        Ok(counts) => {
            &&& counts == (after.node_count() as usize, after.edges().len() as usize)
            &&& !after.network().has_negative_cycle()
            &&& after.table().closes(after.network())
            &&& after.bounds() == with_bounds(b1, after.table(), last)
        },
        Err(e) => {
            &&& after.network().has_negative_cycle()
            &&& after.table() == before.table()
            &&& after.bounds() == b1
            &&& e matches ScheduleError::NegativeCycle(v, a, b)
            &&& after.network().dips_at(v, a as int, b as int)
            &&& after.network().first_dip(v, a as int, b as int)
        },
    }
}

/// Initializes the network from a payload: builds the distance graph,
/// computes the shortest distances, and sets the bounds of the nodes as seen
/// from node `1`. Returns the number of nodes and the number of edges of
/// the graph.
pub fn initialize(stn: &mut STN, data: &RegistrationPayload, options: &RegistrationOptions) -> (r:
    Result<(usize, usize), ScheduleError>)
    requires
        old(stn).wf(),
        old(stn).node_count() + 2 * data.edges@.len() <= 0xffff_ffff,
        old(stn).edges().len() + 4 * data.edges@.len() <= 0xffff_ffff,
    ensures
        initialized_from(*old(stn), *final(stn), *data, *options, r),
{
    let res = match build_distance_graph(stn, data, options) {
        Ok(res) => res,
        Err(e) => {
            return Err(e);
        },
    };
    match perform_apsp(stn) {
        Ok(()) => {},
        Err(e) => {
            return Err(e);
        },
    }
    match set_bounds(stn) {
        Ok(()) => {},
        Err(e) => {
            return Err(e);
        },
    }
    Ok(res)
}

/// The text of a cell of the constraint table: the distance as a decimal
/// number of time units, or the sign for infinity where there is none.
pub open spec fn cell_text(d: Option<int>) -> Seq<char> {
    match d {
        Some(x) => ticks_text(x),
        None => "\u{221e}"@,
    }
}

/// The constraint table as a matrix of strings, with the IDs of the nodes
/// as the headers of the rows and of the columns.
///
/// The matrix has one row and one column more than there are nodes. Its
/// first row and its first column hold the IDs in ascending order, with an
/// empty string in the corner. The cell in the row of node `i` and the
/// column of node `j` holds the shortest distance from `i` to `j`.
///
/// A network of the two nodes 1 and 2 gives
///
/// ```text
/// [ [ "",   "1",  "2" ],
///   [ "1",  "0",  "5" ],
///   [ "2", "-4",  "0" ] ]
/// ```
pub fn dump_constraint_table(stn: &STN) -> (r: Vec<Vec<String>>)
    requires
        stn.wf(),
    ensures
        r@.len() == stn.pairs().len() + 1,
        forall|i: int| 0 <= i < r@.len() ==> (#[trigger] r@[i])@.len() == stn.pairs().len() + 1,
        r@[0]@[0]@ == Seq::<char>::empty(),
        forall|j: int|
            0 <= j < stn.pairs().len() ==> (#[trigger] r@[0]@[j + 1])@ == integer_text(
                stn.pairs()[j].0 as int,
            ),
        forall|i: int|
            0 <= i < stn.pairs().len() ==> (#[trigger] r@[i + 1]@[0])@ == integer_text(
                stn.pairs()[i].0 as int,
            ),
        forall|i: int, j: int|
            0 <= i < stn.pairs().len() && 0 <= j < stn.pairs().len() ==> (
            #[trigger] r@[i + 1]@[j + 1])@ == cell_text(
                stn.table().spec_distance(stn.pairs()[i].0, stn.pairs()[j].0),
            ),
{
    let n = stn.node_indices.len();
    let mut res: Vec<Vec<String>> = Vec::new();
    let mut header: Vec<String> = Vec::new();
    header.push(String::new());
    let mut j: usize = 0;
    while j < n
        invariant
            j <= n,
            n == stn.pairs().len(),
            header@.len() == j + 1,
            header@[0]@ == Seq::<char>::empty(),
            forall|c: int|
                0 <= c < j ==> (#[trigger] header@[c + 1])@ == integer_text(
                    stn.pairs()[c].0 as int,
                ),
        decreases n - j,
    {
        let mut text = String::new();
        push_integer(&mut text, stn.node_indices[j].0 as i128);
        assert(text@ =~= integer_text(stn.pairs()[j as int].0 as int));
        header.push(text);
        j += 1;
    }
    res.push(header);
    let mut i: usize = 0;
    while i < n
        invariant
            i <= n,
            n == stn.pairs().len(),
            stn.wf(),
            res@.len() == i + 1,
            forall|r: int| 0 <= r < res@.len() ==> (#[trigger] res@[r])@.len() == n + 1,
            res@[0]@[0]@ == Seq::<char>::empty(),
            forall|c: int|
                0 <= c < n ==> (#[trigger] res@[0]@[c + 1])@ == integer_text(
                    stn.pairs()[c].0 as int,
                ),
            forall|r: int|
                0 <= r < i ==> (#[trigger] res@[r + 1]@[0])@ == integer_text(
                    stn.pairs()[r].0 as int,
                ),
            forall|r: int, c: int|
                0 <= r < i && 0 <= c < n ==> (#[trigger] res@[r + 1]@[c + 1])@ == cell_text(
                    stn.table().spec_distance(stn.pairs()[r].0, stn.pairs()[c].0),
                ),
        decreases n - i,
    {
        let from = stn.node_indices[i].0;
        let mut row: Vec<String> = Vec::new();
        let mut name = String::new();
        push_integer(&mut name, from as i128);
        assert(name@ =~= integer_text(from as int));
        row.push(name);
        let mut j: usize = 0;
        while j < n
            invariant
                j <= n,
                i < n,
                n == stn.pairs().len(),
                stn.wf(),
                from == stn.pairs()[i as int].0,
                row@.len() == j + 1,
                row@[0]@ == integer_text(from as int),
                forall|c: int|
                    0 <= c < j ==> (#[trigger] row@[c + 1])@ == cell_text(
                        stn.table().spec_distance(from, stn.pairs()[c].0),
                    ),
            decreases n - j,
        {
            let to = stn.node_indices[j].0;
            let mut text = String::new();
            match stn.constraint(from, to) {
                Some(value) => {
                    push_ticks(&mut text, value);
                },
                None => {
                    text.append("\u{221e}");
                },
            }
            assert(text@ =~= cell_text(stn.table().spec_distance(from, to)));
            row.push(text);
            j += 1;
        }
        res.push(row);
        i += 1;
    }
    res
}

impl STN {
    /// Initializes the network from a payload and returns the number of
    /// nodes and the number of edges of its graph.
    pub fn initialize(
        &mut self,
        payload: &RegistrationPayload,
        options: &RegistrationOptions,
    ) -> (r: Result<RegistrationEnum, ScheduleError>)
        requires
            old(self).wf(),
            old(self).node_count() + 2 * payload.edges@.len() <= 0xffff_ffff,
            old(self).edges().len() + 4 * payload.edges@.len() <= 0xffff_ffff,
        ensures
            initialized_from(
                *old(self),
                *final(self),
                *payload,
                *options,
                match r {
                    Ok(counts) => Ok((counts.0, counts.1)),
                    Err(e) => Err(e),
                },
            ),
    {
        match self::initialize(self, payload, options) {
            Ok((nodes, edges)) => Ok(RegistrationEnum(nodes, edges)),
            Err(e) => Err(e),
        }
    }

    /// The size of the network in words: the number of nodes that it lists
    /// and the number of edges of its graph.
    pub fn to_string(&self) -> (r: String)
        ensures
            r@ == decimal(self.pairs().len()) + " nodes, "@ + decimal(self.edges().len())
                + " edges"@,
    {
        let mut s = String::new();
        push_decimal(&mut s, self.node_indices.len() as u128);
        s.append(" nodes, ");
        push_decimal(&mut s, digraph_edge_count(&self.distance_graph) as u128);
        s.append(" edges");
        assert(s@ =~= decimal(self.pairs().len()) + " nodes, "@ + decimal(self.edges().len())
            + " edges"@);
        s
    }

    /// Commits node `node_id` to the time `as_performed` and tightens the
    /// bounds of the other nodes.
    pub fn naive_schedule(&mut self, node_id: i32, as_performed: i64) -> (r: Result<
        (),
        ScheduleError,
    >)
        requires
            old(self).wf(),
        ensures
            final(self).wf(),
            final(self).pairs() == old(self).pairs(),
            final(self).edges() == old(self).edges(),
            final(self).node_count() == old(self).node_count(),
            final(self).table() == old(self).table(),
            match r {
                Ok(()) => {
                    &&& old(self).bounds().dom().contains(node_id)
                    &&& old(self).bounds()[node_id].spec_contains(as_performed)
                    &&& final(self).bounds() == scheduled(
                        old(self).bounds(),
                        old(self).table(),
                        node_id,
                        as_performed,
                        last_id(old(self).pairs().len()),
                    )
                },
                Err(e) => {
                    &&& final(self).bounds() == old(self).bounds()
                    &&& if !old(self).bounds().dom().contains(node_id) {
                        e == ScheduleError::UnknownEvent(node_id)
                    } else {
                        &&& !old(self).bounds()[node_id].spec_contains(as_performed)
                        &&& e == ScheduleError::OutsideBounds(node_id, as_performed)
                    }
                },
            },
    {
        self::naive_schedule(self, node_id, as_performed)
    }

    /// The constraint table as a matrix of strings, with the IDs of the
    /// nodes as the headers of the rows and of the columns.
    pub fn dump_constraint_table(&self) -> (r: Vec<Vec<String>>)
        requires
            self.wf(),
        ensures
            r@.len() == self.pairs().len() + 1,
            forall|i: int|
                0 <= i < r@.len() ==> (#[trigger] r@[i])@.len() == self.pairs().len() + 1,
            r@[0]@[0]@ == Seq::<char>::empty(),
            forall|j: int|
                0 <= j < self.pairs().len() ==> (#[trigger] r@[0]@[j + 1])@ == integer_text(
                    self.pairs()[j].0 as int,
                ),
            forall|i: int|
                0 <= i < self.pairs().len() ==> (#[trigger] r@[i + 1]@[0])@ == integer_text(
                    self.pairs()[i].0 as int,
                ),
            forall|i: int, j: int|
                0 <= i < self.pairs().len() && 0 <= j < self.pairs().len() ==> (
                #[trigger] r@[i + 1]@[j + 1])@ == cell_text(
                    self.table().spec_distance(self.pairs()[i].0, self.pairs()[j].0),
                ),
    {
        self::dump_constraint_table(self)
    }
}

} // verus!
