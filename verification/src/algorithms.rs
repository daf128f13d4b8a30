//! All-pairs shortest paths over a distance graph.

use crate::closure::{no_dip, relaxed, square, Table};
use crate::error::ScheduleError;
use crate::graph::{graph_edge_weight, graph_edges, graph_node_list, graph_nodes};
use crate::network::{join, Network};
use petgraph::graphmap::DiGraphMap;
use vstd::prelude::*;

verus! {

/// The network that a graph stores.
pub open spec fn network_of(g: DiGraphMap<i32, i64>) -> Network {
    Network { nodes: graph_nodes(g), weights: graph_edges(g) }
}

/// An entry of the table as a mathematical integer.
pub open spec fn cell(e: Option<i128>) -> Option<int> {
    match e {
        Some(d) => Some(d as int),
        None => None,
    }
}

/// The rows of a table as a mathematical table.
pub open spec fn table_of(rows: Seq<Vec<Option<i128>>>) -> Table {
    Seq::new(rows.len(), |i: int| Seq::new(rows[i]@.len(), |j: int| cell(rows[i]@[j])))
}

/// The rows are `n` vectors of `n` entries each.
pub open spec fn shaped(rows: Seq<Vec<Option<i128>>>, n: nat) -> bool {
    &&& rows.len() == n
    &&& forall|i: int| 0 <= i < n ==> (#[trigger] rows[i])@.len() == n
}

/// The shortest distance between every ordered pair of nodes of a graph.
///
/// Distances are kept in 128 bits: the sum of the weights along a walk that
/// visits no node twice always fits.
#[derive(Debug)]
pub struct DistanceTable {
    nodes: Vec<i32>,
    rows: Vec<Vec<Option<i128>>>,
}

impl Network {
    /// Going from `v` to some node and back has negative length: `a` is the
    /// length of a walk from `v` to that node, `b` the length of a walk
    /// back, and `a + b < 0`.
    pub open spec fn dips_at(self, v: i32, a: int, b: int) -> bool {
        &&& a + b < 0
        &&& exists|m: i32, p: Seq<i32>, q: Seq<i32>|
            {
                &&& #[trigger] self.walk_between(p, v, m)
                &&& self.length(p) == a
                &&& #[trigger] self.walk_between(q, m, v)
                &&& self.length(q) == b
            }
    }

    /// The node at position `i` has an edge of negative weight to itself.
    pub open spec fn loops_back(self, i: int) -> bool {
        self.has_edge(self.nodes[i], self.nodes[i]) && self.weights[(
            self.nodes[i],
            self.nodes[i],
        )] < 0
    }

    /// Going from the node at position `i` to the node at position `k` and
    /// back has negative length, where `a` is the shortest distance there
    /// and `b` the shortest distance back through the nodes at positions
    /// above `k`.
    pub open spec fn dip(self, k: int, i: int, a: int, b: int) -> bool {
        &&& 0 <= k < self.nodes.len()
        &&& 0 <= i < self.nodes.len()
        &&& i != k
        &&& self.entry_ok(self.pivots_from(k + 1), self.nodes[i], self.nodes[k], Some(a))
        &&& self.entry_ok(self.pivots_from(k + 1), self.nodes[k], self.nodes[i], Some(b))
        &&& a + b < 0
    }

    /// Going from the node at position `i` to the node at position `k` and
    /// back, through the nodes at positions above `k`, has negative length.
    pub open spec fn has_dip(self, k: int, i: int) -> bool {
        exists|a: int, b: int| self.dip(k, i, a, b)
    }

    /// Node `v` is the first node, by position, from which going to the
    /// node at position `k` and back has negative length, and `a` and `b`
    /// are the lengths of that dip.
    pub open spec fn first_dip_through(self, k: int, v: i32, a: int, b: int) -> bool {
        exists|i: int|
            {
                &&& #[trigger] self.dip(k, i, a, b)
                &&& self.nodes[i] == v
                &&& forall|j: int| 0 <= j < i ==> !#[trigger] self.has_dip(k, j)
            }
    }

    /// Node `v` with the lengths `a` and `b` is the first sign of a negative
    /// cycle in the order in which the signs are looked for. First come the
    /// edges of negative weight from a node to itself, by the position of
    /// the node; `a` is then that weight, and `b` is zero. Then come the
    /// dips, by the position `k` of the node that is gone to, from the last
    /// position down, and among those by the position of the node that is
    /// gone from.
    pub open spec fn first_dip(self, v: i32, a: int, b: int) -> bool {
        ||| exists|i: int|
            {
                &&& 0 <= i < self.nodes.len()
                &&& self.nodes[i] == v
                &&& #[trigger] self.loops_back(i)
                &&& a == self.weights[(v, v)]
                &&& b == 0
                &&& forall|j: int| 0 <= j < i ==> !#[trigger] self.loops_back(j)
            }
        ||| {
            &&& forall|j: int| 0 <= j < self.nodes.len() ==> !#[trigger] self.loops_back(j)
            &&& exists|k: int|
                {
                    &&& #[trigger] self.first_dip_through(k, v, a, b)
                    &&& forall|m: int, j: int|
                        k < m < self.nodes.len() && 0 <= j < self.nodes.len()
                            ==> !#[trigger] self.has_dip(m, j)
                }
        }
    }

    /// A network has one first sign of a negative cycle at most.
    pub proof fn lemma_first_dip_unique(
        self,
        v1: i32,
        a1: int,
        b1: int,
        v2: i32,
        a2: int,
        b2: int,
    )
        requires
            self.first_dip(v1, a1, b1),
            self.first_dip(v2, a2, b2),
        ensures
            v1 == v2,
            a1 == a2,
            b1 == b2,
    {
        if exists|j: int| 0 <= j < self.nodes.len() && #[trigger] self.loops_back(j) {
            let i1 = choose|i: int|
                {
                    &&& 0 <= i < self.nodes.len()
                    &&& self.nodes[i] == v1
                    &&& #[trigger] self.loops_back(i)
                    &&& a1 == self.weights[(v1, v1)]
                    &&& b1 == 0
                    &&& forall|j: int| 0 <= j < i ==> !#[trigger] self.loops_back(j)
                };
            let i2 = choose|i: int|
                {
                    &&& 0 <= i < self.nodes.len()
                    &&& self.nodes[i] == v2
                    &&& #[trigger] self.loops_back(i)
                    &&& a2 == self.weights[(v2, v2)]
                    &&& b2 == 0
                    &&& forall|j: int| 0 <= j < i ==> !#[trigger] self.loops_back(j)
                };
            if i1 < i2 {
                assert(!self.loops_back(i1));
            } else if i2 < i1 {
                assert(!self.loops_back(i2));
            }
        } else {
            let k1 = choose|k: int|
                {
                    &&& #[trigger] self.first_dip_through(k, v1, a1, b1)
                    &&& forall|m: int, j: int|
                        k < m < self.nodes.len() && 0 <= j < self.nodes.len()
                            ==> !#[trigger] self.has_dip(m, j)
                };
            let k2 = choose|k: int|
                {
                    &&& #[trigger] self.first_dip_through(k, v2, a2, b2)
                    &&& forall|m: int, j: int|
                        k < m < self.nodes.len() && 0 <= j < self.nodes.len()
                            ==> !#[trigger] self.has_dip(m, j)
                };
            let i1 = choose|i: int|
                {
                    &&& #[trigger] self.dip(k1, i, a1, b1)
                    &&& self.nodes[i] == v1
                    &&& forall|j: int| 0 <= j < i ==> !#[trigger] self.has_dip(k1, j)
                };
            let i2 = choose|i: int|
                {
                    &&& #[trigger] self.dip(k2, i, a2, b2)
                    &&& self.nodes[i] == v2
                    &&& forall|j: int| 0 <= j < i ==> !#[trigger] self.has_dip(k2, j)
                };
            assert(self.has_dip(k1, i1));
            assert(self.has_dip(k2, i2));
            assert(k1 == k2);
            assert(i1 == i2);
            let mid = self.pivots_from(k1 + 1);
            self.lemma_entry_unique(mid, self.nodes[i1], self.nodes[k1], Some(a1), Some(a2));
            self.lemma_entry_unique(mid, self.nodes[k1], self.nodes[i1], Some(b1), Some(b2));
        }
    }

    /// An edge of negative weight from a node to itself is a dip at that
    /// node.
    pub proof fn lemma_self_dip(self, v: i32)
        requires
            self.nodes.contains(v),
            self.has_edge(v, v),
            self.weights[(v, v)] < 0,
        ensures
            self.dips_at(v, self.weights[(v, v)] as int, 0),
    {
        let p = seq![v, v];
        let q = seq![v];
        self.lemma_length_short(p);
        self.lemma_length_short(q);
        assert(self.is_walk(p)) by {
            assert forall|u: int| 0 <= u < p.len() - 1 implies #[trigger] self.step(p, u) by {
                assert(u == 0);
            }
        }
        assert(self.walk_between(p, v, v));
        assert(self.walk_between(q, v, v));
    }

    /// A walk there and a walk back, together of negative length, form a
    /// negative cycle.
    pub proof fn lemma_dip_is_negative_cycle(self, v: i32, a: int, b: int)
        requires
            self.dips_at(v, a, b),
        ensures
            self.has_negative_cycle(),
    {
        let (m, p, q) = choose|m: i32, p: Seq<i32>, q: Seq<i32>|
            {
                &&& #[trigger] self.walk_between(p, v, m)
                &&& self.length(p) == a
                &&& #[trigger] self.walk_between(q, m, v)
                &&& self.length(q) == b
            };
        self.lemma_join_is_walk(p, q);
        self.lemma_length_join(p, q);
        assert(self.is_negative_cycle(join(p, q)));
    }
}

impl DistanceTable {
    /// A table without nodes.
    pub fn new() -> (r: DistanceTable)
        ensures
            r.wf(),
            r.nodes().len() == 0,
    {
        DistanceTable { nodes: Vec::new(), rows: Vec::new() }
    }

    /// The nodes of the table, in the order of its rows and columns.
    pub closed spec fn nodes(&self) -> Seq<i32> {
        self.nodes@
    }

    /// The entries of the table, by the positions of source and target.
    pub closed spec fn table(&self) -> Table {
        table_of(self.rows@)
    }

    /// The table is square and lists no node twice.
    pub open spec fn wf(&self) -> bool {
        &&& self.nodes().no_duplicates()
        &&& square(self.table(), self.nodes().len())
    }

    /// The table holds the shortest distances of `net`: for each ordered pair
    /// of nodes the least length of a walk from the first to the second, and
    /// nothing where no walk leads there.
    pub open spec fn closes(&self, net: Network) -> bool {
        &&& self.wf()
        &&& self.nodes() == net.nodes
        &&& forall|i: int, j: int|
            0 <= i < net.nodes.len() && 0 <= j < net.nodes.len()
                ==> match #[trigger] self.table()[i][j] {
                Some(d) => net.is_distance(net.nodes[i], net.nodes[j], d),
                None => !net.connected(net.nodes[i], net.nodes[j]),
            }
    }

    /// The distance that the table holds from node `a` to node `b`; none
    /// where either is not a node of the table.
    pub open spec fn spec_distance(&self, a: i32, b: i32) -> Option<int> {
        if self.nodes().contains(a) && self.nodes().contains(b) {
            self.table()[self.nodes().index_of(a)][self.nodes().index_of(b)]
        } else {
            None
        }
    }

    /// What a table that holds the shortest distances of `net` holds for two
    /// nodes of `net`: their shortest distance, or nothing where no walk
    /// leads from the first to the second.
    pub proof fn lemma_distance(&self, net: Network, a: i32, b: i32)
        requires
            self.closes(net),
            net.nodes.contains(a),
            net.nodes.contains(b),
        ensures
            match self.spec_distance(a, b) {
                Some(d) => net.is_distance(a, b, d),
                None => !net.connected(a, b),
            },
    {
        let i = self.nodes().index_of(a);
        let j = self.nodes().index_of(b);
        assert(0 <= i < net.nodes.len() && net.nodes[i] == a);
        assert(0 <= j < net.nodes.len() && net.nodes[j] == b);
        let e = self.table()[i][j];
        assert(match e {
            Some(d) => net.is_distance(net.nodes[i], net.nodes[j], d),
            None => !net.connected(net.nodes[i], net.nodes[j]),
        });
    }

    /// The position of node `a` in the table.
    pub fn position(&self, a: i32) -> (r: Option<usize>)
        requires
            self.wf(),
        ensures
            match r {
                Some(i) => i < self.nodes().len() && self.nodes()[i as int] == a && i
                    == self.nodes().index_of(a),
                None => !self.nodes().contains(a),
            },
    {
        let mut i: usize = 0;
        while i < self.nodes.len()
            invariant
                i <= self.nodes@.len(),
                self.nodes@.no_duplicates(),
                forall|t: int| 0 <= t < i ==> self.nodes@[t] != a,
            decreases self.nodes@.len() - i,
        {
            if self.nodes[i] == a {
                proof {
                    assert(self.nodes@[i as int] == a);
                    let t = self.nodes@.index_of(a);
                    assert(0 <= t < self.nodes@.len() && self.nodes@[t] == a);
                }
                return Some(i);
            }
            i += 1;
        }
        None
    }

    /// The distance from node `a` to node `b`.
    pub fn distance(&self, a: i32, b: i32) -> (r: Option<i128>)
        requires
            self.wf(),
        ensures
            cell(r) == self.spec_distance(a, b),
    {
        match (self.position(a), self.position(b)) {
            (Some(i), Some(j)) => self.at(i, j),
            _ => None,
        }
    }

    /// The number of nodes.
    pub fn len(&self) -> (r: usize)
        requires
            self.wf(),
        ensures
            r == self.nodes().len(),
    {
        self.nodes.len()
    }

    /// The node at position `i`.
    pub fn node(&self, i: usize) -> (r: i32)
        requires
            self.wf(),
            i < self.nodes().len(),
        ensures
            r == self.nodes()[i as int],
    {
        self.nodes[i]
    }

    /// The distance from the node at position `i` to the node at position
    /// `j`.
    pub fn at(&self, i: usize, j: usize) -> (r: Option<i128>)
        requires
            self.wf(),
            i < self.nodes().len(),
            j < self.nodes().len(),
        ensures
            cell(r) == self.table()[i as int][j as int],
    {
        assert(self.table()[i as int].len() == self.nodes().len());
        self.rows[i][j]
    }
}

/// The table of the direct edges of `graph`, with zero on the diagonal.
/// Fails where a node has an edge of negative weight to itself.
fn direct_table(graph: &DiGraphMap<i32, i64>, nodes: &Vec<i32>) -> (r: Result<
    Vec<Vec<Option<i128>>>,
    ScheduleError,
>)
    requires
        nodes@ == graph_nodes(*graph),
        nodes@.no_duplicates(),
    ensures
        match r {
            Ok(rows) => {
                &&& shaped(rows@, nodes@.len())
                &&& network_of(*graph).table_ok(table_of(rows@), nodes@.len() as int)
                &&& forall|j: int|
                    0 <= j < nodes@.len() ==> !#[trigger] network_of(*graph).loops_back(j)
            },
            Err(e) => {
                &&& e matches ScheduleError::NegativeCycle(v, a, b)
                &&& network_of(*graph).dips_at(v, a as int, b as int)
                &&& network_of(*graph).first_dip(v, a as int, b as int)
            },
        },
{
    let ghost net = network_of(*graph);
    let ghost mid = net.pivots_from(nodes@.len() as int);
    let n = nodes.len();
    let mut rows: Vec<Vec<Option<i128>>> = Vec::new();
    let mut i: usize = 0;
    while i < n
        invariant
            i <= n,
            n == nodes@.len(),
            net == network_of(*graph),
            net.nodes == nodes@,
            net.wf(),
            mid == net.pivots_from(n as int),
            rows@.len() == i,
            forall|r: int| 0 <= r < i ==> (#[trigger] rows@[r])@.len() == n,
            forall|r: int, j: int|
                0 <= r < i && 0 <= j < n ==> net.entry_ok(
                    mid,
                    nodes@[r],
                    nodes@[j],
                    cell(#[trigger] rows@[r]@[j]),
                ),
            forall|r: int| 0 <= r < i ==> !#[trigger] net.loops_back(r),
        decreases n - i,
    {
        let mut row: Vec<Option<i128>> = Vec::new();
        let mut j: usize = 0;
        while j < n
            invariant
                i < n,
                j <= n,
                n == nodes@.len(),
                net == network_of(*graph),
                net.nodes == nodes@,
                net.wf(),
                mid == net.pivots_from(n as int),
                row@.len() == j,
                forall|c: int|
                    0 <= c < j ==> net.entry_ok(
                        mid,
                        nodes@[i as int],
                        nodes@[c],
                        cell(#[trigger] row@[c]),
                    ),
                forall|r: int| 0 <= r < i ==> !#[trigger] net.loops_back(r),
                j > i ==> !net.loops_back(i as int),
            decreases n - j,
        {
            let w = graph_edge_weight(graph, nodes[i], nodes[j]);
            let e: Option<i128> = if i == j {
                match w {
                    Some(x) => {
                        if x < 0 {
                            proof {
                                net.lemma_self_dip(nodes@[i as int]);
                                assert(net.loops_back(i as int));
                            }
                            return Err(ScheduleError::NegativeCycle(nodes[i], x as i128, 0));
                        }
                    },
                    None => {},
                }
                Some(0)
            } else {
                match w {
                    Some(x) => Some(x as i128),
                    None => None,
                }
            };
            proof {
                net.lemma_direct_entry(i as int, j as int, cell(e));
            }
            row.push(e);
            j += 1;
        }
        rows.push(row);
        i += 1;
    }
    proof {
        let t = table_of(rows@);
        assert forall|r: int, c: int| 0 <= r < n && 0 <= c < n implies net.entry_ok(
            mid,
            net.nodes[r],
            net.nodes[c],
            #[trigger] t[r][c],
        ) by {
            assert(t[r][c] == cell(rows@[r]@[c]));
        }
    }
    Ok(rows)
}

/// Looks for a node from which going to the pivot at `k` and back has
/// negative length.
fn check_pivot(
    rows: &Vec<Vec<Option<i128>>>,
    nodes: &Vec<i32>,
    k: usize,
    Ghost(net): Ghost<Network>,
) -> (r: Option<ScheduleError>)
    requires
        net.wf(),
        net.nodes == nodes@,
        k < nodes@.len(),
        shaped(rows@, nodes@.len()),
        net.table_ok(table_of(rows@), k + 1),
    ensures
        match r {
            None => {
                &&& no_dip(table_of(rows@), k as int)
                &&& forall|j: int| 0 <= j < nodes@.len() ==> !#[trigger] net.has_dip(k as int, j)
            },
            Some(e) => {
                &&& e matches ScheduleError::NegativeCycle(v, a, b)
                &&& net.dips_at(v, a as int, b as int)
                &&& net.first_dip_through(k as int, v, a as int, b as int)
            },
        },
{
    let n = nodes.len();
    let ghost t = table_of(rows@);
    let ghost mid = net.pivots_from(k + 1);
    let mut i: usize = 0;
    while i < n
        invariant
            i <= n,
            n == nodes@.len(),
            k < n,
            net.wf(),
            net.nodes == nodes@,
            shaped(rows@, n as nat),
            t == table_of(rows@),
            mid == net.pivots_from(k + 1),
            net.table_ok(t, k + 1),
            forall|r: int|
                0 <= r < i && r != k && (#[trigger] t[r][k as int]) is Some
                    && t[k as int][r] is Some
                    ==> t[r][k as int]->0 + t[k as int][r]->0 >= 0,
            forall|j: int| 0 <= j < i ==> !#[trigger] net.has_dip(k as int, j),
        decreases n - i,
    {
        proof {
            if net.has_dip(k as int, i as int) {
                let (a, b) = choose|a: int, b: int| net.dip(k as int, i as int, a, b);
                let there = t[i as int][k as int];
                assert(net.entry_ok(mid, nodes@[i as int], nodes@[k as int], there));
                let back = t[k as int][i as int];
                assert(net.entry_ok(mid, nodes@[k as int], nodes@[i as int], back));
                net.lemma_entry_unique(
                    mid,
                    nodes@[i as int],
                    nodes@[k as int],
                    t[i as int][k as int],
                    Some(a),
                );
                net.lemma_entry_unique(
                    mid,
                    nodes@[k as int],
                    nodes@[i as int],
                    t[k as int][i as int],
                    Some(b),
                );
            }
        }
        if i != k {
            let there = rows[i][k];
            let back = rows[k][i];
            assert(cell(there) == t[i as int][k as int]);
            assert(cell(back) == t[k as int][i as int]);
            match (there, back) {
                (Some(a), Some(b)) => {
                    proof {
                        net.lemma_entry_bound(t, k + 1, k as int, i as int);
                    }
                    if a < -b {
                        proof {
                            let v = nodes@[i as int];
                            let m = nodes@[k as int];
                            assert(net.entry_ok(mid, v, m, t[i as int][k as int]));
                            assert(net.entry_ok(mid, m, v, t[k as int][i as int]));
                            let p = choose|p: Seq<i32>| #[trigger]
                                net.walk_via(p, v, m, mid) && p.no_duplicates() && net.length(p)
                                    == a as int;
                            let q = choose|q: Seq<i32>| #[trigger]
                                net.walk_via(q, m, v, mid) && q.no_duplicates() && net.length(q)
                                    == b as int;
                            assert(net.walk_between(p, v, m));
                            assert(net.walk_between(q, m, v));
                            assert(net.dip(k as int, i as int, a as int, b as int));
                            assert(net.first_dip_through(k as int, v, a as int, b as int));
                        }
                        return Some(ScheduleError::NegativeCycle(nodes[i], a, b));
                    }
                },
                _ => {},
            }
        }
        i += 1;
    }
    None
}

/// Relaxes every entry through the pivot at `k`: where going from `i` to the
/// pivot and on to `j` is shorter than the entry of `(i, j)`, the entry
/// takes the sum.
fn relax_through(rows: &mut Vec<Vec<Option<i128>>>, k: usize, Ghost(net): Ghost<Network>)
    requires
        net.wf(),
        shaped(old(rows)@, net.nodes.len()),
        k < net.nodes.len(),
        net.table_ok(table_of(old(rows)@), k + 1),
        no_dip(table_of(old(rows)@), k as int),
    ensures
        shaped(final(rows)@, net.nodes.len()),
        net.table_ok(table_of(final(rows)@), k as int),
{
    let n = rows.len();
    let ghost t0 = table_of(rows@);
    let mut i: usize = 0;
    while i < n
        invariant
            i <= n,
            k < n,
            n == net.nodes.len(),
            net.wf(),
            shaped(rows@, n as nat),
            square(t0, n as nat),
            net.table_ok(t0, k + 1),
            no_dip(t0, k as int),
            forall|r: int, c: int|
                0 <= r < i && 0 <= c < n ==> cell(#[trigger] rows@[r]@[c]) == relaxed(
                    t0,
                    k as int,
                    r,
                    c,
                ),
            forall|r: int, c: int|
                i <= r < n && 0 <= c < n ==> cell(#[trigger] rows@[r]@[c]) == t0[r][c],
        decreases n - i,
    {
        let first = rows[i][k];
        if i != k && first.is_some() {
            let a = first.unwrap();
            let mut j: usize = 0;
            while j < n
                invariant
                    i < n,
                    j <= n,
                    k < n,
                    i != k,
                    n == net.nodes.len(),
                    net.wf(),
                    shaped(rows@, n as nat),
                    square(t0, n as nat),
                    net.table_ok(t0, k + 1),
                    no_dip(t0, k as int),
                    t0[i as int][k as int] == Some(a as int),
                    forall|r: int, c: int|
                        0 <= r < i && 0 <= c < n ==> cell(#[trigger] rows@[r]@[c]) == relaxed(
                            t0,
                            k as int,
                            r,
                            c,
                        ),
                    forall|r: int, c: int|
                        i < r < n && 0 <= c < n ==> cell(#[trigger] rows@[r]@[c]) == t0[r][c],
                    forall|c: int|
                        0 <= c < j ==> cell(#[trigger] rows@[i as int]@[c]) == relaxed(
                            t0,
                            k as int,
                            i as int,
                            c,
                        ),
                    forall|c: int|
                        j <= c < n ==> cell(#[trigger] rows@[i as int]@[c]) == t0[i as int][c],
                decreases n - j,
            {
                if j != k && j != i {
                    let second = rows[k][j];
                    assert(cell(second) == t0[k as int][j as int]) by {
                        assert(cell(rows@[k as int]@[j as int]) == relaxed(
                            t0,
                            k as int,
                            k as int,
                            j as int,
                        ) || cell(rows@[k as int]@[j as int]) == t0[k as int][j as int]);
                    }
                    let held = rows[i][j];
                    assert(cell(held) == t0[i as int][j as int]);
                    match second {
                        Some(b) => {
                            match a.checked_add(b) {
                                Some(s) => {
                                    let better = match held {
                                        Some(c) => s < c,
                                        None => true,
                                    };
                                    if better {
                                        rows[i][j] = Some(s);
                                    }
                                },
                                None => {
                                    proof {
                                        if held is None || a + b < held->0 {
                                            net.lemma_improved_bound(
                                                t0,
                                                k as int,
                                                i as int,
                                                j as int,
                                            );
                                        }
                                    }
                                },
                            }
                        },
                        None => {},
                    }
                }
                j += 1;
            }
        }
        i += 1;
    }
    proof {
        let t1 = table_of(rows@);
        assert forall|r: int, c: int| 0 <= r < n && 0 <= c < n implies #[trigger] t1[r][c]
            == relaxed(t0, k as int, r, c) by {
            assert(t1[r][c] == cell(rows@[r]@[c]));
        }
        net.lemma_pivot_step(t0, t1, k as int);
    }
}

/// Takes every node as a pivot, from the last position down, on a table
/// that holds the direct edges of `net`. Before the table is relaxed through
/// a pivot, the pivot is checked for a negative cycle through it.
pub(crate) fn close_table(
    rows: Vec<Vec<Option<i128>>>,
    nodes: Vec<i32>,
    Ghost(net): Ghost<Network>,
) -> (r: Result<DistanceTable, ScheduleError>)
    requires
        net.wf(),
        net.nodes == nodes@,
        shaped(rows@, nodes@.len()),
        net.table_ok(table_of(rows@), nodes@.len() as int),
        forall|j: int| 0 <= j < nodes@.len() ==> !#[trigger] net.loops_back(j),
    ensures
        match r {
            Ok(table) => {
                &&& table.closes(net)
                &&& !net.has_negative_cycle()
            },
            Err(e) => {
                &&& e matches ScheduleError::NegativeCycle(v, a, b)
                &&& net.dips_at(v, a as int, b as int)
                &&& net.first_dip(v, a as int, b as int)
                &&& net.has_negative_cycle()
            },
        },
{
    let mut rows = rows;
    let n = nodes.len();
    let mut k: usize = n;
    while k > 0
        invariant
            k <= n,
            n == nodes@.len(),
            net.nodes == nodes@,
            net.wf(),
            shaped(rows@, n as nat),
            net.table_ok(table_of(rows@), k as int),
            forall|j: int| 0 <= j < n ==> !#[trigger] net.loops_back(j),
            forall|m: int, j: int| k <= m < n && 0 <= j < n ==> !#[trigger] net.has_dip(m, j),
        decreases k,
    {
        k -= 1;
        match check_pivot(&rows, &nodes, k, Ghost(net)) {
            Some(e) => {
                proof {
                    if let ScheduleError::NegativeCycle(v, a, b) = e {
                        net.lemma_dip_is_negative_cycle(v, a as int, b as int);
                    }
                }
                return Err(e);
            },
            None => {},
        }
        relax_through(&mut rows, k, Ghost(net));
    }
    let table = DistanceTable { nodes, rows };
    proof {
        let t = table.table();
        net.lemma_no_negative_cycle(t);
        assert forall|i: int, j: int|
            0 <= i < net.nodes.len() && 0 <= j < net.nodes.len() implies match #[trigger] t[i][j] {
            Some(d) => net.is_distance(net.nodes[i], net.nodes[j], d),
            None => !net.connected(net.nodes[i], net.nodes[j]),
        } by {
            net.lemma_all_pivots(t, i, j);
        }
    }
    Ok(table)
}

/// Computes the shortest distance between every ordered pair of nodes of
/// `graph`.
///
/// The distance from a node to itself is zero, and a pair without a
/// connecting walk gets no distance. Where the graph has a negative cycle
/// there are no shortest distances: the function then fails and names a node
/// on such a cycle, together with the length of a walk from that node to
/// another and the length of a walk back, which sum to less than zero.
pub fn floyd_warshall(graph: &DiGraphMap<i32, i64>) -> (r: Result<DistanceTable, ScheduleError>)
    ensures
        match r {
            Ok(table) => {
                &&& table.closes(network_of(*graph))
                &&& !network_of(*graph).has_negative_cycle()
            },
            Err(e) => {
                &&& e matches ScheduleError::NegativeCycle(v, a, b)
                &&& network_of(*graph).dips_at(v, a as int, b as int)
                &&& network_of(*graph).first_dip(v, a as int, b as int)
                &&& network_of(*graph).has_negative_cycle()
            },
        },
{
    let ghost net = network_of(*graph);
    let nodes = graph_node_list(graph);
    let rows = match direct_table(graph, &nodes) {
        Ok(rows) => rows,
        Err(e) => {
            proof {
                if let ScheduleError::NegativeCycle(v, a, b) = e {
                    net.lemma_dip_is_negative_cycle(v, a as int, b as int);
                }
            }
            return Err(e);
        },
    };
    close_table(rows, nodes, Ghost(net))
}

} // verus!
