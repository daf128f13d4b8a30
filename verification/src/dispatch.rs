//! The compiled graph: the shortest distances between the events, each
//! saturated to a time, and what can be read from them about the order of
//! dispatch.

use crate::algorithms::DistanceTable;
use crate::closure::Table;
use crate::graph::{edge_of, graph_add_edge, graph_edges, graph_new, graph_nodes, with_node};
use crate::interval::{clamp, clamp_ticks};
use crate::network::Network;
use petgraph::graphmap::DiGraphMap;
use vstd::prelude::*;

verus! {

/// The events `0, 1, .., n - 1` in order.
pub open spec fn events_upto(n: nat) -> Seq<i32> {
    Seq::new(n, |i: int| i as i32)
}

/// An ID is among the first `n` events exactly if it is at least zero and
/// less than `n`.
pub(crate) proof fn lemma_events_upto(n: nat, x: i32)
    requires
        n <= 0x8000_0000,
    ensures
        events_upto(n).contains(x) <==> 0 <= x < n,
        events_upto(n).no_duplicates(),
        events_upto(n).len() == n,
{
    if 0 <= x < n {
        assert(events_upto(n)[x as int] == x);
    }
}

/// The compiled weights `d` say of the pair `(a, b)` what the shortest
/// distances of `net` say: the weight is the distance from `a` to `b`,
/// saturated to a time, and there is none where no walk leads from `a` to
/// `b`.
pub open spec fn closes_pair(net: Network, d: Map<(i32, i32), i64>, a: i32, b: i32) -> bool {
    match edge_of(d, a, b) {
        Some(w) => exists|x: int| #[trigger] net.is_distance(a, b, x) && w == clamp(x),
        None => !net.connected(a, b),
    }
}

/// The compiled weights `d` are the shortest distances of `net`, and relate
/// no other nodes than those of `net`.
pub open spec fn closure_of(net: Network, d: Map<(i32, i32), i64>) -> bool {
    &&& forall|a: i32, b: i32|
        net.nodes.contains(a) && net.nodes.contains(b) ==> #[trigger] closes_pair(net, d, a, b)
    &&& forall|a: i32, b: i32| #[trigger]
        d.dom().contains((a, b)) ==> net.nodes.contains(a) && net.nodes.contains(b)
}

/// A network has one set of compiled weights only.
pub proof fn lemma_closure_unique(
    net: Network,
    d1: Map<(i32, i32), i64>,
    d2: Map<(i32, i32), i64>,
)
    requires
        closure_of(net, d1),
        closure_of(net, d2),
    ensures
        d1 == d2,
{
    assert forall|key: (i32, i32)|
        (#[trigger] d1.dom().contains(key)) == d2.dom().contains(key) && (d1.dom().contains(key)
            ==> d1[key] == d2[key]) by {
        let a = key.0;
        let b = key.1;
        if d1.dom().contains((a, b)) {
            lemma_closed_pair(net, d1, d2, a, b);
        }
        if d2.dom().contains((a, b)) {
            lemma_closed_pair(net, d2, d1, a, b);
        }
    }
    assert(d1 =~= d2);
}

/// Where one set of compiled weights relates two nodes, every other does,
/// and with the same weight.
proof fn lemma_closed_pair(
    net: Network,
    d1: Map<(i32, i32), i64>,
    d2: Map<(i32, i32), i64>,
    a: i32,
    b: i32,
)
    requires
        closure_of(net, d1),
        closure_of(net, d2),
        d1.dom().contains((a, b)),
    ensures
        d2.dom().contains((a, b)),
        d1[(a, b)] == d2[(a, b)],
{
    assert(closes_pair(net, d1, a, b));
    assert(closes_pair(net, d2, a, b));
    let x = choose|x: int| #[trigger] net.is_distance(a, b, x) && d1[(a, b)] == clamp(x);
    let p = choose|p: Seq<i32>| #[trigger] net.walk_between(p, a, b) && net.length(p) == x;
    assert(net.connected(a, b));
    let y = choose|y: int| #[trigger] net.is_distance(a, b, y) && d2[(a, b)] == clamp(y);
    let q = choose|q: Seq<i32>| #[trigger] net.walk_between(q, a, b) && net.length(q) == y;
    assert(x <= net.length(q));
    assert(y <= net.length(p));
}

/// Whether compilation reaches event `x` before event `y`. Compilation
/// takes the events in the order of their IDs, and with each event all the
/// events that a chain of constraints relates to it. So of two related
/// events the one with the smaller ID comes first, and of two unrelated
/// events the one that is related to the smaller ID.
pub open spec fn reached_before(net: Network, x: i32, y: i32) -> bool {
    if net.connected(x, y) {
        x < y
    } else {
        exists|l: i32| leads_before(net, l, x, y)
    }
}

/// Event `l` is related to event `x`, and comes before every event that is
/// related to event `y`.
pub open spec fn leads_before(net: Network, l: i32, x: i32, y: i32) -> bool {
    net.connected(l, x) && forall|z: i32| #[trigger] net.connected(z, y) ==> l < z
}

/// `order` lists the events of `net`, each once, in the order in which
/// compilation reaches them.
pub open spec fn compile_order(net: Network, order: Seq<i32>) -> bool {
    &&& forall|e: i32| net.nodes.contains(e) <==> #[trigger] order.contains(e)
    &&& forall|p: int, q: int|
        0 <= p < q < order.len() ==> reached_before(net, #[trigger] order[p], #[trigger] order[q])
}

/// Of two events of a network where every edge has its edge back,
/// compilation does not reach each before the other, nor any before itself.
pub proof fn lemma_reached_one_way(net: Network, x: i32, y: i32)
    requires
        net.symmetric(),
        net.nodes.contains(x),
        net.nodes.contains(y),
        reached_before(net, x, y),
    ensures
        !reached_before(net, y, x),
        x != y,
{
    let p = seq![x];
    assert(net.is_walk(p));
    assert(net.walk_between(p, x, x));
    let q = seq![y];
    assert(net.is_walk(q));
    assert(net.walk_between(q, y, y));
    if net.connected(x, y) {
        net.lemma_connected_back(x, y);
    } else {
        if net.connected(y, x) {
            net.lemma_connected_back(y, x);
        }
        let l = choose|l: i32| leads_before(net, l, x, y);
        if reached_before(net, y, x) {
            let m = choose|m: i32| leads_before(net, m, y, x);
            assert(net.connected(m, y));
            assert(net.connected(l, x));
        }
    }
}

/// Two lists of the events in the order in which compilation reaches them
/// agree at every position.
proof fn lemma_same_at(net: Network, o1: Seq<i32>, o2: Seq<i32>, k: int)
    requires
        net.symmetric(),
        compile_order(net, o1),
        compile_order(net, o2),
        0 <= k < o1.len(),
    ensures
        k < o2.len(),
        o1[k] == o2[k],
    decreases k,
{
    assert forall|m: int| 0 <= m < k implies m < o2.len() && o1[m] == o2[m] by {
        lemma_same_at(net, o1, o2, m);
    }
    let x = o1[k];
    assert(o1.contains(x));
    assert(o2.contains(x));
    let q = choose|q: int| 0 <= q < o2.len() && o2[q] == x;
    if q < k {
        assert(o1[q] == x);
        assert(reached_before(net, o1[q], o1[k]));
        lemma_reached_one_way(net, x, x);
    } else if q > k {
        let y = o2[k];
        assert(o2.contains(y));
        assert(o1.contains(y));
        assert(reached_before(net, o2[k], o2[q]));
        lemma_reached_one_way(net, y, x);
        let p = choose|p: int| 0 <= p < o1.len() && o1[p] == y;
        if p < k {
            assert(o2[p] == y);
            assert(reached_before(net, o2[p], o2[k]));
            lemma_reached_one_way(net, y, y);
        } else if p > k {
            assert(reached_before(net, o1[k], o1[p]));
        }
    }
}

/// The order in which compilation reaches the events is a matter of the
/// network alone: a network where every edge has its edge back has one such
/// order only.
pub proof fn lemma_compile_order_unique(net: Network, o1: Seq<i32>, o2: Seq<i32>)
    requires
        net.symmetric(),
        compile_order(net, o1),
        compile_order(net, o2),
    ensures
        o1 == o2,
{
    if o1.len() > 0 {
        lemma_same_at(net, o1, o2, o1.len() - 1);
    }
    if o2.len() > 0 {
        lemma_same_at(net, o2, o1, o2.len() - 1);
    }
    assert forall|k: int| 0 <= k < o1.len() implies o1[k] == o2[k] by {
        lemma_same_at(net, o1, o2, k);
    }
    assert(o1 =~= o2);
}

/// Whether the table relates the events `a` and `b`.
spec fn same(t: Table, a: int, b: int) -> bool {
    t[a][b] is Some
}

/// The table relates every one of its `n` events to itself, relates two
/// events in both directions or in neither, and relates two events that it
/// relates to a third.
spec fn equivalence(t: Table, n: int) -> bool {
    &&& forall|a: int| 0 <= a < n ==> #[trigger] same(t, a, a)
    &&& forall|a: int, b: int|
        0 <= a < n && 0 <= b < n && #[trigger] same(t, a, b) ==> same(t, b, a)
    &&& forall|a: int, b: int, c: int|
        0 <= a < n && 0 <= b < n && 0 <= c < n && #[trigger] same(t, a, b) && #[trigger] same(
            t,
            b,
            c,
        ) ==> same(t, a, c)
}

/// Whether an event below `i` is related to event `x`.
spec fn reached_by(t: Table, i: int, x: int) -> bool {
    exists|r: int| 0 <= r < i && #[trigger] same(t, r, x)
}

/// Whether event `x` is event `i` itself or an event below `j` that is
/// related to it, and some event below `j` is related to event `i`.
spec fn reached_in_row(t: Table, i: int, j: int, x: int) -> bool {
    exists|c: int| 0 <= c < j && #[trigger] same(t, i, c) && (x == i || x == c)
}

/// Whether the table puts event `x` before event `y`.
spec fn before_in(t: Table, n: int, x: int, y: int) -> bool {
    if same(t, x, y) {
        x < y
    } else {
        exists|l: int| ahead_in(t, n, l, x, y)
    }
}

/// Event `l` is related to event `x`, and comes before every event that is
/// related to event `y`.
spec fn ahead_in(t: Table, n: int, l: int, x: int, y: int) -> bool {
    0 <= l < n && same(t, l, x) && forall|z: int| 0 <= z < n && #[trigger] same(t, z, y) ==> l < z
}

/// The nodes are those that compilation has reached when it comes to the
/// pair `(i, j)`, in the order in which it reached them.
spec fn reached_so_far(t: Table, n: int, i: int, j: int, nodes: Seq<i32>) -> bool {
    &&& forall|x: i32| #[trigger]
        nodes.contains(x) <==> 0 <= x < n && (reached_by(t, i, x as int) || reached_in_row(
            t,
            i,
            j,
            x as int,
        ))
    &&& forall|p: int, q: int|
        0 <= p < q < nodes.len() ==> before_in(
            t,
            n,
            (#[trigger] nodes[p]) as int,
            (#[trigger] nodes[q]) as int,
        )
}

/// In a network where every edge has its edge back, a table of shortest
/// distances relates the events as an equivalence does.
proof fn lemma_table_equivalence(table: &DistanceTable, net: Network)
    requires
        table.closes(net),
        net.symmetric(),
        net.nodes.len() <= 0x8000_0000,
        net.nodes == events_upto(net.nodes.len()),
    ensures
        equivalence(table.table(), net.nodes.len() as int),
        forall|a: int, b: int|
            0 <= a < net.nodes.len() && 0 <= b < net.nodes.len() ==> (#[trigger] same(
                table.table(),
                a,
                b,
            ) <==> net.connected(a as i32, b as i32)),
{
    let t = table.table();
    let n = net.nodes.len() as int;
    assert forall|a: int, b: int| 0 <= a < n && 0 <= b < n implies (#[trigger] same(t, a, b)
        <==> net.connected(a as i32, b as i32)) by {
        assert(net.nodes[a] == a as i32 && net.nodes[b] == b as i32);
        let e = t[a][b];
        let x = a as i32;
        let y = b as i32;
        if e is Some {
            let p = choose|p: Seq<i32>| #[trigger]
                net.walk_between(p, x, y) && net.length(p) == e->0;
            assert(net.walk_between(p, x, y));
        }
    }
    assert forall|a: int| 0 <= a < n implies #[trigger] same(t, a, a) by {
        assert(net.nodes[a] == a as i32);
        let p = seq![a as i32];
        assert(net.is_walk(p));
        assert(net.walk_between(p, a as i32, a as i32));
    }
    assert forall|a: int, b: int| 0 <= a < n && 0 <= b < n && #[trigger] same(
        t,
        a,
        b,
    ) implies same(t, b, a) by {
        net.lemma_connected_back(a as i32, b as i32);
        assert(same(t, b, a) <==> net.connected(b as i32, a as i32));
    }
    assert forall|a: int, b: int, c: int|
        0 <= a < n && 0 <= b < n && 0 <= c < n && #[trigger] same(t, a, b) && #[trigger] same(
            t,
            b,
            c,
        ) implies same(t, a, c) by {
        let x = a as i32;
        let y = b as i32;
        let z = c as i32;
        assert(same(t, a, b) <==> net.connected(x, y));
        assert(same(t, b, c) <==> net.connected(y, z));
        let p = choose|p: Seq<i32>| net.walk_between(p, x, y);
        let q = choose|q: Seq<i32>| net.walk_between(q, y, z);
        net.lemma_join_is_walk(p, q);
        assert(net.walk_between(crate::network::join(p, q), x, z));
        assert(same(t, a, c) <==> net.connected(x, z));
    }
}

/// An event that compilation has not reached yet, and that is related to the
/// event of the row, comes after every event that it has reached.
proof fn lemma_reached_next(t: Table, n: int, i: int, j: int, nodes: Seq<i32>, v: int)
    requires
        n <= 0x8000_0000,
        equivalence(t, n),
        0 <= i < n,
        0 <= j < n,
        0 <= v < n,
        same(t, i, j),
        v == i || v == j,
        !nodes.contains(v as i32),
        forall|x: i32| #[trigger]
            nodes.contains(x) ==> 0 <= x < n && (reached_by(t, i, x as int) || reached_in_row(
                t,
                i,
                j,
                x as int,
            ) || x == i),
        forall|x: i32|
            0 <= x < n && (reached_by(t, i, x as int) || reached_in_row(t, i, j, x as int))
                ==> #[trigger] nodes.contains(x),
        v != i ==> nodes.contains(i as i32),
    ensures
        forall|p: int|
            0 <= p < nodes.len() ==> before_in(t, n, (#[trigger] nodes[p]) as int, v),
{
    assert(same(t, i, i));
    assert(same(t, j, i));
    assert(same(t, i, v) && same(t, v, i));
    assert forall|p: int| 0 <= p < nodes.len() implies before_in(
        t,
        n,
        (#[trigger] nodes[p]) as int,
        v,
    ) by {
        let y = nodes[p];
        assert(nodes.contains(y));
        if reached_by(t, i, y as int) {
            let r = choose|r: int| 0 <= r < i && #[trigger] same(t, r, y as int);
            if same(t, y as int, v) {
                assert(same(t, r, v));
                assert(reached_by(t, i, v));
                assert(nodes.contains(v as i32));
            }
            assert(same(t, r, r));
            assert forall|z: int| 0 <= z < n && #[trigger] same(t, z, v) implies r < z by {
                if z <= r {
                    assert(reached_by(t, i, v));
                    assert(nodes.contains(v as i32));
                }
            }
            assert(ahead_in(t, n, r, y as int, v));
        } else {
            if y != i {
                let c = choose|c: int|
                    0 <= c < j && #[trigger] same(t, i, c) && (y as int == i || y as int == c);
                assert(same(t, c, i));
            }
            assert(same(t, y as int, i));
            assert(same(t, y as int, v));
            if v == i {
                assert(reached_in_row(t, i, j, y as int));
                let c = choose|c: int|
                    0 <= c < j && #[trigger] same(t, i, c) && (y as int == i || y as int == c);
                assert(reached_in_row(t, i, j, i));
                assert(nodes.contains(i as i32));
            } else {
                if j < i {
                    assert(same(t, j, j));
                    assert(reached_by(t, i, j));
                    assert(nodes.contains(j as i32));
                }
            }
        }
    }
}

/// Taking the pair `(i, j)` keeps the nodes in the order in which
/// compilation reaches them: where the table relates the two events, first
/// `i` and then `j` is reached, unless it was reached before.
proof fn lemma_row_step(t: Table, n: int, i: int, j: int, before: Seq<i32>)
    requires
        n <= 0x8000_0000,
        equivalence(t, n),
        0 <= i < n,
        0 <= j < n,
        reached_so_far(t, n, i, j, before),
    ensures
        reached_so_far(
            t,
            n,
            i,
            j + 1,
            if same(t, i, j) {
                with_node(with_node(before, i as i32), j as i32)
            } else {
                before
            },
        ),
{
    let a = i as i32;
    let b = j as i32;
    if same(t, i, j) {
        let mid = with_node(before, a);
        let after = with_node(mid, b);
        assert(same(t, i, i));
        assert forall|x: i32| #[trigger]
            after.contains(x) <==> 0 <= x < n && (reached_by(t, i, x as int) || reached_in_row(
                t,
                i,
                j + 1,
                x as int,
            )) by {
            lemma_with_node(before, a, x);
            lemma_with_node(mid, b, x);
            if reached_in_row(t, i, j, x as int) {
                let c = choose|c: int|
                    0 <= c < j && #[trigger] same(t, i, c) && (x as int == i || x as int == c);
                assert(0 <= c < j + 1 && same(t, i, c) && (x as int == i || x as int == c));
            }
            if x == a || x == b {
                assert(0 <= j < j + 1 && same(t, i, j) && (x as int == i || x as int == j));
            }
            if reached_in_row(t, i, j + 1, x as int) {
                let c = choose|c: int|
                    0 <= c < j + 1 && #[trigger] same(t, i, c) && (x as int == i || x as int == c);
                if c < j {
                    assert(reached_in_row(t, i, j, x as int));
                }
            }
        }
        if !before.contains(a) {
            lemma_reached_next(t, n, i, j, before, i);
        }
        assert forall|x: i32| #[trigger] mid.contains(x) implies 0 <= x < n && (reached_by(
            t,
            i,
            x as int,
        ) || reached_in_row(t, i, j, x as int) || x == i) by {
            lemma_with_node(before, a, x);
        }
        assert forall|x: i32|
            0 <= x < n && (reached_by(t, i, x as int) || reached_in_row(
                t,
                i,
                j,
                x as int,
            )) implies #[trigger] mid.contains(x) by {
            lemma_with_node(before, a, x);
        }
        lemma_with_node(before, a, a);
        if !mid.contains(b) {
            lemma_reached_next(t, n, i, j, mid, j);
        }
        assert forall|p: int, q: int| 0 <= p < q < after.len() implies before_in(
            t,
            n,
            (#[trigger] after[p]) as int,
            (#[trigger] after[q]) as int,
        ) by {
            if q < before.len() {
                assert(after[p] == before[p] && after[q] == before[q]);
            } else if q < mid.len() {
                assert(after[p] == before[p] && after[q] == a);
            } else {
                assert(after[p] == mid[p] && after[q] == b);
            }
        }
    } else {
        assert forall|x: i32| #[trigger]
            before.contains(x) <==> 0 <= x < n && (reached_by(t, i, x as int) || reached_in_row(
                t,
                i,
                j + 1,
                x as int,
            )) by {
            if reached_in_row(t, i, j, x as int) {
                let c = choose|c: int|
                    0 <= c < j && #[trigger] same(t, i, c) && (x as int == i || x as int == c);
                assert(0 <= c < j + 1 && same(t, i, c) && (x as int == i || x as int == c));
            }
            if reached_in_row(t, i, j + 1, x as int) {
                let c = choose|c: int|
                    0 <= c < j + 1 && #[trigger] same(t, i, c) && (x as int == i || x as int == c);
                assert(reached_in_row(t, i, j, x as int));
            }
        }
    }
}

/// What compilation has reached at the end of the row of event `i` is what
/// it has reached at the start of the next row.
proof fn lemma_row_done(t: Table, n: int, i: int, nodes: Seq<i32>)
    requires
        n <= 0x8000_0000,
        equivalence(t, n),
        0 <= i < n,
        reached_so_far(t, n, i, n, nodes),
    ensures
        reached_so_far(t, n, i + 1, 0, nodes),
{
    assert forall|x: i32| #[trigger]
        nodes.contains(x) <==> 0 <= x < n && (reached_by(t, i + 1, x as int) || reached_in_row(
            t,
            i + 1,
            0,
            x as int,
        )) by {
        if 0 <= x < n {
            assert(same(t, i, i));
            if reached_by(t, i, x as int) {
                let r = choose|r: int| 0 <= r < i && #[trigger] same(t, r, x as int);
                assert(0 <= r < i + 1 && same(t, r, x as int));
            }
            if reached_in_row(t, i, n, x as int) {
                let c = choose|c: int|
                    0 <= c < n && #[trigger] same(t, i, c) && (x as int == i || x as int == c);
                assert(0 <= i < i + 1 && same(t, i, x as int));
            }
            if reached_by(t, i + 1, x as int) {
                let r = choose|r: int| 0 <= r < i + 1 && #[trigger] same(t, r, x as int);
                if r < i {
                    assert(reached_by(t, i, x as int));
                } else {
                    assert(0 <= x < n && same(t, i, x as int) && (x as int == i || x as int == x));
                    assert(reached_in_row(t, i, n, x as int));
                }
            }
        }
    }
}

/// The order in which the table says that compilation reaches the events is
/// the order in which the network says so.
proof fn lemma_order_of_table(table: &DistanceTable, net: Network, nodes: Seq<i32>)
    requires
        table.closes(net),
        net.symmetric(),
        net.nodes.len() <= 0x8000_0000,
        net.nodes == events_upto(net.nodes.len()),
        reached_so_far(table.table(), net.nodes.len() as int, net.nodes.len() as int, 0, nodes),
    ensures
        compile_order(net, nodes),
{
    let t = table.table();
    let n = net.nodes.len() as int;
    lemma_table_equivalence(table, net);
    assert forall|e: i32| net.nodes.contains(e) <==> #[trigger] nodes.contains(e) by {
        lemma_events_upto(net.nodes.len(), e);
        if 0 <= e < n {
            assert(same(t, e as int, e as int));
            assert(reached_by(t, n, e as int));
        }
    }
    assert forall|p: int, q: int| 0 <= p < q < nodes.len() implies reached_before(
        net,
        #[trigger] nodes[p],
        #[trigger] nodes[q],
    ) by {
        let x = nodes[p];
        let y = nodes[q];
        assert(nodes.contains(x) && nodes.contains(y));
        assert(before_in(t, n, x as int, y as int));
        assert(same(t, x as int, y as int) <==> net.connected(x, y));
        if !same(t, x as int, y as int) {
            let l = choose|l: int| ahead_in(t, n, l, x as int, y as int);
            let first = l as i32;
            assert(same(t, l, x as int) <==> net.connected(first, x));
            assert forall|z: i32| #[trigger] net.connected(z, y) implies first < z by {
                let w = choose|w: Seq<i32>| net.walk_between(w, z, y);
                assert(net.nodes.contains(w[0]));
                lemma_events_upto(net.nodes.len(), z);
                assert(same(t, z as int, y as int) <==> net.connected(z, y));
            }
            assert(leads_before(net, first, x, y));
        }
    }
}

/// Builds the compiled graph from a table of shortest distances: one edge
/// for every pair that has a distance, which is saturated to a time.
pub(crate) fn dispatchable_from(table: &DistanceTable, Ghost(net): Ghost<Network>) -> (d:
    DiGraphMap<i32, i64>)
    requires
        table.closes(net),
        net.symmetric(),
        net.nodes.len() <= 0x8000_0000,
        net.nodes == events_upto(net.nodes.len()),
    ensures
        closure_of(net, graph_edges(d)),
        compile_order(net, graph_nodes(d)),
{
    let mut d = graph_new();
    let n = table.len();
    let ghost t = table.table();
    proof {
        lemma_table_equivalence(table, net);
    }
    let mut i: usize = 0;
    while i < n
        invariant
            i <= n,
            n == net.nodes.len(),
            n <= 0x8000_0000,
            table.closes(net),
            t == table.table(),
            net.nodes == events_upto(n as nat),
            forall|a: i32, b: i32| #[trigger]
                graph_edges(d).dom().contains((a, b)) ==> 0 <= a < i && 0 <= b < n
                    && t[a as int][b as int] is Some
                    && graph_edges(d)[(a, b)] == clamp(t[a as int][b as int]->0),
            forall|a: i32, b: i32|
                0 <= a < i && 0 <= b < n && t[a as int][b as int] is Some
                    ==> #[trigger] graph_edges(d).dom().contains((a, b)),
            equivalence(t, n as int),
            reached_so_far(t, n as int, i as int, 0, graph_nodes(d)),
        decreases n - i,
    {
        let mut j: usize = 0;
        while j < n
            invariant
                i < n,
                j <= n,
                n == net.nodes.len(),
                n <= 0x8000_0000,
                table.closes(net),
                t == table.table(),
                net.nodes == events_upto(n as nat),
                forall|a: i32, b: i32| #[trigger]
                    graph_edges(d).dom().contains((a, b)) ==> 0 <= a <= i && 0 <= b < n && (a == i
                        ==> b < j) && t[a as int][b as int] is Some && graph_edges(d)[(a, b)]
                        == clamp(t[a as int][b as int]->0),
                forall|a: i32, b: i32|
                    0 <= a <= i && 0 <= b < n && (a == i ==> b < j) && t[a as int][b as int] is Some
                        ==> #[trigger] graph_edges(d).dom().contains((a, b)),
                equivalence(t, n as int),
                reached_so_far(t, n as int, i as int, j as int, graph_nodes(d)),
            decreases n - j,
        {
            let a = table.node(i);
            let b = table.node(j);
            assert(a == i && b == j);
            proof {
                lemma_row_step(t, n as int, i as int, j as int, graph_nodes(d));
            }
            match table.at(i, j) {
                Some(x) => {
                    graph_add_edge(&mut d, a, b, clamp_ticks(x));
                },
                None => {},
            }
            j += 1;
        }
        proof {
            lemma_row_done(t, n as int, i as int, graph_nodes(d));
        }
        i += 1;
    }
    proof {
        lemma_order_of_table(table, net, graph_nodes(d));
        let e = graph_edges(d);
        assert forall|a: i32, b: i32|
            net.nodes.contains(a) && net.nodes.contains(b) implies #[trigger] closes_pair(
            net,
            e,
            a,
            b,
        ) by {
            lemma_events_upto(n as nat, a);
            lemma_events_upto(n as nat, b);
            assert(net.nodes[a as int] == a && net.nodes[b as int] == b);
            let x = t[a as int][b as int];
            if x is Some {
                assert(e.dom().contains((a, b)));
                assert(net.is_distance(a, b, x->0));
            } else {
                if e.dom().contains((a, b)) {
                    assert(false);
                }
            }
        }
        assert forall|a: i32, b: i32| #[trigger]
            e.dom().contains((a, b)) implies net.nodes.contains(a) && net.nodes.contains(b) by {
            lemma_events_upto(n as nat, a);
            lemma_events_upto(n as nat, b);
        }
    }
    d
}

/// What `with_node` holds: what the nodes held, and the node added.
pub(crate) proof fn lemma_with_node(nodes: Seq<i32>, n: i32, x: i32)
    ensures
        with_node(nodes, n).contains(x) <==> nodes.contains(x) || x == n,
{
    if !nodes.contains(n) {
        let m = nodes.push(n);
        if nodes.contains(x) {
            let t = choose|t: int| 0 <= t < nodes.len() && nodes[t] == x;
            assert(m[t] == x);
        }
        if x == n {
            assert(m[nodes.len() as int] == x);
        }
        if m.contains(x) {
            let t = choose|t: int| 0 <= t < m.len() && m[t] == x;
            if t < nodes.len() {
                assert(nodes[t] == x);
            }
        }
    }
}

/// Whether the compiled weights `d` have an edge from `t` to `e` with a
/// weight of zero or less: `t` does not come before `e`.
pub open spec fn not_after(d: Map<(i32, i32), i64>, t: i32, e: i32) -> bool {
    d.dom().contains((t, e)) && d[(t, e)] <= 0
}

/// Whether every edge of the compiled weights `d` that enters `e` has a
/// weight of zero or less: no event comes before `e`.
pub open spec fn is_root(d: Map<(i32, i32), i64>, e: i32) -> bool {
    forall|t: i32| #[trigger] d.dom().contains((t, e)) ==> d[(t, e)] <= 0
}

/// The first of the events in `order` that is a root, if any is.
pub open spec fn first_root(order: Seq<i32>, d: Map<(i32, i32), i64>) -> Option<i32>
    decreases order.len(),
{
    if order.len() == 0 {
        None
    } else if is_root(d, order[0]) {
        Some(order[0])
    } else {
        first_root(order.drop_first(), d)
    }
}

/// What `first_root` finds: the root that comes first in the order, or
/// nothing where the order holds no root.
pub proof fn lemma_first_root(order: Seq<i32>, d: Map<(i32, i32), i64>)
    ensures
        match first_root(order, d) {
            Some(e) => exists|i: int|
                {
                    &&& 0 <= i < order.len()
                    &&& #[trigger] order[i] == e
                    &&& is_root(d, e)
                    &&& forall|j: int| 0 <= j < i ==> !is_root(d, #[trigger] order[j])
                },
            None => forall|j: int| 0 <= j < order.len() ==> !is_root(d, #[trigger] order[j]),
        },
    decreases order.len(),
{
    if order.len() > 0 {
        if is_root(d, order[0]) {
            assert(order[0] == order[0]);
        } else {
            let rest = order.drop_first();
            lemma_first_root(rest, d);
            match first_root(rest, d) {
                Some(e) => {
                    let i = choose|i: int|
                        {
                            &&& 0 <= i < rest.len()
                            &&& #[trigger] rest[i] == e
                            &&& is_root(d, e)
                            &&& forall|j: int| 0 <= j < i ==> !is_root(d, #[trigger] rest[j])
                        };
                    assert(order[i + 1] == e);
                    assert forall|j: int| 0 <= j < i + 1 implies !is_root(
                        d,
                        #[trigger] order[j],
                    ) by {
                        if j > 0 {
                            assert(order[j] == rest[j - 1]);
                        }
                    }
                },
                None => {
                    assert forall|j: int| 0 <= j < order.len() implies !is_root(
                        d,
                        #[trigger] order[j],
                    ) by {
                        if j > 0 {
                            assert(order[j] == rest[j - 1]);
                        }
                    }
                },
            }
        }
    }
}

/// Skipping events that are no roots does not change which root is first.
pub(crate) proof fn lemma_first_root_skip(order: Seq<i32>, d: Map<(i32, i32), i64>, i: int)
    requires
        0 <= i <= order.len(),
        forall|j: int| 0 <= j < i ==> !is_root(d, #[trigger] order[j]),
    ensures
        first_root(order, d) == first_root(order.subrange(i, order.len() as int), d),
    decreases i,
{
    if i == 0 {
        assert(order.subrange(0, order.len() as int) =~= order);
    } else {
        let rest = order.drop_first();
        assert(!is_root(d, order[0]));
        assert forall|j: int| 0 <= j < i - 1 implies !is_root(d, #[trigger] rest[j]) by {
            assert(rest[j] == order[j + 1]);
        }
        lemma_first_root_skip(rest, d, i - 1);
        assert(rest.subrange(i - 1, rest.len() as int) =~= order.subrange(i, order.len() as int));
    }
}

/// Whether the compiled weights `d` put `event` farther than `w` from `root`.
pub open spec fn later_than(d: Map<(i32, i32), i64>, root: i32, event: i32, w: i64) -> bool {
    d.dom().contains((root, event)) && d[(root, event)] > w
}

/// Whether event `x` comes before event `y` in the order of dispatch from
/// `root`: its distance from the root is smaller, or the distances are equal
/// and its ID is smaller.
pub open spec fn dispatched_before(d: Map<(i32, i32), i64>, root: i32, x: i32, y: i32) -> bool {
    d[(root, x)] < d[(root, y)] || (d[(root, x)] == d[(root, y)] && x < y)
}

/// `list` holds the events that the compiled weights `d` relate to `root`,
/// among the first `upto` events, each once, in the order of dispatch.
pub open spec fn dispatch_list(
    d: Map<(i32, i32), i64>,
    root: i32,
    upto: int,
    list: Seq<i32>,
) -> bool {
    &&& forall|x: i32| list.contains(x) <==> 0 <= x < upto && d.dom().contains((root, x))
    &&& forall|i: int, j: int|
        0 <= i < j < list.len() ==> dispatched_before(
            d,
            root,
            #[trigger] list[i],
            #[trigger] list[j],
        )
}

} // verus!
