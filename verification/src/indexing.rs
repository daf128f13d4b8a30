//! How the nodes and edges of an indexed graph make up a network.
//!
//! The graph knows its nodes and edges by index. The network knows them by
//! the IDs of the nodes: each listed node has an index of its own, and the
//! weight between two nodes is that of the one edge between their indices.

use crate::digraph::{joins, linked};
use crate::registration::{ascending, refreshed};
use vstd::prelude::*;

verus! {

/// The IDs of the pairs, in their order.
pub open spec fn ids_of(pairs: Seq<(i32, usize)>) -> Seq<i32> {
    Seq::new(pairs.len(), |r: int| pairs[r].0)
}

/// Whether the pair at position `r` is that of node `id`.
pub open spec fn holds_id(pairs: Seq<(i32, usize)>, r: int, id: i32) -> bool {
    0 <= r < pairs.len() && pairs[r].0 == id
}

/// The index that the pairs give to node `id`.
pub open spec fn index_for(pairs: Seq<(i32, usize)>, id: i32) -> Option<usize> {
    if exists|r: int| holds_id(pairs, r, id) {
        Some(pairs[choose|r: int| holds_id(pairs, r, id)].1)
    } else {
        None
    }
}

/// Whether the pairs give node `y` an index.
pub open spec fn has_index(pairs: Seq<(i32, usize)>, y: i32) -> bool {
    index_for(pairs, y) is Some
}

/// The first `r` nodes of the list, as a set.
pub open spec fn first_nodes(ids: Seq<i32>, r: int) -> Set<i32> {
    Set::new(|y: i32| exists|t: int| 0 <= t < r && ids[t] == y)
}

/// The weight of the edge from node `a` to node `b`, by node indices.
pub open spec fn link_weight(edges: Seq<(usize, usize, i64)>, a: usize, b: usize) -> Option<i64> {
    if linked(edges, a, b) {
        Some(edges[choose|e: int| joins(edges, e, a, b)].2)
    } else {
        None
    }
}

/// The weight of the edge from node `x` to node `y`, by node IDs.
pub open spec fn weight_between(
    pairs: Seq<(i32, usize)>,
    edges: Seq<(usize, usize, i64)>,
    x: i32,
    y: i32,
) -> Option<i64> {
    if index_for(pairs, x) is Some && index_for(pairs, y) is Some {
        link_weight(edges, index_for(pairs, x)->0, index_for(pairs, y)->0)
    } else {
        None
    }
}

/// The weights of the edges between the nodes that the pairs list, keyed by
/// the IDs of source and target.
pub open spec fn weights_of(pairs: Seq<(i32, usize)>, edges: Seq<(usize, usize, i64)>) -> Map<
    (i32, i32),
    i64,
> {
    Map::new(
        |k: (i32, i32)| weight_between(pairs, edges, k.0, k.1) is Some,
        |k: (i32, i32)| weight_between(pairs, edges, k.0, k.1)->0,
    )
}

/// The pairs list each node once, in ascending order of the IDs, and give
/// different nodes different indices below `count`.
pub open spec fn indexed(pairs: Seq<(i32, usize)>, count: nat) -> bool {
    &&& forall|i: int, j: int| 0 <= i < j < pairs.len() ==> pairs[i].0 < pairs[j].0
    &&& forall|i: int, j: int| 0 <= i < j < pairs.len() ==> pairs[i].1 != pairs[j].1
    &&& forall|i: int| 0 <= i < pairs.len() ==> (#[trigger] pairs[i]).1 < count
}

/// Every edge joins two of the first `count` nodes, and no two edges join
/// the same nodes in the same direction.
pub open spec fn simple(edges: Seq<(usize, usize, i64)>, count: nat) -> bool {
    &&& forall|e: int|
        0 <= e < edges.len() ==> (#[trigger] edges[e]).0 < count && edges[e].1 < count
    &&& forall|e: int, f: int, a: usize, b: usize|
        joins(edges, e, a, b) && joins(edges, f, a, b) ==> e == f
}

/// In ascending pairs the index of a node is that of the one pair that
/// holds its ID.
pub(crate) proof fn lemma_index_for(pairs: Seq<(i32, usize)>, count: nat, r: int)
    requires
        indexed(pairs, count),
        0 <= r < pairs.len(),
    ensures
        index_for(pairs, pairs[r].0) == Some(pairs[r].1),
{
    assert(holds_id(pairs, r, pairs[r].0));
    let c = choose|c: int| holds_id(pairs, c, pairs[r].0);
    assert(c == r);
}

/// Every index that indexed pairs give lies below their count.
pub(crate) proof fn lemma_old_index_below(pairs: Seq<(i32, usize)>, count: nat, y: i32)
    requires
        indexed(pairs, count),
    ensures
        index_for(pairs, y) matches Some(a) ==> a < count,
{
    if exists|r: int| holds_id(pairs, r, y) {
        let r = choose|r: int| holds_id(pairs, r, y);
        assert(pairs[r].1 < count);
    }
}

/// Two nodes with the same index are the same node.
pub(crate) proof fn lemma_same_index(pairs: Seq<(i32, usize)>, count: nat, x: i32, y: i32)
    requires
        indexed(pairs, count),
        index_for(pairs, x) is Some,
        index_for(pairs, x) == index_for(pairs, y),
    ensures
        x == y,
{
    let r = choose|r: int| holds_id(pairs, r, x);
    let t = choose|t: int| holds_id(pairs, t, y);
    if r < t {
        assert(pairs[r].1 != pairs[t].1);
    } else if t < r {
        assert(pairs[t].1 != pairs[r].1);
    }
}

/// The pairs list a node exactly if they give it an index.
pub(crate) proof fn lemma_listed(pairs: Seq<(i32, usize)>, y: i32)
    ensures
        ids_of(pairs).contains(y) <==> index_for(pairs, y) is Some,
{
    if ids_of(pairs).contains(y) {
        let r = choose|r: int| 0 <= r < ids_of(pairs).len() && ids_of(pairs)[r] == y;
        assert(holds_id(pairs, r, y));
    }
    if index_for(pairs, y) is Some {
        let r = choose|r: int| holds_id(pairs, r, y);
        assert(ids_of(pairs)[r] == y);
    }
}

/// Ascending IDs are all different.
pub(crate) proof fn lemma_ascending_distinct(ids: Seq<i32>)
    requires
        ascending(ids),
    ensures
        ids.no_duplicates(),
{
    assert forall|i: int, j: int| 0 <= i < ids.len() && 0 <= j < ids.len() && i != j implies ids[i]
        != ids[j] by {
        if i < j {
            assert(ids[i] < ids[j]);
        } else {
            assert(ids[j] < ids[i]);
        }
    }
}

/// Among simple edges the weight between two nodes is that of the one edge
/// that joins them.
pub(crate) proof fn lemma_link_weight(edges: Seq<(usize, usize, i64)>, count: nat, e: int)
    requires
        simple(edges, count),
        0 <= e < edges.len(),
    ensures
        link_weight(edges, edges[e].0, edges[e].1) == Some(edges[e].2),
{
    assert(joins(edges, e, edges[e].0, edges[e].1));
    let c = choose|c: int| joins(edges, c, edges[e].0, edges[e].1);
    assert(c == e);
}

/// Gives node `id` the index `idx`, which no node has yet.
pub(crate) fn set_index(pairs: &mut Vec<(i32, usize)>, id: i32, idx: usize)
    requires
        indexed(old(pairs)@, idx as nat),
    ensures
        indexed(final(pairs)@, (idx + 1) as nat),
        forall|y: i32| #[trigger]
            index_for(final(pairs)@, y) == if y == id {
                Some(idx)
            } else {
                index_for(old(pairs)@, y)
            },
{
    let mut p: usize = 0;
    while p < pairs.len() && pairs[p].0 < id
        invariant
            p <= pairs@.len(),
            pairs@ == old(pairs)@,
            indexed(pairs@, idx as nat),
            forall|i: int| 0 <= i < p ==> pairs@[i].0 < id,
        decreases pairs@.len() - p,
    {
        p += 1;
    }
    let ghost before = pairs@;
    let replace = p < pairs.len() && pairs[p].0 == id;
    if replace {
        pairs[p] = (id, idx);
    } else {
        pairs.insert(p, (id, idx));
    }
    proof {
        let after = pairs@;
        let shift = if replace {
            0int
        } else {
            1int
        };
        assert forall|i: int| 0 <= i < after.len() implies #[trigger] after[i] == if i < p {
            before[i]
        } else if i == p {
            (id, idx)
        } else {
            before[i - shift]
        } by {}
        assert(indexed(after, (idx + 1) as nat)) by {
            assert forall|i: int, j: int| 0 <= i < j < after.len() implies after[i].0
                < after[j].0 by {
                if i != p && j != p {
                    let a = if i < p {
                        i
                    } else {
                        i - shift
                    };
                    let b = if j < p {
                        j
                    } else {
                        j - shift
                    };
                    assert(before[a].0 < before[b].0);
                } else if i == p {
                    let b = j - shift;
                    if b > p {
                        assert(before[p as int].0 < before[b].0);
                    }
                }
            }
            assert forall|i: int, j: int| 0 <= i < j < after.len() implies after[i].1
                != after[j].1 by {
                if i != p && j != p {
                    let a = if i < p {
                        i
                    } else {
                        i - shift
                    };
                    let b = if j < p {
                        j
                    } else {
                        j - shift
                    };
                    assert(before[a].1 != before[b].1);
                }
            }
        }
        assert forall|y: i32| #[trigger]
            index_for(after, y) == if y == id {
                Some(idx)
            } else {
                index_for(before, y)
            } by {
            if y == id {
                lemma_index_for(after, (idx + 1) as nat, p as int);
            } else if exists|r: int| holds_id(before, r, y) {
                let r = choose|r: int| holds_id(before, r, y);
                lemma_index_for(before, idx as nat, r);
                let t = if r < p {
                    r
                } else {
                    r + shift
                };
                assert(after[t] == before[r]);
                lemma_index_for(after, (idx + 1) as nat, t);
            } else {
                if exists|r: int| holds_id(after, r, y) {
                    let r = choose|r: int| holds_id(after, r, y);
                    let t = if r < p {
                        r
                    } else {
                        r - shift
                    };
                    assert(holds_id(before, t, y));
                }
            }
        }
    }
}

/// Giving a node a new index with nothing but an edge of weight zero to
/// itself registers the node anew.
pub(crate) proof fn lemma_refresh(
    pairs0: Seq<(i32, usize)>,
    pairs1: Seq<(i32, usize)>,
    edges0: Seq<(usize, usize, i64)>,
    count: usize,
    id: i32,
)
    requires
        simple(edges0, count as nat),
        indexed(pairs0, count as nat),
        forall|y: i32| #[trigger]
            index_for(pairs1, y) == if y == id {
                Some(count)
            } else {
                index_for(pairs0, y)
            },
    ensures
        simple(edges0.push((count, count, 0i64)), (count + 1) as nat),
        weights_of(pairs1, edges0.push((count, count, 0i64))) == refreshed(
            weights_of(pairs0, edges0),
            set![id],
        ),
{
    let edges1 = edges0.push((count, count, 0i64));
    let last = edges0.len() as int;
    assert forall|e: int, f: int, a: usize, b: usize|
        joins(edges1, e, a, b) && joins(edges1, f, a, b) implies e == f by {
        if e < last && f < last {
            assert(joins(edges0, e, a, b) && joins(edges0, f, a, b));
        } else if e < last {
            assert(edges0[e].0 < count);
        } else if f < last {
            assert(edges0[f].0 < count);
        }
    }
    assert forall|e: int| 0 <= e < edges1.len() implies (#[trigger] edges1[e]).0 < count + 1
        && edges1[e].1 < count + 1 by {
        if e < last {
            assert(edges0[e].0 < count);
        }
    }
    let w0 = weights_of(pairs0, edges0);
    let w1 = weights_of(pairs1, edges1);
    let target = refreshed(w0, set![id]);
    assert forall|k: (i32, i32)|
        (#[trigger] w1.dom().contains(k)) == target.dom().contains(k) && (w1.dom().contains(k)
            ==> w1[k] == target[k]) by {
        lemma_old_index_below(pairs0, count as nat, k.0);
        lemma_old_index_below(pairs0, count as nat, k.1);
        let a1 = index_for(pairs1, k.0);
        let b1 = index_for(pairs1, k.1);
        if a1 is Some && b1 is Some {
            let a = a1->0;
            let b = b1->0;
            if a == count || b == count {
                if a == count && b == count {
                    assert(joins(edges1, last, a, b));
                    lemma_link_weight(edges1, (count + 1) as nat, last);
                } else {
                    assert forall|e: int| !joins(edges1, e, a, b) by {
                        if 0 <= e < last {
                            assert(edges0[e].0 < count && edges0[e].1 < count);
                        }
                    }
                }
            } else {
                if linked(edges0, a, b) {
                    let e = choose|e: int| joins(edges0, e, a, b);
                    lemma_link_weight(edges0, count as nat, e);
                    assert(joins(edges1, e, a, b));
                    lemma_link_weight(edges1, (count + 1) as nat, e);
                } else {
                    assert forall|e: int| !joins(edges1, e, a, b) by {
                        if 0 <= e < last {
                            assert(!joins(edges0, e, a, b));
                        }
                    }
                }
            }
        }
    }
    assert(w1 =~= target);
}

/// Setting the weight of the edge between two nodes by their indices sets
/// the weight between their IDs, and leaves every other weight alone.
pub(crate) proof fn lemma_update(
    pairs: Seq<(i32, usize)>,
    edges0: Seq<(usize, usize, i64)>,
    edges1: Seq<(usize, usize, i64)>,
    count: nat,
    x: i32,
    y: i32,
    r: int,
    weight: i64,
)
    requires
        indexed(pairs, count),
        simple(edges0, count),
        index_for(pairs, x) is Some,
        index_for(pairs, y) is Some,
        linked(edges0, index_for(pairs, x)->0, index_for(pairs, y)->0) ==> joins(
            edges0,
            r,
            index_for(pairs, x)->0,
            index_for(pairs, y)->0,
        ),
        edges1 == if linked(edges0, index_for(pairs, x)->0, index_for(pairs, y)->0) {
            edges0.update(r, (index_for(pairs, x)->0, index_for(pairs, y)->0, weight))
        } else {
            edges0.push((index_for(pairs, x)->0, index_for(pairs, y)->0, weight))
        },
    ensures
        simple(edges1, count),
        weights_of(pairs, edges1) == weights_of(pairs, edges0).insert((x, y), weight),
        edges1.len() == edges0.len() + if weights_of(pairs, edges0).dom().contains((x, y)) {
            0int
        } else {
            1int
        },
{
    let a = index_for(pairs, x)->0;
    let b = index_for(pairs, y)->0;
    lemma_old_index_below(pairs, count, x);
    lemma_old_index_below(pairs, count, y);
    let was = linked(edges0, a, b);
    let at = if was {
        r
    } else {
        edges0.len() as int
    };
    assert(joins(edges1, at, a, b));
    assert forall|e: int| 0 <= e < edges1.len() && e != at implies #[trigger] edges1[e]
        == edges0[e] by {}
    assert forall|e: int, f: int, c: usize, d: usize|
        joins(edges1, e, c, d) && joins(edges1, f, c, d) implies e == f by {
        if e != at && f != at {
            assert(joins(edges0, e, c, d) && joins(edges0, f, c, d));
        } else if e != at {
            assert(joins(edges0, e, a, b));
            if was {
                assert(joins(edges0, r, a, b));
            }
        } else if f != at {
            assert(joins(edges0, f, a, b));
            if was {
                assert(joins(edges0, r, a, b));
            }
        }
    }
    assert forall|e: int| 0 <= e < edges1.len() implies (#[trigger] edges1[e]).0 < count
        && edges1[e].1 < count by {
        if e != at {
            assert(edges0[e].0 < count);
        }
    }
    let w0 = weights_of(pairs, edges0);
    let w1 = weights_of(pairs, edges1);
    let target = w0.insert((x, y), weight);
    lemma_link_weight(edges1, count, at);
    assert forall|k: (i32, i32)|
        (#[trigger] w1.dom().contains(k)) == target.dom().contains(k) && (w1.dom().contains(k)
            ==> w1[k] == target[k]) by {
        let c1 = index_for(pairs, k.0);
        let d1 = index_for(pairs, k.1);
        if c1 is Some && d1 is Some {
            let c = c1->0;
            let d = d1->0;
            if c == a && d == b {
                lemma_same_index(pairs, count, k.0, x);
                lemma_same_index(pairs, count, k.1, y);
            } else {
                if linked(edges0, c, d) {
                    let e = choose|e: int| joins(edges0, e, c, d);
                    lemma_link_weight(edges0, count, e);
                    assert(e != at);
                    assert(joins(edges1, e, c, d));
                    lemma_link_weight(edges1, count, e);
                } else {
                    assert forall|e: int| !joins(edges1, e, c, d) by {
                        if 0 <= e < edges1.len() && e != at {
                            assert(!joins(edges0, e, c, d));
                        }
                    }
                }
            }
        }
    }
    assert(w1 =~= target);
}

} // verus!
