//! The mathematics of a distance graph: walks, their lengths, shortest
//! distances and negative cycles.
//!
//! Everything in this module is definition and proof. A [`Network`] is the
//! model of a graph: its nodes in order and the weight of each edge.

use vstd::prelude::*;

verus! {

/// A directed graph with integer edge weights.
pub struct Network {
    /// The nodes, each once.
    pub nodes: Seq<i32>,
    /// The weight of each edge, keyed by `(source, target)`.
    pub weights: Map<(i32, i32), i64>,
}

/// The walk that follows `p` and then `q`, where `q` starts at the node at
/// which `p` ends.
pub open spec fn join(p: Seq<i32>, q: Seq<i32>) -> Seq<i32> {
    p + q.subrange(1, q.len() as int)
}

/// Every node of `p` other than its two ends belongs to `via`.
pub open spec fn inner_in(p: Seq<i32>, via: Set<i32>) -> bool {
    forall|t: int| 0 < t < p.len() - 1 ==> via.contains(#[trigger] p[t])
}

impl Network {
    /// No node is listed twice.
    pub open spec fn wf(self) -> bool {
        self.nodes.no_duplicates()
    }

    /// Whether the network has an edge from `a` to `b`.
    pub open spec fn has_edge(self, a: i32, b: i32) -> bool {
        self.weights.dom().contains((a, b))
    }

    /// The graph has an edge from `p[t]` to `p[t + 1]`.
    pub open spec fn step(self, p: Seq<i32>, t: int) -> bool {
        self.has_edge(p[t], p[t + 1])
    }

    /// `p` is a walk: a non-empty sequence of nodes in which each node has an
    /// edge to the next. A single node is a walk without edges.
    pub open spec fn is_walk(self, p: Seq<i32>) -> bool {
        &&& p.len() >= 1
        &&& forall|t: int| 0 <= t < p.len() ==> self.nodes.contains(#[trigger] p[t])
        &&& forall|t: int| 0 <= t < p.len() - 1 ==> #[trigger] self.step(p, t)
    }

    /// The sum of the weights of the edges along `p`.
    pub open spec fn length(self, p: Seq<i32>) -> int
        decreases p.len(),
    {
        if p.len() <= 1 {
            0
        } else {
            self.length(p.drop_last()) + self.weights[(p[p.len() - 2], p[p.len() - 1])]
        }
    }

    /// `p` is a walk from `a` to `b`.
    pub open spec fn walk_between(self, p: Seq<i32>, a: i32, b: i32) -> bool {
        self.is_walk(p) && p[0] == a && p[p.len() - 1] == b
    }

    /// `p` is a walk from `a` to `b` that passes only through nodes of `via`.
    pub open spec fn walk_via(self, p: Seq<i32>, a: i32, b: i32, via: Set<i32>) -> bool {
        self.walk_between(p, a, b) && inner_in(p, via)
    }

    /// Some walk leads from `a` to `b`.
    pub open spec fn connected(self, a: i32, b: i32) -> bool {
        exists|p: Seq<i32>| self.walk_between(p, a, b)
    }

    /// `d` is the shortest distance from `a` to `b`: some walk from `a` to
    /// `b` has length `d`, and none is shorter.
    pub open spec fn is_distance(self, a: i32, b: i32, d: int) -> bool {
        &&& exists|p: Seq<i32>| #[trigger] self.walk_between(p, a, b) && self.length(p) == d
        &&& forall|p: Seq<i32>| #[trigger] self.walk_between(p, a, b) ==> d <= self.length(p)
    }

    /// `i` is the interval in which `b` happens after `a`: its upper bound
    /// is the shortest distance from `a` to `b`, its lower bound the negated
    /// shortest distance from `b` to `a`, each saturated to a time.
    pub open spec fn spans(self, a: i32, b: i32, i: crate::interval::Interval) -> bool {
        exists|x: int, y: int|
            {
                &&& #[trigger] self.is_distance(a, b, x)
                &&& #[trigger] self.is_distance(b, a, y)
                &&& i == crate::interval::Interval(
                    crate::interval::clamp(-crate::interval::clamp(y)),
                    crate::interval::clamp(x),
                )
            }
    }

    /// `p` is a walk that returns to its first node and has negative length.
    pub open spec fn is_negative_cycle(self, p: Seq<i32>) -> bool {
        self.is_walk(p) && p[0] == p[p.len() - 1] && self.length(p) < 0
    }

    /// Some walk returns to its first node with negative length. The
    /// constraints of such a network cannot all hold.
    pub open spec fn has_negative_cycle(self) -> bool {
        exists|p: Seq<i32>| self.is_negative_cycle(p)
    }

    /// The nodes at positions `k` and above.
    pub open spec fn pivots_from(self, k: int) -> Set<i32> {
        Set::new(|x: i32| exists|t: int| k <= t < self.nodes.len() && self.nodes[t] == x)
    }

    /// Wherever one node has an edge to another, the other has an edge back.
    pub open spec fn symmetric(self) -> bool {
        forall|a: i32, b: i32| #[trigger] self.has_edge(a, b) ==> self.has_edge(b, a)
    }

    /// In a symmetric network a walk can be walked backwards.
    pub proof fn lemma_reverse_walk(self, p: Seq<i32>)
        requires
            self.symmetric(),
            self.is_walk(p),
        ensures
            self.walk_between(p.reverse(), p[p.len() - 1], p[0]),
    {
        let r = p.reverse();
        assert forall|t: int| 0 <= t < r.len() implies self.nodes.contains(#[trigger] r[t]) by {
            assert(r[t] == p[p.len() - 1 - t]);
        }
        assert forall|t: int| 0 <= t < r.len() - 1 implies #[trigger] self.step(r, t) by {
            assert(self.step(p, p.len() - 2 - t));
            assert(self.has_edge(p[p.len() - 2 - t], p[p.len() - 1 - t]));
        }
    }

    /// In a symmetric network, where a walk leads from `a` to `b`, one leads
    /// back.
    pub proof fn lemma_connected_back(self, a: i32, b: i32)
        requires
            self.symmetric(),
            self.connected(a, b),
        ensures
            self.connected(b, a),
    {
        let p = choose|p: Seq<i32>| self.walk_between(p, a, b);
        self.lemma_reverse_walk(p);
        assert(self.walk_between(p.reverse(), b, a));
    }

    /// The length of a walk of a single edge is the weight of that edge, and
    /// a walk of a single node has length zero.
    pub proof fn lemma_length_short(self, p: Seq<i32>)
        ensures
            p.len() <= 1 ==> self.length(p) == 0,
            p.len() == 2 ==> self.length(p) == self.weights[(p[0], p[1])],
    {
        if p.len() == 2 {
            assert(self.length(p.drop_last()) == 0);
        }
    }

    /// Lengths add up along a joined walk.
    pub proof fn lemma_length_join(self, p: Seq<i32>, q: Seq<i32>)
        requires
            p.len() >= 1,
            q.len() >= 1,
            p[p.len() - 1] == q[0],
        ensures
            self.length(join(p, q)) == self.length(p) + self.length(q),
        decreases q.len(),
    {
        let r = join(p, q);
        if q.len() == 1 {
            assert(r =~= p);
        } else {
            let q0 = q.drop_last();
            self.lemma_length_join(p, q0);
            assert(r.drop_last() =~= join(p, q0));
            assert(r[r.len() - 1] == q[q.len() - 1]);
            if q.len() == 2 {
                assert(r[r.len() - 2] == p[p.len() - 1]);
            } else {
                assert(r[r.len() - 2] == q[q.len() - 2]);
            }
        }
    }

    /// Two walks that meet end to start join into a walk.
    pub proof fn lemma_join_is_walk(self, p: Seq<i32>, q: Seq<i32>)
        requires
            self.is_walk(p),
            self.is_walk(q),
            p[p.len() - 1] == q[0],
        ensures
            self.walk_between(join(p, q), p[0], q[q.len() - 1]),
            join(p, q).len() == p.len() + q.len() - 1,
    {
        let r = join(p, q);
        assert forall|t: int| 0 <= t < r.len() implies self.nodes.contains(#[trigger] r[t]) by {
            if t < p.len() {
                assert(r[t] == p[t]);
            } else {
                assert(r[t] == q[t - p.len() + 1]);
            }
        }
        assert forall|t: int| 0 <= t < r.len() - 1 implies #[trigger] self.step(r, t) by {
            if t < p.len() - 1 {
                assert(self.step(p, t));
            } else {
                assert(self.step(q, t - p.len() + 1));
            }
        }
    }

    /// A walk cut at position `s` falls into two walks that join back into
    /// it.
    pub proof fn lemma_split(self, p: Seq<i32>, s: int)
        requires
            self.is_walk(p),
            0 <= s < p.len(),
        ensures
            self.walk_between(p.subrange(0, s + 1), p[0], p[s]),
            self.walk_between(p.subrange(s, p.len() as int), p[s], p[p.len() - 1]),
            join(p.subrange(0, s + 1), p.subrange(s, p.len() as int)) == p,
            self.length(p) == self.length(p.subrange(0, s + 1)) + self.length(
                p.subrange(s, p.len() as int),
            ),
    {
        let a = p.subrange(0, s + 1);
        let b = p.subrange(s, p.len() as int);
        assert forall|t: int| 0 <= t < a.len() implies self.nodes.contains(#[trigger] a[t]) by {
            assert(a[t] == p[t]);
        }
        assert forall|t: int| 0 <= t < a.len() - 1 implies #[trigger] self.step(a, t) by {
            assert(self.step(p, t));
        }
        assert forall|t: int| 0 <= t < b.len() implies self.nodes.contains(#[trigger] b[t]) by {
            assert(b[t] == p[t + s]);
        }
        assert forall|t: int| 0 <= t < b.len() - 1 implies #[trigger] self.step(b, t) by {
            assert(self.step(p, t + s));
        }
        assert(join(a, b) =~= p);
        self.lemma_length_join(a, b);
    }

    /// The times `t` satisfy the network: along every edge, the target
    /// happens at most the weight of the edge after the source.
    pub open spec fn satisfied_by(self, t: spec_fn(i32) -> int) -> bool {
        forall|a: i32, b: i32| #[trigger]
            self.has_edge(a, b) ==> t(b) - t(a) <= self.weights[(a, b)]
    }

    /// Times that satisfy the network respect every walk: the last node of
    /// the walk happens at most the length of the walk after the first.
    pub proof fn lemma_walk_bounds(self, t: spec_fn(i32) -> int, p: Seq<i32>)
        requires
            self.satisfied_by(t),
            self.is_walk(p),
        ensures
            t(p[p.len() - 1]) - t(p[0]) <= self.length(p),
        decreases p.len(),
    {
        if p.len() > 1 {
            let q = p.drop_last();
            let last = p.len() - 2;
            assert(self.is_walk(q)) by {
                assert forall|u: int| 0 <= u < q.len() implies self.nodes.contains(
                    #[trigger] q[u],
                ) by {
                    assert(q[u] == p[u]);
                }
                assert forall|u: int| 0 <= u < q.len() - 1 implies #[trigger] self.step(q, u) by {
                    assert(self.step(p, u));
                }
            }
            self.lemma_walk_bounds(t, q);
            assert(self.step(p, last));
            assert(self.has_edge(p[last], p[last + 1]));
        }
    }

    /// Shortest distances are sound: times that satisfy the network keep
    /// every two nodes no farther apart than their shortest distance.
    pub proof fn lemma_distance_bounds(self, t: spec_fn(i32) -> int, a: i32, b: i32, d: int)
        requires
            self.satisfied_by(t),
            self.is_distance(a, b, d),
        ensures
            t(b) - t(a) <= d,
    {
        let p = choose|p: Seq<i32>| #[trigger] self.walk_between(p, a, b) && self.length(p) == d;
        self.lemma_walk_bounds(t, p);
    }

    /// Shortest distances are tight: the distances from a node satisfy every
    /// edge that they reach, so they are themselves times at which the nodes
    /// can happen, each as late after that node as its distance allows.
    pub proof fn lemma_distances_satisfy(self, a: i32, x: i32, y: i32, dx: int, dy: int)
        requires
            self.is_distance(a, x, dx),
            self.is_distance(a, y, dy),
            self.nodes.contains(y),
            self.has_edge(x, y),
        ensures
            dy - dx <= self.weights[(x, y)],
    {
        let p = choose|p: Seq<i32>| #[trigger] self.walk_between(p, a, x) && self.length(p) == dx;
        let e = seq![x, y];
        assert(self.is_walk(e)) by {
            assert(self.nodes.contains(p[p.len() - 1]));
            assert forall|u: int| 0 <= u < e.len() - 1 implies #[trigger] self.step(e, u) by {
                assert(u == 0);
            }
        }
        self.lemma_length_short(e);
        self.lemma_join_is_walk(p, e);
        self.lemma_length_join(p, e);
        assert(self.walk_between(join(p, e), a, y));
    }

    /// A network with a negative cycle cannot be satisfied: no times meet
    /// all of its constraints.
    pub proof fn lemma_negative_cycle_unsatisfiable(self, t: spec_fn(i32) -> int)
        requires
            self.has_negative_cycle(),
        ensures
            !self.satisfied_by(t),
    {
        if self.satisfied_by(t) {
            let p = choose|p: Seq<i32>| self.is_negative_cycle(p);
            self.lemma_walk_bounds(t, p);
        }
    }
}

} // verus!
