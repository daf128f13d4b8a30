//! What a network is registered from: a payload of edges, the options under
//! which the edges are read, and what registering them does to the weights
//! and the bounds of a network.

use crate::interval::{clamp, clamp_ticks, Interval, TICKS_PER_UNIT};
use vstd::prelude::*;

verus! {

/// How the edges of a payload are to be read.
#[derive(Clone, Copy, Debug, PartialEq, Eq, Structural)]
pub struct RegistrationOptions {
    /// Whether an edge gives its duration as a single number, `minutes`,
    /// around which the interval is spread by the execution uncertainty,
    /// or gives its interval outright.
    pub implicit_intervals: bool,
    /// The share of `minutes` by which an implicit interval reaches below
    /// and above it, in millionths: `100_000` spreads ten percent either
    /// way.
    pub execution_uncertainty: i64,
}

impl Default for RegistrationOptions {
    /// Explicit intervals, and no uncertainty.
    fn default() -> (r: RegistrationOptions)
        ensures
            r == (RegistrationOptions { implicit_intervals: false, execution_uncertainty: 0 }),
    {
        RegistrationOptions { implicit_intervals: false, execution_uncertainty: 0 }
    }
}

/// An edge of a payload: a constraint from `source` to `target`.
#[derive(Clone, Copy, Debug, PartialEq, Eq, Structural)]
pub struct Edge {
    pub source: i32,
    pub target: i32,
    /// The interval of the constraint, read unless intervals are implicit.
    pub interval: Interval,
    /// The duration in ticks, read where intervals are implicit.
    pub minutes: i64,
}

impl Default for Edge {
    fn default() -> (r: Edge)
        ensures
            r == (Edge { source: 0, target: 0, interval: Interval(0, 0), minutes: 0 }),
    {
        Edge { source: 0, target: 0, interval: Interval(0, 0), minutes: 0 }
    }
}

/// The edges from which a network is registered.
#[derive(Debug)]
pub struct RegistrationPayload {
    pub edges: Vec<Edge>,
}

impl Default for RegistrationPayload {
    fn default() -> (r: RegistrationPayload)
        ensures
            r.edges@.len() == 0,
    {
        RegistrationPayload { edges: Vec::new() }
    }
}

/// The number of nodes and the number of edges of a registered network.
#[derive(Clone, Copy, Debug, PartialEq, Eq, Structural)]
pub struct RegistrationEnum(pub usize, pub usize);

/// The share `uncertainty`, in millionths, of `minutes`, rounded towards
/// zero.
pub open spec fn spread(minutes: i64, uncertainty: i64) -> int {
    let product = minutes * uncertainty;
    if product >= 0 {
        product / (TICKS_PER_UNIT as int)
    } else {
        -((-product) / (TICKS_PER_UNIT as int))
    }
}

/// The constraint that `edge` stands for under `options`: its interval, or
/// its minutes less and plus their spread.
pub open spec fn constraint_of(edge: Edge, options: RegistrationOptions) -> Interval {
    if options.implicit_intervals {
        let s = spread(edge.minutes, options.execution_uncertainty);
        Interval(clamp(edge.minutes - s), clamp(edge.minutes + s))
    } else {
        edge.interval
    }
}

/// The constraint that `edge` stands for under `options`.
pub fn edge_constraint(edge: &Edge, options: &RegistrationOptions) -> (r: Interval)
    ensures
        r == constraint_of(*edge, *options),
{
    if options.implicit_intervals {
        assert(-0x4000_0000_0000_0000_0000_0000_0000_0000 <= edge.minutes
            * options.execution_uncertainty <= 0x4000_0000_0000_0000_0000_0000_0000_0000)
            by (nonlinear_arith)
            requires
                -0x8000_0000_0000_0000 <= edge.minutes <= 0x8000_0000_0000_0000,
                -0x8000_0000_0000_0000 <= options.execution_uncertainty <= 0x8000_0000_0000_0000,
        ;
        let product: i128 = (edge.minutes as i128) * (options.execution_uncertainty as i128);
        let error_estimate: i128 = if product >= 0 {
            product / (TICKS_PER_UNIT as i128)
        } else {
            -((-product) / (TICKS_PER_UNIT as i128))
        };
        assert(error_estimate == spread(edge.minutes, options.execution_uncertainty));
        Interval::new(
            clamp_ticks(edge.minutes as i128 - error_estimate),
            clamp_ticks(edge.minutes as i128 + error_estimate),
        )
    } else {
        edge.interval
    }
}

/// The IDs are in strictly ascending order.
pub open spec fn ascending(ids: Seq<i32>) -> bool {
    forall|i: int, j: int| 0 <= i < j < ids.len() ==> ids[i] < ids[j]
}

/// Puts `x` into the ascending list unless it is there already.
pub(crate) fn insert_sorted(list: &mut Vec<i32>, x: i32)
    requires
        ascending(old(list)@),
    ensures
        ascending(final(list)@),
        forall|y: i32| final(list)@.contains(y) <==> old(list)@.contains(y) || y == x,
        final(list)@.len() <= old(list)@.len() + 1,
{
    let mut p: usize = 0;
    while p < list.len() && list[p] < x
        invariant
            p <= list@.len(),
            list@ == old(list)@,
            ascending(list@),
            forall|i: int| 0 <= i < p ==> list@[i] < x,
        decreases list@.len() - p,
    {
        p += 1;
    }
    if p < list.len() && list[p] == x {
        assert(list@.contains(x));
        return ;
    }
    let ghost before = list@;
    list.insert(p, x);
    proof {
        assert forall|i: int, j: int| 0 <= i < j < list@.len() implies list@[i] < list@[j] by {
            let a = if i < p {
                i
            } else {
                i - 1
            };
            let b = if j < p {
                j
            } else {
                j - 1
            };
            if i != p && j != p {
                assert(list@[i] == before[a] && list@[j] == before[b]);
            } else if i == p {
                assert(list@[j] == before[b]);
                if b > p {
                    assert(before[p as int] < before[b]);
                }
            } else {
                assert(list@[i] == before[a]);
            }
        }
        assert forall|y: i32| list@.contains(y) <==> before.contains(y) || y == x by {
            if list@.contains(y) {
                let i = choose|i: int| 0 <= i < list@.len() && list@[i] == y;
                if i < p {
                    assert(before[i] == y);
                } else if i > p {
                    assert(before[i - 1] == y);
                }
            }
            if y == x {
                assert(list@[p as int] == y);
            } else if before.contains(y) {
                let i = choose|i: int| 0 <= i < before.len() && before[i] == y;
                if i < p {
                    assert(list@[i] == y);
                } else {
                    assert(list@[i + 1] == y);
                }
            }
        }
    }
}

/// Whether the edge at position `k` names node `y` as its source or its
/// target.
pub open spec fn names(edges: Seq<Edge>, k: int, y: i32) -> bool {
    edges[k].source == y || edges[k].target == y
}

/// Whether one of the first `upto` edges names node `y`.
pub open spec fn named(edges: Seq<Edge>, upto: int, y: i32) -> bool {
    exists|k: int| 0 <= k < upto && #[trigger] names(edges, k, y)
}

/// The nodes that the edges name.
pub open spec fn named_nodes(edges: Seq<Edge>) -> Set<i32> {
    Set::new(|y: i32| named(edges, edges.len() as int, y))
}

/// The nodes that the edges name, each once, in ascending order.
pub(crate) fn payload_nodes(edges: &Vec<Edge>) -> (r: Vec<i32>)
    ensures
        ascending(r@),
        forall|y: i32| r@.contains(y) <==> named(edges@, edges@.len() as int, y),
        r@.len() <= 2 * edges@.len(),
{
    let mut nodes: Vec<i32> = Vec::new();
    let mut k: usize = 0;
    while k < edges.len()
        invariant
            k <= edges@.len(),
            ascending(nodes@),
            forall|y: i32| nodes@.contains(y) <==> named(edges@, k as int, y),
            nodes@.len() <= 2 * k,
        decreases edges@.len() - k,
    {
        let ghost before = nodes@;
        insert_sorted(&mut nodes, edges[k].source);
        insert_sorted(&mut nodes, edges[k].target);
        proof {
            assert forall|y: i32| nodes@.contains(y) <==> named(edges@, k + 1, y) by {
                if named(edges@, k as int, y) {
                    let t = choose|t: int| 0 <= t < k && #[trigger] names(edges@, t, y);
                    assert(names(edges@, t, y));
                }
                if named(edges@, k + 1, y) {
                    let t = choose|t: int| 0 <= t < k + 1 && #[trigger] names(edges@, t, y);
                    if t < k {
                        assert(named(edges@, k as int, y));
                    }
                }
                if edges@[k as int].source == y || edges@[k as int].target == y {
                    assert(names(edges@, k as int, y));
                }
            }
        }
        k += 1;
    }
    nodes
}

/// The weights after the nodes of `fresh` have been registered anew: each
/// has an edge of weight zero to itself and no other edge, and the edges
/// between the other nodes are as they were.
pub open spec fn refreshed(w: Map<(i32, i32), i64>, fresh: Set<i32>) -> Map<(i32, i32), i64> {
    Map::new(
        |k: (i32, i32)|
            if fresh.contains(k.0) || fresh.contains(k.1) {
                k.0 == k.1
            } else {
                w.dom().contains(k)
            },
        |k: (i32, i32)|
            if fresh.contains(k.0) {
                0i64
            } else {
                w[k]
            },
    )
}

/// The weights after the first `upto` edges of a payload have been recorded,
/// one after the other: each puts the negated lower bound of its constraint
/// on the edge from target to source, and then the upper bound on the edge
/// from source to target.
pub open spec fn recorded(
    w: Map<(i32, i32), i64>,
    edges: Seq<Edge>,
    options: RegistrationOptions,
    upto: nat,
) -> Map<(i32, i32), i64>
    decreases upto,
{
    if upto == 0 {
        w
    } else {
        let e = edges[upto - 1];
        let c = constraint_of(e, options);
        recorded(w, edges, options, (upto - 1) as nat).insert(
            (e.target, e.source),
            clamp(-c.0),
        ).insert((e.source, e.target), c.1)
    }
}

/// The number of edges that recording the first `upto` edges of a payload
/// adds to the graph: one for each pair of nodes that had no edge when its
/// weight was recorded.
pub open spec fn added(
    w: Map<(i32, i32), i64>,
    edges: Seq<Edge>,
    options: RegistrationOptions,
    upto: nat,
) -> nat
    decreases upto,
{
    if upto == 0 {
        0
    } else {
        let e = edges[upto - 1];
        let c = constraint_of(e, options);
        let before = recorded(w, edges, options, (upto - 1) as nat);
        let between = before.insert((e.target, e.source), clamp(-c.0));
        added(w, edges, options, (upto - 1) as nat) + if before.dom().contains(
            (e.target, e.source),
        ) {
            0nat
        } else {
            1nat
        } + if between.dom().contains((e.source, e.target)) {
            0nat
        } else {
            1nat
        }
    }
}

/// The bounds after the nodes of `fresh` have been registered anew: each has
/// the bounds `[0, 0]`, and the bounds of the other nodes are as they were.
pub open spec fn reset_bounds(b: Map<i32, Interval>, fresh: Set<i32>) -> Map<i32, Interval> {
    Map::new(
        |y: i32| fresh.contains(y) || b.dom().contains(y),
        |y: i32|
            if fresh.contains(y) {
                Interval(0, 0)
            } else {
                b[y]
            },
    )
}

} // verus!
