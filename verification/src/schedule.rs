//! A schedule: events, the constraints between them, and the window in
//! which each event can still happen.
//!
//! * An **event** is a moment in time, known by its ID. IDs count up from
//!   zero in the order of creation.
//! * An **episode** is a pair of events, its start and its end, with a
//!   duration between them.
//! * A **constraint** `[lower, upper]` from a source to a target says that
//!   the target happens at least `lower` and at most `upper` ticks after the
//!   source. It is stored as two edges of the distance graph: `upper` from
//!   source to target, and `-lower` from target to source.
//!
//! Queries read the compiled form of the graph, its all-pairs shortest
//! distances. The schedule compiles itself whenever a query finds that the
//! constraints have changed since the last compilation.

use crate::algorithms::{floyd_warshall, network_of};
use crate::dispatch::{
    closes_pair, closure_of, compile_order, dispatch_list, dispatchable_from, dispatched_before,
    events_upto, first_root, is_root, later_than, lemma_closure_unique,
    lemma_compile_order_unique, lemma_events_upto, lemma_first_root_skip, not_after,
};
use crate::error::ScheduleError;
use crate::graph::{
    edge_of, graph_add_edge, graph_add_node, graph_contains_node, graph_edge_weight, graph_edges,
    graph_incoming, graph_neighbors, graph_new, graph_node_count, graph_node_list, graph_nodes,
};
use crate::interval::{clamp, clamp_ticks, is_time, Interval, TIME_MAX};
use crate::network::Network;
use crate::propagation::{
    commit_windows, lemma_propagated_settles, lemma_replayed_within, lemma_settled_replay, offset,
    propagated, recompiled_commit_windows, replayed, settled, settled_below, settled_but,
    settled_pair, tightened,
};
use petgraph::graphmap::DiGraphMap;
use vstd::prelude::*;

verus! {

/// An ID representing an event in the schedule.
pub type EventID = i32;

/// An action that takes place over a period of time, known by its start and
/// end events.
#[derive(Clone, Copy, Debug, PartialEq, Eq, Structural, PartialOrd, Ord)]
pub struct Episode(pub EventID, pub EventID);

impl Episode {
    /// The event at which the episode starts.
    pub fn start(&self) -> (r: EventID)
        ensures
            r == self.0,
    {
        self.0
    }

    /// The event at which the episode ends.
    pub fn end(&self) -> (r: EventID)
        ensures
            r == self.1,
    {
        self.1
    }
}

impl Default for Episode {
    fn default() -> (r: Episode)
        ensures
            r == Episode(0, 0),
    {
        Episode(0, 0)
    }
}

/// The constraint `[lower, upper]` that an optional pair of bounds stands
/// for: the pair itself, or `[0, 0]` where none is given.
pub open spec fn bounds_of(interval: Option<Vec<i64>>) -> Interval {
    match interval {
        Some(v) => Interval(v@[0], v@[1]),
        None => Interval(0, 0),
    }
}

/// The edges of a graph after the constraint `[lower, upper]` from `source`
/// to `target` has been recorded: `upper` from `source` to `target`, then
/// `-lower` from `target` to `source`.
pub open spec fn with_constraint(
    edges: Map<(i32, i32), i64>,
    source: i32,
    target: i32,
    bounds: Interval,
) -> Map<(i32, i32), i64> {
    edges.insert((source, target), bounds.1).insert((target, source), clamp(-bounds.0))
}

/// What the two edges of a constraint mean: times keep to both edges
/// exactly if the target happens at least `lower` and at most `upper` after
/// the source.
pub proof fn lemma_constraint_encoding(
    edges: Map<(i32, i32), i64>,
    source: i32,
    target: i32,
    bounds: Interval,
    t: spec_fn(i32) -> int,
)
    requires
        source != target,
        bounds.wf(),
    ensures
        with_constraint(edges, source, target, bounds)[(source, target)] == bounds.1,
        with_constraint(edges, source, target, bounds)[(target, source)] == -bounds.0,
        bounds.0 <= t(target) - t(source) <= bounds.1 <==> t(target) - t(source) <= with_constraint(
            edges,
            source,
            target,
            bounds,
        )[(source, target)] && t(source) - t(target) <= with_constraint(
            edges,
            source,
            target,
            bounds,
        )[(target, source)],
{
}

/// Whether `n` is among the first `upto` entries of `list`.
pub open spec fn listed(list: Seq<i32>, upto: int, n: int) -> bool {
    exists|t: int| 0 <= t < upto && #[trigger] list[t] == n
}

/// Orchestrates events and the timing constraints between them.
#[derive(Debug)]
pub struct Schedule {
    /// The constraints as given.
    stn: DiGraphMap<EventID, i64>,
    /// The shortest distances between the events, as of the last compilation.
    dispatchable: DiGraphMap<EventID, i64>,
    /// The window in which each event can happen, by event ID. Times count
    /// from the root of the schedule.
    execution_windows: Vec<Interval>,
    /// The time at which each committed event happened, by event ID.
    committments: Vec<Option<i64>>,
    /// Whether the constraints have changed since the last compilation.
    dirty: bool,
}

impl Schedule {
    /// The constraints of the schedule as a network.
    pub closed spec fn network(&self) -> Network {
        network_of(self.stn)
    }

    /// The weights of the compiled graph, keyed by `(source, target)`.
    pub closed spec fn distances(&self) -> Map<(i32, i32), i64> {
        graph_edges(self.dispatchable)
    }

    /// The events of the compiled graph, in the order in which compilation
    /// reached them.
    pub closed spec fn dispatch_order(&self) -> Seq<i32> {
        graph_nodes(self.dispatchable)
    }

    /// The execution window of each event, by event ID.
    pub closed spec fn windows(&self) -> Seq<Interval> {
        self.execution_windows@
    }

    /// The time to which each event has been committed, by event ID.
    pub closed spec fn commitments(&self) -> Seq<Option<i64>> {
        self.committments@
    }

    /// Whether the constraints have changed since the last compilation.
    pub closed spec fn is_dirty(&self) -> bool {
        self.dirty
    }

    /// The number of events.
    pub open spec fn event_count(&self) -> nat {
        self.windows().len()
    }

    /// Whether `event` is an event of the schedule.
    pub open spec fn has_event(&self, event: i32) -> bool {
        0 <= event < self.event_count()
    }

    /// The weight of the edge from `source` to `target` in the graph of
    /// constraints.
    pub open spec fn constraint(&self, source: i32, target: i32) -> Option<i64> {
        edge_of(self.network().weights, source, target)
    }

    /// The weight of the edge from `source` to `target` in the compiled
    /// graph.
    pub open spec fn distance(&self, source: i32, target: i32) -> Option<i64> {
        edge_of(self.distances(), source, target)
    }

    /// The compiled graph holds the shortest distances of the constraints,
    /// which are free of negative cycles, and its nodes are the events in
    /// the order in which compilation reaches them.
    pub open spec fn compiled(&self) -> bool {
        &&& closure_of(self.network(), self.distances())
        &&& !self.network().has_negative_cycle()
        &&& compile_order(self.network(), self.dispatch_order())
    }

    /// What holds of a schedule at every step: the events are numbered from
    /// zero without gaps, every constraint has its edge back, a committed
    /// event has the point of its commitment as its window, and unless the
    /// schedule is dirty its compiled graph is up to date.
    pub open spec fn inv(&self) -> bool {
        &&& self.event_count() <= 0x8000_0000
        &&& self.network().nodes == events_upto(self.event_count())
        &&& self.commitments().len() == self.event_count()
        &&& self.network().symmetric()
        &&& forall|e: int|
            0 <= e < self.event_count() && (#[trigger] self.commitments()[e]) is Some
                ==> self.windows()[e] == Interval::spec_point(self.commitments()[e]->0)
        &&& !self.is_dirty() ==> self.compiled()
    }

    /// What holds of every schedule between two calls: what holds at every
    /// step, and unless the schedule is dirty every commitment has been
    /// propagated.
    pub open spec fn wf(&self) -> bool {
        &&& self.inv()
        &&& !self.is_dirty() ==> settled(self.distances(), self.commitments(), self.windows())
    }

    /// Creates an empty schedule. It is dirty: the first query compiles it.
    pub fn new() -> (r: Schedule)
        ensures
            r.wf(),
            r.event_count() == 0,
            r.is_dirty(),
            r.network().weights == Map::<(i32, i32), i64>::empty(),
    {
        let r = Schedule {
            stn: graph_new(),
            dispatchable: graph_new(),
            execution_windows: Vec::new(),
            committments: Vec::new(),
            dirty: true,
        };
        assert(r.network().nodes =~= events_upto(0));
        r
    }

    /// The number of events.
    pub fn num_events(&self) -> (r: usize)
        requires
            self.wf(),
        ensures
            r == self.event_count(),
    {
        self.execution_windows.len()
    }

    /// Whether the constraints have changed since the last compilation.
    pub fn dirty(&self) -> (r: bool)
        ensures
            r == self.is_dirty(),
    {
        self.dirty
    }

    /// The time to which `event` has been committed, if it has been.
    pub fn commitment(&self, event: EventID) -> (r: Option<i64>)
        requires
            self.wf(),
        ensures
            r == if self.has_event(event) {
                self.commitments()[event as int]
            } else {
                None
            },
    {
        if event >= 0 && (event as usize) < self.committments.len() {
            self.committments[event as usize]
        } else {
            None
        }
    }

    /// Creates an event and returns its ID, the number of events there were
    /// before. The new event has the unconstrained window and no
    /// commitment. Prefer [`Schedule::add_episode`] unless a bare event is
    /// what is needed.
    pub fn create_event(&mut self) -> (r: EventID)
        requires
            old(self).wf(),
            old(self).event_count() < 0x8000_0000,
        ensures
            final(self).wf(),
            r == old(self).event_count(),
            final(self).windows() == old(self).windows().push(Interval::spec_unconstrained()),
            final(self).commitments() == old(self).commitments().push(None),
            final(self).network().weights == old(self).network().weights,
            final(self).distances() == old(self).distances(),
            final(self).dispatch_order() == old(self).dispatch_order(),
            final(self).is_dirty(),
    {
        let count = graph_node_count(&self.stn);
        let event_id = count as i32;
        proof {
            lemma_events_upto(old(self).event_count(), event_id);
        }
        self.execution_windows.push(Interval::unconstrained());
        self.committments.push(None);
        let n = graph_add_node(&mut self.stn, event_id);
        self.dirty = true;
        assert(self.network().nodes =~= events_upto(self.event_count()));
        assert forall|a: i32, b: i32| #[trigger]
            self.network().has_edge(a, b) implies self.network().has_edge(b, a) by {
            assert(old(self).network().has_edge(a, b));
            assert(old(self).network().has_edge(b, a));
        }
        n
    }

    /// Creates the two events of an episode.
    fn new_episode(&mut self) -> (r: Episode)
        requires
            old(self).wf(),
            old(self).event_count() + 1 < 0x8000_0000,
        ensures
            final(self).wf(),
            r == Episode(old(self).event_count() as i32, (old(self).event_count() + 1) as i32),
            final(self).windows() == old(self).windows().push(Interval::spec_unconstrained()).push(
                Interval::spec_unconstrained(),
            ),
            final(self).commitments() == old(self).commitments().push(None).push(None),
            final(self).network().weights == old(self).network().weights,
            final(self).distances() == old(self).distances(),
            final(self).dispatch_order() == old(self).dispatch_order(),
            final(self).is_dirty(),
    {
        let start_id = self.create_event();
        let end_id = self.create_event();
        Episode(start_id, end_id)
    }

    /// Records the constraint `bounds` from `source` to `target`, both of
    /// which are events.
    fn constrain(&mut self, source: EventID, target: EventID, bounds: Interval)
        requires
            old(self).wf(),
            old(self).has_event(source),
            old(self).has_event(target),
        ensures
            final(self).wf(),
            final(self).windows() == old(self).windows(),
            final(self).commitments() == old(self).commitments(),
            final(self).distances() == old(self).distances(),
            final(self).dispatch_order() == old(self).dispatch_order(),
            final(self).is_dirty(),
            final(self).network().weights == with_constraint(
                old(self).network().weights,
                source,
                target,
                bounds,
            ),
    {
        proof {
            lemma_events_upto(self.event_count(), source);
            lemma_events_upto(self.event_count(), target);
        }
        let ghost before = self.network();
        graph_add_edge(&mut self.stn, source, target, bounds.upper());
        graph_add_edge(&mut self.stn, target, source, clamp_ticks(-(bounds.lower() as i128)));
        self.dirty = true;
        proof {
            let after = self.network();
            assert forall|a: i32, b: i32| #[trigger] after.has_edge(a, b) implies after.has_edge(
                b,
                a,
            ) by {
                if !((a == source && b == target) || (a == target && b == source)) {
                    assert(before.has_edge(a, b));
                    assert(before.has_edge(b, a));
                }
            }
        }
    }

    /// Creates an episode: two new events, its start and its end, with the
    /// constraint `duration` from the first to the second, or `[0, 0]` where
    /// no duration is given. A duration whose lower bound exceeds its upper
    /// bound is taken as it is; compiling then finds a negative cycle.
    pub fn add_episode(&mut self, duration: Option<Vec<i64>>) -> (r: Episode)
        requires
            old(self).wf(),
            old(self).event_count() + 1 < 0x8000_0000,
            duration matches Some(v) ==> v@.len() >= 2,
        ensures
            final(self).wf(),
            r == Episode(old(self).event_count() as i32, (old(self).event_count() + 1) as i32),
            final(self).windows() == old(self).windows().push(Interval::spec_unconstrained()).push(
                Interval::spec_unconstrained(),
            ),
            final(self).commitments() == old(self).commitments().push(None).push(None),
            final(self).distances() == old(self).distances(),
            final(self).dispatch_order() == old(self).dispatch_order(),
            final(self).is_dirty(),
            final(self).network().weights == with_constraint(
                old(self).network().weights,
                r.0,
                r.1,
                bounds_of(duration),
            ),
            final(self).constraint(r.0, r.1) == Some(bounds_of(duration).1),
            final(self).constraint(r.1, r.0) == Some(clamp(-bounds_of(duration).0)),
    {
        let i = match duration {
            Some(d) => Interval::from_vec(d),
            None => Interval::new(0, 0),
        };
        let episode = self.new_episode();
        self.constrain(episode.0, episode.1, i);
        episode
    }

    /// The duration of an episode: `[-w(end, start), w(start, end)]` over the
    /// constraints as given, with zero in place of a missing edge.
    pub fn get_duration(&self, s: &Episode) -> (r: Interval)
        requires
            self.wf(),
        ensures
            r == Interval(
                match self.constraint(s.1, s.0) {
                    Some(w) => clamp(-w),
                    None => 0,
                },
                match self.constraint(s.0, s.1) {
                    Some(w) => w,
                    None => 0,
                },
            ),
    {
        let lower = match graph_edge_weight(&self.stn, s.1, s.0) {
            Some(w) => w,
            None => 0,
        };
        let upper = match graph_edge_weight(&self.stn, s.0, s.1) {
            Some(w) => w,
            None => 0,
        };
        Interval::new(clamp_ticks(-(lower as i128)), upper)
    }

    /// The execution window of `event`.
    pub fn window(&self, event: EventID) -> (r: Result<Interval, ScheduleError>)
        requires
            self.wf(),
        ensures
            r == if self.has_event(event) {
                Ok::<Interval, ScheduleError>(self.windows()[event as int])
            } else {
                Err::<Interval, ScheduleError>(ScheduleError::UnknownEvent(event))
            },
    {
        if event >= 0 && (event as usize) < self.execution_windows.len() {
            Ok(self.execution_windows[event as usize])
        } else {
            Err(ScheduleError::UnknownEvent(event))
        }
    }

    /// Adds the constraint `[lower, upper]` from `source` to `target`, or
    /// `[0, 0]` where no interval is given: `target` happens at least `lower`
    /// and at most `upper` ticks after `source`. Fails, and changes nothing,
    /// where either is not an event of the schedule.
    ///
    /// The constraint replaces whatever the two edges between the events
    /// held before.
    pub fn add_constraint(
        &mut self,
        source: EventID,
        target: EventID,
        interval: Option<Vec<i64>>,
    ) -> (r: Result<(), ScheduleError>)
        requires
            old(self).wf(),
            interval matches Some(v) ==> v@.len() >= 2,
        ensures
            final(self).wf(),
            final(self).windows() == old(self).windows(),
            final(self).commitments() == old(self).commitments(),
            final(self).distances() == old(self).distances(),
            final(self).dispatch_order() == old(self).dispatch_order(),
            match r {
                Ok(()) => {
                    &&& old(self).has_event(source)
                    &&& old(self).has_event(target)
                    &&& final(self).is_dirty()
                    &&& final(self).network().weights == with_constraint(
                        old(self).network().weights,
                        source,
                        target,
                        bounds_of(interval),
                    )
                    &&& final(self).constraint(target, source) == Some(
                        clamp(-bounds_of(interval).0),
                    )
                    &&& source != target ==> final(self).constraint(source, target) == Some(
                        bounds_of(interval).1,
                    )
                },
                Err(e) => {
                    &&& final(self).is_dirty() == old(self).is_dirty()
                    &&& final(self).network() == old(self).network()
                    &&& !old(self).has_event(source) ==> e == ScheduleError::UnknownEvent(source)
                    &&& old(self).has_event(source) ==> !old(self).has_event(target) && e
                        == ScheduleError::UnknownEvent(target)
                },
            },
    {
        proof {
            lemma_events_upto(self.event_count(), source);
            lemma_events_upto(self.event_count(), target);
        }
        if !graph_contains_node(&self.stn, source) {
            return Err(ScheduleError::UnknownEvent(source));
        }
        if !graph_contains_node(&self.stn, target) {
            return Err(ScheduleError::UnknownEvent(target));
        }
        let i = match interval {
            Some(d) => Interval::from_vec(d),
            None => Interval::new(0, 0),
        };
        self.constrain(source, target, i);
        Ok(())
    }
}

impl Schedule {
    /// `self` is `before` brought up to date: the constraints and the
    /// commitments are the same, the constraints are free of negative cycles
    /// and the compiled graph holds their shortest distances. Where `before`
    /// was dirty every commitment has been propagated again over the new
    /// distances, in the order of the event IDs; where it was not,
    /// nothing has changed.
    pub open spec fn compiled_from(&self, before: Schedule) -> bool {
        &&& self.inv()
        &&& !self.is_dirty()
        &&& self.network() == before.network()
        &&& self.commitments() == before.commitments()
        &&& !before.network().has_negative_cycle()
        &&& before.is_dirty() ==> self.windows() == replayed(
            self.distances(),
            before.commitments(),
            before.windows(),
            before.event_count(),
        )
        &&& !before.is_dirty() ==> {
            &&& self.windows() == before.windows()
            &&& self.distances() == before.distances()
            &&& self.dispatch_order() == before.dispatch_order()
        }
    }

    /// `self` is `before`, unchanged and still dirty, after compilation
    /// failed with `e`: the constraints contain a negative cycle, and `e`
    /// names an event on it with the lengths of a walk away from the event
    /// and of a walk back.
    pub open spec fn poisoned_from(&self, before: Schedule, e: ScheduleError) -> bool {
        &&& before.is_dirty()
        &&& self.is_dirty()
        &&& self.network() == before.network()
        &&& self.commitments() == before.commitments()
        &&& self.windows() == before.windows()
        &&& self.distances() == before.distances()
        &&& self.dispatch_order() == before.dispatch_order()
        &&& before.network().has_negative_cycle()
        &&& e matches ScheduleError::NegativeCycle(v, a, b) && before.network().dips_at(
            v,
            a as int,
            b as int,
        ) && before.network().first_dip(v, a as int, b as int)
    }

    /// No window of `self` reaches beyond the window that the same event
    /// has in `before`.
    pub open spec fn no_wider_than(&self, before: Schedule) -> bool {
        &&& self.windows().len() == before.windows().len()
        &&& forall|n: int|
            0 <= n < before.windows().len() ==> (#[trigger] self.windows()[n]).within(
                before.windows()[n],
            )
    }

    /// The compiled weights relate two events in both directions or in
    /// neither, and only events.
    proof fn lemma_compiled_both_ways(&self, a: i32, b: i32)
        requires
            self.inv(),
            !self.is_dirty(),
            self.distances().dom().contains((a, b)),
        ensures
            self.distances().dom().contains((b, a)),
            self.has_event(a),
            self.has_event(b),
            is_time(self.distances()[(a, b)]),
    {
        let net = self.network();
        let d = self.distances();
        lemma_events_upto(self.event_count(), a);
        lemma_events_upto(self.event_count(), b);
        assert(closes_pair(net, d, a, b));
        let x = choose|x: int| #[trigger] net.is_distance(a, b, x) && d[(a, b)] == clamp(x);
        let p = choose|p: Seq<i32>| #[trigger] net.walk_between(p, a, b) && net.length(p) == x;
        assert(net.connected(a, b));
        net.lemma_connected_back(a, b);
        assert(closes_pair(net, d, b, a));
    }

    /// The interval in which `target` happens after `source`, read from the
    /// compiled graph as it stands.
    fn offset_between(&self, source: EventID, target: EventID) -> (r: Result<
        Interval,
        ScheduleError,
    >)
        ensures
            match r {
                Ok(i) => offset(self.distances(), source, target) == Some(i),
                Err(e) => {
                    &&& offset(self.distances(), source, target) is None
                    &&& e == if !self.distances().dom().contains((target, source)) {
                        ScheduleError::MissingEdge(target, source)
                    } else {
                        ScheduleError::MissingEdge(source, target)
                    }
                },
            },
    {
        let l = match graph_edge_weight(&self.dispatchable, target, source) {
            Some(l) => l,
            None => {
                return Err(ScheduleError::MissingEdge(target, source));
            },
        };
        let upper = match graph_edge_weight(&self.dispatchable, source, target) {
            Some(u) => u,
            None => {
                return Err(ScheduleError::MissingEdge(source, target));
            },
        };
        Ok(Interval::new(clamp_ticks(-(l as i128)), upper))
    }

    /// Cuts the window of every uncommitted event that the compiled graph
    /// relates to `event` down to what the commitment of `event` leaves.
    fn update_schedule(&mut self, event: EventID)
        requires
            old(self).inv(),
            !old(self).is_dirty(),
            old(self).has_event(event),
            old(self).commitments()[event as int] is Some,
        ensures
            final(self).inv(),
            !final(self).is_dirty(),
            final(self).network() == old(self).network(),
            final(self).distances() == old(self).distances(),
            final(self).dispatch_order() == old(self).dispatch_order(),
            final(self).commitments() == old(self).commitments(),
            final(self).windows() == propagated(
                old(self).distances(),
                old(self).commitments(),
                old(self).windows(),
                event as int,
            ),
    {
        let ghost d = self.distances();
        let ghost k = self.commitments();
        let ghost w0 = self.windows();
        let neighbors = graph_neighbors(&self.dispatchable, event);
        let event_window = self.execution_windows[event as usize];
        let mut idx: usize = 0;
        while idx < neighbors.len()
            invariant
                idx <= neighbors@.len(),
                self.inv(),
                !self.is_dirty(),
                self.has_event(event),
                self.network() == old(self).network(),
                self.distances() == d,
                self.dispatch_order() == old(self).dispatch_order(),
                self.commitments() == k,
                k[event as int] is Some,
                self.windows().len() == w0.len(),
                event_window == w0[event as int],
                neighbors@.no_duplicates(),
                forall|b: i32| neighbors@.contains(b) <==> d.dom().contains((event, b)),
                forall|n: int|
                    0 <= n < w0.len() ==> #[trigger] self.windows()[n] == if listed(
                        neighbors@,
                        idx as int,
                        n,
                    ) {
                        tightened(d, k, w0, event as int, n)
                    } else {
                        w0[n]
                    },
            decreases neighbors@.len() - idx,
        {
            let neighbor = neighbors[idx];
            proof {
                assert(neighbors@.contains(neighbor));
                self.lemma_compiled_both_ways(event, neighbor);
                assert(!listed(neighbors@, idx as int, neighbor as int));
            }
            let ghost w1 = self.windows();
            if self.committments[neighbor as usize].is_none() {
                match self.offset_between(event, neighbor) {
                    Ok(time_to_neighbor) => {
                        let neighbor_window = self.execution_windows[neighbor as usize];
                        let new_neighbor_window = neighbor_window & (event_window
                            + time_to_neighbor);
                        self.execution_windows[neighbor as usize] = new_neighbor_window;
                    },
                    Err(_) => {
                        assert(false);
                    },
                }
            }
            proof {
                assert(self.windows()[neighbor as int] == tightened(
                    d,
                    k,
                    w0,
                    event as int,
                    neighbor as int,
                ));
                assert forall|n: int| 0 <= n < w0.len() implies #[trigger] self.windows()[n]
                    == if listed(neighbors@, idx + 1, n) {
                    tightened(d, k, w0, event as int, n)
                } else {
                    w0[n]
                } by {
                    if n == neighbor as int {
                        assert(neighbors@[idx as int] == n);
                    } else {
                        assert(self.windows()[n] == w1[n]);
                        if listed(neighbors@, idx + 1, n) {
                            let t = choose|t: int|
                                0 <= t < idx + 1 && #[trigger] neighbors@[t] == n;
                            assert(t < idx);
                        }
                    }
                }
            }
            idx += 1;
        }
        proof {
            assert forall|n: int| 0 <= n < w0.len() implies #[trigger] self.windows()[n]
                == tightened(d, k, w0, event as int, n) by {
                if !listed(neighbors@, idx as int, n) {
                    if d.dom().contains((event, n as i32)) {
                        assert(neighbors@.contains(n as i32));
                        let t = choose|t: int|
                            0 <= t < neighbors@.len() && neighbors@[t] == n as i32;
                        assert(neighbors@[t] == n);
                    }
                }
            }
            assert(self.windows() =~= propagated(d, k, w0, event as int));
        }
    }

    /// Brings the compiled graph up to date.
    ///
    /// Does nothing unless the schedule is dirty. Otherwise it computes the
    /// shortest distance between every pair of events and stores it,
    /// saturated to a time, in the compiled graph; then it propagates every
    /// commitment again, in the order of the event IDs, over the new
    /// distances. No window grows.
    ///
    /// Fails where the constraints contain a negative cycle: they
    /// contradict each other. The schedule then stays as it was, dirty, so
    /// that the next query reports the failure again.
    pub fn compile(&mut self) -> (r: Result<(), ScheduleError>)
        requires
            old(self).wf(),
        ensures
            final(self).wf(),
            match r {
                Ok(()) => final(self).compiled_from(*old(self)),
                Err(e) => final(self).poisoned_from(*old(self), e),
            },
            final(self).no_wider_than(*old(self)),
    {
        self.recompile()
    }

    /// Brings the compiled graph up to date, whether or not the commitments
    /// had all been propagated before.
    fn recompile(&mut self) -> (r: Result<(), ScheduleError>)
        requires
            old(self).inv(),
        ensures
            final(self).inv(),
            r is Ok && old(self).is_dirty() ==> settled(
                final(self).distances(),
                final(self).commitments(),
                final(self).windows(),
            ),
            !old(self).is_dirty() ==> final(self).windows() == old(self).windows()
                && final(self).distances() == old(self).distances(),
            match r {
                Ok(()) => final(self).compiled_from(*old(self)),
                Err(e) => final(self).poisoned_from(*old(self), e),
            },
            final(self).no_wider_than(*old(self)),
    {
        if !self.dirty {
            return Ok(());
        }
        let table = match floyd_warshall(&self.stn) {
            Ok(d) => d,
            Err(e) => {
                return Err(e);
            },
        };
        self.dispatchable = dispatchable_from(&table, Ghost(self.network()));
        self.dirty = false;
        let ghost d = self.distances();
        let ghost k = self.commitments();
        let ghost w0 = self.windows();
        let n = self.committments.len();
        let mut c: usize = 0;
        while c < n
            invariant
                c <= n,
                n == self.event_count(),
                self.inv(),
                !self.is_dirty(),
                settled_below(d, k, self.windows(), c as int),
                self.network() == old(self).network(),
                self.distances() == d,
                self.commitments() == k,
                self.windows() == replayed(d, k, w0, c as nat),
            decreases n - c,
        {
            let ghost w1 = self.windows();
            proof {
                lemma_replayed_within(d, k, w0, c as nat);
            }
            if self.committments[c].is_some() {
                self.update_schedule(c as i32);
                proof {
                    lemma_propagated_settles(d, k, w1, c as int);
                }
            } else {
                assert(self.windows() =~= propagated(d, k, self.windows(), c as int));
            }
            c += 1;
        }
        proof {
            lemma_replayed_within(d, k, w0, n as nat);
        }
        Ok(())
    }

    /// `self` is what `before` becomes when `event` is committed to `time`
    /// with the outcome `r`.
    ///
    /// On an unknown event nothing changes. Otherwise the commitment is
    /// recorded and the window of the event becomes the point `[time, time]`,
    /// whether or not `time` lay in the window before. Then the schedule is
    /// brought up to date, and the commitment is propagated: every
    /// uncommitted event that the compiled graph relates to `event` has its
    /// window cut down to `[time, time]` shifted by the offset from `event`.
    /// Where compilation fails, the commitment and the new window stay.
    pub open spec fn committed_from(
        &self,
        before: Schedule,
        event: EventID,
        time: i64,
        r: Result<(), ScheduleError>,
    ) -> bool {
        let e = event as int;
        let k = before.commitments().update(e, Some(time));
        let w = before.windows().update(e, Interval::spec_point(time));
        let d = self.distances();
        &&& self.wf()
        &&& self.network() == before.network()
        &&& match r {
            Ok(()) => {
                &&& before.has_event(event)
                &&& !before.network().has_negative_cycle()
                &&& !self.is_dirty()
                &&& self.commitments() == k
                &&& self.windows() == if before.is_dirty() {
                    recompiled_commit_windows(d, before.commitments(), before.windows(), e, time)
                } else {
                    commit_windows(d, before.commitments(), before.windows(), e, time)
                }
                &&& !before.is_dirty() ==> d == before.distances() && self.dispatch_order()
                    == before.dispatch_order()
            },
            Err(err) => {
                &&& d == before.distances()
                &&& self.dispatch_order() == before.dispatch_order()
                &&& self.is_dirty() == before.is_dirty()
                &&& if before.has_event(event) {
                    &&& before.is_dirty()
                    &&& before.network().has_negative_cycle()
                    &&& self.commitments() == k
                    &&& self.windows() == w
                    &&& err matches ScheduleError::NegativeCycle(v, a, b)
                        && before.network().dips_at(v, a as int, b as int)
                        && before.network().first_dip(v, a as int, b as int)
                } else {
                    &&& self.commitments() == before.commitments()
                    &&& self.windows() == before.windows()
                    &&& err == ScheduleError::UnknownEvent(event)
                }
            },
        }
    }

    /// A commitment widens no window: every window other than that of the
    /// committed event stays within what it was, and so does the window of
    /// the committed event where the time lay within it.
    pub open spec fn tightened_from(&self, before: Schedule, event: EventID, time: i64) -> bool {
        &&& self.windows().len() == before.windows().len()
        &&& forall|n: int|
            0 <= n < before.windows().len() && (n != event || before.windows()[n].spec_contains(
                time,
            )) ==> (#[trigger] self.windows()[n]).within(before.windows()[n])
    }

    /// Commits `event` to `time`, measured from the start of the schedule,
    /// and cuts down the windows of the events that remain. Prefer
    /// [`Schedule::complete_episode`] unless a bare event is what is meant.
    ///
    /// The time is not held against the window of the event: a caller who
    /// wants that asks [`Schedule::window`] first.
    pub fn commit_event(&mut self, event: EventID, time: i64) -> (r: Result<(), ScheduleError>)
        requires
            old(self).wf(),
        ensures
            final(self).committed_from(*old(self), event, time, r),
            final(self).tightened_from(*old(self), event, time),
            r is Ok <==> old(self).has_event(event) && !old(self).network().has_negative_cycle(),
    {
        if event < 0 || event as usize >= self.execution_windows.len() {
            return Err(ScheduleError::UnknownEvent(event));
        }
        self.committments[event as usize] = Some(time);
        self.execution_windows[event as usize] = Interval::new(time, time);
        let ghost mid = *self;
        proof {
            assert forall|e: int|
                0 <= e < self.event_count() && (#[trigger] self.commitments()[e])
                    is Some implies self.windows()[e] == Interval::spec_point(
                self.commitments()[e]->0,
            ) by {
                if e != event {
                    assert(old(self).commitments()[e] is Some);
                }
            }
            assert(self.network() == old(self).network());
            assert(self.distances() == old(self).distances());
            assert(self.dispatch_order() == old(self).dispatch_order());
            assert(self.is_dirty() == old(self).is_dirty());
        }
        match self.recompile() {
            Ok(()) => {},
            Err(e) => {
                return Err(e);
            },
        }
        let ghost ready = *self;
        proof {
            assert(settled_but(
                ready.distances(),
                ready.commitments(),
                ready.windows(),
                event as int,
            )) by {
                assert forall|c: int, n: int|
                    0 <= c < ready.windows().len() && c != event && 0 <= n < ready.windows().len()
                        && ready.commitments()[c] is Some && ready.commitments()[n] is None
                        && offset(
                        ready.distances(),
                        c as i32,
                        n as i32,
                    ) is Some implies #[trigger] settled_pair(
                    ready.distances(),
                    ready.windows(),
                    c,
                    n,
                ) by {
                    if old(self).is_dirty() {
                        assert(settled_pair(ready.distances(), ready.windows(), c, n));
                    } else {
                        assert(settled_pair(old(self).distances(), old(self).windows(), c, n));
                    }
                }
            }
        }
        self.update_schedule(event);
        proof {
            lemma_replayed_within(
                self.distances(),
                mid.commitments(),
                mid.windows(),
                mid.event_count(),
            );
            lemma_propagated_settles(
                ready.distances(),
                ready.commitments(),
                ready.windows(),
                event as int,
            );
        }
        Ok(())
    }

    /// Marks an episode complete at `time`, measured from the start of the
    /// schedule: commits the end event of the episode to it.
    pub fn complete_episode(&mut self, episode: &Episode, time: i64) -> (r: Result<
        (),
        ScheduleError,
    >)
        requires
            old(self).wf(),
        ensures
            final(self).committed_from(*old(self), episode.1, time, r),
            final(self).tightened_from(*old(self), episode.1, time),
            r is Ok <==> old(self).has_event(episode.1)
                && !old(self).network().has_negative_cycle(),
    {
        self.commit_event(episode.end(), time)
    }

    /// The interval `[lower, upper]` in which `target` happens after
    /// `source`, over all constraints: `upper` is the shortest distance from
    /// `source` to `target`, `lower` the negated shortest distance back.
    /// Brings the schedule up to date first.
    ///
    /// Fails with the negative cycle where the constraints contradict each
    /// other, and with a missing edge where no chain of constraints relates
    /// the two events.
    pub fn interval(&mut self, source: EventID, target: EventID) -> (r: Result<
        Interval,
        ScheduleError,
    >)
        requires
            old(self).wf(),
        ensures
            final(self).wf(),
            final(self).no_wider_than(*old(self)),
            match r {
                Ok(i) => {
                    &&& final(self).compiled_from(*old(self))
                    &&& offset(final(self).distances(), source, target) == Some(i)
                    &&& old(self).network().spans(source, target, i)
                },
                Err(e) => if old(self).network().has_negative_cycle() {
                    final(self).poisoned_from(*old(self), e)
                } else {
                    &&& final(self).compiled_from(*old(self))
                    &&& offset(final(self).distances(), source, target) is None
                    &&& e == ScheduleError::MissingEdge(target, source)
                },
            },
            r is Ok <==> !old(self).network().has_negative_cycle() && old(self).network().connected(
                source,
                target,
            ),
    {
        match self.compile() {
            Ok(()) => {},
            Err(e) => {
                return Err(e);
            },
        }
        let r = self.offset_between(source, target);
        proof {
            self.lemma_offset(source, target);
        }
        r
    }

    /// What the compiled graph says of two events: an offset exactly where a
    /// walk leads from the first to the second, and then the one that the
    /// shortest distances between them give.
    proof fn lemma_offset(&self, source: i32, target: i32)
        requires
            self.wf(),
            !self.is_dirty(),
        ensures
            offset(self.distances(), source, target) is Some <==> self.network().connected(
                source,
                target,
            ),
            self.distances().dom().contains((target, source)) <==> self.network().connected(
                source,
                target,
            ),
            self.distances().dom().contains((source, target)) <==> self.network().connected(
                source,
                target,
            ),
            offset(self.distances(), source, target) matches Some(i) ==> self.network().spans(
                source,
                target,
                i,
            ),
    {
        let net = self.network();
        let d = self.distances();
        lemma_events_upto(self.event_count(), source);
        lemma_events_upto(self.event_count(), target);
        if d.dom().contains((source, target)) {
            self.lemma_compiled_both_ways(source, target);
        }
        if d.dom().contains((target, source)) {
            self.lemma_compiled_both_ways(target, source);
        }
        if net.connected(source, target) {
            let p = choose|p: Seq<i32>| net.walk_between(p, source, target);
            assert(net.nodes.contains(p[0]));
            assert(net.nodes.contains(p[p.len() - 1]));
            assert(closes_pair(net, d, source, target));
        }
        if d.dom().contains((source, target)) {
            assert(closes_pair(net, d, source, target));
            assert(closes_pair(net, d, target, source));
            let x = choose|x: int| #[trigger]
                net.is_distance(source, target, x) && d[(source, target)] == clamp(x);
            let y = choose|y: int| #[trigger]
                net.is_distance(target, source, y) && d[(target, source)] == clamp(y);
            let p = choose|p: Seq<i32>| #[trigger]
                net.walk_between(p, source, target) && net.length(p) == x;
            assert(net.connected(source, target));
            assert(net.is_distance(source, target, x) && net.is_distance(target, source, y));
        }
    }

    /// The shortest distance from `source` to `target` over all
    /// constraints, saturated to a time: the most that `target` can happen
    /// after `source`. Brings the schedule up to date first. Prefer
    /// [`Schedule::interval`] unless one direction is all that is needed.
    ///
    /// Fails where either event is unknown, the source being looked at
    /// first; then where the constraints contain a negative cycle; then
    /// where no chain of constraints leads from `source` to `target`.
    pub fn event_distance(&mut self, source: EventID, target: EventID) -> (r: Result<
        i64,
        ScheduleError,
    >)
        requires
            old(self).wf(),
        ensures
            final(self).wf(),
            final(self).no_wider_than(*old(self)),
            match r {
                Ok(t) => {
                    &&& final(self).compiled_from(*old(self))
                    &&& final(self).distance(source, target) == Some(t)
                    &&& exists|x: int| #[trigger]
                        old(self).network().is_distance(source, target, x) && t == clamp(x)
                },
                Err(e) => if !old(self).has_event(source) || !old(self).has_event(target) {
                    &&& *final(self) == *old(self)
                    &&& e == ScheduleError::UnknownEvent(
                        if !old(self).has_event(source) {
                            source
                        } else {
                            target
                        },
                    )
                } else if old(self).network().has_negative_cycle() {
                    final(self).poisoned_from(*old(self), e)
                } else {
                    &&& final(self).compiled_from(*old(self))
                    &&& final(self).distance(source, target) is None
                    &&& e == ScheduleError::NoPath(source, target)
                },
            },
            r is Ok <==> !old(self).network().has_negative_cycle() && old(self).network().connected(
                source,
                target,
            ),
    {
        proof {
            lemma_events_upto(self.event_count(), source);
            lemma_events_upto(self.event_count(), target);
            if self.network().connected(source, target) {
                let p = choose|p: Seq<i32>| self.network().walk_between(p, source, target);
                assert(self.network().nodes.contains(p[0]));
                assert(self.network().nodes.contains(p[p.len() - 1]));
            }
        }
        if !graph_contains_node(&self.stn, source) {
            return Err(ScheduleError::UnknownEvent(source));
        }
        if !graph_contains_node(&self.stn, target) {
            return Err(ScheduleError::UnknownEvent(target));
        }
        match self.compile() {
            Ok(_) => (),
            Err(e) => {
                return Err(e);
            },
        }
        proof {
            self.lemma_offset(source, target);
            if self.distances().dom().contains((source, target)) {
                assert(closes_pair(self.network(), self.distances(), source, target));
            }
        }
        match graph_edge_weight(&self.dispatchable, source, target) {
            Some(t) => Ok(t),
            None => Err(ScheduleError::NoPath(source, target)),
        }
    }

    /// The first event of the schedule: one that no event comes before,
    /// because every edge of the compiled graph that enters it has a weight
    /// of zero or less. Brings the schedule up to date first.
    ///
    /// Where several events qualify, the one that compilation reached first
    /// is returned. There is none where the constraints contain a negative
    /// cycle, or where no event qualifies.
    pub fn root(&mut self) -> (r: Option<EventID>)
        requires
            old(self).wf(),
        ensures
            final(self).wf(),
            final(self).no_wider_than(*old(self)),
            if old(self).network().has_negative_cycle() {
                &&& r is None
                &&& exists|e: ScheduleError| final(self).poisoned_from(*old(self), e)
            } else {
                &&& final(self).compiled_from(*old(self))
                &&& r == first_root(final(self).dispatch_order(), final(self).distances())
                &&& r matches Some(e) ==> final(self).has_event(e)
            },
    {
        match self.compile() {
            Ok(_) => (),
            Err(e) => {
                assert(self.poisoned_from(*old(self), e));
                return None;
            },
        }
        let ghost d = self.distances();
        let nodes = graph_node_list(&self.dispatchable);
        let mut i: usize = 0;
        while i < nodes.len()
            invariant
                i <= nodes@.len(),
                nodes@ == self.dispatch_order(),
                d == self.distances(),
                self.wf(),
                self.compiled_from(*old(self)),
                self.no_wider_than(*old(self)),
                forall|j: int| 0 <= j < i ==> !is_root(d, #[trigger] nodes@[j]),
            decreases nodes@.len() - i,
        {
            let s = nodes[i];
            let incoming = graph_incoming(&self.dispatchable, s);
            let mut all = true;
            let mut t: usize = 0;
            while t < incoming.len()
                invariant
                    t <= incoming@.len(),
                    d == self.distances(),
                    forall|b: i32| incoming@.contains(b) <==> d.dom().contains((b, s)),
                    all <==> forall|u: int|
                        0 <= u < t ==> not_after(d, #[trigger] incoming@[u], s),
                decreases incoming@.len() - t,
            {
                assert(incoming@.contains(incoming@[t as int]));
                let holds = match graph_edge_weight(&self.dispatchable, incoming[t], s) {
                    Some(w) => w <= 0,
                    None => false,
                };
                all = all && holds;
                t += 1;
            }
            proof {
                if all {
                    assert forall|x: i32| #[trigger] d.dom().contains((x, s)) implies d[(x, s)]
                        <= 0 by {
                        assert(incoming@.contains(x));
                        let u = choose|u: int| 0 <= u < incoming@.len() && incoming@[u] == x;
                        assert(not_after(d, incoming@[u], s));
                    }
                } else {
                    let u = choose|u: int|
                        0 <= u < incoming@.len() && !not_after(d, #[trigger] incoming@[u], s);
                    assert(incoming@.contains(incoming@[u]));
                    assert(d.dom().contains((incoming@[u], s)));
                }
            }
            if all {
                proof {
                    assert(self.dispatch_order().contains(s));
                    lemma_first_root_skip(nodes@, d, i as int);
                    assert(nodes@.subrange(i as int, nodes@.len() as int)[0] == s);
                }
                return Some(s);
            }
            i += 1;
        }
        proof {
            lemma_first_root_skip(nodes@, d, i as int);
        }
        None
    }

    /// The events in the order of dispatch: those that some chain of
    /// constraints relates to the root, by their distance from the root, and
    /// by their IDs where the distances are equal. Brings the schedule up to
    /// date first. The list is empty where the schedule has no root.
    pub fn order(&mut self) -> (r: Vec<EventID>)
        requires
            old(self).wf(),
        ensures
            final(self).wf(),
            final(self).no_wider_than(*old(self)),
            if old(self).network().has_negative_cycle() {
                &&& r@.len() == 0
                &&& exists|e: ScheduleError| final(self).poisoned_from(*old(self), e)
            } else {
                &&& final(self).compiled_from(*old(self))
                &&& match first_root(final(self).dispatch_order(), final(self).distances()) {
                    Some(root) => dispatch_list(
                        final(self).distances(),
                        root,
                        final(self).event_count() as int,
                        r@,
                    ),
                    None => r@.len() == 0,
                }
            },
    {
        let mut list: Vec<EventID> = Vec::new();
        let root = match self.root() {
            Some(root) => root,
            None => {
                return list;
            },
        };
        let ghost d = self.distances();
        let n = self.execution_windows.len();
        let mut v: usize = 0;
        while v < n
            invariant
                v <= n,
                n == self.event_count(),
                n <= 0x8000_0000,
                d == self.distances(),
                self.wf(),
                self.compiled_from(*old(self)),
                self.no_wider_than(*old(self)),
                !old(self).network().has_negative_cycle(),
                first_root(self.dispatch_order(), d) == Some(root),
                dispatch_list(d, root, v as int, list@),
            decreases n - v,
        {
            let event = v as i32;
            match graph_edge_weight(&self.dispatchable, root, event) {
                Some(w) => {
                    let mut p: usize = 0;
                    while p < list.len() && !self.dispatched_later(root, list[p], w)
                        invariant
                            p <= list@.len(),
                            d == self.distances(),
                            dispatch_list(d, root, v as int, list@),
                            forall|i: int|
                                0 <= i < p ==> !later_than(d, root, #[trigger] list@[i], w),
                        decreases list@.len() - p,
                    {
                        p += 1;
                    }
                    let ghost before = list@;
                    list.insert(p, event);
                    proof {
                        assert(d.dom().contains((root, event)));
                        assert forall|i: int| 0 <= i < before.len() implies d.dom().contains(
                            (root, #[trigger] before[i]),
                        ) && 0 <= before[i] < v by {
                            assert(before.contains(before[i]));
                        }
                        assert forall|x: i32| list@.contains(x) implies 0 <= x < v + 1
                            && d.dom().contains((root, x)) by {
                            let i = choose|i: int| 0 <= i < list@.len() && list@[i] == x;
                            if i < p {
                                assert(before[i] == x);
                            } else if i > p {
                                assert(before[i - 1] == x);
                            }
                        }
                        assert forall|x: i32|
                            0 <= x < v + 1 && d.dom().contains((root, x)) implies list@.contains(
                            x,
                        ) by {
                            if x == event {
                                assert(list@[p as int] == x);
                            } else {
                                assert(before.contains(x));
                                let i = choose|i: int| 0 <= i < before.len() && before[i] == x;
                                if i < p {
                                    assert(list@[i] == x);
                                } else {
                                    assert(list@[i + 1] == x);
                                }
                            }
                        }
                        assert forall|i: int, j: int|
                            0 <= i < j < list@.len() implies dispatched_before(
                            d,
                            root,
                            #[trigger] list@[i],
                            #[trigger] list@[j],
                        ) by {
                            let a = if i < p {
                                i
                            } else {
                                i - 1
                            };
                            let b = if j < p {
                                j
                            } else {
                                j - 1
                            };
                            if i != p && j != p {
                                assert(list@[i] == before[a] && list@[j] == before[b]);
                                assert(dispatched_before(d, root, before[a], before[b]));
                            } else if i == p {
                                assert(list@[j] == before[b]);
                                if b > p {
                                    assert(dispatched_before(d, root, before[p as int], before[b]));
                                }
                            } else {
                                assert(list@[i] == before[a]);
                                assert(before.contains(before[a]));
                            }
                        }
                    }
                },
                None => {},
            }
            v += 1;
        }
        list
    }

    /// Whether `event` is farther from `root` than `w` in the compiled
    /// graph.
    fn dispatched_later(&self, root: EventID, event: EventID, w: i64) -> (r: bool)
        ensures
            r == later_than(self.distances(), root, event, w),
    {
        match graph_edge_weight(&self.dispatchable, root, event) {
            Some(x) => x > w,
            None => false,
        }
    }
}

impl Schedule {
    /// In a schedule that is up to date, the distance from every event to
    /// itself is zero.
    pub proof fn lemma_self_distance(&self, v: i32)
        requires
            self.wf(),
            !self.is_dirty(),
            self.has_event(v),
        ensures
            self.distance(v, v) == Some(0i64),
    {
        let net = self.network();
        let d = self.distances();
        lemma_events_upto(self.event_count(), v);
        assert(net.nodes[v as int] == v);
        let p = seq![v];
        assert(net.is_walk(p));
        assert(net.walk_between(p, v, v));
        assert(net.connected(v, v));
        assert(closes_pair(net, d, v, v));
        let x = choose|x: int| #[trigger] net.is_distance(v, v, x) && d[(v, v)] == clamp(x);
        let q = choose|q: Seq<i32>| #[trigger] net.walk_between(q, v, v) && net.length(q) == x;
        assert(!net.is_negative_cycle(q));
        assert(net.length(p) == 0);
    }

    /// The triangle inequality: in a schedule that is up to date, the
    /// distance from `a` to `c` is at most the distance from `a` to `b` plus
    /// the distance from `b` to `c`, wherever the latter two exist and none of
    /// the three has saturated against the inequality.
    pub proof fn lemma_triangle(&self, a: i32, b: i32, c: i32)
        requires
            self.wf(),
            !self.is_dirty(),
            self.distance(a, b) is Some,
            self.distance(b, c) is Some,
            self.distance(a, b)->0 < TIME_MAX,
            self.distance(b, c)->0 < TIME_MAX,
            self.distance(a, c) is Some ==> self.distance(a, c)->0 > -TIME_MAX,
        ensures
            self.distance(a, c) is Some,
            self.distance(a, c)->0 <= self.distance(a, b)->0 + self.distance(b, c)->0,
    {
        let net = self.network();
        let d = self.distances();
        self.lemma_compiled_both_ways(a, b);
        self.lemma_compiled_both_ways(b, c);
        lemma_events_upto(self.event_count(), a);
        lemma_events_upto(self.event_count(), b);
        lemma_events_upto(self.event_count(), c);
        assert(closes_pair(net, d, a, b));
        assert(closes_pair(net, d, b, c));
        assert(closes_pair(net, d, a, c));
        let x = choose|x: int| #[trigger] net.is_distance(a, b, x) && d[(a, b)] == clamp(x);
        let y = choose|y: int| #[trigger] net.is_distance(b, c, y) && d[(b, c)] == clamp(y);
        let p = choose|p: Seq<i32>| #[trigger] net.walk_between(p, a, b) && net.length(p) == x;
        let q = choose|q: Seq<i32>| #[trigger] net.walk_between(q, b, c) && net.length(q) == y;
        net.lemma_join_is_walk(p, q);
        net.lemma_length_join(p, q);
        let r = crate::network::join(p, q);
        assert(net.walk_between(r, a, c));
        assert(net.connected(a, c));
        let z = choose|z: int| #[trigger] net.is_distance(a, c, z) && d[(a, c)] == clamp(z);
        assert(z <= net.length(r));
    }

    /// Interval symmetry: in a schedule that is up to date, the interval
    /// from `a` to `b` is `[l, u]` exactly if the interval from `b` to `a` is
    /// `[-u, -l]`.
    pub proof fn lemma_interval_symmetry(&self, a: i32, b: i32, i: Interval)
        requires
            self.wf(),
            !self.is_dirty(),
            i.wf(),
        ensures
            offset(self.distances(), a, b) == Some(i) <==> offset(self.distances(), b, a) == Some(
                i.negated(),
            ),
    {
        if self.distances().dom().contains((a, b)) {
            self.lemma_compiled_both_ways(a, b);
            self.lemma_compiled_both_ways(b, a);
        }
    }

    /// Recompiling is idempotent: where a schedule that is up to date is
    /// made dirty by a change that leaves its constraints, its commitments
    /// and its windows as they are, bringing it up to date again changes
    /// neither a distance nor a window, nor the order of dispatch.
    pub proof fn lemma_recompile_changes_nothing(&self, touched: Schedule, after: Schedule)
        requires
            self.wf(),
            !self.is_dirty(),
            touched.is_dirty(),
            touched.network() == self.network(),
            touched.commitments() == self.commitments(),
            touched.windows() == self.windows(),
            after.compiled_from(touched),
        ensures
            after.distances() == self.distances(),
            after.dispatch_order() == self.dispatch_order(),
            after.windows() == self.windows(),
            after.commitments() == self.commitments(),
    {
        lemma_closure_unique(self.network(), self.distances(), after.distances());
        lemma_compile_order_unique(self.network(), self.dispatch_order(), after.dispatch_order());
        lemma_settled_replay(
            self.distances(),
            self.commitments(),
            self.windows(),
            self.event_count(),
        );
    }

    /// Compiling twice is compiling once: a schedule that has just been
    /// brought up to date is left exactly as it is by bringing it up to date
    /// again.
    pub proof fn lemma_compile_twice(&self, once: Schedule, twice: Schedule)
        requires
            once.compiled_from(*self),
            twice.compiled_from(once),
        ensures
            twice.network() == once.network(),
            twice.commitments() == once.commitments(),
            twice.windows() == once.windows(),
            twice.distances() == once.distances(),
            twice.dispatch_order() == once.dispatch_order(),
            twice.is_dirty() == once.is_dirty(),
    {
    }
}

} // verus!
