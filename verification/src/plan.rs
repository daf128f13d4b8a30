//! A plan: a schedule whose events carry names.
//!
//! * A **period** is a named pair of events, its start and its end, with a
//!   duration between them.
//! * A **plan** keeps a schedule and the name under which each event was
//!   created. Every query and every change goes to the schedule.

use crate::error::ScheduleError;
use crate::interval::Interval;
use crate::dispatch::first_root;
use crate::propagation::offset;
use crate::schedule::{bounds_of, with_constraint, Episode, EventID, Schedule};
use vstd::prelude::*;
use vstd::string::StringExecFns;

verus! {

/// An action that takes place over a period of time, known by its start and
/// end events and by its name.
#[derive(Clone, Debug)]
pub struct Period(pub EventID, pub EventID, pub String);

impl Period {
    /// The name of the period.
    pub open spec fn spec_name(&self) -> Seq<char> {
        self.2@
    }

    /// The period with the given events and name.
    pub fn new(start: EventID, end: EventID, name: String) -> (r: Period)
        ensures
            r.0 == start,
            r.1 == end,
            r.spec_name() == name@,
    {
        Period(start, end, name)
    }

    /// The name of the period.
    pub fn name(&self) -> (r: String)
        ensures
            r@ == self.spec_name(),
    {
        self.2.clone()
    }

    /// The event at which the period starts.
    pub fn start(&self) -> (r: EventID)
        ensures
            r == self.0,
    {
        self.0
    }

    /// The event at which the period ends.
    pub fn end(&self) -> (r: EventID)
        ensures
            r == self.1,
    {
        self.1
    }

    /// The period in words: its name.
    pub fn to_string(&self) -> (r: String)
        ensures
            r@ == self.spec_name(),
    {
        self.2.clone()
    }

    /// The two events of the period.
    pub fn episode(&self) -> (r: Episode)
        ensures
            r == Episode(self.0, self.1),
    {
        Episode(self.0, self.1)
    }
}

impl Default for Period {
    fn default() -> (r: Period)
        ensures
            r.0 == 0,
            r.1 == 0,
            r.spec_name() == Seq::<char>::empty(),
    {
        Period(0, 0, String::new())
    }
}

/// Orchestrates named events and the timing constraints between them.
#[derive(Debug)]
pub struct Plan {
    schedule: Schedule,
    /// The name under which each event was created, by event ID.
    identifiers: Vec<String>,
}

impl Plan {
    /// The schedule of the plan.
    pub closed spec fn schedule(&self) -> Schedule {
        self.schedule
    }

    /// The name under which each event was created, by event ID.
    pub closed spec fn names(&self) -> Seq<Seq<char>> {
        Seq::new(self.identifiers@.len(), |i: int| self.identifiers@[i]@)
    }

    /// What holds of every plan: its schedule is a schedule, and every event
    /// has a name.
    pub open spec fn wf(&self) -> bool {
        &&& self.schedule().wf()
        &&& self.names().len() == self.schedule().event_count()
    }

    /// Creates an empty plan.
    pub fn new() -> (r: Plan)
        ensures
            r.wf(),
            r.schedule().event_count() == 0,
            r.schedule().is_dirty(),
    {
        Plan { schedule: Schedule::new(), identifiers: Vec::new() }
    }

    /// The number of events.
    pub fn num_events(&self) -> (r: usize)
        requires
            self.wf(),
        ensures
            r == self.schedule().event_count(),
    {
        self.schedule.num_events()
    }

    /// The first event of the plan: see [`Schedule::root`].
    pub fn root(&mut self) -> (r: Option<EventID>)
        requires
            old(self).wf(),
        ensures
            final(self).wf(),
            final(self).names() == old(self).names(),
            final(self).schedule().no_wider_than(old(self).schedule()),
            if old(self).schedule().network().has_negative_cycle() {
                &&& r is None
                &&& exists|e: ScheduleError|
                    final(self).schedule().poisoned_from(old(self).schedule(), e)
            } else {
                &&& final(self).schedule().compiled_from(old(self).schedule())
                &&& r == first_root(
                    final(self).schedule().dispatch_order(),
                    final(self).schedule().distances(),
                )
                &&& r matches Some(e) ==> final(self).schedule().has_event(e)
            },
    {
        self.schedule.root()
    }

    /// Creates an event under the name `identifier` and returns its ID, the
    /// number of events there were before. Prefer [`Plan::add_period`] unless
    /// a bare event is what is needed.
    pub fn create_event(&mut self, identifier: String) -> (r: EventID)
        requires
            old(self).wf(),
            old(self).schedule().event_count() < 0x8000_0000,
        ensures
            final(self).wf(),
            r == old(self).schedule().event_count(),
            final(self).names() == old(self).names().push(identifier@),
            final(self).schedule().windows() == old(self).schedule().windows().push(
                Interval::spec_unconstrained(),
            ),
            final(self).schedule().commitments() == old(self).schedule().commitments().push(None),
            final(self).schedule().network().weights == old(self).schedule().network().weights,
            final(self).schedule().distances() == old(self).schedule().distances(),
            final(self).schedule().dispatch_order() == old(self).schedule().dispatch_order(),
            final(self).schedule().is_dirty(),
    {
        self.identifiers.push(identifier);
        let n = self.schedule.create_event();
        assert(self.names() =~= old(self).names().push(identifier@));
        n
    }

    /// Creates a period under the name `identifier`: two new events, named
    /// `identifier` followed by `__START` and by `__END`, with the constraint
    /// `duration` from the first to the second, or `[0, 0]` where no duration
    /// is given. The name need not differ from those of other periods.
    pub fn add_period(&mut self, identifier: String, duration: Option<Vec<i64>>) -> (r: Period)
        requires
            old(self).wf(),
            old(self).schedule().event_count() + 1 < 0x8000_0000,
            duration matches Some(v) ==> v@.len() >= 2,
        ensures
            final(self).wf(),
            r.0 == old(self).schedule().event_count(),
            r.1 == old(self).schedule().event_count() + 1,
            r.spec_name() == identifier@,
            final(self).names() == old(self).names().push(identifier@ + "__START"@).push(
                identifier@ + "__END"@,
            ),
            final(self).schedule().windows() == old(self).schedule().windows().push(
                Interval::spec_unconstrained(),
            ).push(Interval::spec_unconstrained()),
            final(self).schedule().commitments() == old(self).schedule().commitments().push(
                None,
            ).push(None),
            final(self).schedule().distances() == old(self).schedule().distances(),
            final(self).schedule().dispatch_order() == old(self).schedule().dispatch_order(),
            final(self).schedule().is_dirty(),
            final(self).schedule().network().weights == with_constraint(
                old(self).schedule().network().weights,
                r.0,
                r.1,
                bounds_of(duration),
            ),
    {
        let start_identifier = identifier.clone().concat("__START");
        let end_identifier = identifier.clone().concat("__END");
        self.identifiers.push(start_identifier);
        self.identifiers.push(end_identifier);
        let episode = self.schedule.add_episode(duration);
        assert(self.names() =~= old(self).names().push(identifier@ + "__START"@).push(
            identifier@ + "__END"@,
        ));
        Period(episode.0, episode.1, identifier)
    }

    /// The name under which `event` was created.
    pub fn identifier(&self, event: EventID) -> (r: Option<String>)
        requires
            self.wf(),
        ensures
            match r {
                Some(name) => self.schedule().has_event(event) && name@
                    == self.names()[event as int],
                None => !self.schedule().has_event(event),
            },
    {
        if event >= 0 && (event as usize) < self.identifiers.len() {
            Some(self.identifiers[event as usize].clone())
        } else {
            None
        }
    }

    /// The duration of a period as the constraints give it: see
    /// [`Schedule::get_duration`].
    pub fn get_duration(&self, s: &Period) -> (r: Interval)
        requires
            self.wf(),
        ensures
            r == Interval(
                match self.schedule().constraint(s.1, s.0) {
                    Some(w) => crate::interval::clamp(-w),
                    None => 0,
                },
                match self.schedule().constraint(s.0, s.1) {
                    Some(w) => w,
                    None => 0,
                },
            ),
    {
        self.schedule.get_duration(&s.episode())
    }

    /// Brings the compiled graph up to date: see [`Schedule::compile`].
    pub fn compile(&mut self) -> (r: Result<(), ScheduleError>)
        requires
            old(self).wf(),
        ensures
            final(self).wf(),
            final(self).names() == old(self).names(),
            match r {
                Ok(()) => final(self).schedule().compiled_from(old(self).schedule()),
                Err(e) => final(self).schedule().poisoned_from(old(self).schedule(), e),
            },
            final(self).schedule().no_wider_than(old(self).schedule()),
    {
        self.schedule.compile()
    }

    /// Commits `event` to `time` and cuts down the windows of the events
    /// that remain: see [`Schedule::commit_event`].
    pub fn commit_event(&mut self, event: EventID, time: i64) -> (r: Result<(), ScheduleError>)
        requires
            old(self).wf(),
        ensures
            final(self).wf(),
            final(self).names() == old(self).names(),
            final(self).schedule().committed_from(old(self).schedule(), event, time, r),
            final(self).schedule().tightened_from(old(self).schedule(), event, time),
            r is Ok <==> old(self).schedule().has_event(event)
                && !old(self).schedule().network().has_negative_cycle(),
    {
        self.schedule.commit_event(event, time)
    }

    /// Marks a period complete at `time`: commits its end event to it.
    pub fn complete_period(&mut self, period: &Period, time: i64) -> (r: Result<
        (),
        ScheduleError,
    >)
        requires
            old(self).wf(),
        ensures
            final(self).wf(),
            final(self).names() == old(self).names(),
            final(self).schedule().committed_from(old(self).schedule(), period.1, time, r),
            final(self).schedule().tightened_from(old(self).schedule(), period.1, time),
            r is Ok <==> old(self).schedule().has_event(period.1)
                && !old(self).schedule().network().has_negative_cycle(),
    {
        self.commit_event(period.end(), time)
    }

    /// The execution window of `event`.
    pub fn window(&self, event: EventID) -> (r: Result<Interval, ScheduleError>)
        requires
            self.wf(),
        ensures
            r == if self.schedule().has_event(event) {
                Ok::<Interval, ScheduleError>(self.schedule().windows()[event as int])
            } else {
                Err::<Interval, ScheduleError>(ScheduleError::UnknownEvent(event))
            },
    {
        self.schedule.window(event)
    }

    /// The interval in which `target` happens after `source`: see
    /// [`Schedule::interval`].
    pub fn interval(&mut self, source: EventID, target: EventID) -> (r: Result<
        Interval,
        ScheduleError,
    >)
        requires
            old(self).wf(),
        ensures
            final(self).wf(),
            final(self).names() == old(self).names(),
            final(self).schedule().no_wider_than(old(self).schedule()),
            match r {
                Ok(i) => {
                    &&& final(self).schedule().compiled_from(old(self).schedule())
                    &&& offset(final(self).schedule().distances(), source, target)
                        == Some(i)
                    &&& old(self).schedule().network().spans(source, target, i)
                },
                Err(e) => if old(self).schedule().network().has_negative_cycle() {
                    final(self).schedule().poisoned_from(old(self).schedule(), e)
                } else {
                    &&& final(self).schedule().compiled_from(old(self).schedule())
                    &&& offset(final(self).schedule().distances(), source, target)
                        is None
                    &&& e == ScheduleError::MissingEdge(target, source)
                },
            },
            r is Ok <==> !old(self).schedule().network().has_negative_cycle()
                && old(self).schedule().network().connected(source, target),
    {
        self.schedule.interval(source, target)
    }

    /// The shortest distance from `source` to `target`: see
    /// [`Schedule::event_distance`].
    pub fn event_distance(&mut self, source: EventID, target: EventID) -> (r: Result<
        i64,
        ScheduleError,
    >)
        requires
            old(self).wf(),
        ensures
            final(self).wf(),
            final(self).names() == old(self).names(),
            final(self).schedule().no_wider_than(old(self).schedule()),
            match r {
                Ok(t) => {
                    &&& final(self).schedule().compiled_from(old(self).schedule())
                    &&& final(self).schedule().distance(source, target) == Some(t)
                    &&& exists|x: int| #[trigger]
                        old(self).schedule().network().is_distance(source, target, x) && t
                            == crate::interval::clamp(x)
                },
                Err(e) => if !old(self).schedule().has_event(source) || !old(
                    self,
                ).schedule().has_event(target) {
                    &&& final(self).schedule() == old(self).schedule()
                    &&& e == ScheduleError::UnknownEvent(
                        if !old(self).schedule().has_event(source) {
                            source
                        } else {
                            target
                        },
                    )
                } else if old(self).schedule().network().has_negative_cycle() {
                    final(self).schedule().poisoned_from(old(self).schedule(), e)
                } else {
                    &&& final(self).schedule().compiled_from(old(self).schedule())
                    &&& final(self).schedule().distance(source, target) is None
                    &&& e == ScheduleError::NoPath(source, target)
                },
            },
            r is Ok <==> !old(self).schedule().network().has_negative_cycle()
                && old(self).schedule().network().connected(source, target),
    {
        self.schedule.event_distance(source, target)
    }

    /// Adds the constraint `[lower, upper]` from `source` to `target`: see
    /// [`Schedule::add_constraint`].
    pub fn add_constraint(
        &mut self,
        source: EventID,
        target: EventID,
        interval: Option<Vec<i64>>,
    ) -> (r: Result<(), ScheduleError>)
        requires
            old(self).wf(),
            interval matches Some(v) ==> v@.len() >= 2,
        ensures
            final(self).wf(),
            final(self).names() == old(self).names(),
            final(self).schedule().windows() == old(self).schedule().windows(),
            final(self).schedule().commitments() == old(self).schedule().commitments(),
            final(self).schedule().distances() == old(self).schedule().distances(),
            final(self).schedule().dispatch_order() == old(self).schedule().dispatch_order(),
            match r {
                Ok(()) => {
                    &&& old(self).schedule().has_event(source)
                    &&& old(self).schedule().has_event(target)
                    &&& final(self).schedule().is_dirty()
                    &&& final(self).schedule().network().weights == with_constraint(
                        old(self).schedule().network().weights,
                        source,
                        target,
                        bounds_of(interval),
                    )
                },
                Err(e) => {
                    &&& final(self).schedule().is_dirty() == old(self).schedule().is_dirty()
                    &&& final(self).schedule().network() == old(self).schedule().network()
                    &&& !old(self).schedule().has_event(source) ==> e
                        == ScheduleError::UnknownEvent(source)
                    &&& old(self).schedule().has_event(source) ==> !old(
                        self,
                    ).schedule().has_event(target) && e == ScheduleError::UnknownEvent(target)
                },
            },
    {
        self.schedule.add_constraint(source, target, interval)
    }
}

} // verus!
