//! A mission: the steps that actors take, kept on a schedule.
//!
//! A step is an episode of the schedule together with the actor who takes
//! it and a description of what is done. The mission starts with one step
//! for all actors that spans the whole mission, bounded by the limiting
//! consumable.

use crate::interval::{clamp, Interval, TIME_MAX};
use crate::schedule::{with_constraint, Episode, Schedule};
use vstd::prelude::*;
use vstd::string::StringExecFns;

verus! {

/// What a step holds: its episode, the name of its actor, and its
/// description.
pub struct StepView {
    pub episode: Episode,
    pub actor: Seq<char>,
    pub description: Seq<char>,
}

/// A high-level action in the timeline.
#[derive(Clone, Debug)]
pub struct Step {
    episode: Episode,
    actor: String,
    description: String,
}

impl View for Step {
    type V = StepView;

    closed spec fn view(&self) -> StepView {
        StepView { episode: self.episode, actor: self.actor@, description: self.description@ }
    }
}

impl Step {
    /// The episode that the step takes on the schedule.
    pub fn episode(&self) -> (r: Episode)
        ensures
            r == self@.episode,
    {
        self.episode
    }

    /// The name of the actor who takes the step.
    pub fn actor(&self) -> (r: String)
        ensures
            r@ == self@.actor,
    {
        self.actor.clone()
    }

    /// What is done in the step.
    pub fn description(&self) -> (r: String)
        ensures
            r@ == self@.description,
    {
        self.description.clone()
    }

    /// Whether the two steps have the same episode, actor and description.
    pub fn same_as(&self, other: &Step) -> (r: bool)
        ensures
            r == (self@ == other@),
    {
        self.episode == other.episode && self.actor == other.actor && self.description
            == other.description
    }

    /// A copy of the step.
    pub fn copy(&self) -> (r: Step)
        ensures
            r@ == self@,
    {
        Step {
            episode: self.episode,
            actor: self.actor.clone(),
            description: self.description.clone(),
        }
    }

    /// The step in words: its description, and for whom.
    pub fn to_string(&self) -> (r: String)
        ensures
            r@ == self@.description + " for "@ + self@.actor,
    {
        let mut s = self.description.clone();
        s.append(" for ");
        s.append(self.actor.as_str());
        s
    }
}

/// Why a change to a mission failed.
#[derive(Debug)]
pub enum MissionError {
    /// The mission already holds this very step.
    DuplicateStep(Step),
    /// The mission has no actor of this name.
    UnknownActor(String),
}

/// A set of actions being performed by different people.
#[derive(Debug)]
pub struct Mission {
    /// The name of each actor, in the order of creation.
    actor_names: Vec<String>,
    /// The steps of each actor, in the order of the names.
    actor_steps: Vec<Vec<Step>>,
    /// The steps of the mission itself.
    steps: Vec<Step>,
    schedule: Schedule,
}

impl Mission {
    /// The text that describes the limiting consumable.
    pub open spec fn spec_lim_cons() -> Seq<char> {
        "LIM CONS"@
    }

    /// The schedule of the mission.
    pub closed spec fn schedule(&self) -> Schedule {
        self.schedule
    }

    /// The steps of the mission itself, in the order in which they were
    /// added.
    pub closed spec fn steps(&self) -> Seq<StepView> {
        Seq::new(self.steps@.len(), |i: int| self.steps@[i]@)
    }

    /// The names of the actors, in the order of creation.
    pub closed spec fn names(&self) -> Seq<Seq<char>> {
        Seq::new(self.actor_names@.len(), |i: int| self.actor_names@[i]@)
    }

    /// The number of steps that each actor has, in the order of the names.
    pub closed spec fn step_counts(&self) -> Seq<nat> {
        Seq::new(self.actor_steps@.len(), |i: int| self.actor_steps@[i]@.len())
    }

    /// What holds of every mission: its schedule is a schedule, every step
    /// lies on it, and no actor is listed twice.
    pub open spec fn wf(&self) -> bool {
        &&& self.schedule().wf()
        &&& self.names().no_duplicates()
        &&& self.step_counts().len() == self.names().len()
        &&& forall|i: int|
            0 <= i < self.steps().len() ==> self.schedule().has_event(
                (#[trigger] self.steps()[i]).episode.0,
            ) && self.schedule().has_event(self.steps()[i].episode.1)
    }

    /// Creates a mission. Its schedule holds one episode, which lasts from
    /// zero ticks up to any length; the one step of the mission takes it, for
    /// all actors, and stands for the limiting consumable.
    pub fn new() -> (r: Result<Mission, MissionError>)
        ensures
            r matches Ok(m) && m.wf() && m.names().len() == 0 && m.steps() == seq![
                StepView {
                    episode: Episode(0, 1),
                    actor: "ALL"@,
                    description: Mission::spec_lim_cons(),
                },
            ] && m.schedule().event_count() == 2 && m.schedule().constraint(0, 1) == Some(TIME_MAX)
                && m.schedule().constraint(1, 0) == Some(0i64),
    {
        let mut s = Schedule::new();
        let mut bounds: Vec<i64> = Vec::new();
        bounds.push(0);
        bounds.push(TIME_MAX);
        let episode = s.add_episode(Some(bounds));
        let mut m = Mission {
            schedule: s,
            actor_names: Vec::new(),
            actor_steps: Vec::new(),
            steps: Vec::new(),
        };
        assert(m.names() =~= Seq::<Seq<char>>::empty());
        assert(m.steps() =~= Seq::<StepView>::empty());
        match m.add_step(
            &episode,
            String::from_str("ALL"),
            String::from_str("__ROOT__"),
            String::from_str("LIM CONS"),
        ) {
            Ok(_) => {},
            Err(e) => {
                assert(false);
                return Err(e);
            },
        }
        Ok(m)
    }

    /// The number of events on the schedule of the mission.
    pub fn num_events(&self) -> (r: usize)
        requires
            self.wf(),
        ensures
            r == self.schedule().event_count(),
    {
        self.schedule.num_events()
    }

    /// Adds a step to the mission unless the mission already holds it.
    fn add_step(
        &mut self,
        episode: &Episode,
        actor: String,
        _parent: String,
        description: String,
    ) -> (r: Result<Step, MissionError>)
        requires
            old(self).wf(),
            old(self).schedule().has_event(episode.0),
            old(self).schedule().has_event(episode.1),
        ensures
            final(self).wf(),
            final(self).schedule() == old(self).schedule(),
            final(self).names() == old(self).names(),
            final(self).step_counts() == old(self).step_counts(),
            match r {
                Ok(step) => {
                    &&& step@ == (StepView {
                        episode: *episode,
                        actor: actor@,
                        description: description@,
                    })
                    &&& !old(self).steps().contains(step@)
                    &&& final(self).steps() == old(self).steps().push(step@)
                },
                Err(e) => {
                    &&& final(self).steps() == old(self).steps()
                    &&& e matches MissionError::DuplicateStep(step)
                    &&& step@ == (StepView {
                        episode: *episode,
                        actor: actor@,
                        description: description@,
                    })
                    &&& old(self).steps().contains(step@)
                },
            },
    {
        let step = Step { episode: *episode, actor, description };
        if self.has_step(&step) {
            return Err(MissionError::DuplicateStep(step));
        }
        let s = step.copy();
        self.steps.push(s);
        assert(self.steps() =~= old(self).steps().push(step@));
        Ok(step)
    }

    /// Whether the mission itself already holds this very step.
    pub fn has_step(&self, step: &Step) -> (r: bool)
        ensures
            r == self.steps().contains(step@),
    {
        let mut i: usize = 0;
        while i < self.steps.len()
            invariant
                i <= self.steps@.len(),
                forall|t: int| 0 <= t < i ==> self.steps()[t] != step@,
            decreases self.steps@.len() - i,
        {
            if self.steps[i].same_as(step) {
                assert(self.steps()[i as int] == step@);
                return true;
            }
            i += 1;
        }
        false
    }

    /// Creates a sync section in the timeline: a step for all actors on a
    /// new episode of the given duration.
    pub fn create_sync(&mut self, description: String, duration: Vec<i64>) -> (r: Result<
        Step,
        MissionError,
    >)
        requires
            old(self).wf(),
            old(self).schedule().event_count() + 1 < 0x8000_0000,
            duration@.len() >= 2,
        ensures
            final(self).wf(),
            final(self).names() == old(self).names(),
            final(self).step_counts() == old(self).step_counts(),
            r matches Ok(step) && step@ == (StepView {
                episode: Episode(
                    old(self).schedule().event_count() as i32,
                    (old(self).schedule().event_count() + 1) as i32,
                ),
                actor: "ALL"@,
                description: description@,
            }) && final(self).steps() == old(self).steps().push(step@),
            final(self).schedule().event_count() == old(self).schedule().event_count() + 2,
            final(self).schedule().network().weights == with_constraint(
                old(self).schedule().network().weights,
                old(self).schedule().event_count() as i32,
                (old(self).schedule().event_count() + 1) as i32,
                Interval(duration@[0], duration@[1]),
            ),
    {
        let episode = self.schedule.add_episode(Some(duration));
        proof {
            assert forall|i: int| 0 <= i < self.steps().len() implies self.schedule().has_event(
                (#[trigger] self.steps()[i]).episode.0,
            ) && self.schedule().has_event(self.steps()[i].episode.1) by {
                assert(old(self).schedule().has_event(old(self).steps()[i].episode.0));
            }
            assert forall|i: int| 0 <= i < self.steps().len() implies (
            #[trigger] self.steps()[i]).episode != episode by {
                assert(old(self).schedule().has_event(old(self).steps()[i].episode.0));
            }
        }
        match self.add_step(
            &episode,
            String::from_str("ALL"),
            String::from_str("LIM CONS"),
            description,
        ) {
            Ok(s) => Ok(s),
            Err(e) => {
                proof {
                    let v = StepView { episode, actor: "ALL"@, description: description@ };
                    let i = choose|i: int| 0 <= i < self.steps().len() && self.steps()[i] == v;
                    assert(self.steps()[i].episode != episode);
                }
                Err(e)
            },
        }
    }

    /// The position of the actor named `name`.
    fn actor_position(&self, name: &String) -> (r: Option<usize>)
        ensures
            match r {
                Some(i) => i < self.names().len() && self.names()[i as int] == name@,
                None => !self.names().contains(name@),
            },
    {
        let mut i: usize = 0;
        while i < self.actor_names.len()
            invariant
                i <= self.actor_names@.len(),
                forall|t: int| 0 <= t < i ==> self.names()[t] != name@,
            decreases self.actor_names@.len() - i,
        {
            if self.actor_names[i] == *name {
                assert(self.names()[i as int] == name@);
                return Some(i);
            }
            i += 1;
        }
        None
    }

    /// Creates a step for an actor: a new episode of the given duration.
    /// Where a parent is given, the parent is constrained to start and end at
    /// the same time.
    ///
    /// Fails, and changes nothing, where the mission has no actor of that
    /// name. The step is handed back; the steps of the actor stay as they
    /// are.
    pub fn create_step(
        &mut self,
        actor: String,
        description: String,
        duration: Vec<i64>,
        parent: Option<Step>,
    ) -> (r: Result<Step, MissionError>)
        requires
            old(self).wf(),
            old(self).schedule().event_count() + 1 < 0x8000_0000,
            duration@.len() >= 2,
        ensures
            final(self).wf(),
            final(self).names() == old(self).names(),
            final(self).step_counts() == old(self).step_counts(),
            final(self).steps() == old(self).steps(),
            match r {
                Ok(step) => {
                    &&& old(self).names().contains(actor@)
                    &&& step@ == (StepView {
                        episode: Episode(
                            old(self).schedule().event_count() as i32,
                            (old(self).schedule().event_count() + 1) as i32,
                        ),
                        actor: actor@,
                        description: description@,
                    })
                    &&& final(self).schedule().event_count() == old(self).schedule().event_count()
                        + 2
                    &&& final(self).schedule().network().weights == Mission::with_parent(
                        with_constraint(
                            old(self).schedule().network().weights,
                            step@.episode.0,
                            step@.episode.1,
                            Interval(duration@[0], duration@[1]),
                        ),
                        final(self).schedule().event_count(),
                        parent,
                    )
                },
                Err(e) => {
                    &&& !old(self).names().contains(actor@)
                    &&& final(self).schedule() == old(self).schedule()
                    &&& e matches MissionError::UnknownActor(name) && name@ == actor@
                },
            },
    {
        match self.actor_position(&actor) {
            Some(_) => {},
            None => {
                return Err(MissionError::UnknownActor(actor));
            },
        }
        let episode = self.schedule.add_episode(Some(duration));
        let step = Step { episode, actor, description };
        match parent {
            Some(p) => self.add_substep(&p, &step),
            None => (),
        }
        proof {
            assert forall|i: int| 0 <= i < self.steps().len() implies self.schedule().has_event(
                (#[trigger] self.steps()[i]).episode.0,
            ) && self.schedule().has_event(self.steps()[i].episode.1) by {
                assert(old(self).schedule().has_event(old(self).steps()[i].episode.0));
            }
        }
        Ok(step)
    }

    /// The constraints after a step has been put under a parent: the parent
    /// starts and ends at the same time, provided both of its events are
    /// among the first `count` events.
    pub open spec fn with_parent(
        weights: Map<(i32, i32), i64>,
        count: nat,
        parent: Option<Step>,
    ) -> Map<(i32, i32), i64> {
        match parent {
            Some(p) => if 0 <= p@.episode.0 < count && 0 <= p@.episode.1 < count {
                with_constraint(weights, p@.episode.0, p@.episode.1, Interval(0, 0))
            } else {
                weights
            },
            None => weights,
        }
    }

    /// Puts a step under a parent.
    fn add_substep(&mut self, parent: &Step, _child: &Step)
        requires
            old(self).schedule().wf(),
        ensures
            final(self).schedule().wf(),
            final(self).names() == old(self).names(),
            final(self).step_counts() == old(self).step_counts(),
            final(self).steps() == old(self).steps(),
            final(self).schedule().event_count() == old(self).schedule().event_count(),
            final(self).schedule().network().weights == Mission::with_parent(
                old(self).schedule().network().weights,
                old(self).schedule().event_count(),
                Some(*parent),
            ),
    {
        let _ = self.schedule.add_constraint(parent.episode.start(), parent.episode.end(), None);
    }

    /// Creates an actor of the given name, without steps. An actor who is
    /// there already loses their steps.
    pub fn create_actor(&mut self, name: String) -> (r: String)
        requires
            old(self).wf(),
        ensures
            final(self).wf(),
            r@ == name@,
            final(self).schedule() == old(self).schedule(),
            final(self).steps() == old(self).steps(),
            final(self).names() == if old(self).names().contains(name@) {
                old(self).names()
            } else {
                old(self).names().push(name@)
            },
            forall|i: int|
                0 <= i < final(self).names().len() ==> #[trigger] final(self).step_counts()[i]
                    == if final(self).names()[i] == name@ {
                    0
                } else {
                    old(self).step_counts()[i]
                },
    {
        match self.actor_position(&name) {
            Some(i) => {
                self.actor_steps[i] = Vec::new();
                assert(self.step_counts() =~= old(self).step_counts().update(i as int, 0));
            },
            None => {
                self.actor_names.push(name.clone());
                self.actor_steps.push(Vec::new());
                assert(self.names() =~= old(self).names().push(name@));
                assert(self.step_counts() =~= old(self).step_counts().push(0));
                assert forall|i: int, j: int|
                    0 <= i < self.names().len() && 0 <= j < self.names().len() && i
                        != j implies self.names()[i] != self.names()[j] by {
                    if i < old(self).names().len() {
                        assert(old(self).names().contains(self.names()[i]));
                    }
                    if j < old(self).names().len() {
                        assert(old(self).names().contains(self.names()[j]));
                    }
                }
            },
        }
        assert(self.steps() =~= old(self).steps());
        name
    }

    /// The duration of a step as the constraints give it.
    pub fn timing(&self, step: Step) -> (r: Interval)
        requires
            self.wf(),
        ensures
            r == Interval(
                match self.schedule().constraint(step@.episode.1, step@.episode.0) {
                    Some(w) => clamp(-w),
                    None => 0,
                },
                match self.schedule().constraint(step@.episode.0, step@.episode.1) {
                    Some(w) => w,
                    None => 0,
                },
            ),
    {
        self.schedule.get_duration(&step.episode)
    }

    /// The names of the actors of a mission, in the order of creation.
    pub fn actors(mission: &Mission) -> (r: Vec<String>)
        ensures
            r@.len() == mission.names().len(),
            forall|i: int| 0 <= i < r@.len() ==> (#[trigger] r@[i])@ == mission.names()[i],
    {
        let mut names: Vec<String> = Vec::new();
        let mut i: usize = 0;
        while i < mission.actor_names.len()
            invariant
                i <= mission.actor_names@.len(),
                names@.len() == i,
                forall|t: int| 0 <= t < i ==> (#[trigger] names@[t])@ == mission.names()[t],
            decreases mission.actor_names@.len() - i,
        {
            names.push(mission.actor_names[i].clone());
            i += 1;
        }
        names
    }
}

} // verus!
