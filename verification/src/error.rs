//! The ways in which a query or a change to a schedule can fail.

use crate::render::{integer_text, push_integer, push_ticks, ticks_text};
use vstd::prelude::*;
use vstd::string::StringExecFns;

verus! {

/// Why an operation on a schedule failed. Every variant carries the IDs of
/// the events it is about.
#[derive(Clone, Copy, Debug, PartialEq, Eq, Structural)]
pub enum ScheduleError {
    /// The event is not part of the schedule.
    UnknownEvent(i32),
    /// The compiled network has no edge from the first event to the second,
    /// so no interval relates the two.
    MissingEdge(i32, i32),
    /// The constraints contradict each other: going from the event to some
    /// other event and back has negative length. The two numbers are the
    /// lengths of the way there and of the way back, in ticks.
    NegativeCycle(i32, i128, i128),
    /// No chain of constraints leads from the first event to the second.
    NoPath(i32, i32),
    /// The time, in ticks, lies outside the bounds of the event.
    OutsideBounds(i32, i64),
}

impl ScheduleError {
    /// The error in words, with the IDs of the events it is about. The two
    /// lengths of a negative cycle are given in time units.
    pub open spec fn text(self) -> Seq<char> {
        match self {
            ScheduleError::UnknownEvent(id) => "unknown event "@ + integer_text(id as int),
            ScheduleError::MissingEdge(a, b) => "missing edge: "@ + integer_text(a as int) + " to "@
                + integer_text(b as int),
            ScheduleError::NegativeCycle(id, there, back) => "negative cycle at event "@
                + integer_text(id as int) + ": "@ + ticks_text(there as int) + " + "@ + ticks_text(
                back as int,
            ),
            ScheduleError::NoPath(a, b) => "no path from "@ + integer_text(a as int) + " to "@
                + integer_text(b as int),
            ScheduleError::OutsideBounds(id, time) => "time "@ + ticks_text(time as int)
                + " is outside the bounds of event "@ + integer_text(id as int),
        }
    }

    /// The error in words, for people to read.
    pub fn message(&self) -> (r: String)
        ensures
            r@ == self.text(),
    {
        let mut s = String::new();
        match *self {
            ScheduleError::UnknownEvent(id) => {
                s.append("unknown event ");
                push_integer(&mut s, id as i128);
            },
            ScheduleError::MissingEdge(a, b) => {
                s.append("missing edge: ");
                push_integer(&mut s, a as i128);
                s.append(" to ");
                push_integer(&mut s, b as i128);
            },
            ScheduleError::NegativeCycle(id, there, back) => {
                s.append("negative cycle at event ");
                push_integer(&mut s, id as i128);
                s.append(": ");
                push_ticks(&mut s, there);
                s.append(" + ");
                push_ticks(&mut s, back);
            },
            ScheduleError::NoPath(a, b) => {
                s.append("no path from ");
                push_integer(&mut s, a as i128);
                s.append(" to ");
                push_integer(&mut s, b as i128);
            },
            ScheduleError::OutsideBounds(id, time) => {
                s.append("time ");
                push_ticks(&mut s, time as i128);
                s.append(" is outside the bounds of event ");
                push_integer(&mut s, id as i128);
            },
        }
        assert(s@ =~= self.text());
        s
    }
}

} // verus!
