//! Simple temporal networks over integer time.
//!
//! A network holds events (timepoints) and constraints
//! `lower <= t_target - t_source <= upper` between them. Compiling the
//! network computes its all-pairs shortest paths, which answer interval
//! queries and drive the tightening of execution windows as events are
//! committed to concrete times.
//!
//! Time is counted in whole ticks, [`interval::TICKS_PER_UNIT`] to one time
//! unit, so that every sum and comparison in the library is exact.
//!
//! # Modules
//!
//! * [`interval`]: inclusive time ranges and their arithmetic.
//! * [`network`]: the mathematics of a distance graph, that is walks,
//!   shortest distances and negative cycles.
//! * [`algorithms`]: all-pairs shortest paths, with [`closure`] as the proof
//!   that pivoting computes them.
//! * [`schedule`]: events, episodes and constraints, compiled on demand,
//!   with [`dispatch`] for the compiled graph and [`propagation`] for what
//!   commitments do to the execution windows.
//! * [`plan`]: a schedule whose events carry names.
//! * [`mission`]: the steps of actors on a schedule.
//! * [`stn`]: a network registered in one piece from a payload of edges,
//!   with [`registration`] for the payload and [`indexing`] for the way its
//!   graph makes up a network.
//! * [`graph`] and [`digraph`]: the two `petgraph` graphs that store the
//!   constraints, each behind functions that state what `petgraph` does.
//! * [`render`]: numbers as text.
//! * [`error`]: the ways in which an operation can fail.

pub mod algorithms;
pub mod closure;
pub mod digraph;
pub mod dispatch;
pub mod error;
pub mod graph;
pub mod indexing;
pub mod interval;
pub mod mission;
pub mod network;
pub mod plan;
pub mod propagation;
pub mod registration;
pub mod render;
pub mod schedule;
pub mod stn;
