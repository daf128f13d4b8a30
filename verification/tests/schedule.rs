use temporal_networks::error::ScheduleError;
use temporal_networks::interval::{Interval, TICKS_PER_UNIT, TIME_MAX};
use temporal_networks::schedule::{Episode, Schedule};

/// `units` time units in ticks.
fn units(units: i64) -> i64 {
    units * TICKS_PER_UNIT
}

/// The bounds `[lower, upper]`, given in time units.
fn bounds(lower: i64, upper: i64) -> Option<Vec<i64>> {
    Some(vec![units(lower), units(upper)])
}

/// The interval `[lower, upper]`, given in time units.
fn span(lower: i64, upper: i64) -> Interval {
    Interval::new(units(lower), units(upper))
}

/// Events 0 to 5, with the walkthrough constraints between events 1 to 5.
fn walkthrough() -> Schedule {
    let mut schedule = Schedule::new();
    for expected in 0..=5 {
        assert_eq!(schedule.create_event(), expected);
    }
    schedule.add_constraint(1, 2, bounds(10, 20)).unwrap();
    schedule.add_constraint(2, 3, bounds(30, 40)).unwrap();
    schedule.add_constraint(4, 3, bounds(10, 20)).unwrap();
    schedule.add_constraint(4, 5, bounds(40, 50)).unwrap();
    schedule.add_constraint(1, 5, bounds(60, 70)).unwrap();
    schedule
}

fn windows(schedule: &Schedule) -> Vec<Interval> {
    (0..=5).map(|event| schedule.window(event).unwrap()).collect()
}

fn distances(schedule: &mut Schedule) -> Vec<Result<i64, ScheduleError>> {
    let mut all = Vec::new();
    for source in 0..=5 {
        for target in 0..=5 {
            all.push(schedule.event_distance(source, target));
        }
    }
    all
}

#[test]
fn two_step_sequence() {
    let mut schedule = Schedule::new();
    let a = schedule.add_episode(bounds(6, 17));
    let b = schedule.add_episode(bounds(8, 29));
    schedule.add_constraint(a.end(), b.start(), None).unwrap();

    let root = schedule.root().unwrap();
    assert_eq!(root, a.start());
    let result = schedule.interval(root, b.start()).unwrap();
    assert_eq!(result, span(6, 17));
}

#[test]
fn episodes_take_consecutive_event_ids() {
    let mut schedule = Schedule::new();
    let a = schedule.add_episode(None);
    let b = schedule.add_episode(bounds(1, 2));
    assert_eq!(a, Episode(0, 1));
    assert_eq!(b, Episode(2, 3));
    assert_eq!(a.start(), 0);
    assert_eq!(a.end(), 1);
    assert_eq!(schedule.create_event(), 4);
    assert_eq!(Episode::default(), Episode(0, 0));
}

#[test]
fn duration_reads_the_constraints_as_given() {
    let mut schedule = Schedule::new();
    let a = schedule.add_episode(bounds(6, 17));
    let b = schedule.add_episode(None);
    assert_eq!(schedule.get_duration(&a), span(6, 17));
    assert_eq!(schedule.get_duration(&b), span(0, 0));
    assert_eq!(schedule.get_duration(&Episode(0, 3)), span(0, 0));
    assert_eq!(schedule.get_duration(&Episode(1, 0)), span(-17, -6));
    schedule.add_constraint(a.start(), a.end(), bounds(7, 9)).unwrap();
    assert_eq!(schedule.get_duration(&a), span(7, 9));
}

#[test]
fn constraint_is_stored_as_two_opposite_edges() {
    let mut schedule = Schedule::new();
    let u = schedule.create_event();
    let v = schedule.create_event();
    schedule.add_constraint(u, v, Some(vec![3, 8])).unwrap();
    assert_eq!(schedule.event_distance(u, v), Ok(8));
    assert_eq!(schedule.event_distance(v, u), Ok(-3));
    schedule.add_constraint(u, v, Some(vec![4, 6])).unwrap();
    assert_eq!(schedule.event_distance(u, v), Ok(6));
    assert_eq!(schedule.event_distance(v, u), Ok(-4));
    schedule.add_constraint(v, u, None).unwrap();
    assert_eq!(schedule.interval(u, v), Ok(Interval(0, 0)));
}

#[test]
fn constraint_on_unknown_event_is_rejected() {
    let mut schedule = Schedule::new();
    let u = schedule.create_event();
    assert_eq!(schedule.add_constraint(5, u, None), Err(ScheduleError::UnknownEvent(5)));
    assert_eq!(schedule.add_constraint(u, 7, None), Err(ScheduleError::UnknownEvent(7)));
    assert_eq!(schedule.add_constraint(8, 9, None), Err(ScheduleError::UnknownEvent(8)));
    assert_eq!(schedule.add_constraint(-1, u, None), Err(ScheduleError::UnknownEvent(-1)));
    assert_eq!(schedule.event_distance(u, u), Ok(0));
    assert_eq!(schedule.event_distance(u, 1), Err(ScheduleError::UnknownEvent(1)));
}

#[test]
fn walkthrough_network() {
    let mut schedule = walkthrough();
    assert_eq!(schedule.compile(), Ok(()));
    assert_eq!(schedule.interval(1, 3), Ok(span(40, 50)));
    assert_eq!(schedule.interval(4, 5), Ok(span(40, 50)));
    for event in 0..=5 {
        assert_eq!(schedule.event_distance(event, event), Ok(0));
    }
    assert_eq!(schedule.event_distance(1, 4), Ok(units(30)));
    assert_eq!(schedule.event_distance(5, 2), Ok(units(-50)));
    assert_eq!(schedule.root(), Some(0));
}

#[test]
fn walkthrough_interval_symmetry() {
    let mut schedule = walkthrough();
    for a in 1..=5 {
        for b in 1..=5 {
            let there = schedule.interval(a, b).unwrap();
            let back = schedule.interval(b, a).unwrap();
            assert_eq!(back, -there);
            assert_eq!(there, Interval(-back.upper(), -back.lower()));
        }
    }
}

#[test]
fn walkthrough_triangle_inequality() {
    let mut schedule = walkthrough();
    for a in 1..=5 {
        for b in 1..=5 {
            for c in 1..=5 {
                let ac = schedule.event_distance(a, c).unwrap();
                let ab = schedule.event_distance(a, b).unwrap();
                let bc = schedule.event_distance(b, c).unwrap();
                assert!(ac <= ab + bc);
            }
        }
    }
}

#[test]
fn negative_cycle_detection() {
    let mut schedule = walkthrough();
    schedule.add_constraint(3, 1, bounds(0, 0)).unwrap();
    match schedule.compile() {
        Err(ScheduleError::NegativeCycle(event, there, back)) => {
            assert_eq!(event, 1);
            assert!(there + back < 0);
        }
        other => panic!("expected a negative cycle, got {:?}", other),
    }
}

#[test]
fn negative_cycle_poisons_every_query() {
    let mut schedule = walkthrough();
    schedule.add_constraint(3, 1, None).unwrap();
    let first = schedule.compile().unwrap_err();
    assert!(matches!(first, ScheduleError::NegativeCycle(1, _, _)));
    assert_eq!(schedule.compile(), Err(first));
    assert_eq!(schedule.interval(1, 2), Err(first));
    assert_eq!(schedule.event_distance(1, 2), Err(first));
    assert_eq!(schedule.root(), None);
    assert_eq!(schedule.commit_event(1, 0), Err(first));
    assert_eq!(schedule.window(1), Ok(Interval(0, 0)));
    assert_eq!(schedule.window(2), Ok(Interval::unconstrained()));
}

#[test]
fn inverted_duration_surfaces_at_compile() {
    let mut schedule = Schedule::new();
    let episode = schedule.add_episode(Some(vec![10, 5]));
    assert_eq!(schedule.get_duration(&episode), Interval(10, 5));
    assert_eq!(schedule.compile(), Err(ScheduleError::NegativeCycle(0, 5, -10)));
}

#[test]
fn online_commit() {
    let mut schedule = walkthrough();
    schedule.commit_event(1, units(0)).unwrap();
    schedule.commit_event(2, units(15)).unwrap();
    assert_eq!(schedule.window(1), Ok(span(0, 0)));
    assert_eq!(schedule.window(2), Ok(span(15, 15)));
    assert_eq!(schedule.window(3), Ok(span(45, 50)));
    assert_eq!(schedule.window(4), Ok(span(25, 30)));
    assert_eq!(schedule.window(5), Ok(span(65, 70)));

    schedule.commit_event(3, units(46)).unwrap();
    assert_eq!(schedule.window(4), Ok(span(26, 30)));
    assert_eq!(schedule.window(5), Ok(span(66, 70)));
    assert_eq!(schedule.window(3), Ok(span(46, 46)));
    assert_eq!(schedule.window(0), Ok(Interval::unconstrained()));
}

#[test]
fn first_commit_sets_the_walkthrough_bounds() {
    let mut schedule = walkthrough();
    schedule.commit_event(1, 0).unwrap();
    assert_eq!(schedule.window(1), Ok(span(0, 0)));
    assert_eq!(schedule.window(2), Ok(span(10, 20)));
    assert_eq!(schedule.window(3), Ok(span(40, 50)));
    assert_eq!(schedule.window(4), Ok(span(20, 30)));
    assert_eq!(schedule.window(5), Ok(span(60, 70)));
}

#[test]
fn commit_never_widens_a_window() {
    let mut schedule = walkthrough();
    let mut before = windows(&schedule);
    for (event, time) in [(1, 0), (2, 15), (3, 46), (5, 68), (4, 27)] {
        schedule.commit_event(event, units(time)).unwrap();
        let after = windows(&schedule);
        for e in 0..=5 {
            assert!(before[e].lower() <= after[e].lower(), "event {}", e);
            assert!(after[e].upper() <= before[e].upper(), "event {}", e);
        }
        before = after;
    }
}

#[test]
fn commit_outside_the_window_is_accepted() {
    let mut schedule = walkthrough();
    schedule.commit_event(1, 0).unwrap();
    schedule.commit_event(2, units(100)).unwrap();
    assert_eq!(schedule.window(2), Ok(span(100, 100)));
    let third = schedule.window(3).unwrap();
    assert_eq!(third, span(130, 50));
    assert!(!third.is_valid());
}

#[test]
fn commit_of_unknown_event_changes_nothing() {
    let mut schedule = walkthrough();
    assert_eq!(schedule.commit_event(6, 0), Err(ScheduleError::UnknownEvent(6)));
    assert_eq!(schedule.commit_event(-1, 0), Err(ScheduleError::UnknownEvent(-1)));
    assert_eq!(schedule.window(6), Err(ScheduleError::UnknownEvent(6)));
    assert_eq!(schedule.window(-1), Err(ScheduleError::UnknownEvent(-1)));
    assert_eq!(windows(&schedule), vec![Interval::unconstrained(); 6]);
}

#[test]
fn independent_commits_commute() {
    let mut one = walkthrough();
    one.compile().unwrap();
    one.commit_event(2, units(15)).unwrap();
    one.commit_event(4, units(27)).unwrap();

    let mut other = walkthrough();
    other.compile().unwrap();
    other.commit_event(4, units(27)).unwrap();
    other.commit_event(2, units(15)).unwrap();

    assert_eq!(windows(&one), windows(&other));
    assert_eq!(one.window(3), Ok(span(45, 47)));
}

#[test]
fn independent_commits_commute_on_a_dirty_schedule() {
    let mut one = walkthrough();
    one.commit_event(1, 0).unwrap();
    one.add_constraint(1, 0, bounds(5, 8)).unwrap();
    one.commit_event(2, units(15)).unwrap();
    one.commit_event(4, units(27)).unwrap();

    let mut other = walkthrough();
    other.commit_event(1, 0).unwrap();
    other.add_constraint(1, 0, bounds(5, 8)).unwrap();
    other.commit_event(4, units(27)).unwrap();
    other.commit_event(2, units(15)).unwrap();

    assert_eq!(windows(&one), windows(&other));
    assert_eq!(one.window(0), Ok(span(5, 8)));
    assert_eq!(one.window(3), Ok(span(45, 47)));
    assert_eq!(one.commitment(2), Some(units(15)));
    assert_eq!(one.commitment(3), None);
    assert_eq!(one.commitment(9), None);
    assert!(!one.dirty());
    assert_eq!(one.num_events(), 6);
}

#[test]
fn complete_episode_commits_the_end_event() {
    let mut schedule = Schedule::new();
    let a = schedule.add_episode(bounds(6, 17));
    let b = schedule.add_episode(bounds(8, 29));
    schedule.add_constraint(a.end(), b.start(), None).unwrap();
    schedule.commit_event(a.start(), 0).unwrap();
    schedule.complete_episode(&a, units(10)).unwrap();
    assert_eq!(schedule.window(a.end()), Ok(span(10, 10)));
    assert_eq!(schedule.window(b.start()), Ok(span(10, 10)));
    assert_eq!(schedule.window(b.end()), Ok(span(18, 39)));
}

#[test]
fn recompile_is_a_fixed_point() {
    let mut schedule = walkthrough();
    schedule.compile().unwrap();
    let once = (windows(&schedule), distances(&mut schedule));
    schedule.compile().unwrap();
    let twice = (windows(&schedule), distances(&mut schedule));
    assert_eq!(once, twice);
}

#[test]
fn idempotent_recompile() {
    let mut schedule = walkthrough();
    schedule.commit_event(1, units(0)).unwrap();
    schedule.commit_event(2, units(15)).unwrap();
    let before = (windows(&schedule), distances(&mut schedule));

    schedule.add_constraint(1, 2, bounds(10, 20)).unwrap();
    schedule.compile().unwrap();
    let after = (windows(&schedule), distances(&mut schedule));
    assert_eq!(before, after);
}

#[test]
fn recompile_applies_commitments_to_new_constraints() {
    let mut schedule = walkthrough();
    schedule.commit_event(1, 0).unwrap();
    assert_eq!(schedule.window(0), Ok(Interval::unconstrained()));
    schedule.add_constraint(1, 0, bounds(5, 8)).unwrap();
    assert_eq!(schedule.window(0), Ok(Interval::unconstrained()));
    schedule.compile().unwrap();
    assert_eq!(schedule.window(0), Ok(span(5, 8)));
    assert_eq!(schedule.window(3), Ok(span(40, 50)));
}

#[test]
fn unrelated_events_have_no_interval() {
    let mut schedule = walkthrough();
    assert_eq!(schedule.interval(0, 1), Err(ScheduleError::MissingEdge(1, 0)));
    assert_eq!(schedule.interval(1, 0), Err(ScheduleError::MissingEdge(0, 1)));
    assert_eq!(schedule.interval(1, 9), Err(ScheduleError::MissingEdge(9, 1)));
    assert_eq!(schedule.event_distance(0, 1), Err(ScheduleError::NoPath(0, 1)));
    assert_eq!(schedule.event_distance(9, 1), Err(ScheduleError::UnknownEvent(9)));
    assert_eq!(schedule.event_distance(1, 9), Err(ScheduleError::UnknownEvent(9)));
    assert_eq!(schedule.interval(0, 0), Ok(Interval(0, 0)));
}

#[test]
fn root_of_an_empty_schedule_is_none() {
    let mut schedule = Schedule::new();
    assert_eq!(schedule.root(), None);
    assert_eq!(schedule.compile(), Ok(()));
}

#[test]
fn root_is_the_event_that_nothing_precedes() {
    let mut schedule = Schedule::new();
    let late = schedule.create_event();
    let early = schedule.create_event();
    schedule.add_constraint(early, late, Some(vec![2, 9])).unwrap();
    assert_eq!(schedule.root(), Some(early));
}

#[test]
fn root_is_the_first_that_compilation_reaches() {
    let mut schedule = Schedule::new();
    let late = schedule.create_event();
    let alone = schedule.create_event();
    let early = schedule.create_event();
    schedule.add_constraint(early, late, Some(vec![1, 5])).unwrap();
    assert_eq!(schedule.root(), Some(early));
    assert_eq!(schedule.order(), vec![early, late]);
    assert_eq!(schedule.event_distance(alone, alone), Ok(0));
    assert_eq!(schedule.interval(alone, early), Err(ScheduleError::MissingEdge(early, alone)));
}

#[test]
fn root_follows_the_order_of_compilation() {
    // Three groups of related events: {0, 3}, {1, 4} and {2}. Compilation
    // reaches them as 0, 3, 1, 4, 2.
    let mut schedule = Schedule::new();
    for _ in 0..5 {
        schedule.create_event();
    }
    schedule.add_constraint(3, 0, Some(vec![2, 4])).unwrap();
    schedule.add_constraint(1, 4, Some(vec![-1, 4])).unwrap();
    // Event 3 comes before event 0, events 1 and 4 may come in either order,
    // and nothing comes before event 2.
    assert_eq!(schedule.root(), Some(3));
    assert_eq!(schedule.order(), vec![3, 0]);
    schedule.add_constraint(3, 0, Some(vec![-2, 4])).unwrap();
    assert_eq!(schedule.root(), Some(2));
    assert_eq!(schedule.order(), vec![2]);
}

#[test]
fn root_is_none_where_every_event_may_follow_another() {
    let mut schedule = Schedule::new();
    let a = schedule.create_event();
    let b = schedule.create_event();
    schedule.add_constraint(a, b, Some(vec![-3, 4])).unwrap();
    assert_eq!(schedule.root(), None);
}

#[test]
fn unbounded_duration_saturates() {
    let mut schedule = Schedule::new();
    let whole = schedule.add_episode(Some(vec![0, TIME_MAX]));
    let step = schedule.add_episode(Some(vec![10, 50]));
    schedule.add_constraint(whole.end(), step.start(), None).unwrap();
    assert_eq!(schedule.interval(whole.start(), step.end()), Ok(Interval(10, TIME_MAX)));
    assert_eq!(schedule.event_distance(whole.start(), step.end()), Ok(TIME_MAX));
    schedule.commit_event(whole.start(), 0).unwrap();
    assert_eq!(schedule.window(step.end()), Ok(Interval(10, TIME_MAX)));
    assert_eq!(schedule.window(whole.end()), Ok(Interval(0, TIME_MAX)));
}
