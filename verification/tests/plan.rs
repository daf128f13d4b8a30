use temporal_networks::error::ScheduleError;
use temporal_networks::interval::{Interval, TICKS_PER_UNIT};
use temporal_networks::plan::{Period, Plan};
use temporal_networks::schedule::Episode;

/// `units` time units in ticks.
fn plan_units(units: i64) -> i64 {
    units * TICKS_PER_UNIT
}

/// The bounds `[lower, upper]`, given in time units.
fn plan_bounds(lower: i64, upper: i64) -> Option<Vec<i64>> {
    Some(vec![plan_units(lower), plan_units(upper)])
}

#[test]
fn plan_two_periods_in_series() {
    let mut plan = Plan::new();
    let period1 = plan.add_period("example".to_string(), plan_bounds(6, 17));
    let period2 = plan.add_period("another example".to_string(), plan_bounds(8, 29));
    plan.add_constraint(period1.end(), period2.start(), None).unwrap();

    let root = plan.root().unwrap();
    let result = plan.interval(root, period2.start()).unwrap();
    assert_eq!(result, Interval::new(plan_units(6), plan_units(17)));
}

#[test]
fn plan_names_events_after_their_period() {
    let mut plan = Plan::new();
    let period = plan.add_period("walk".to_string(), None);
    assert_eq!(period.name(), "walk");
    assert_eq!(period.to_string(), "walk");
    assert_eq!(period.start(), 0);
    assert_eq!(period.end(), 1);
    assert_eq!(period.episode(), Episode(0, 1));
    assert_eq!(plan.identifier(0), Some("walk__START".to_string()));
    assert_eq!(plan.identifier(1), Some("walk__END".to_string()));
    assert_eq!(plan.identifier(2), None);
    assert_eq!(plan.identifier(-1), None);
    assert_eq!(plan.create_event("alone".to_string()), 2);
    assert_eq!(plan.identifier(2), Some("alone".to_string()));
    let again = plan.add_period("walk".to_string(), None);
    assert_eq!((again.start(), again.end()), (3, 4));
    let none = Period::default();
    assert_eq!((none.start(), none.end(), none.name()), (0, 0, String::new()));
    let made = Period::new(4, 5, "made".to_string());
    assert_eq!((made.start(), made.end(), made.name()), (4, 5, "made".to_string()));
}

#[test]
fn plan_commits_and_completes() {
    let mut plan = Plan::new();
    let first = plan.add_period("first".to_string(), plan_bounds(6, 17));
    let second = plan.add_period("second".to_string(), plan_bounds(8, 29));
    plan.add_constraint(first.end(), second.start(), None).unwrap();
    assert_eq!(plan.get_duration(&first), Interval::new(plan_units(6), plan_units(17)));
    assert_eq!(plan.compile(), Ok(()));
    plan.commit_event(first.start(), 0).unwrap();
    assert_eq!(plan.window(first.end()), Ok(Interval::new(plan_units(6), plan_units(17))));
    plan.complete_period(&first, plan_units(10)).unwrap();
    assert_eq!(plan.window(second.start()), Ok(Interval::new(plan_units(10), plan_units(10))));
    assert_eq!(plan.window(second.end()), Ok(Interval::new(plan_units(18), plan_units(39))));
    assert_eq!(plan.event_distance(first.start(), second.end()), Ok(plan_units(46)));
    assert_eq!(plan.window(9), Err(ScheduleError::UnknownEvent(9)));
    assert_eq!(plan.commit_event(9, 0), Err(ScheduleError::UnknownEvent(9)));
    assert_eq!(plan.add_constraint(0, 9, None), Err(ScheduleError::UnknownEvent(9)));
    assert_eq!(plan.event_distance(9, 0), Err(ScheduleError::UnknownEvent(9)));
    assert_eq!(plan.get_duration(&first), Interval::new(plan_units(6), plan_units(17)));
}

#[test]
fn plan_reports_contradicting_constraints() {
    let mut plan = Plan::new();
    let period = plan.add_period("backwards".to_string(), Some(vec![10, 5]));
    assert_eq!(plan.compile(), Err(ScheduleError::NegativeCycle(0, 5, -10)));
    assert_eq!(plan.root(), None);
    assert_eq!(
        plan.interval(period.start(), period.end()),
        Err(ScheduleError::NegativeCycle(0, 5, -10))
    );
}
