use temporal_networks::error::ScheduleError;
use temporal_networks::interval::{Interval, TICKS_PER_UNIT, TIME_MAX};
use temporal_networks::render::{
    push_decimal, push_integer, push_ticks, render_integer, render_ticks,
};
use temporal_networks::schedule::Schedule;

#[test]
fn render_ticks_as_decimal_units() {
    assert_eq!(render_ticks(0), "0");
    assert_eq!(render_ticks(20 * TICKS_PER_UNIT), "20");
    assert_eq!(render_ticks(-10 * TICKS_PER_UNIT), "-10");
    assert_eq!(render_ticks(1_500_000), "1.5");
    assert_eq!(render_ticks(-1_500_000), "-1.5");
    assert_eq!(render_ticks(10_100_000), "10.1");
    assert_eq!(render_ticks(1), "0.000001");
    assert_eq!(render_ticks(-1), "-0.000001");
    assert_eq!(render_ticks(1_000), "0.001");
    assert_eq!(render_ticks(100_000), "0.1");
    assert_eq!(render_ticks(123_456_789), "123.456789");
    assert_eq!(render_ticks(120_000_050), "120.00005");
    assert_eq!(render_ticks(TIME_MAX), "9223372036854.775807");
    assert_eq!(render_ticks(-TIME_MAX), "-9223372036854.775807");
    assert_eq!(render_ticks(i64::MIN), "-9223372036854.775808");
}

#[test]
fn render_integers_in_decimal() {
    assert_eq!(render_integer(0), "0");
    assert_eq!(render_integer(7), "7");
    assert_eq!(render_integer(-7), "-7");
    assert_eq!(render_integer(1234567890), "1234567890");
    assert_eq!(render_integer(i64::MIN), "-9223372036854775808");
    let mut s = String::from("n=");
    push_decimal(&mut s, 340282366920938463463374607431768211455);
    assert_eq!(s, "n=340282366920938463463374607431768211455");
    let mut s = String::new();
    push_integer(&mut s, i128::MIN);
    assert_eq!(s, "-170141183460469231731687303715884105728");
    let mut s = String::new();
    push_ticks(&mut s, i128::MIN);
    assert_eq!(s, "-170141183460469231731687303715884.105728");
}

#[test]
fn interval_as_text() {
    assert_eq!(Interval(1_500_000, 20_000_000).to_string(), "[1.5, 20]");
    assert_eq!(Interval(-3_000_000, 0).to_string(), "[-3, 0]");
    assert_eq!(Interval(0, 0).to_string(), "[0, 0]");
}

#[test]
fn errors_in_words() {
    assert_eq!(ScheduleError::UnknownEvent(7).message(), "unknown event 7");
    assert_eq!(ScheduleError::UnknownEvent(-7).message(), "unknown event -7");
    assert_eq!(ScheduleError::MissingEdge(3, 4).message(), "missing edge: 3 to 4");
    assert_eq!(ScheduleError::NoPath(3, 4).message(), "no path from 3 to 4");
    assert_eq!(
        ScheduleError::NegativeCycle(1, 0, -20_000_000).message(),
        "negative cycle at event 1: 0 + -20"
    );
    assert_eq!(
        ScheduleError::OutsideBounds(2, 9_500_000).message(),
        "time 9.5 is outside the bounds of event 2"
    );
}

#[test]
fn order_lists_events_by_distance_from_the_root() {
    let mut schedule = Schedule::new();
    for _ in 0..=6 {
        schedule.create_event();
    }
    schedule.add_constraint(1, 2, Some(vec![10, 20])).unwrap();
    schedule.add_constraint(2, 3, Some(vec![30, 40])).unwrap();
    schedule.add_constraint(4, 3, Some(vec![10, 20])).unwrap();
    schedule.add_constraint(4, 5, Some(vec![40, 50])).unwrap();
    schedule.add_constraint(1, 5, Some(vec![60, 70])).unwrap();
    schedule.add_constraint(6, 0, Some(vec![0, 0])).unwrap();
    assert_eq!(schedule.root(), Some(0));
    assert_eq!(schedule.order(), vec![0, 6]);

    let mut walk = Schedule::new();
    for _ in 0..5 {
        walk.create_event();
    }
    walk.add_constraint(0, 1, Some(vec![10, 20])).unwrap();
    walk.add_constraint(1, 2, Some(vec![30, 40])).unwrap();
    walk.add_constraint(3, 2, Some(vec![10, 20])).unwrap();
    walk.add_constraint(3, 4, Some(vec![40, 50])).unwrap();
    walk.add_constraint(0, 4, Some(vec![60, 70])).unwrap();
    assert_eq!(walk.order(), vec![0, 1, 3, 2, 4]);
}

#[test]
fn order_breaks_ties_by_event_id() {
    let mut schedule = Schedule::new();
    let root = schedule.create_event();
    let a = schedule.create_event();
    let b = schedule.create_event();
    let c = schedule.create_event();
    schedule.add_constraint(root, c, Some(vec![1, 5])).unwrap();
    schedule.add_constraint(root, a, Some(vec![1, 5])).unwrap();
    schedule.add_constraint(root, b, Some(vec![1, 3])).unwrap();
    assert_eq!(schedule.order(), vec![root, b, a, c]);
}

#[test]
fn order_is_empty_without_a_root() {
    let mut schedule = Schedule::new();
    assert_eq!(schedule.order(), Vec::<i32>::new());
    let a = schedule.create_event();
    let b = schedule.create_event();
    schedule.add_constraint(a, b, Some(vec![-3, 4])).unwrap();
    assert_eq!(schedule.order(), Vec::<i32>::new());
    schedule.add_constraint(a, b, Some(vec![4, -3])).unwrap();
    assert_eq!(schedule.order(), Vec::<i32>::new());
}
