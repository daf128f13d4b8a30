use temporal_networks::interval::{Interval, CONVERGENCE_TICKS, TICKS_PER_UNIT, TIME_MAX};

/// The time `units` in ticks.
fn ticks(units: f64) -> i64 {
    (units * TICKS_PER_UNIT as f64).round() as i64
}

/// The interval `[lower, upper]`, given in time units.
fn span(lower: f64, upper: f64) -> Interval {
    Interval(ticks(lower), ticks(upper))
}

struct Case {
    in1: Interval,
    in2: Interval,
    out: Interval,
}

#[test]
fn test_interval_add() {
    let cases = vec![
        Case { in1: span(1., 1.), in2: span(2., 2.), out: span(3., 3.) },
        Case { in1: span(0., 0.), in2: span(2., 2.), out: span(2., 2.) },
        Case { in1: span(1.5, 1.5), in2: span(2., 2.), out: span(3.5, 3.5) },
    ];

    for case in cases.iter() {
        let res = case.in1 + case.in2;

        assert_eq!(case.out, res, "{:?} + {:?} == {:?}", case.in1, case.in2, case.out);
    }
}

#[test]
fn test_interval_add_assign() {
    let mut cases = vec![
        Case { in1: span(1., 1.), in2: span(2., 2.), out: span(3., 3.) },
        Case { in1: span(0., 0.), in2: span(2., 2.), out: span(2., 2.) },
        Case { in1: span(1.5, 1.5), in2: span(2., 2.), out: span(3.5, 3.5) },
    ];

    for case in cases.iter_mut() {
        case.in1 += case.in2;

        assert_eq!(case.out, case.in1, "{:?} += {:?} == {:?}", case.in1, case.in2, case.out);
    }
}

#[test]
fn test_interval_sub() {
    let cases = vec![
        Case { in1: span(2., 2.), in2: span(1., 1.), out: span(1., 1.) },
        Case { in1: span(8., 12.), in2: span(4., 6.), out: span(2., 8.) },
        Case { in1: span(2., 2.), in2: span(1.5, 1.5), out: span(0.5, 0.5) },
    ];

    for case in cases.iter() {
        let res = case.in1 - case.in2;

        assert_eq!(case.out, res, "{:?} - {:?} == {:?}", case.in1, case.in2, case.out);
    }
}

#[test]
fn test_interval_sub_assign() {
    let mut cases = vec![
        Case { in1: span(2., 2.), in2: span(1., 1.), out: span(1., 1.) },
        Case { in1: span(8., 12.), in2: span(4., 6.), out: span(2., 8.) },
        Case { in1: span(2., 2.), in2: span(1.5, 1.5), out: span(0.5, 0.5) },
    ];

    for case in cases.iter_mut() {
        case.in1 -= case.in2;

        assert_eq!(case.out, case.in1, "{:?} -= {:?} == {:?}", case.in1, case.in2, case.out);
    }
}

#[test]
fn test_interval_union() {
    let cases = vec![
        Case { in1: span(1., 3.), in2: span(2., 4.), out: span(2., 3.) },
        Case { in1: span(0., 10.1), in2: span(1., 12.), out: span(1., 10.1) },
    ];

    for case in cases.iter() {
        let res = case.in1 & case.in2;

        assert_eq!(case.out, res, "{:?} ^ {:?} == {:?}", case.in1, case.in2, case.out);
    }
}

#[test]
fn test_interval_union_assign() {
    let mut cases = vec![
        Case { in1: span(1., 3.), in2: span(2., 4.), out: span(2., 3.) },
        Case { in1: span(0., 10.1), in2: span(1., 12.), out: span(1., 10.1) },
    ];

    for case in cases.iter_mut() {
        case.in1 &= case.in2;

        assert_eq!(case.out, case.in1, "{:?} ^= {:?} == {:?}", case.in1, case.in2, case.out);
    }
}

#[test]
fn test_mixed_operators() {
    let i1 = Interval::new(ticks(40.), ticks(50.));
    let i2 = Interval::new(ticks(15.), ticks(15.));
    let i3 = Interval::new(ticks(30.), ticks(40.));

    let res = i1 & (i2 + i3);
    assert_eq!(
        res,
        Interval::new(ticks(45.), ticks(50.)),
        "interval math from scheduling walkthrough"
    );
}

#[test]
fn interval_negation_swaps_and_negates_bounds() {
    assert_eq!(-Interval(3, 7), Interval(-7, -3));
    assert_eq!(-Interval(-2, 5), Interval(-5, 2));
    assert_eq!(-(-Interval(-2, 5)), Interval(-2, 5));
}

#[test]
fn interval_subtraction_of_itself() {
    let x = Interval(4, 9);
    assert_eq!(x - x, Interval(-5, 5));
    assert_eq!(x - x, x + (-x));
}

#[test]
fn interval_zero_is_the_identity_of_addition() {
    let x = Interval(-12, 30);
    assert_eq!(x + Interval(0, 0), x);
    assert_eq!(Interval(0, 0) + x, x);
    assert_eq!(Interval::default(), Interval(0, 0));
}

#[test]
fn interval_meet_is_idempotent_and_commutative() {
    let x = Interval(1, 8);
    let y = Interval(5, 20);
    assert_eq!(x & x, x);
    assert_eq!(x & y, y & x);
    assert_eq!(x & y, Interval(5, 8));
    assert_eq!(x.union(&y), Interval(5, 8));
}

#[test]
fn interval_meet_of_disjoint_ranges_is_invalid() {
    let m = Interval(0, 3) & Interval(5, 9);
    assert_eq!(m, Interval(5, 3));
    assert!(!m.is_valid());
    assert!(Interval(3, 3).is_valid());
    assert!(Interval(2, 3).is_valid());
}

#[test]
fn interval_contains_its_bounds() {
    let x = Interval(10, 20);
    assert!(x.contains(10));
    assert!(x.contains(20));
    assert!(x.contains(15));
    assert!(!x.contains(9));
    assert!(!x.contains(21));
    assert_eq!(x.lower(), 10);
    assert_eq!(x.upper(), 20);
}

#[test]
fn interval_converges_below_a_thousandth_of_a_unit() {
    assert_eq!(CONVERGENCE_TICKS * 1000, TICKS_PER_UNIT);
    assert!(Interval(5, 5).converged());
    assert!(Interval(5, 5 + CONVERGENCE_TICKS - 1).converged());
    assert!(!Interval(5, 5 + CONVERGENCE_TICKS).converged());
    assert!(Interval(5 + CONVERGENCE_TICKS - 1, 5).converged());
    assert!(!Interval(5 + CONVERGENCE_TICKS, 5).converged());
    assert!(!Interval(-TIME_MAX, TIME_MAX).converged());
    assert!(!Interval(i64::MIN, i64::MAX).converged());
}

#[test]
fn interval_arithmetic_saturates() {
    let wide = Interval::unconstrained();
    assert_eq!(wide, Interval(-TIME_MAX, TIME_MAX));
    assert_eq!(wide + Interval(10, 10), Interval(-TIME_MAX + 10, TIME_MAX));
    assert_eq!(wide + wide, wide);
    assert_eq!(wide - wide, wide);
    assert_eq!(-wide, wide);
    assert_eq!(-Interval(i64::MIN, 0), Interval(0, TIME_MAX));
    assert_eq!(Interval(i64::MIN, 0) + Interval(0, 0), Interval(-TIME_MAX, 0));
}

#[test]
fn interval_from_vec_takes_the_first_two_entries() {
    assert_eq!(Interval::from_vec(vec![3, 9]), Interval(3, 9));
    assert_eq!(Interval::from_vec(vec![3, 9, 27]), Interval(3, 9));
    assert_eq!(Interval::point(4), Interval(4, 4));
}
