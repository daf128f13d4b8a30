use temporal_networks::error::ScheduleError;
use temporal_networks::interval::{Interval, TICKS_PER_UNIT, TIME_MAX};
use temporal_networks::stn::{
    build_distance_graph, dump_constraint_table, edge_constraint, initialize, naive_schedule,
    perform_apsp, set_bounds, Edge, RegistrationEnum, RegistrationOptions, RegistrationPayload, STN,
};

/// The time `units` in ticks.
fn time(units: f64) -> i64 {
    (units * TICKS_PER_UNIT as f64).round() as i64
}

/// The interval `[lower, upper]`, given in time units.
fn interval(lower: f64, upper: f64) -> Interval {
    Interval::new(time(lower), time(upper))
}

/// The share `fraction` in millionths.
fn share(fraction: f64) -> i64 {
    (fraction * 1_000_000.0).round() as i64
}

fn explicit_edge(source: i32, target: i32, lower: f64, upper: f64) -> Edge {
    Edge { source, target, interval: interval(lower, upper), minutes: time(0.) }
}

fn implicit_edge(source: i32, target: i32, minutes: f64) -> Edge {
    Edge { source, target, interval: Interval::default(), minutes: time(minutes) }
}

/// The graph from the walkthrough.
fn walkthrough_edges() -> Vec<Edge> {
    vec![
        explicit_edge(1, 2, 10., 20.),
        explicit_edge(2, 3, 30., 40.),
        explicit_edge(4, 3, 10., 20.),
        explicit_edge(4, 5, 40., 50.),
        explicit_edge(1, 5, 60., 70.),
    ]
}

fn explicit_options() -> RegistrationOptions {
    RegistrationOptions { implicit_intervals: false, execution_uncertainty: share(0.) }
}

fn implicit_options() -> RegistrationOptions {
    RegistrationOptions { implicit_intervals: true, execution_uncertainty: share(0.1) }
}

/// The weight of the edge of the distance graph from node `from` to node
/// `to`.
fn graph_weight(stn: &STN, from: i32, to: i32) -> i64 {
    let source = match stn.node_index(from) {
        Some(n) => n,
        None => panic!("could not find node index {}", from),
    };
    let target = match stn.node_index(to) {
        Some(n) => n,
        None => panic!("could not find index {}", to),
    };
    let edge = match stn.find_edge(source, target) {
        Some(edge) => edge,
        None => panic!("could not find edge indices ({} - {})", from, to),
    };
    match stn.edge_weight(edge) {
        Some(w) => w,
        None => panic!("could not find weight between indices ({} - {})", from, to),
    }
}

/// The number of pairs among the nodes 0 to 20 for which the constraint
/// table holds a distance.
fn constraint_table_len(stn: &STN) -> usize {
    let mut len = 0;
    for from in 0..=20 {
        for to in 0..=20 {
            if stn.constraint(from, to).is_some() {
                len += 1;
            }
        }
    }
    len
}

struct Case {
    from: i32,
    to: i32,
    interval: Interval,
}

#[test]
fn test_build_distance_graph_empty_input() -> Result<(), ScheduleError> {
    let payload = RegistrationPayload { edges: vec![] };
    let options =
        RegistrationOptions { implicit_intervals: true, execution_uncertainty: share(0.) };

    let mut stn = STN::new();

    let res = build_distance_graph(&mut stn, &payload, &options)?;
    assert_eq!((0_usize, 0_usize), res, "no nodes or edges should be created");

    Ok(())
}

#[test]
fn test_build_distance_graph_walkthrough_graph() -> Result<(), ScheduleError> {
    let data = RegistrationPayload { edges: walkthrough_edges() };
    let options = explicit_options();

    let mut stn = STN::new();
    let (nodes_created, edges_created) = build_distance_graph(&mut stn, &data, &options)?;

    // just check that the graph was built
    assert_eq!(5_usize, nodes_created, "correct number of nodes created");
    assert_eq!(15_usize, edges_created, "correct number of edges created");

    // now make sure edge weights are correct
    let cases = vec![
        Case { from: 1, to: 2, interval: interval(10., 20.) },
        Case { from: 2, to: 3, interval: interval(30., 40.) },
        Case { from: 4, to: 3, interval: interval(10., 20.) },
        Case { from: 4, to: 5, interval: interval(40., 50.) },
        Case { from: 1, to: 5, interval: interval(60., 70.) },
    ];

    for c in cases.iter() {
        let weight_to = graph_weight(&stn, c.from, c.to);
        assert_eq!(
            c.interval.upper(),
            weight_to,
            "({} - {}) = {}",
            c.from,
            c.to,
            c.interval.upper()
        );

        let weight_from = graph_weight(&stn, c.to, c.from);
        assert_eq!(
            -c.interval.lower(),
            weight_from,
            "({} - {}) = {}",
            c.to,
            c.from,
            -c.interval.lower()
        );
    }

    Ok(())
}

#[test]
fn test_build_distance_graph_implicit_intervals() -> Result<(), ScheduleError> {
    let edges = vec![
        implicit_edge(1, 2, 10.),
        implicit_edge(2, 3, 20.),
        implicit_edge(4, 3, 30.),
        implicit_edge(4, 5, 40.),
        implicit_edge(1, 5, 50.),
    ];

    let data = RegistrationPayload { edges };
    let options = implicit_options();

    let mut stn = STN::new();
    let (nodes_created, edges_created) = build_distance_graph(&mut stn, &data, &options)?;

    // just check that the graph was built
    assert_eq!(5_usize, nodes_created, "correct number of nodes created");
    assert_eq!(15_usize, edges_created, "correct number of edges created");

    // now make sure edge weights are correct
    let cases = vec![
        Case { from: 1, to: 2, interval: interval(9., 11.) },
        Case { from: 2, to: 3, interval: interval(18., 22.) },
        Case { from: 4, to: 3, interval: interval(27., 33.) },
        Case { from: 4, to: 5, interval: interval(36., 44.) },
        Case { from: 1, to: 5, interval: interval(45., 55.) },
    ];

    for c in cases.iter() {
        let weight_to = graph_weight(&stn, c.from, c.to);
        assert_eq!(
            c.interval.upper(),
            weight_to,
            "({} - {}) = {}",
            c.from,
            c.to,
            c.interval.upper()
        );

        let weight_from = graph_weight(&stn, c.to, c.from);
        assert_eq!(
            -c.interval.lower(),
            weight_from,
            "({} - {}) = {}",
            c.to,
            c.from,
            -c.interval.lower()
        );
    }

    // make sure (i, i) weights are 0
    for i in 1..6 {
        let weight = graph_weight(&stn, i, i);
        assert_eq!(time(0.), weight, "({} - {}) = 0 got {}", i, i, weight);
    }

    Ok(())
}

#[test]
fn test_perform_apsp_against_walkthrough_data() -> Result<(), ScheduleError> {
    let data = RegistrationPayload { edges: walkthrough_edges() };
    let options = explicit_options();

    let mut stn = STN::new();
    build_distance_graph(&mut stn, &data, &options)?;
    perform_apsp(&mut stn)?;

    // full STN with implicit constraints from the walkthrough example
    // ((from, to), distance)
    let expected_constraint_table: Vec<((i32, i32), f64)> = vec![
        ((1, 1), 0.),
        ((1, 2), 20.),
        ((1, 3), 50.),
        ((1, 4), 30.),
        ((1, 5), 70.),
        ((2, 1), -10.),
        ((2, 2), 0.),
        ((2, 3), 40.),
        ((2, 4), 20.),
        ((2, 5), 60.),
        ((3, 1), -40.),
        ((3, 2), -30.),
        ((3, 3), 0.),
        ((3, 4), -10.),
        ((3, 5), 30.),
        ((4, 1), -20.),
        ((4, 2), -10.),
        ((4, 3), 20.),
        ((4, 4), 0.),
        ((4, 5), 50.),
        ((5, 1), -60.),
        ((5, 2), -50.),
        ((5, 3), -20.),
        ((5, 4), -40.),
        ((5, 5), 0.),
    ];

    assert_eq!(
        expected_constraint_table.len(),
        constraint_table_len(&stn),
        "constraint tables are the same size"
    );

    for (i, dist) in expected_constraint_table.iter() {
        assert_eq!(
            Some(time(*dist) as i128),
            stn.constraint(i.0, i.1),
            "{:?} want {}, got {:?}",
            i,
            *dist,
            stn.constraint(i.0, i.1),
        )
    }

    Ok(())
}

#[test]
fn test_set_bounds_walkthrough_data() -> Result<(), ScheduleError> {
    let data = RegistrationPayload { edges: walkthrough_edges() };
    let options = explicit_options();

    let mut stn = STN::new();
    build_distance_graph(&mut stn, &data, &options)?;
    perform_apsp(&mut stn)?;
    set_bounds(&mut stn)?;

    let expected_bounds: Vec<(i32, Interval)> = vec![
        (1, interval(0., 0.)),
        (2, interval(10., 20.)),
        (3, interval(40., 50.)),
        (4, interval(20., 30.)),
        (5, interval(60., 70.)),
    ];

    assert_eq!(expected_bounds.len(), stn.bounds_len(), "bounds are the same size");

    for (i, b) in expected_bounds.iter() {
        assert_eq!(
            *b,
            stn.bound(*i).unwrap(),
            "{:?} want {}, got {}",
            i,
            b.to_string(),
            stn.bound(*i).unwrap().to_string(),
        )
    }

    Ok(())
}

#[test]
fn test_dump_constraint_table_walkthrough_data() -> Result<(), ScheduleError> {
    let data = RegistrationPayload { edges: walkthrough_edges() };
    let options = explicit_options();

    let mut stn = STN::new();
    initialize(&mut stn, &data, &options)?;
    let ct = dump_constraint_table(&stn);

    println!("{:?}", ct);

    let expected_ct: Vec<Vec<String>> = vec![
        vec![
            String::new(),
            "1".to_string(),
            "2".to_string(),
            "3".to_string(),
            "4".to_string(),
            "5".to_string(),
        ],
        vec![
            "1".to_string(),
            "0".to_string(),
            "20".to_string(),
            "50".to_string(),
            "30".to_string(),
            "70".to_string(),
        ],
        vec![
            "2".to_string(),
            "-10".to_string(),
            "0".to_string(),
            "40".to_string(),
            "20".to_string(),
            "60".to_string(),
        ],
        vec![
            "3".to_string(),
            "-40".to_string(),
            "-30".to_string(),
            "0".to_string(),
            "-10".to_string(),
            "30".to_string(),
        ],
        vec![
            "4".to_string(),
            "-20".to_string(),
            "-10".to_string(),
            "20".to_string(),
            "0".to_string(),
            "50".to_string(),
        ],
        vec![
            "5".to_string(),
            "-60".to_string(),
            "-50".to_string(),
            "-20".to_string(),
            "-40".to_string(),
            "0".to_string(),
        ],
    ];

    assert_eq!(expected_ct, ct);

    Ok(())
}

#[test]
fn test_naive_schedule_walkthrough_data() -> Result<(), ScheduleError> {
    let data = RegistrationPayload { edges: walkthrough_edges() };
    let options = explicit_options();

    let mut stn = STN::new();
    build_distance_graph(&mut stn, &data, &options)?;
    perform_apsp(&mut stn)?;
    set_bounds(&mut stn)?;

    // test what happens after the first activity is set to 0
    naive_schedule(&mut stn, 1, time(0.))?;

    let expected_bounds: Vec<(i32, Interval)> = vec![
        (1, interval(0., 0.)),
        (2, interval(10., 20.)),
        (3, interval(40., 50.)),
        (4, interval(20., 30.)),
        (5, interval(60., 70.)),
    ];

    for (i, b) in expected_bounds.iter() {
        assert_eq!(
            *b,
            stn.bound(*i).unwrap(),
            "{:?} want {}, got {}",
            i,
            b.to_string(),
            stn.bound(*i).unwrap().to_string(),
        )
    }

    // test what happens when the second activity is set to 15
    naive_schedule(&mut stn, 2, time(15.))?;

    let expected_bounds: Vec<(i32, Interval)> = vec![
        (1, interval(0., 0.)),
        (2, interval(15., 15.)),
        (3, interval(45., 50.)),
        (4, interval(25., 30.)),
        (5, interval(65., 70.)),
    ];

    for (i, b) in expected_bounds.iter() {
        assert_eq!(
            *b,
            stn.bound(*i).unwrap(),
            "{:?} want {}, got {}",
            i,
            b.to_string(),
            stn.bound(*i).unwrap().to_string(),
        )
    }

    // test what happens when the third activity is set to 46
    naive_schedule(&mut stn, 3, time(46.))?;

    let expected_bounds: Vec<(i32, Interval)> = vec![
        (1, interval(0., 0.)),
        (2, interval(15., 15.)),
        (3, interval(46., 46.)),
        (4, interval(26., 30.)),
        (5, interval(66., 70.)),
    ];

    for (i, b) in expected_bounds.iter() {
        assert_eq!(
            *b,
            stn.bound(*i).unwrap(),
            "{:?} want {}, got {}",
            i,
            b.to_string(),
            stn.bound(*i).unwrap().to_string(),
        )
    }

    Ok(())
}

/// Edges that give only their minutes, between nodes counted from zero.
fn minute_edges(edges: &[(f64, i32, i32)]) -> RegistrationPayload {
    RegistrationPayload {
        edges: edges
            .iter()
            .map(|(minutes, source, target)| implicit_edge(*source, *target, *minutes))
            .collect(),
    }
}

#[test]
fn stn_build_counts_nodes_and_edges() {
    let cases: Vec<(Vec<(f64, i32, i32)>, (usize, usize))> = vec![
        (vec![], (0, 0)),
        (vec![(60., 0, 1)], (2, 4)),
        (vec![(0., 0, 1)], (2, 4)),
        (vec![(60., 0, 1), (60., 2, 1)], (3, 7)),
        (vec![(0., 0, 1), (0., 2, 1)], (3, 7)),
        (vec![(60., 0, 1), (30., 2, 3)], (4, 8)),
        (vec![(15., 0, 1), (20., 2, 3), (25., 1, 2)], (4, 10)),
        (vec![(15., 0, 1), (20., 2, 3), (25., 1, 2), (25., 0, 3)], (4, 12)),
        (vec![(6., 0, 1), (6., 2, 3), (0., 1, 2), (0., 0, 3)], (4, 12)),
    ];
    for (edges, expected) in cases {
        let mut stn = STN::new();
        let counts = build_distance_graph(&mut stn, &minute_edges(&edges), &implicit_options());
        assert_eq!(counts, Ok(expected), "{:?}", edges);
    }
}

#[test]
fn stn_initialize_returns_the_counts() {
    let mut stn = STN::new();
    let edges = vec![(15., 0, 1), (20., 2, 3), (25., 1, 2)];
    let counts = stn.initialize(&minute_edges(&edges), &implicit_options());
    assert_eq!(counts, Ok(RegistrationEnum(4, 10)));
    assert_eq!(stn.constraint(0, 3), Some(time(66.) as i128));
    assert_eq!(stn.constraint(3, 0), Some(time(-54.) as i128));
    assert_eq!(stn.bound(0), Some(Interval(0, 0)));
    assert_eq!(stn.bound(1), Some(interval(0., 0.)));
    assert_eq!(stn.bound(2), Some(interval(22.5, 27.5)));
    assert_eq!(stn.bound(3), Some(interval(40.5, 49.5)));
    assert_eq!(stn.bound(4), Some(Interval(-TIME_MAX, TIME_MAX)));
}

#[test]
fn stn_initialize_finds_contradicting_edges() {
    let mut stn = STN::new();
    let edges = vec![(15., 0, 1), (20., 2, 3), (25., 1, 2), (25., 0, 3)];
    let counts = stn.initialize(&minute_edges(&edges), &implicit_options());
    assert!(matches!(counts, Err(ScheduleError::NegativeCycle(0, _, _))), "{:?}", counts);
    assert_eq!(stn.to_string(), "4 nodes, 12 edges");
}

#[test]
fn stn_build_eighteen_nodes_twenty_two_edges() {
    let edges = vec![
        (15., 0, 2),
        (45., 1, 3),
        (0., 1, 0),
        (60., 2, 4),
        (60., 3, 5),
        (0., 3, 2),
        (40., 4, 7),
        (25., 5, 6),
        (25., 6, 8),
        (35., 7, 9),
        (25., 8, 10),
        (10., 8, 7),
        (35., 9, 11),
        (35., 10, 12),
        (140., 11, 13),
        (165., 12, 15),
        (10., 12, 11),
        (25., 13, 14),
        (30., 14, 16),
        (30., 15, 17),
        (0., 15, 14),
        (0., 17, 16),
    ];
    let mut stn = STN::new();
    let counts = build_distance_graph(&mut stn, &minute_edges(&edges), &implicit_options());
    assert_eq!(counts, Ok((18, 62)));
    assert_eq!(stn.to_string(), "18 nodes, 62 edges");
}

#[test]
fn stn_edge_constraint_spreads_minutes_by_the_uncertainty() {
    let edge = implicit_edge(1, 2, 10.);
    assert_eq!(edge_constraint(&edge, &implicit_options()), interval(9., 11.));
    let exact = RegistrationOptions { implicit_intervals: true, execution_uncertainty: 0 };
    assert_eq!(edge_constraint(&edge, &exact), interval(10., 10.));
    let explicit = explicit_edge(1, 2, 3., 4.);
    assert_eq!(edge_constraint(&explicit, &explicit_options()), interval(3., 4.));
    assert_eq!(edge_constraint(&explicit, &implicit_options()), interval(0., 0.));
    let before = implicit_edge(1, 2, -10.);
    assert_eq!(edge_constraint(&before, &implicit_options()), interval(-9., -11.));
    let odd = Edge { source: 1, target: 2, interval: Interval::default(), minutes: 25 };
    assert_eq!(edge_constraint(&odd, &implicit_options()), Interval(23, 27));
    assert_eq!(RegistrationOptions::default(), explicit_options());
}

#[test]
fn stn_later_edge_overrides_earlier_one() {
    let data = RegistrationPayload {
        edges: vec![
            explicit_edge(1, 2, 10., 20.),
            explicit_edge(1, 2, 12., 15.),
            explicit_edge(2, 1, -14., -13.),
        ],
    };
    let mut stn = STN::new();
    assert_eq!(build_distance_graph(&mut stn, &data, &explicit_options()), Ok((2, 4)));
    assert_eq!(graph_weight(&stn, 1, 2), time(14.));
    assert_eq!(graph_weight(&stn, 2, 1), time(-13.));
}

#[test]
fn stn_nodes_take_indices_in_ascending_order_of_ids() {
    let data = RegistrationPayload {
        edges: vec![explicit_edge(30, 10, 1., 2.), explicit_edge(20, 10, 1., 2.)],
    };
    let mut stn = STN::new();
    build_distance_graph(&mut stn, &data, &explicit_options()).unwrap();
    assert_eq!(stn.node_index(10), Some(0));
    assert_eq!(stn.node_index(20), Some(1));
    assert_eq!(stn.node_index(30), Some(2));
    assert_eq!(stn.node_index(40), None);
    assert_eq!(stn.bound(10), Some(Interval(0, 0)));
    assert_eq!(stn.bound(40), None);
    assert_eq!(stn.find_edge(1, 2), None);
    assert_eq!(stn.find_edge(2, 1), None);
    assert!(stn.find_edge(0, 1).is_some());
    assert_eq!(stn.find_edge(7, 8), None);
    assert_eq!(stn.edge_weight(99), None);
}

#[test]
fn stn_registering_again_starts_the_named_nodes_afresh() {
    let mut stn = STN::new();
    let first = RegistrationPayload {
        edges: vec![explicit_edge(1, 2, 10., 20.), explicit_edge(3, 4, 1., 2.)],
    };
    assert_eq!(build_distance_graph(&mut stn, &first, &explicit_options()), Ok((4, 8)));
    let second = RegistrationPayload { edges: vec![explicit_edge(2, 5, 7., 8.)] };
    assert_eq!(build_distance_graph(&mut stn, &second, &explicit_options()), Ok((6, 12)));
    assert_eq!(stn.node_index(2), Some(4));
    assert_eq!(stn.node_index(5), Some(5));
    assert_eq!(graph_weight(&stn, 2, 5), time(8.));
    assert_eq!(graph_weight(&stn, 3, 4), time(2.));
    let source = stn.node_index(1).unwrap();
    let target = stn.node_index(2).unwrap();
    assert_eq!(stn.find_edge(source, target), None);
    perform_apsp(&mut stn).unwrap();
    assert_eq!(stn.constraint(1, 2), None);
    assert_eq!(stn.constraint(2, 5), Some(time(8.) as i128));
    assert_eq!(stn.constraint(3, 4), Some(time(2.) as i128));
}

#[test]
fn stn_negative_cycle_leaves_the_table_alone() {
    let mut edges = walkthrough_edges();
    edges.push(explicit_edge(3, 1, 0., 0.));
    let mut stn = STN::new();
    build_distance_graph(&mut stn, &RegistrationPayload { edges }, &explicit_options()).unwrap();
    match perform_apsp(&mut stn) {
        Err(ScheduleError::NegativeCycle(node, there, back)) => {
            assert_eq!(node, 1);
            assert!(there + back < 0);
        }
        other => panic!("expected a negative cycle, got {:?}", other),
    }
    assert_eq!(constraint_table_len(&stn), 0);
    let mut again = STN::new();
    let mut edges = walkthrough_edges();
    edges.push(explicit_edge(3, 1, 0., 0.));
    assert!(matches!(
        initialize(&mut again, &RegistrationPayload { edges }, &explicit_options()),
        Err(ScheduleError::NegativeCycle(1, _, _))
    ));
    assert_eq!(again.bound(1), Some(Interval(0, 0)));
}

#[test]
fn stn_bounds_are_unbounded_where_the_table_has_no_distance() {
    let mut stn = STN::new();
    let data = RegistrationPayload {
        edges: vec![explicit_edge(0, 1, 5., 6.), explicit_edge(2, 3, 1., 2.)],
    };
    initialize(&mut stn, &data, &explicit_options()).unwrap();
    assert_eq!(stn.bound(0), Some(Interval(0, 0)));
    assert_eq!(stn.bound(1), Some(Interval(0, 0)));
    assert_eq!(stn.bound(2), Some(Interval(-TIME_MAX, TIME_MAX)));
    assert_eq!(stn.bound(3), Some(Interval(-TIME_MAX, TIME_MAX)));
    assert_eq!(stn.bound(4), Some(Interval(-TIME_MAX, TIME_MAX)));
    assert_eq!(stn.bound(5), None);
    assert_eq!(stn.bounds_len(), 5);
}

#[test]
fn stn_dump_marks_missing_distances() {
    let mut stn = STN::new();
    let data = RegistrationPayload {
        edges: vec![explicit_edge(7, 8, 1.5, 2.25), explicit_edge(9, 9, 0., 0.)],
    };
    initialize(&mut stn, &data, &explicit_options()).unwrap();
    let expected: Vec<Vec<String>> = vec![
        vec!["".to_string(), "7".to_string(), "8".to_string(), "9".to_string()],
        vec!["7".to_string(), "0".to_string(), "2.25".to_string(), "\u{221e}".to_string()],
        vec!["8".to_string(), "-1.5".to_string(), "0".to_string(), "\u{221e}".to_string()],
        vec!["9".to_string(), "\u{221e}".to_string(), "\u{221e}".to_string(), "0".to_string()],
    ];
    assert_eq!(stn.dump_constraint_table(), expected);
    assert_eq!(dump_constraint_table(&STN::new()), vec![vec![String::new()]]);
}

#[test]
fn stn_naive_schedule_rejects_unknown_nodes_and_times_outside_the_bounds() {
    let mut stn = STN::new();
    let data = RegistrationPayload { edges: walkthrough_edges() };
    initialize(&mut stn, &data, &explicit_options()).unwrap();
    assert_eq!(naive_schedule(&mut stn, 9, 0), Err(ScheduleError::UnknownEvent(9)));
    assert_eq!(
        naive_schedule(&mut stn, 2, time(9.)),
        Err(ScheduleError::OutsideBounds(2, time(9.)))
    );
    assert_eq!(stn.naive_schedule(2, time(21.)), Err(ScheduleError::OutsideBounds(2, time(21.))));
    assert_eq!(stn.bound(2), Some(interval(10., 20.)));
    assert_eq!(stn.naive_schedule(2, time(20.)), Ok(()));
    assert_eq!(stn.bound(2), Some(interval(20., 20.)));
    assert_eq!(stn.bound(3), Some(interval(50., 50.)));
    assert_eq!(stn.bound(1), Some(interval(0., 0.)));
}

#[test]
fn stn_describes_itself() {
    let mut stn = STN::new();
    assert_eq!(stn.to_string(), "0 nodes, 0 edges");
    let data = RegistrationPayload { edges: walkthrough_edges() };
    initialize(&mut stn, &data, &explicit_options()).unwrap();
    assert_eq!(stn.to_string(), "5 nodes, 15 edges");
}
