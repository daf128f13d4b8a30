use petgraph::graphmap::DiGraphMap;
use temporal_networks::algorithms::floyd_warshall;
use temporal_networks::error::ScheduleError;

/// Adds the two edges of the constraint `[lower, upper]` from `source` to
/// `target`.
fn constrain(graph: &mut DiGraphMap<i32, i64>, source: i32, target: i32, lower: i64, upper: i64) {
    graph.add_edge(source, target, upper);
    graph.add_edge(target, source, -lower);
}

fn walkthrough_graph() -> DiGraphMap<i32, i64> {
    let mut graph = DiGraphMap::new();
    for node in 1..=5 {
        graph.add_node(node);
    }
    constrain(&mut graph, 1, 2, 10, 20);
    constrain(&mut graph, 2, 3, 30, 40);
    constrain(&mut graph, 4, 3, 10, 20);
    constrain(&mut graph, 4, 5, 40, 50);
    constrain(&mut graph, 1, 5, 60, 70);
    graph
}

#[test]
fn floyd_warshall_empty_graph() {
    let graph: DiGraphMap<i32, i64> = DiGraphMap::new();
    let table = floyd_warshall(&graph).unwrap();
    assert_eq!(table.len(), 0);
    assert_eq!(table.distance(0, 0), None);
}

#[test]
fn floyd_warshall_single_node() {
    let mut graph: DiGraphMap<i32, i64> = DiGraphMap::new();
    graph.add_node(7);
    let table = floyd_warshall(&graph).unwrap();
    assert_eq!(table.len(), 1);
    assert_eq!(table.node(0), 7);
    assert_eq!(table.at(0, 0), Some(0));
    assert_eq!(table.distance(7, 7), Some(0));
    assert_eq!(table.distance(7, 8), None);
    assert_eq!(table.position(7), Some(0));
    assert_eq!(table.position(8), None);
}

#[test]
fn floyd_warshall_walkthrough_distances() {
    let table = floyd_warshall(&walkthrough_graph()).unwrap();
    let expected: Vec<((i32, i32), i128)> = vec![
        ((1, 1), 0),
        ((1, 2), 20),
        ((1, 3), 50),
        ((1, 4), 30),
        ((1, 5), 70),
        ((2, 1), -10),
        ((2, 2), 0),
        ((2, 3), 40),
        ((2, 4), 20),
        ((2, 5), 60),
        ((3, 1), -40),
        ((3, 2), -30),
        ((3, 3), 0),
        ((3, 4), -10),
        ((3, 5), 30),
        ((4, 1), -20),
        ((4, 2), -10),
        ((4, 3), 20),
        ((4, 4), 0),
        ((4, 5), 50),
        ((5, 1), -60),
        ((5, 2), -50),
        ((5, 3), -20),
        ((5, 4), -40),
        ((5, 5), 0),
    ];
    assert_eq!(table.len(), 5);
    for ((from, to), distance) in expected {
        assert_eq!(table.distance(from, to), Some(distance), "{} -> {}", from, to);
    }
}

#[test]
fn floyd_warshall_triangle_inequality_on_walkthrough() {
    let table = floyd_warshall(&walkthrough_graph()).unwrap();
    for a in 1..=5 {
        for b in 1..=5 {
            for c in 1..=5 {
                let ac = table.distance(a, c).unwrap();
                let ab = table.distance(a, b).unwrap();
                let bc = table.distance(b, c).unwrap();
                assert!(ac <= ab + bc, "{} -> {} -> {}", a, b, c);
            }
        }
    }
}

#[test]
fn floyd_warshall_unreachable_pairs_have_no_distance() {
    let mut graph: DiGraphMap<i32, i64> = DiGraphMap::new();
    graph.add_edge(1, 2, 5);
    graph.add_edge(2, 3, 7);
    graph.add_node(9);
    let table = floyd_warshall(&graph).unwrap();
    assert_eq!(table.distance(1, 3), Some(12));
    assert_eq!(table.distance(1, 2), Some(5));
    assert_eq!(table.distance(3, 1), None);
    assert_eq!(table.distance(2, 1), None);
    assert_eq!(table.distance(1, 9), None);
    assert_eq!(table.distance(9, 9), Some(0));
}

#[test]
fn floyd_warshall_follows_node_order_of_the_graph() {
    let mut graph: DiGraphMap<i32, i64> = DiGraphMap::new();
    graph.add_edge(30, 10, 4);
    graph.add_edge(10, 20, -1);
    let table = floyd_warshall(&graph).unwrap();
    assert_eq!(table.node(0), 30);
    assert_eq!(table.node(1), 10);
    assert_eq!(table.node(2), 20);
    assert_eq!(table.at(0, 2), Some(3));
    assert_eq!(table.at(2, 0), None);
}

#[test]
fn floyd_warshall_picks_the_shorter_of_two_ways() {
    let mut graph: DiGraphMap<i32, i64> = DiGraphMap::new();
    graph.add_edge(0, 1, 10);
    graph.add_edge(0, 2, 3);
    graph.add_edge(2, 1, 4);
    let table = floyd_warshall(&graph).unwrap();
    assert_eq!(table.distance(0, 1), Some(7));
}

#[test]
fn floyd_warshall_positive_self_loop_is_ignored() {
    let mut graph: DiGraphMap<i32, i64> = DiGraphMap::new();
    graph.add_edge(4, 4, 9);
    let table = floyd_warshall(&graph).unwrap();
    assert_eq!(table.distance(4, 4), Some(0));
}

#[test]
fn floyd_warshall_negative_self_loop_is_a_negative_cycle() {
    let mut graph: DiGraphMap<i32, i64> = DiGraphMap::new();
    graph.add_node(3);
    graph.add_edge(4, 4, -9);
    assert_eq!(floyd_warshall(&graph).err(), Some(ScheduleError::NegativeCycle(4, -9, 0)));
}

#[test]
fn floyd_warshall_negative_cycle_on_walkthrough() {
    let mut graph = walkthrough_graph();
    constrain(&mut graph, 3, 1, 0, 0);
    match floyd_warshall(&graph) {
        Err(ScheduleError::NegativeCycle(event, there, back)) => {
            assert_eq!(event, 1);
            assert!(there + back < 0);
        }
        other => panic!("expected a negative cycle, got {:?}", other.map(|t| t.len())),
    }
}

#[test]
fn floyd_warshall_inverted_bounds_are_a_negative_cycle() {
    let mut graph: DiGraphMap<i32, i64> = DiGraphMap::new();
    constrain(&mut graph, 0, 1, 10, 5);
    assert_eq!(floyd_warshall(&graph).err(), Some(ScheduleError::NegativeCycle(0, 5, -10)));
}

#[test]
fn floyd_warshall_sums_beyond_64_bits_stay_exact() {
    let mut graph: DiGraphMap<i32, i64> = DiGraphMap::new();
    graph.add_edge(0, 1, i64::MAX);
    graph.add_edge(1, 2, i64::MAX);
    graph.add_edge(2, 3, i64::MIN);
    let table = floyd_warshall(&graph).unwrap();
    assert_eq!(table.distance(0, 2), Some(2 * (i64::MAX as i128)));
    assert_eq!(table.distance(0, 3), Some(2 * (i64::MAX as i128) + i64::MIN as i128));
    assert_eq!(table.distance(1, 3), Some(-1));
}
