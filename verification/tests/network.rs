use field_puzzles::network::{
    build, build_from_lines, count_all_locations, parse_connection, part1, part2, part3, reachable_within_depth,
    sum_shortest_depths, try_sum_shortest_depths, Graph, Location,
};

const INPUT: [&str; 6] = [
    "ADB <-> XYZ",
    "STT <-> NYC",
    "PLD <-> XYZ",
    "ADB <-> NYC",
    "JLI <-> NYC",
    "PTO <-> ADB",
];

fn graph_of(lines: &[&str]) -> Graph {
    let mut records: Vec<(Location, Location)> = Vec::new();
    for line in lines {
        let mut it = line.split(" ");
        let (left, _, right) = (it.next().unwrap(), it.next(), it.next().unwrap());
        records.push((Location::new(left), Location::new(right)));
    }
    build(&records)
}

fn generate_test_graph() -> Graph {
    let lines: Vec<String> = INPUT.iter().map(|l| l.to_string()).collect();
    build_from_lines(&lines).unwrap()
}

fn neighbours(graph: &Graph, of: &str) -> Vec<String> {
    graph
        .neighbours(&Location::new(of))
        .unwrap()
        .iter()
        .map(|l| l.name.clone())
        .collect()
}

#[test]
fn problem_4_test_part1() {
    let graph = generate_test_graph();
    assert_eq!(part1(graph), 7);
}

#[test]
fn problem_4_test_part2() {
    let graph = generate_test_graph();
    assert_eq!(part2(graph), 6);
}

#[test]
fn problem_4_test_part3() {
    let graph = generate_test_graph();
    assert_eq!(part3(graph), 15);
}

#[test]
fn scenario_through_the_general_queries() {
    let graph = generate_test_graph();
    let origin = Location::new("STT");
    assert_eq!(count_all_locations(&graph), 7);
    assert_eq!(reachable_within_depth(&graph, &origin, 3), 6);
    assert_eq!(sum_shortest_depths(&graph, &origin), 15);
}

#[test]
fn build_keeps_record_order_and_both_directions() {
    let graph = generate_test_graph();
    assert_eq!(neighbours(&graph, "ADB"), vec!["XYZ", "NYC", "PTO"]);
    assert_eq!(neighbours(&graph, "NYC"), vec!["STT", "ADB", "JLI"]);
    assert_eq!(neighbours(&graph, "XYZ"), vec!["ADB", "PLD"]);
    assert_eq!(neighbours(&graph, "STT"), vec!["NYC"]);
    assert!(graph.neighbours(&Location::new("QQQ")).is_none());
    assert!(graph.contains(&Location::new("PTO")));
    assert!(!graph.contains(&Location::new("QQQ")));
}

#[test]
fn build_keeps_repeated_records() {
    let graph = graph_of(&["A - B", "B - A", "A - B"]);
    assert_eq!(count_all_locations(&graph), 2);
    assert_eq!(neighbours(&graph, "A"), vec!["B", "B", "B"]);
    assert_eq!(neighbours(&graph, "B"), vec!["A", "A", "A"]);
}

#[test]
fn build_self_pair_lists_the_location_twice() {
    let graph = graph_of(&["A - A"]);
    assert_eq!(count_all_locations(&graph), 1);
    assert_eq!(neighbours(&graph, "A"), vec!["A", "A"]);
    let origin = Location::new("A");
    assert_eq!(sum_shortest_depths(&graph, &origin), 0);
    assert_eq!(reachable_within_depth(&graph, &origin, 2), 1);
}

#[test]
fn build_of_no_records_is_empty() {
    let graph = build(&Vec::new());
    assert_eq!(count_all_locations(&graph), 0);
}

#[test]
fn count_ignores_order_and_repetition() {
    let forward = graph_of(&["A - B", "B - C", "C - D"]);
    let shuffled = graph_of(&["C - D", "B - A", "C - B", "A - B", "D - C"]);
    assert_eq!(count_all_locations(&forward), 4);
    assert_eq!(count_all_locations(&shuffled), 4);
}

#[test]
fn neighbour_multiplicities_are_mutual() {
    let graph = graph_of(&["A - B", "B - A", "A - C", "C - C", "B - C"]);
    for a in ["A", "B", "C"] {
        for b in ["A", "B", "C"] {
            let ab = neighbours(&graph, a).iter().filter(|n| n.as_str() == b).count();
            let ba = neighbours(&graph, b).iter().filter(|n| n.as_str() == a).count();
            assert_eq!(ab, ba);
        }
    }
}

#[test]
fn single_edge_boundary() {
    let graph = graph_of(&["A - B"]);
    let origin = Location::new("A");
    assert_eq!(sum_shortest_depths(&graph, &origin), 1);
    assert_eq!(reachable_within_depth(&graph, &origin, 0), 1);
    assert_eq!(reachable_within_depth(&graph, &origin, 1), 2);
}

#[test]
fn reachable_count_by_depth() {
    let graph = generate_test_graph();
    let origin = Location::new("STT");
    let counts: Vec<usize> = (0..6)
        .map(|d| reachable_within_depth(&graph, &origin, d))
        .collect();
    assert_eq!(counts, vec![1, 2, 4, 6, 7, 7]);
    for pair in counts.windows(2) {
        assert!(pair[0] <= pair[1]);
    }
}

#[test]
fn depth_sum_on_a_path_and_a_cycle() {
    let path = graph_of(&["A - B", "B - C", "C - D"]);
    assert_eq!(sum_shortest_depths(&path, &Location::new("A")), 6);
    assert_eq!(sum_shortest_depths(&path, &Location::new("B")), 4);
    let cycle = graph_of(&["A - B", "B - C", "C - D", "D - A"]);
    assert_eq!(sum_shortest_depths(&cycle, &Location::new("A")), 4);
}

#[test]
fn queries_repeat_on_the_same_graph() {
    let graph = generate_test_graph();
    let origin = Location::new("STT");
    let first = (
        count_all_locations(&graph),
        reachable_within_depth(&graph, &origin, 3),
        sum_shortest_depths(&graph, &origin),
    );
    let second = (
        count_all_locations(&graph),
        reachable_within_depth(&graph, &origin, 3),
        sum_shortest_depths(&graph, &origin),
    );
    assert_eq!(first, second);
    assert_eq!(neighbours(&graph, "NYC"), vec!["STT", "ADB", "JLI"]);
}

#[test]
fn duplicate_names_the_same_location() {
    let a = Location::new("PTO");
    assert_eq!(a.duplicate().name, "PTO");
}

#[test]
fn depth_sum_of_a_network_in_two_pieces_is_refused() {
    let graph = graph_of(&["A - B", "C - D"]);
    assert_eq!(try_sum_shortest_depths(&graph, &Location::new("A")), None);
    assert_eq!(reachable_within_depth(&graph, &Location::new("A"), 10), 2);
    let whole = graph_of(&["A - B", "C - D", "B - C"]);
    assert_eq!(try_sum_shortest_depths(&whole, &Location::new("A")), Some(6));
    assert_eq!(try_sum_shortest_depths(&whole, &Location::new("C")), Some(4));
}

#[test]
fn deep_bounds_stay_cheap() {
    let graph = generate_test_graph();
    let origin = Location::new("STT");
    assert_eq!(reachable_within_depth(&graph, &origin, 1_000), 7);
}

#[test]
fn connection_lines() {
    let names = |line: &str| parse_connection(line).map(|(l, r)| (l.name, r.name));
    assert_eq!(names("ADB <-> XYZ"), Some(("ADB".to_string(), "XYZ".to_string())));
    assert_eq!(names("A - B C"), Some(("A".to_string(), "B".to_string())));
    assert_eq!(names("A  B"), Some(("A".to_string(), "B".to_string())));
    assert_eq!(names("A - "), Some(("A".to_string(), "".to_string())));
    assert_eq!(names(" - B"), Some(("".to_string(), "B".to_string())));
    assert_eq!(names("A B"), None);
    assert_eq!(names("A"), None);
    assert_eq!(names(""), None);
}

#[test]
fn lines_and_records_build_the_same_network() {
    let from_lines = generate_test_graph();
    let from_records = graph_of(&INPUT);
    for name in ["ADB", "XYZ", "STT", "NYC", "PLD", "JLI", "PTO"] {
        assert_eq!(neighbours(&from_lines, name), neighbours(&from_records, name));
    }
    assert_eq!(count_all_locations(&from_lines), count_all_locations(&from_records));
    let broken = vec!["A - B".to_string(), "C".to_string()];
    assert!(build_from_lines(&broken).is_none());
}
