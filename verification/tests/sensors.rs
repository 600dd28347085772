use field_puzzles::sensors::{part1, part2, part3, perform_operation, Op, Sensor};

const INPUT: [Sensor; 8] = [
    Sensor::True,
    Sensor::False,
    Sensor::True,
    Sensor::False,
    Sensor::False,
    Sensor::False,
    Sensor::True,
    Sensor::True,
];

#[test]
fn problem_2_test_part1() {
    assert_eq!(part1(INPUT.to_vec()), 19);
}

#[test]
fn problem_2_test_part2() {
    assert_eq!(part2(INPUT.to_vec()), 2);
}

#[test]
fn problem_2_test_part3() {
    assert_eq!(part3(INPUT.to_vec()), 7);
}

#[test]
fn gate_truth_tables() {
    let (t, f) = (Sensor::True, Sensor::False);
    assert_eq!(perform_operation(t, t, Op::And), t);
    assert_eq!(perform_operation(t, f, Op::And), f);
    assert_eq!(perform_operation(f, t, Op::And), f);
    assert_eq!(perform_operation(f, f, Op::And), f);
    assert_eq!(perform_operation(t, t, Op::Or), t);
    assert_eq!(perform_operation(t, f, Op::Or), t);
    assert_eq!(perform_operation(f, t, Op::Or), t);
    assert_eq!(perform_operation(f, f, Op::Or), f);
    assert!(t.on());
    assert!(!f.on());
}

#[test]
fn empty_input_gives_zero() {
    assert_eq!(part1(Vec::new()), 0);
    assert_eq!(part2(Vec::new()), 0);
    assert_eq!(part3(Vec::new()), 0);
}

#[test]
fn incomplete_groups_count_only_full_pairs() {
    let (t, f) = (Sensor::True, Sensor::False);
    assert_eq!(part2(vec![t]), 0);
    assert_eq!(part2(vec![t, t]), 1);
    assert_eq!(part2(vec![t, t, t]), 1);
    assert_eq!(part2(vec![t, t, f, t]), 2);
    assert_eq!(part2(vec![t, t, f, t, t, t]), 3);
    assert_eq!(part2(vec![t, f, f, f, t, t, t]), 1);
}

#[test]
fn cascade_drops_the_odd_reading_and_alternates_gates() {
    let (t, f) = (Sensor::True, Sensor::False);
    assert_eq!(part3(vec![t]), 1);
    assert_eq!(part3(vec![t, f, t]), 2);
    // layers: [t f f t] -> [And(t,f)=f, Or(f,t)=t] -> [And(f,t)=f] -> []
    assert_eq!(part3(vec![t, f, f, t]), 3);
    // layers: [t t t t] -> [t, t] -> [t] -> []
    assert_eq!(part3(vec![t, t, t, t]), 7);
}

#[test]
fn sensor_names() {
    assert!(Sensor::from_str("TRUE") == Ok(Sensor::True));
    assert!(Sensor::from_str("FALSE") == Ok(Sensor::False));
    assert!(Sensor::from_str("true") == Err(()));
    assert!(Sensor::from_str("") == Err(()));
    assert!(Sensor::from_str("TRUE ") == Err(()));
}
