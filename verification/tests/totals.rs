use field_puzzles::totals::{part1, part2, part3};

const INPUT: [i64; 6] = [912372, 283723, 294281, 592382, 721395, 91238];

#[test]
fn problem_1_test_part1() {
    assert_eq!(part1(INPUT.to_vec()), 2895391);
}

#[test]
fn problem_1_test_part2() {
    assert_eq!(part2(INPUT.to_vec(), 2), 1261624);
}

#[test]
fn problem_1_test_part3() {
    assert_eq!(part3(INPUT.to_vec()), 960705);
}

#[test]
fn totals_of_nothing_are_zero() {
    assert_eq!(part1(Vec::new()), 0);
    assert_eq!(part2(Vec::new(), 0), 0);
    assert_eq!(part3(Vec::new()), 0);
}

#[test]
fn sum_with_negative_amounts() {
    assert_eq!(part1(vec![5, -7, 2]), 0);
    assert_eq!(part1(vec![i64::MAX, -1, i64::MIN, 1]), -1);
    assert_eq!(part1(vec![i64::MAX, i64::MAX, -i64::MAX]), i64::MAX);
}

#[test]
fn largest_amounts_are_dropped_wherever_they_stand() {
    assert_eq!(part2(vec![5, 1, 9, 3], 0), 18);
    assert_eq!(part2(vec![5, 1, 9, 3], 1), 9);
    assert_eq!(part2(vec![9, 5, 3, 1], 2), 4);
    assert_eq!(part2(vec![1, 3, 5, 9], 3), 1);
    assert_eq!(part2(vec![5, 1, 9, 3], 4), 0);
    assert_eq!(part2(vec![-4, -2, -9], 1), -13);
    assert_eq!(part2(vec![7, 7, 7], 2), 7);
}

#[test]
fn alternating_sum_by_position() {
    assert_eq!(part3(vec![10]), 10);
    assert_eq!(part3(vec![10, 3]), 7);
    assert_eq!(part3(vec![10, 3, 4]), 11);
    assert_eq!(part3(vec![1, 5, 1, 5]), -8);
    assert_eq!(part3(vec![i64::MAX, i64::MAX, i64::MIN, i64::MIN]), 0);
}
