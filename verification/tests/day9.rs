use advent2020::day9::{find_exact_sum_of_previous, is_sum_of_previous, part1, part2};

fn first_numbers() -> Vec<i32> {
    (1..=25).collect()
}

#[test]
fn sums_of_two_of_the_window() {
    let window = first_numbers();
    assert!(is_sum_of_previous(26, &window));
    assert!(is_sum_of_previous(49, &window));
    assert!(is_sum_of_previous(50, &window));
    assert!(!is_sum_of_previous(51, &window));
    assert!(!is_sum_of_previous(1, &window));
    assert!(!is_sum_of_previous(5, &[]));
}

#[test]
fn first_number_that_is_no_sum() {
    let mut numbers = first_numbers();
    numbers.extend([26, 49, 100, 50]);
    assert_eq!(part1(&numbers), 100);
}

#[test]
fn run_from_the_end_that_sums_to_the_target() {
    assert_eq!(find_exact_sum_of_previous(127, &[35, 20, 15, 25, 47, 40]), Some((15, 47)));
    assert_eq!(find_exact_sum_of_previous(127, &[35, 20, 15, 25, 47]), None);
    assert_eq!(find_exact_sum_of_previous(127, &[35, 20]), None);
    assert_eq!(find_exact_sum_of_previous(127, &[]), None);
}

#[test]
fn sample_weakness() {
    let numbers = [
        35, 20, 15, 25, 47, 40, 62, 55, 65, 95, 102, 117, 150, 182, 127, 219, 299, 277, 309, 576,
    ];
    assert_eq!(part2(127, &numbers), 62);
}
