use advent2020::day15::{find_nth_result, part1, read_numbers};

#[test]
fn sample_games() {
    assert_eq!(part1(&[0, 3, 6]), 436);
    assert_eq!(part1(&[1, 3, 2]), 1);
    assert_eq!(part1(&[3, 1, 2]), 1836);
}

#[test]
fn first_turns_after_the_start() {
    assert_eq!(find_nth_result(&[0, 3, 6], 4), 0);
    assert_eq!(find_nth_result(&[0, 3, 6], 5), 3);
    assert_eq!(find_nth_result(&[0, 3, 6], 6), 3);
    assert_eq!(find_nth_result(&[0, 3, 6], 7), 1);
    assert_eq!(find_nth_result(&[0, 3, 6], 10), 0);
    assert_eq!(find_nth_result(&[], 1), 0);
}

#[test]
fn a_longer_game() {
    assert_eq!(find_nth_result(&[0, 3, 6], 300000), 5);
}

#[test]
fn numbers_are_read_from_the_first_line() {
    assert_eq!(read_numbers(&vec!["0,3,6".to_string(), "junk".to_string()]), vec![0, 3, 6]);
    assert_eq!(read_numbers(&vec!["17".to_string()]), vec![17]);
}
