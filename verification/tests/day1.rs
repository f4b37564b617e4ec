use advent2020::day1::{part1, part2, read_numbers};

#[test]
fn part1_sample() {
    let numbers = vec![1721, 979, 366, 299, 675, 1456];
    assert_eq!(part1(numbers), 514579)
}

#[test]
fn part2_sample() {
    let numbers = vec![1721, 979, 366, 299, 675, 1456];
    assert_eq!(part2(numbers), 241861950)
}

#[test]
fn an_entry_may_pair_with_itself() {
    assert_eq!(part1(vec![5000, 1010, -7]), 1010 * 1010);
}

#[test]
fn least_entry_is_taken() {
    assert_eq!(part1(vec![2000, 1000, 20, 1020, -30, 2050]), -30 * 2050);
}

#[test]
fn first_pair_of_sorted_entries_is_taken() {
    assert_eq!(part2(vec![2010, 5, 5, 1000, 20, 1010]), 5 * 5 * 2010);
}

#[test]
fn lines_that_spell_no_number_are_skipped() {
    let lines: Vec<String> = ["12", "", "-7", "+3", "x1", "4 ", "99999999999", "2147483647", "-2147483648"]
        .iter()
        .map(|l| l.to_string())
        .collect();
    assert_eq!(read_numbers(&lines), vec![12, -7, 3, 2147483647, -2147483648]);
}
