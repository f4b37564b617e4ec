use advent2020::day6::{part1, part2};

fn sample() -> Vec<String> {
    "abc\n\na\nb\nc\n\nab\nac\n\na\na\na\na\n\nb".lines().map(|l| l.to_string()).collect()
}

#[test]
fn questions_that_anyone_answered() {
    assert_eq!(part1(&sample()), 11);
    assert_eq!(part1(&[]), 0);
    assert_eq!(part1(&["aab".to_string(), "ba".to_string()]), 2);
}

#[test]
fn questions_that_everyone_answered() {
    assert_eq!(part2(&sample()), 6);
    assert_eq!(part2(&[]), 0);
    assert_eq!(part2(&["abc".to_string(), "cbd".to_string(), "xbc".to_string()]), 2);
}

#[test]
fn a_group_closed_by_an_empty_last_line() {
    let lines: Vec<String> = ["ab", "b", ""].iter().map(|l| l.to_string()).collect();
    assert_eq!(part1(&lines), 2);
    assert_eq!(part2(&lines), 1);
}
