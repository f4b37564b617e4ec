use advent2020::day3::{part1, part2, traverse};

fn sample() -> Vec<String> {
    [
        "..##.......",
        "#...#...#..",
        ".#....#..#.",
        "..#.#...#.#",
        ".#...##..#.",
        "..#.##.....",
        ".#.#.#....#",
        ".#........#",
        "#.##...#...",
        "#...##....#",
        ".#..#...#.#",
    ]
    .iter()
    .map(|row| row.to_string())
    .collect()
}

#[test]
fn trees_on_the_sample_slopes() {
    let map = sample();
    assert_eq!(traverse(&map, 1, 1), 2);
    assert_eq!(traverse(&map, 3, 1), 7);
    assert_eq!(traverse(&map, 5, 1), 3);
    assert_eq!(traverse(&map, 7, 1), 4);
    assert_eq!(traverse(&map, 1, 2), 2);
}

#[test]
fn sample_answers_of_day_three() {
    let map = sample();
    assert_eq!(part1(&map), 7);
    assert_eq!(part2(&map), 336);
}

#[test]
fn a_map_of_one_row_has_no_step() {
    let map = vec!["#".to_string()];
    assert_eq!(traverse(&map, 3, 1), 0);
}
