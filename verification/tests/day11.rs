use advent2020::day11::{part1, part2, read_layout, Layout};

fn sample() -> Layout {
    let lines: Vec<String> = [
        "L.LL.LL.LL",
        "LLLLLLL.LL",
        "L.L.L..L..",
        "LLLL.LL.LL",
        "L.LL.LL.LL",
        "L.LLLLL.LL",
        "..L.L.....",
        "LLLLLLLLLL",
        "L.LLLLLL.L",
        "L.LLLLL.LL",
    ]
    .iter()
    .map(|l| l.to_string())
    .collect();
    read_layout(&lines)
}

fn layout_of(rows: &[&str]) -> Layout {
    Layout::from_lines(rows.iter().map(|r| r.chars().collect()).collect())
}

#[test]
fn sample_settles_by_neighbours() {
    assert_eq!(part1(&sample()), 37);
}

#[test]
fn sample_settles_by_seats_in_view() {
    assert_eq!(part2(&sample()), 26);
}

#[test]
fn first_round_fills_every_seat() {
    let next = sample().create_next_with_adjacent().unwrap();
    assert_eq!(next.layout[0].iter().collect::<String>(), "#.##.##.##");
    assert_eq!(next.count_occupied(), 71);
    let next = sample().create_next_with_visible().unwrap();
    assert_eq!(next.count_occupied(), 71);
}

#[test]
fn occupied_seats_round_a_place() {
    let layout = layout_of(&["#.#", "#L#", "..#"]);
    assert_eq!(layout.count_adjacent_occupied(1, 1), 5);
    assert_eq!(layout.count_adjacent_occupied(0, 0), 1);
    assert_eq!(layout.count_adjacent_occupied(2, 2), 1);
    assert_eq!(layout.count_occupied(), 5);
}

#[test]
fn first_seat_in_each_direction() {
    let layout = layout_of(&[
        ".......#.",
        "...#.....",
        ".#.......",
        ".........",
        "..#L....#",
        "....#....",
        ".........",
        "#........",
        "...#.....",
    ]);
    assert_eq!(layout.count_visible_occupied(4, 3), 8);
    let layout = layout_of(&[".............", ".L.L.#.#.#.#.", "............."]);
    assert_eq!(layout.count_visible_occupied(1, 1), 0);
    assert_eq!(layout.add_occupied(1, 0, 3, 1), 1);
    assert_eq!(layout.add_occupied(1, 0, 1, 1), 0);
    assert_eq!(layout.add_occupied(1, 0, 11, 1), 0);
}

#[test]
fn a_round_that_changes_nothing() {
    let layout = layout_of(&["...", ".#.", "..."]);
    assert!(layout.create_next_with_adjacent().is_none());
    assert!(layout.create_next_with_visible().is_none());
    assert_eq!(part1(&layout), 1);
    assert_eq!(part1(&layout_of(&[])), 0);
}

#[test]
fn settling_gives_up_after_the_rounds_allowed() {
    let layout = sample();
    assert!(layout.settle_within(false, 4).is_none());
    assert_eq!(layout.settle_within(false, 5).map(|l| l.count_occupied()), Some(37));
    assert!(layout.settle_within(true, 5).is_none());
    assert_eq!(layout.settle_within(true, 6).map(|l| l.count_occupied()), Some(26));
    let still = layout_of(&["...", ".#.", "..."]);
    assert_eq!(still.settle_within(false, 0).map(|l| l.layout), Some(still.copy().layout));
}
