use advent2020::day17::{part1, part2, read_game, Game, Point};

fn sample() -> Game {
    read_game(&vec![".#.".to_string(), "..#".to_string(), "###".to_string()])
}

fn at(x: i32, y: i32, z: i32, w: i32) -> Point {
    Point { x, y, z, w }
}

#[test]
fn sample_after_six_ticks_in_three_dimensions() {
    assert_eq!(part1(&sample()), 112);
}

#[test]
fn sample_after_six_ticks_in_four_dimensions() {
    assert_eq!(part2(&sample()), 848);
}

#[test]
fn the_map_is_drawn_in_one_plane() {
    let game = sample();
    assert_eq!(game.space.len(), 9);
    assert_eq!(game.count_active(), 5);
    assert_eq!(game.space.get(&at(1, 0, 0, 0)), Some(true));
    assert_eq!(game.space.get(&at(0, 0, 0, 0)), Some(false));
    assert_eq!(game.space.get(&at(2, 2, 0, 0)), Some(true));
    assert_eq!(game.space.get(&at(0, 0, 1, 0)), None);
    assert_eq!(game.space.entry(1), (at(1, 0, 0, 0), true));
}

#[test]
fn one_tick_of_the_sample() {
    let mut game = sample();
    game.tick3d();
    assert_eq!(game.count_active(), 11);
    assert_eq!(game.space.get(&at(0, 1, 0, 0)), Some(true));
    assert_eq!(game.space.get(&at(1, 0, 0, 0)), Some(false));
    assert_eq!(game.space.get(&at(1, 3, 0, 0)), Some(true));
    assert_eq!(game.space.get(&at(1, 3, -1, 0)), Some(true));
    assert_eq!(game.space.get(&at(1, 3, 0, 1)), None);
    let mut game = sample();
    game.tick4d();
    assert_eq!(game.count_active(), 29);
    assert_eq!(game.space.get(&at(1, 3, 0, 1)), Some(true));
    let mut game = sample();
    game.tick(1);
    assert_eq!(game.count_active(), 29);
}

#[test]
fn a_copy_is_a_game_of_its_own() {
    let game = sample();
    let mut copy = game.copy();
    copy.tick3d();
    assert_eq!(game.count_active(), 5);
    assert_eq!(copy.count_active(), 11);
}
