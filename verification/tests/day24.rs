use advent2020::day24::{count_around, part1, part2, read_steps, Point, Step, Tiles};

const SAMPLE: &str = "sesenwnenenewseeswwswswwnenewsewsw
neeenesenwnwwswnenewnwwsewnenwseswesw
seswneswswsenwwnwse
nwnwneseeswswnenewneswwnewseswneseene
swweswneswnenwsewnwneneseenw
eesenwseswswnenwswnwnwsewwnwsene
sewnenenenesenwsewnenwwwse
wenwwweseeeweswwwnwwe
wsweesenenewnwwnwsenewsenwwsesesenwne
neeswseenwwswnwswswnw
nenwswwsewswnenenewsenwsenwnesesenew
enewnwewneswsewnwswenweswnenwsenwsw
sweneswneswneneenwnewenewwneswswnese
swwesenesewenwneswnwwneseswwne
enesenwswwswneneswsenwnewswseenwsese
wnwnesenesenenwwnenwsewesewsesesew
nenewswnwewswnenesenwnesewesw
eneswnwswnwsenenwnwnwwseeswneewsenese
neswnwewnwnwseenwseesewsenwsweewe
wseweeenwnesenwwwswnew";

fn sample() -> Vec<Vec<Step>> {
    read_steps(&SAMPLE.lines().map(|l| l.to_string()).collect())
}

#[test]
fn sample_tiles_flipped() {
    assert_eq!(part1(&sample()).len(), 10);
}

#[test]
fn sample_tiles_after_a_hundred_days() {
    assert_eq!(part2(part1(&sample())), 2208);
}

#[test]
fn steps_are_read_letter_by_letter() {
    let steps = read_steps(&vec!["esenwwswne".to_string(), "".to_string()]);
    assert_eq!(steps[0], vec![Step::E, Step::SE, Step::NW, Step::W, Step::SW, Step::NE]);
    assert_eq!(steps[1], Vec::<Step>::new());
}

#[test]
fn a_tile_flipped_twice_is_white_again() {
    let there = vec![Step::E, Step::SE, Step::W];
    let by_another_way = vec![Step::SE];
    let tiles = part1(&[there.clone(), by_another_way.clone()]);
    assert_eq!(tiles.len(), 0);
    let tiles = part1(&[there.clone(), by_another_way, there, vec![Step::NW, Step::W, Step::SW, Step::E, Step::E]]);
    assert_eq!(tiles.len(), 2);
    assert!(tiles.contains(&Point::new(1, 1)));
    assert!(tiles.contains(&Point::new(0, 0)));
    assert!(!tiles.contains(&Point::new(2, 0)));
}

#[test]
fn tiles_round_a_tile() {
    let places: Vec<(i32, i32)> =
        Point::new(3, -1).generate_adjacent().iter().map(|p| (p.x, p.y)).collect();
    assert_eq!(places, vec![(5, -1), (1, -1), (2, -2), (4, 0), (2, 0), (4, -2)]);
    let mut tiles = Tiles::new();
    tiles.insert(Point::new(5, -1));
    tiles.insert(Point::new(2, 0));
    tiles.insert(Point::new(2, 0));
    tiles.insert(Point::new(3, -1));
    tiles.insert(Point::new(7, -1));
    assert_eq!(tiles.len(), 4);
    assert_eq!(count_around(&tiles, Point::new(3, -1)), 2);
    tiles.remove(&Point::new(2, 0));
    tiles.remove(&Point::new(9, 9));
    assert_eq!(tiles.len(), 3);
    assert_eq!(count_around(&tiles, Point::new(3, -1)), 1);
    assert_eq!(tiles.get(0), Point::new(5, -1));
}
