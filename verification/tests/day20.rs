use advent2020::day20::{check_fit, edges, part1, read_tiles, Tile};

const SAMPLE: &str = "Tile 1951:
####...#
.###...#
.#...#.#
#.##..##
#....#..
.#..#..#
##.....#
######.#

Tile 2311:
#.#...#.
#.##.##.
##......
###.##.#
.##.#.##
###..#.#
#.####..
#...#...

Tile 3079:
.#.#..##
.....#.#
..#.#...
#.##.#..
#.#.#..#
##..#.#.
....####
.##.####

Tile 2729:
######.#
#..###.#
..###.##
#..#..##
.#...##.
.....#..
...#..##
######..

Tile 1427:
#...#...
#.#.#...
###.###.
#..##...
..##..#.
..#..#.#
#.###...
..#..##.

Tile 2473:
.##.####
.##...##
.#.#.#.#
.###..#.
.#.#.#..
#####..#
..#..##.
.#.#..#.

Tile 2971:
######..
....#..#
######..
.##.#.##
.###..##
###..##.
.#...###
.#..##..

Tile 1489:
..#..##.
#####.#.
.....#.#
#.#.###.
#.#..##.
..###..#
#.##.#..
...#....

Tile 1171:
.#.#..#.
.##....#
#.#.####
.##.#.##
..#.#.#.
###.####
.#..##.#
.#..###.";

fn sample() -> Vec<Tile> {
    read_tiles(&SAMPLE.lines().map(|l| l.to_string()).collect())
}

#[test]
fn tiles_are_read_with_number_and_rows() {
    let tiles = sample();
    assert_eq!(tiles.len(), 9);
    assert_eq!(tiles[0].id, 1951);
    assert_eq!(tiles[8].id, 1171);
    assert_eq!(tiles[0].data.len(), 8);
    assert_eq!(tiles[0].data[0], b"####...#".to_vec());
    let lone = read_tiles(&Vec::new());
    assert_eq!(lone.len(), 1);
    assert_eq!((lone[0].id, lone[0].data.len()), (0, 0));
}

#[test]
fn corners_of_the_sample() {
    assert_eq!(part1(&sample()), 1951 * 3079 * 2971 * 1171);
    assert_eq!(part1(&[]), 1);
}

#[test]
fn edges_of_a_tile() {
    let tile = Tile { id: 1, data: vec![b"abc".to_vec(), b"def".to_vec(), b"ghi".to_vec()] };
    assert_eq!(
        edges(&tile),
        vec![b"abc".to_vec(), b"ghi".to_vec(), b"adg".to_vec(), b"cfi".to_vec()]
    );
    assert!(check_fit(&b"abc".to_vec(), &b"abc".to_vec()));
    assert!(check_fit(&b"abc".to_vec(), &b"cba".to_vec()));
    assert!(!check_fit(&b"abc".to_vec(), &b"acb".to_vec()));
    assert!(!check_fit(&b"abc".to_vec(), &b"ab".to_vec()));
}

#[test]
fn two_tiles_side_by_side_are_no_corners() {
    let left = Tile { id: 7, data: vec![b"ab".to_vec(), b"cd".to_vec()] };
    let right = Tile { id: 5, data: vec![b"bx".to_vec(), b"dy".to_vec()] };
    assert_eq!(part1(&[left, right]), 1);
}
