use advent2020::day10::{part1, part2, read_adapters};

fn lines(ratings: &[u32]) -> Vec<String> {
    ratings.iter().map(|r| r.to_string()).collect()
}

#[test]
fn small_sample_of_adapters() {
    let adapters = read_adapters(&lines(&[16, 10, 15, 5, 1, 11, 7, 19, 6, 12, 4]));
    assert_eq!(adapters, vec![0, 1, 4, 5, 6, 7, 10, 11, 12, 15, 16, 19, 22]);
    assert_eq!(part1(&adapters), 35);
    assert_eq!(part2(&adapters), 8);
}

#[test]
fn larger_sample_of_adapters() {
    let adapters = read_adapters(&lines(&[
        28, 33, 18, 42, 31, 14, 46, 20, 48, 47, 24, 23, 49, 45, 19, 38, 39, 11, 1, 32, 25, 35, 8,
        17, 7, 9, 4, 2, 34, 10, 3,
    ]));
    assert_eq!(part1(&adapters), 220);
    assert_eq!(part2(&adapters), 19208);
}

#[test]
fn no_adapter_at_all() {
    let adapters = read_adapters(&[].to_vec());
    assert_eq!(adapters, vec![0, 3]);
    assert_eq!(part1(&adapters), 0);
    assert_eq!(part2(&adapters), 1);
    assert_eq!(part1(&Vec::new()), 0);
}
