use advent2020::day25::{
    calculate_encryption_key, calculate_loop_size, find_loop_size, part1, read_keys,
};

#[test]
fn sample_loop_sizes() {
    assert_eq!(calculate_loop_size(7, 5764801), 8);
    assert_eq!(calculate_loop_size(7, 17807724), 11);
    assert_eq!(calculate_loop_size(7, 1), 0);
}

#[test]
fn sample_encryption_key() {
    assert_eq!(calculate_encryption_key(17807724, 8), 14897079);
    assert_eq!(calculate_encryption_key(5764801, 11), 14897079);
    assert_eq!(calculate_encryption_key(5, 0), 1);
    assert_eq!(part1(5764801, 17807724), 14897079);
}

#[test]
fn keys_are_read_from_two_lines() {
    let lines = vec!["5764801".to_string(), "17807724".to_string()];
    assert_eq!(read_keys(&lines), (5764801, 17807724));
}

#[test]
fn loop_size_within_a_bound() {
    assert_eq!(find_loop_size(7, 5764801, 8), Some(8));
    assert_eq!(find_loop_size(7, 5764801, 7), None);
    assert_eq!(find_loop_size(7, 1, 0), Some(0));
    assert_eq!(find_loop_size(1, 2, 1000), None);
    assert_eq!(find_loop_size(0, 0, 5), Some(1));
}
