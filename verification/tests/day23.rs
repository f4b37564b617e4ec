use advent2020::cup_ring::{
    check_config, run, select_destination, wrapping_destination, ConfigError, CupRing,
};
use advent2020::day23::{concat_digits, part1, part2, read_order};

const SAMPLE: [u32; 9] = [3, 8, 9, 1, 2, 5, 4, 6, 7];

fn ring_after(moves: u64) -> CupRing {
    let mut ring = CupRing::new(&SAMPLE).unwrap();
    run(&mut ring, moves);
    ring
}

#[test]
fn sample_after_ten_moves() {
    let ring = ring_after(10);
    assert_eq!(ring.ordered_labels(), vec![9, 2, 6, 5, 8, 3, 7, 4]);
    assert_eq!(concat_digits(&ring.ordered_labels()), 92658374);
}

#[test]
fn sample_after_hundred_moves() {
    let ring = ring_after(100);
    assert_eq!(ring.ordered_labels(), vec![6, 7, 3, 8, 4, 5, 2, 9]);
    assert_eq!(part1(&SAMPLE), 67384529);
}

#[test]
fn sample_extended_to_a_million() {
    assert_eq!(part2(&SAMPLE), 149245887792);
}

#[test]
fn sample_step_by_step() {
    let mut ring = CupRing::new(&SAMPLE).unwrap();
    assert_eq!(ring.current(), 3);
    ring.play_move();
    assert_eq!(ring.current(), 2);
    assert_eq!(ring.labels_clockwise_from(2, 8), vec![8, 9, 1, 5, 4, 6, 7, 3]);
    ring.play_move();
    assert_eq!(ring.current(), 5);
    assert_eq!(ring.labels_clockwise_from(5, 8), vec![4, 6, 7, 8, 9, 1, 3, 2]);
}

#[test]
fn moves_keep_every_label() {
    for moves in 0..40 {
        let ring = ring_after(moves);
        assert_eq!(ring.len(), 9);
        let mut labels = ring.labels_clockwise_from(1, 9);
        assert_eq!(labels[8], 1);
        labels.sort();
        assert_eq!(labels, vec![1, 2, 3, 4, 5, 6, 7, 8, 9]);
    }
}

#[test]
fn same_input_same_ring() {
    let first = ring_after(57);
    let second = ring_after(57);
    assert_eq!(first.current(), second.current());
    assert_eq!(first.labels_clockwise_from(1, 9), second.labels_clockwise_from(1, 9));
}

#[test]
fn readouts_can_be_repeated() {
    let ring = ring_after(100);
    assert_eq!(ring.ordered_labels(), ring.ordered_labels());
    assert_eq!(ring.pair_product(), ring.pair_product());
    assert_eq!(ring.pair_product(), 6 * 7);
}

#[test]
fn lift_and_put_back() {
    let mut ring = CupRing::new(&SAMPLE).unwrap();
    let lifted = ring.remove_three_after(3);
    assert_eq!(lifted, (8, 9, 1));
    assert_eq!(ring.successor(3), 2);
    ring.insert_three_after(2, lifted);
    assert_eq!(ring.labels_clockwise_from(3, 9), vec![2, 8, 9, 1, 5, 4, 6, 7, 3]);
}

#[test]
fn destination_counts_down_and_wraps() {
    assert_eq!(select_destination(3, 8, 9, 1), Some(2));
    assert_eq!(select_destination(5, 4, 3, 2), Some(1));
    assert_eq!(select_destination(2, 1, 5, 6), None);
    assert_eq!(select_destination(1, 2, 3, 4), None);
    assert_eq!(wrapping_destination(2, 1, 9, 8, 9), 7);
    assert_eq!(wrapping_destination(1, 2, 3, 4, 9), 9);
    assert_eq!(wrapping_destination(4, 3, 2, 1, 9), 9);
    assert_eq!(wrapping_destination(1, 2, 3, 4, 4), 1);
}

#[test]
fn ring_of_four_cups() {
    let mut ring = CupRing::new(&[2, 4, 1, 3]).unwrap();
    ring.play_move();
    assert_eq!(ring.current(), 4);
    assert_eq!(ring.labels_clockwise_from(4, 4), vec![1, 3, 2, 4]);
}

#[test]
fn ring_extended_with_labels_above() {
    let ring = CupRing::with_size(&[2, 1, 3], 6).unwrap();
    assert_eq!(ring.current(), 2);
    assert_eq!(ring.labels_clockwise_from(2, 6), vec![1, 3, 4, 5, 6, 2]);
    let bare = CupRing::with_size(&[], 4).unwrap();
    assert_eq!(bare.current(), 1);
    assert_eq!(bare.labels_clockwise_from(1, 4), vec![2, 3, 4, 1]);
}

#[test]
fn bad_labels_are_refused() {
    assert_eq!(check_config(&[1, 0, 3, 4], 4), Some(ConfigError::ZeroLabel));
    assert_eq!(check_config(&[1, 2, 3, 5], 5), Some(ConfigError::LabelGap));
    assert_eq!(check_config(&[1, 2, 3, 4, 5], 4), Some(ConfigError::TargetTooSmall));
    assert_eq!(check_config(&[1, 2, 3, 3], 4), Some(ConfigError::DuplicateLabel));
    assert_eq!(check_config(&[1, 2, 3], 3), Some(ConfigError::TooFewCups));
    assert_eq!(check_config(&[4, 2, 3, 1], 4), None);
    assert!(matches!(CupRing::new(&[1, 2, 2, 4]), Err(ConfigError::DuplicateLabel)));
    assert!(matches!(CupRing::with_size(&[1, 2], 3), Err(ConfigError::TooFewCups)));
}

#[test]
fn digits_are_read_as_labels() {
    assert_eq!(read_order("389125467"), SAMPLE.to_vec());
    assert_eq!(read_order(""), Vec::<u32>::new());
}
