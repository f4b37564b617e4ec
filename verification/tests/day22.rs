use advent2020::day22::{
    part1, part2, play_game, play_game_within, play_plain_within, read_decks, score,
};
use std::collections::VecDeque;

fn deck(cards: &[u32]) -> VecDeque<u32> {
    cards.iter().copied().collect()
}

#[test]
fn sample_plain_game() {
    assert_eq!(part1(deck(&[9, 2, 6, 3, 1]), deck(&[5, 8, 4, 7, 10])), 306);
    assert_eq!(part1(deck(&[]), deck(&[4, 1])), 9);
    assert_eq!(part1(deck(&[4, 1]), deck(&[])), 9);
}

#[test]
fn sample_game_with_games_within() {
    let (winner, cards) = play_game(deck(&[9, 2, 6, 3, 1]), deck(&[5, 8, 4, 7, 10]));
    assert_eq!(winner, 2);
    assert_eq!(cards, deck(&[7, 5, 6, 2, 4, 1, 10, 8, 9, 3]));
    assert_eq!(part2(deck(&[9, 2, 6, 3, 1]), deck(&[5, 8, 4, 7, 10])), 291);
}

#[test]
fn a_table_seen_before_gives_the_game_to_the_first() {
    let (winner, cards) = play_game(deck(&[43, 19]), deck(&[2, 29, 14]));
    assert_eq!(winner, 1);
    assert_eq!(cards, deck(&[43, 19]));
    assert_eq!(part2(deck(&[43, 19]), deck(&[2, 29, 14])), 105);
}

#[test]
fn score_counts_from_the_bottom() {
    assert_eq!(score(&deck(&[3, 2, 10, 6, 8, 5, 9, 4, 7, 1])), 306);
    assert_eq!(score(&deck(&[])), 0);
    assert_eq!(score(&deck(&[0, 0, 5])), 5);
}

#[test]
fn decks_are_read_from_lines() {
    let lines: Vec<String> = ["Player 1:", "9", "2", "", "Player 2:", "5", "8", "", "4"]
        .iter()
        .map(|l| l.to_string())
        .collect();
    let (first, second) = read_decks(&lines);
    assert_eq!(first, deck(&[9, 2]));
    assert_eq!(second, deck(&[5, 8, 4]));
}

#[test]
fn games_give_up_after_the_rounds_allowed() {
    let first = deck(&[9, 2, 6, 3, 1]);
    let second = deck(&[5, 8, 4, 7, 10]);
    assert_eq!(play_plain_within(first.clone(), second.clone(), 28), None);
    assert_eq!(
        play_plain_within(first.clone(), second.clone(), 29),
        Some(deck(&[3, 2, 10, 6, 8, 5, 9, 4, 7, 1]))
    );
    assert_eq!(play_plain_within(deck(&[3, 1]), deck(&[3, 2]), 100), None);
    assert_eq!(play_plain_within(deck(&[]), deck(&[]), 0), Some(deck(&[])));
    assert_eq!(play_game_within(first.clone(), second.clone(), 16), None);
    assert_eq!(
        play_game_within(first, second, 17),
        Some((2, deck(&[7, 5, 6, 2, 4, 1, 10, 8, 9, 3])))
    );
    assert_eq!(play_game_within(deck(&[43, 19]), deck(&[2, 29, 14]), 6).map(|e| e.0), Some(1));
    assert_eq!(play_game_within(deck(&[43, 19]), deck(&[2, 29, 14]), 5), None);
}
