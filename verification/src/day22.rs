//! Day 22: a card game of two decks, plain and with games within games.

use crate::text::{chars_of, parse_unsigned_chars, unsigned_value};
use crate::budget::Budget;
use std::collections::VecDeque;
use vstd::prelude::*;

verus! {

/// The score of a deck: each card times its place counted from the bottom, bottom card times one.
pub open spec fn score_of(deck: Seq<u32>) -> int
    decreases deck.len(),
{
    if deck.len() == 0 {
        0
    } else {
        deck.len() * deck[0] + score_of(deck.drop_first())
    }
}

/// The score of a deck is not negative.
pub proof fn lemma_score_sign(deck: Seq<u32>)
    ensures
        0 <= score_of(deck),
    decreases deck.len(),
{
    if deck.len() > 0 {
        lemma_score_sign(deck.drop_first());
        assert(0 <= deck.len() * deck[0]) by (nonlinear_arith)
            requires
                0 <= deck[0],
        ;
    }
}

/// The cards of the lower part of a deck score no more than the deck.
pub proof fn lemma_score_of_lower_part(deck: Seq<u32>, from: int)
    requires
        0 <= from <= deck.len(),
    ensures
        0 <= score_of(deck.skip(from)) <= score_of(deck),
    decreases from,
{
    lemma_score_sign(deck.skip(from));
    if from > 0 {
        lemma_score_of_lower_part(deck, from - 1);
        let upper = deck.skip(from - 1);
        assert(upper.drop_first() =~= deck.skip(from));
        assert(0 <= upper.len() * upper[0]) by (nonlinear_arith)
            requires
                0 <= upper[0],
        ;
    } else {
        assert(deck.skip(0) =~= deck);
    }
}

/// The score of a deck.
pub fn score(deck: &VecDeque<u32>) -> (total: u32)
    requires
        score_of(deck@) <= u32::MAX,
    ensures
        total == score_of(deck@),
{
    let len = deck.len();
    let mut sum: u32 = 0;
    let mut i: usize = 0;
    while i < len
        invariant
            i <= len == deck.len(),
            score_of(deck@) <= u32::MAX,
            sum == score_of(deck@.skip(len - i)),
        decreases len - i,
    {
        let card = deck[len - 1 - i];
        proof {
            let lower = deck@.skip(len - i - 1);
            assert(lower.drop_first() =~= deck@.skip(len - i));
            lemma_score_of_lower_part(deck@, len - i - 1);
            lemma_score_sign(deck@.skip(len - i));
            assert(lower.len() == i + 1);
            if card > 0 {
                assert(i + 1 <= (i + 1) * card) by (nonlinear_arith)
                    requires
                        card >= 1,
                        i >= 0,
                ;
            }
        }
        if card > 0 {
            sum = sum + (i as u32 + 1) * card;
        } else {
            assert((i + 1) * card == 0) by (nonlinear_arith)
                requires
                    card == 0,
            ;
        }
        i += 1;
    }
    proof {
        assert(deck@.skip(0) =~= deck@);
    }
    sum
}

/// The two decks on the table.
pub struct Table {
    pub first: Seq<u32>,
    pub second: Seq<u32>,
}

/// The table with the two decks given.
pub open spec fn table_of(first: Seq<u32>, second: Seq<u32>) -> Table {
    Table { first, second }
}

/// The table after the round that `first_wins`: both top cards go under
/// the winner's deck, the winner's own card first.
pub open spec fn after_round(t: Table, first_wins: bool) -> Table {
    if first_wins {
        Table {
            first: t.first.drop_first().push(t.first[0]).push(t.second[0]),
            second: t.second.drop_first(),
        }
    } else {
        Table {
            first: t.first.drop_first(),
            second: t.second.drop_first().push(t.second[0]).push(t.first[0]),
        }
    }
}

/// The table after `k` rounds of the plain game, in which the higher card wins.
pub open spec fn table_after(t: Table, k: nat) -> Table
    decreases k,
{
    if k == 0 {
        t
    } else {
        let before = table_after(t, (k - 1) as nat);
        after_round(before, before.first[0] > before.second[0])
    }
}

/// The plain game ends after `k` rounds: then a deck is empty, and before
/// that none was, nor were two equal cards drawn.
pub open spec fn ends_after(t: Table, k: nat) -> bool {
    &&& table_after(t, k).first.len() == 0 || table_after(t, k).second.len() == 0
    &&& forall|j: nat|
        j < k ==> (#[trigger] table_after(t, j)).first.len() > 0 && table_after(t, j).second.len()
            > 0 && table_after(t, j).first[0] != table_after(t, j).second[0]
}

/// The deck that scores at the end: the second where the first is empty.
pub open spec fn scoring_deck(t: Table) -> Seq<u32> {
    if t.first.len() == 0 {
        t.second
    } else {
        t.first
    }
}

/// Plays the plain game as long as the budget allows, and tells the
/// deck that scores; `None` where the budget does not allow to end the
/// game, or two equal cards are drawn.
fn play_plain(deck1: VecDeque<u32>, deck2: VecDeque<u32>, budget: Budget) -> (ended: Option<
    VecDeque<u32>,
>)
    requires
        budget is Endless ==> ends_after(table_of(deck1@, deck2@), budget.fuel()),
    ensures
        match ended {
            Some(deck) => exists|k: nat|
                k <= budget.fuel() && ends_after(table_of(deck1@, deck2@), k) && deck@
                    == scoring_deck(#[trigger] table_after(table_of(deck1@, deck2@), k)),
            None => forall|k: nat|
                k <= budget.fuel() ==> !ends_after(table_of(deck1@, deck2@), k),
        },
{
    let ghost start = table_of(deck1@, deck2@);
    let ghost fuel = budget.fuel();
    let ghost mut k: nat = 0;
    let mut left = budget;
    let mut hand1 = deck1;
    let mut hand2 = deck2;
    while hand1.len() > 0 && hand2.len() > 0
        invariant
            start == table_of(deck1@, deck2@),
            fuel == budget.fuel(),
            budget is Endless ==> ends_after(start, fuel),
            left is Endless <==> budget is Endless,
            k + left.fuel() == fuel,
            table_of(hand1@, hand2@) == table_after(start, k),
            forall|j: nat|
                j < k ==> (#[trigger] table_after(start, j)).first.len() > 0 && table_after(
                    start,
                    j,
                ).second.len() > 0 && table_after(start, j).first[0] != table_after(
                    start,
                    j,
                ).second[0],
        decreases left.fuel(),
    {
        let ghost before = table_of(hand1@, hand2@);
        let card1 = hand1[0];
        let card2 = hand2[0];
        proof {
            if budget is Endless {
                if k == fuel {
                    assert(false);
                }
                assert(before.first[0] != before.second[0]);
            }
        }
        let next = match left.spend() {
            Some(next) if card1 != card2 => next,
            _ => {
                proof {
                    assert forall|m: nat| m <= fuel implies !ends_after(start, m) by {
                        if ends_after(start, m) {
                            if m > k {
                                assert(table_after(start, k).first[0] != table_after(
                                    start,
                                    k,
                                ).second[0]);
                            } else if m < k {
                                assert(table_after(start, m).first.len() > 0);
                            }
                        }
                    }
                }
                return None;
            },
        };
        hand1.pop_front();
        hand2.pop_front();
        if card1 > card2 {
            hand1.push_back(card1);
            hand1.push_back(card2);
        } else {
            hand2.push_back(card2);
            hand2.push_back(card1);
        }
        proof {
            let after = after_round(before, card1 > card2);
            assert(hand1@ =~= after.first);
            assert(hand2@ =~= after.second);
            k = k + 1;
        }
        left = next;
    }
    proof {
        assert(ends_after(start, k));
    }
    if hand1.len() == 0 {
        Some(hand2)
    } else {
        Some(hand1)
    }
}

/// The plain game ends after one number of rounds only.
pub proof fn lemma_ends_once(t: Table, j: nat, k: nat)
    requires
        ends_after(t, j),
        ends_after(t, k),
    ensures
        j == k,
{
    if j < k {
        assert(table_after(t, j).first.len() > 0 && table_after(t, j).second.len() > 0);
    } else if k < j {
        assert(table_after(t, k).first.len() > 0 && table_after(t, k).second.len() > 0);
    }
}

/// The deck that scores in the plain game, played for `rounds` rounds
/// at most; `None` where the game does not end within them, or two equal
/// cards are drawn.
pub fn play_plain_within(deck1: VecDeque<u32>, deck2: VecDeque<u32>, rounds: usize) -> (ended:
    Option<VecDeque<u32>>)
    ensures
        match ended {
            Some(deck) => exists|k: nat|
                k <= rounds && ends_after(table_of(deck1@, deck2@), k) && deck@ == scoring_deck(
                    #[trigger] table_after(table_of(deck1@, deck2@), k),
                ),
            None => forall|k: nat| k <= rounds ==> !ends_after(table_of(deck1@, deck2@), k),
        },
{
    play_plain(deck1, deck2, Budget::Counted(rounds))
}

/// The score of the winner of the plain game.
pub fn part1(deck1: VecDeque<u32>, deck2: VecDeque<u32>) -> (total: u32)
    requires
        exists|k: nat| ends_after(table_of(deck1@, deck2@), k),
        forall|k: nat|
            ends_after(table_of(deck1@, deck2@), k) ==> score_of(
                scoring_deck(#[trigger] table_after(table_of(deck1@, deck2@), k)),
            ) <= u32::MAX,
    ensures
        exists|k: nat|
            ends_after(table_of(deck1@, deck2@), k) && total == score_of(
                scoring_deck(#[trigger] table_after(table_of(deck1@, deck2@), k)),
            ),
{
    let ghost start = table_of(deck1@, deck2@);
    let ghost end = choose|k: nat| ends_after(start, k);
    match play_plain(deck1, deck2, Budget::Endless(Ghost(end))) {
        Some(deck) => {
            let ghost k = choose|k: nat|
                k <= end && ends_after(start, k) && deck@ == scoring_deck(
                    #[trigger] table_after(start, k),
                );
            let total = score(&deck);
            assert(ends_after(start, k) && total == score_of(scoring_deck(table_after(start, k))));
            total
        },
        None => 0,
    }
}

/// How a game ended: who won, and the winner's deck.
pub struct Outcome {
    /// 1 or 2.
    pub winner: u32,
    pub deck: Seq<u32>,
}

/// Whether the round is settled by a game within the game: each player
/// has at least as many cards left as the card just drawn says.
pub open spec fn goes_deeper(t: Table) -> bool {
    t.first[0] <= t.first.len() - 1 && t.second[0] <= t.second.len() - 1
}

/// The table of the game within the game: as many of the next cards of
/// each player as the card just drawn says.
pub open spec fn table_within(t: Table) -> Table {
    Table {
        first: t.first.drop_first().take(t.first[0] as int),
        second: t.second.drop_first().take(t.second[0] as int),
    }
}

/// How the game with games within ends, where it ends within `fuel`
/// rounds, every game within it too. A player without cards has lost. A
/// table that was `seen` before in this game gives the game to the
/// first player. Else a round is played: it goes to the winner of the game
/// within, or where there is none, to the higher card.
pub open spec fn plays_out(t: Table, seen: Seq<Table>, fuel: nat) -> Option<Outcome>
    decreases t.first.len() + t.second.len(), fuel,
{
    if t.first.len() == 0 {
        Some(Outcome { winner: 2, deck: t.second })
    } else if t.second.len() == 0 {
        Some(Outcome { winner: 1, deck: t.first })
    } else if seen.contains(t) {
        Some(Outcome { winner: 1, deck: t.first })
    } else if fuel == 0 {
        None
    } else {
        let within = if goes_deeper(t) {
            plays_out(table_within(t), Seq::empty(), fuel)
        } else if t.first[0] > t.second[0] {
            Some(Outcome { winner: 1, deck: Seq::empty() })
        } else {
            Some(Outcome { winner: 2, deck: Seq::empty() })
        };
        match within {
            None => None,
            Some(outcome) => plays_out(
                after_round(t, outcome.winner == 1),
                seen.push(t),
                (fuel - 1) as nat,
            ),
        }
    }
}

/// A game that ends within some number of rounds ends in the same way
/// within any greater number.
pub proof fn lemma_more_fuel(t: Table, seen: Seq<Table>, fuel: nat, more: nat)
    requires
        plays_out(t, seen, fuel) is Some,
        fuel <= more,
    ensures
        plays_out(t, seen, more) == plays_out(t, seen, fuel),
    decreases t.first.len() + t.second.len(), fuel,
{
    if t.first.len() == 0 || t.second.len() == 0 || seen.contains(t) {
    } else {
        assert(fuel > 0);
        let deeper = goes_deeper(t);
        if deeper {
            lemma_more_fuel(table_within(t), Seq::empty(), fuel, more);
        }
        let within = if deeper {
            plays_out(table_within(t), Seq::empty(), fuel)
        } else if t.first[0] > t.second[0] {
            Some(Outcome { winner: 1, deck: Seq::empty() })
        } else {
            Some(Outcome { winner: 2, deck: Seq::empty() })
        };
        let next = after_round(t, within.unwrap().winner == 1);
        lemma_more_fuel(next, seen.push(t), (fuel - 1) as nat, (more - 1) as nat);
    }
}

/// However many rounds are allowed, a game that ends within them ends in one way.
pub proof fn lemma_one_outcome(t: Table, seen: Seq<Table>, fuel: nat, other: nat)
    requires
        plays_out(t, seen, fuel) is Some,
        plays_out(t, seen, other) is Some,
    ensures
        plays_out(t, seen, fuel) == plays_out(t, seen, other),
{
    if fuel <= other {
        lemma_more_fuel(t, seen, fuel, other);
    } else {
        lemma_more_fuel(t, seen, other, fuel);
    }
}

/// The cards of a deck, top first.
fn cards_of(deck: &VecDeque<u32>, count: usize) -> (cards: Vec<u32>)
    requires
        count <= deck.len(),
    ensures
        cards@ == deck@.take(count as int),
{
    let mut cards: Vec<u32> = Vec::new();
    let mut i: usize = 0;
    while i < count
        invariant
            i <= count <= deck.len(),
            cards@ == deck@.take(i as int),
        decreases count - i,
    {
        cards.push(deck[i]);
        proof {
            assert(deck@.take(i + 1) =~= deck@.take(i as int).push(deck@[i as int]));
        }
        i += 1;
    }
    cards
}

/// A deck of the cards given, top first.
fn deck_of(cards: &Vec<u32>) -> (deck: VecDeque<u32>)
    ensures
        deck@ == cards@,
{
    let mut deck: VecDeque<u32> = VecDeque::new();
    let mut i: usize = 0;
    while i < cards.len()
        invariant
            i <= cards.len(),
            deck@ == cards@.take(i as int),
        decreases cards.len() - i,
    {
        deck.push_back(cards[i]);
        proof {
            assert(cards@.take(i + 1) =~= cards@.take(i as int).push(cards[i as int]));
        }
        i += 1;
    }
    proof {
        assert(cards@.take(i as int) =~= cards@);
    }
    deck
}

/// Whether two decks hold the same cards in the same order.
fn same_cards(a: &Vec<u32>, b: &Vec<u32>) -> (same: bool)
    ensures
        same == (a@ == b@),
{
    if a.len() != b.len() {
        return false;
    }
    let mut i: usize = 0;
    while i < a.len()
        invariant
            i <= a.len() == b.len(),
            forall|j: int| 0 <= j < i ==> a[j] == b[j],
        decreases a.len() - i,
    {
        if a[i] != b[i] {
            return false;
        }
        i += 1;
    }
    proof {
        assert(a@ =~= b@);
    }
    true
}

/// The tables that the pairs of decks stand for.
pub open spec fn tables_of(cache: Seq<(Vec<u32>, Vec<u32>)>) -> Seq<Table> {
    cache.map_values(|pair: (Vec<u32>, Vec<u32>)| table_of(pair.0@, pair.1@))
}

/// Whether the table of the two decks is among those noted.
fn was_seen(cache: &Vec<(Vec<u32>, Vec<u32>)>, first: &Vec<u32>, second: &Vec<u32>) -> (seen: bool)
    ensures
        seen == tables_of(cache@).contains(table_of(first@, second@)),
{
    let ghost tables = tables_of(cache@);
    let mut i: usize = 0;
    while i < cache.len()
        invariant
            i <= cache.len(),
            tables == tables_of(cache@),
            forall|j: int| 0 <= j < i ==> tables[j] != table_of(first@, second@),
        decreases cache.len() - i,
    {
        if same_cards(&cache[i].0, first) && same_cards(&cache[i].1, second) {
            assert(tables[i as int] == table_of(first@, second@));
            return true;
        }
        i += 1;
    }
    false
}

/// Plays the game with games within as long as the budget allows, and
/// tells who won and the winner's deck; `None` where the budget does not
/// allow to end the game.
fn play_within(deck1: VecDeque<u32>, deck2: VecDeque<u32>, budget: Budget) -> (ended: Option<
    (u32, VecDeque<u32>),
>)
    requires
        deck1.len() + deck2.len() <= u32::MAX,
        budget is Endless ==> plays_out(table_of(deck1@, deck2@), Seq::empty(), budget.fuel())
            is Some,
    ensures
        match ended {
            Some(end) => plays_out(table_of(deck1@, deck2@), Seq::empty(), budget.fuel()) == Some(
                Outcome { winner: end.0, deck: end.1@ },
            ),
            None => plays_out(table_of(deck1@, deck2@), Seq::empty(), budget.fuel()) is None,
        },
    decreases deck1@.len() + deck2@.len(),
{
    let ghost start = table_of(deck1@, deck2@);
    let ghost fuel = budget.fuel();
    let ghost total = deck1@.len() + deck2@.len();
    let mut left = budget;
    let mut hand1 = deck1;
    let mut hand2 = deck2;
    let mut cache: Vec<(Vec<u32>, Vec<u32>)> = Vec::new();
    proof {
        assert(tables_of(cache@) =~= Seq::<Table>::empty());
    }
    while hand1.len() > 0 && hand2.len() > 0
        invariant
            hand1@.len() + hand2@.len() == total <= u32::MAX,
            start == table_of(deck1@, deck2@),
            total == deck1@.len() + deck2@.len(),
            fuel == budget.fuel(),
            left is Endless <==> budget is Endless,
            budget is Endless ==> plays_out(start, Seq::empty(), fuel) is Some,
            plays_out(table_of(hand1@, hand2@), tables_of(cache@), left.fuel()) == plays_out(
                start,
                Seq::empty(),
                fuel,
            ),
        decreases left.fuel(),
    {
        let ghost here = table_of(hand1@, hand2@);
        let ghost seen = tables_of(cache@);
        let snapshot1 = cards_of(&hand1, hand1.len());
        let snapshot2 = cards_of(&hand2, hand2.len());
        proof {
            assert(hand1@.take(hand1@.len() as int) =~= hand1@);
            assert(hand2@.take(hand2@.len() as int) =~= hand2@);
        }
        if was_seen(&cache, &snapshot1, &snapshot2) {
            return Some((1, hand1));
        }
        let next = match left.spend() {
            Some(next) => next,
            None => {
                return None;
            },
        };
        cache.push((snapshot1, snapshot2));
        proof {
            assert(tables_of(cache@) =~= seen.push(here));
        }
        let card1 = hand1.pop_front().unwrap();
        let card2 = hand2.pop_front().unwrap();
        let result: u32 = if card1 as usize <= hand1.len() && card2 as usize <= hand2.len() {
            let within1 = cards_of(&hand1, card1 as usize);
            let within2 = cards_of(&hand2, card2 as usize);
            proof {
                assert(goes_deeper(here));
                assert(within1@ == table_within(here).first);
                assert(within2@ == table_within(here).second);
            }
            match play_within(deck_of(&within1), deck_of(&within2), left.again()) {
                Some(inner) => inner.0,
                None => {
                    return None;
                },
            }
        } else if card1 > card2 {
            1
        } else {
            2
        };
        if result == 1 {
            hand1.push_back(card1);
            hand1.push_back(card2);
        } else {
            hand2.push_back(card2);
            hand2.push_back(card1);
        }
        proof {
            let after = after_round(here, result == 1);
            assert(hand1@ =~= after.first);
            assert(hand2@ =~= after.second);
        }
        left = next;
    }
    if hand1.len() == 0 {
        Some((2, hand2))
    } else {
        Some((1, hand1))
    }
}

/// Plays the game with games within, and tells who won and the winner's deck.
pub fn play_game(deck1: VecDeque<u32>, deck2: VecDeque<u32>) -> (ended: (u32, VecDeque<u32>))
    requires
        deck1.len() + deck2.len() <= u32::MAX,
        exists|fuel: nat| plays_out(table_of(deck1@, deck2@), Seq::empty(), fuel) is Some,
    ensures
        exists|fuel: nat|
            #[trigger] plays_out(table_of(deck1@, deck2@), Seq::empty(), fuel) == Some(
                Outcome { winner: ended.0, deck: ended.1@ },
            ),
{
    let ghost fuel = choose|fuel: nat|
        plays_out(table_of(deck1@, deck2@), Seq::empty(), fuel) is Some;
    match play_within(deck1, deck2, Budget::Endless(Ghost(fuel))) {
        Some(ended) => ended,
        None => (0, VecDeque::new()),
    }
}

/// Plays the game with games within, no game of it for more than
/// `rounds` rounds, and tells who won and the winner's deck; `None` where
/// a game does not end within them.
pub fn play_game_within(deck1: VecDeque<u32>, deck2: VecDeque<u32>, rounds: usize) -> (ended:
    Option<(u32, VecDeque<u32>)>)
    requires
        deck1.len() + deck2.len() <= u32::MAX,
    ensures
        match ended {
            Some(end) => plays_out(table_of(deck1@, deck2@), Seq::empty(), rounds as nat) == Some(
                Outcome { winner: end.0, deck: end.1@ },
            ),
            None => plays_out(table_of(deck1@, deck2@), Seq::empty(), rounds as nat) is None,
        },
{
    play_within(deck1, deck2, Budget::Counted(rounds))
}

/// The score of the winner of the game with games within.
pub fn part2(deck1: VecDeque<u32>, deck2: VecDeque<u32>) -> (total: u32)
    requires
        deck1.len() + deck2.len() <= u32::MAX,
        exists|fuel: nat| plays_out(table_of(deck1@, deck2@), Seq::empty(), fuel) is Some,
        forall|fuel: nat|
            plays_out(table_of(deck1@, deck2@), Seq::empty(), fuel) is Some ==> score_of(
                (#[trigger] plays_out(table_of(deck1@, deck2@), Seq::empty(), fuel)).unwrap().deck,
            ) <= u32::MAX,
    ensures
        exists|fuel: nat|
            plays_out(table_of(deck1@, deck2@), Seq::empty(), fuel) is Some && total == score_of(
                (#[trigger] plays_out(table_of(deck1@, deck2@), Seq::empty(), fuel)).unwrap().deck,
            ),
{
    let ghost start = table_of(deck1@, deck2@);
    let ended = play_game(deck1, deck2);
    let ghost fuel = choose|fuel: nat|
        #[trigger] plays_out(start, Seq::empty(), fuel) == Some(
            Outcome { winner: ended.0, deck: ended.1@ },
        );
    assert(plays_out(start, Seq::empty(), fuel).unwrap().deck == ended.1@);
    score(&ended.1)
}

/// The two decks that the first `k` lines spell: a line that starts with
/// `P` is passed over, an empty line ends the first deck if it has not
/// ended, and any other line spells a card.
pub open spec fn decks_after(lines: Seq<String>, k: nat) -> (Seq<u32>, Seq<u32>, bool)
    decreases k,
{
    if k == 0 {
        (Seq::empty(), Seq::empty(), true)
    } else {
        let (first, second, in_first) = decks_after(lines, (k - 1) as nat);
        let line = lines[k - 1]@;
        if line.len() == 0 {
            (first, second, false)
        } else if line[0] == 'P' {
            (first, second, in_first)
        } else if in_first {
            (first.push(card_of(line).unwrap() as u32), second, in_first)
        } else {
            (first, second.push(card_of(line).unwrap() as u32), in_first)
        }
    }
}

/// The card that a line spells.
pub open spec fn card_of(line: Seq<char>) -> Option<int> {
    unsigned_value(line, u32::MAX as int)
}

/// The two decks that the lines spell.
pub fn read_decks(lines: &Vec<String>) -> (decks: (VecDeque<u32>, VecDeque<u32>))
    requires
        forall|i: int|
            0 <= i < lines.len() && lines[i]@.len() > 0 && lines[i]@[0] != 'P' ==> card_of(
                #[trigger] lines[i]@,
            ) is Some,
    ensures
        decks.0@ == decks_after(lines@, lines@.len()).0,
        decks.1@ == decks_after(lines@, lines@.len()).1,
{
    let mut deck1: VecDeque<u32> = VecDeque::new();
    let mut deck2: VecDeque<u32> = VecDeque::new();
    let mut in_first = true;
    let mut k: usize = 0;
    while k < lines.len()
        invariant
            k <= lines.len(),
            forall|i: int|
                0 <= i < lines.len() && lines[i]@.len() > 0 && lines[i]@[0] != 'P' ==> card_of(
                    #[trigger] lines[i]@,
                ) is Some,
            deck1@ == decks_after(lines@, k as nat).0,
            deck2@ == decks_after(lines@, k as nat).1,
            in_first == decks_after(lines@, k as nat).2,
        decreases lines.len() - k,
    {
        let line = chars_of(lines[k].as_str());
        if line.len() == 0 {
            in_first = false;
        } else if line[0] == 'P' {
        } else {
            assert(card_of(lines[k as int]@) is Some);
            match parse_unsigned_chars(&line, u32::MAX as u64) {
                Some(card) => {
                    if in_first {
                        deck1.push_back(card as u32);
                    } else {
                        deck2.push_back(card as u32);
                    }
                },
                None => {},
            }
        }
        k += 1;
    }
    (deck1, deck2)
}

} // verus!
