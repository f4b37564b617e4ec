//! Day 15: a memory game in which each number says how long ago the last was heard.

use crate::text::{chars_of, parse_unsigned_chars, split, split_chars, unsigned_value, views};
use std::collections::HashMap;
use vstd::prelude::*;

verus! {

/// The turns at which the first `k` starting numbers were spoken last.
pub open spec fn heard_at_start(numbers: Seq<u32>, k: nat) -> Map<u32, u32>
    decreases k,
{
    if k == 0 {
        Map::empty()
    } else {
        heard_at_start(numbers, (k - 1) as nat).insert(numbers[k - 1], k as u32)
    }
}

/// Where the game stands before a turn.
pub struct Memory {
    /// For each number heard before the last one, the turn at which it was heard last.
    pub heard: Map<u32, u32>,
    /// The number spoken in the turn before.
    pub last: int,
}

/// Where the game stands when the number of turn `turn` is known: after
/// the starting numbers a zero is spoken, and then in each turn how long
/// before the turn before the number of that turn was last heard, or zero
/// where it was new.
pub open spec fn memory_at(numbers: Seq<u32>, turn: nat) -> Memory
    decreases turn,
{
    if turn <= numbers.len() + 1 {
        Memory { heard: heard_at_start(numbers, numbers.len()), last: 0 }
    } else {
        let before = memory_at(numbers, (turn - 1) as nat);
        let spoken = before.last as u32;
        Memory {
            heard: before.heard.insert(spoken, (turn - 1) as u32),
            last: if before.heard.contains_key(spoken) {
                turn - 1 - before.heard[spoken]
            } else {
                0
            },
        }
    }
}

/// Every number was heard before the turn in question.
pub open spec fn heard_before(heard: Map<u32, u32>, turn: int) -> bool {
    forall|n: u32| heard.contains_key(n) ==> 1 <= #[trigger] heard[n] < turn
}

/// The number spoken in turn `end_turn`.
pub fn find_nth_result(numbers: &[u32], end_turn: u32) -> (spoken: u32)
    requires
        numbers.len() < end_turn,
    ensures
        spoken == memory_at(numbers@, end_turn as nat).last,
{
    broadcast use vstd::std_specs::hash::group_hash_axioms;

    let mut num_occurences: HashMap<u32, u32> = HashMap::new();
    let mut i: usize = 0;
    while i < numbers.len()
        invariant
            i <= numbers.len() < end_turn,
            num_occurences@ == heard_at_start(numbers@, i as nat),
            heard_before(num_occurences@, i + 1),
        decreases numbers.len() - i,
    {
        num_occurences.insert(numbers[i], i as u32 + 1);
        i += 1;
    }
    let mut last_num: u32 = 0;
    let mut turn: u32 = numbers.len() as u32 + 1;
    while turn != end_turn
        invariant
            numbers.len() < turn <= end_turn,
            num_occurences@ == memory_at(numbers@, turn as nat).heard,
            last_num == memory_at(numbers@, turn as nat).last,
            heard_before(num_occurences@, turn as int),
        decreases end_turn - turn,
    {
        match num_occurences.get(&last_num) {
            Some(last_occurence) => {
                let gap = turn - *last_occurence;
                num_occurences.insert(last_num, turn);
                last_num = gap;
            },
            None => {
                num_occurences.insert(last_num, turn);
                last_num = 0;
            },
        }
        turn += 1;
    }
    last_num
}

/// The number spoken in turn 2020.
pub fn part1(numbers: &[u32]) -> (spoken: u32)
    requires
        numbers.len() < 2020,
    ensures
        spoken == memory_at(numbers@, 2020).last,
{
    find_nth_result(numbers, 2020)
}

/// The number spoken in turn 30000000.
pub fn part2(numbers: &[u32]) -> (spoken: u32)
    requires
        numbers.len() < 30000000,
    ensures
        spoken == memory_at(numbers@, 30000000).last,
{
    find_nth_result(numbers, 30000000)
}

/// What a piece of the line spells as a number.
pub open spec fn number_of(piece: Seq<char>) -> Option<int> {
    unsigned_value(piece, u32::MAX as int)
}

/// The starting numbers that the first line spells, separated by commas.
pub fn read_numbers(lines: &Vec<String>) -> (numbers: Vec<u32>)
    requires
        lines.len() >= 1,
        forall|i: int|
            0 <= i < split(lines[0]@, ',').len() ==> number_of(#[trigger] split(lines[0]@, ',')[i])
                is Some,
    ensures
        numbers.len() == split(lines[0]@, ',').len(),
        forall|i: int|
            0 <= i < numbers.len() ==> number_of(split(lines[0]@, ',')[i]) == Some(
                #[trigger] numbers[i] as int,
            ),
{
    let line = chars_of(lines[0].as_str());
    let pieces = split_chars(&line, ',');
    let ghost cut = split(lines[0]@, ',');
    assert(pieces.len() == views(pieces@).len());
    let mut numbers: Vec<u32> = Vec::new();
    let mut i: usize = 0;
    while i < pieces.len()
        invariant
            i <= pieces.len(),
            views(pieces@) == cut,
            forall|j: int| 0 <= j < cut.len() ==> number_of(#[trigger] cut[j]) is Some,
            numbers.len() == i,
            forall|j: int| 0 <= j < i ==> number_of(cut[j]) == Some(#[trigger] numbers[j] as int),
        decreases pieces.len() - i,
    {
        assert(pieces[i as int]@ == cut[i as int]);
        assert(number_of(cut[i as int]) is Some);
        match parse_unsigned_chars(&pieces[i], u32::MAX as u64) {
            Some(v) => numbers.push(v as u32),
            None => {},
        }
        i += 1;
    }
    numbers
}

} // verus!
