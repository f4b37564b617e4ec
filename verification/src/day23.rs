//! Day 23: the crab's game on a ring of cups.

use crate::cup_ring::{
    after_moves, config_error, extended_order, labels_after, lemma_labels_after, product_after,
    run, CupRing,
};
use crate::text::{chars_of, digit_value, is_digit, to_digit};
use vstd::prelude::*;

verus! {

/// The number that the digits spell in decimal.
pub open spec fn digits_value(digits: Seq<u32>) -> int
    decreases digits.len(),
{
    if digits.len() == 0 {
        0
    } else {
        digits_value(digits.drop_last()) * 10 + digits.last()
    }
}

/// Ten to the power `k`.
pub open spec fn pow10(k: nat) -> int
    decreases k,
{
    if k == 0 {
        1
    } else {
        10 * pow10((k - 1) as nat)
    }
}

proof fn lemma_pow10_small(k: nat)
    requires
        k <= 9,
    ensures
        pow10(k) <= 1_000_000_000,
{
    reveal_with_fuel(pow10, 11);
}

/// Spells labels below ten as one decimal number.
pub fn concat_digits(labels: &Vec<u32>) -> (value: i32)
    requires
        labels.len() <= 9,
        forall|i: int| 0 <= i < labels.len() ==> labels[i] <= 9,
    ensures
        value == digits_value(labels@),
{
    let mut value: i32 = 0;
    let mut i: usize = 0;
    while i < labels.len()
        invariant
            i <= labels.len() <= 9,
            forall|j: int| 0 <= j < labels.len() ==> labels[j] <= 9,
            value == digits_value(labels@.take(i as int)),
            0 <= value < pow10(i as nat),
        decreases labels.len() - i,
    {
        proof {
            lemma_pow10_small((i + 1) as nat);
            assert(labels@.take(i + 1).drop_last() =~= labels@.take(i as int));
        }
        value = value * 10 + labels[i] as i32;
        i += 1;
    }
    proof {
        assert(labels@.take(i as int) =~= labels@);
    }
    value
}

/// The labels after cup 1, spelled as one number, once a hundred moves have
/// been played on the ring of the cups given.
pub fn part1(order: &[u32]) -> (readout: i32)
    requires
        config_error(order@, order@.len() as int) is None,
        order.len() <= 9,
    ensures
        readout == digits_value(labels_after(after_moves(order@, 100), 1)),
{
    match CupRing::new(order) {
        Ok(mut ring) => {
            run(&mut ring, 100);
            let labels = ring.ordered_labels();
            proof {
                lemma_labels_after(ring@, 1);
            }
            concat_digits(&labels)
        },
        Err(_) => 0,
    }
}

/// The product of the two labels after cup 1, once ten million moves have
/// been played on the ring of the cups given, extended to a million cups.
pub fn part2(order: &[u32]) -> (product: u64)
    requires
        config_error(order@, 1_000_000) is None,
    ensures
        product == product_after(
            after_moves(extended_order(order@, 1_000_000), 10_000_000),
            1,
        ),
{
    match CupRing::with_size(order, 1_000_000) {
        Ok(mut ring) => {
            run(&mut ring, 10_000_000);
            ring.pair_product()
        },
        Err(_) => 0,
    }
}

/// The labels that a line of digits spells, one per digit.
pub fn read_order(line: &str) -> (order: Vec<u32>)
    requires
        forall|i: int| 0 <= i < line@.len() ==> is_digit(#[trigger] line@[i]),
    ensures
        order.len() == line@.len(),
        forall|i: int| 0 <= i < order.len() ==> #[trigger] order[i] == digit_value(line@[i]),
{
    let chars = chars_of(line);
    let mut order: Vec<u32> = Vec::new();
    let mut i: usize = 0;
    while i < chars.len()
        invariant
            i <= chars.len(),
            chars@ == line@,
            order.len() == i,
            forall|j: int| 0 <= j < line@.len() ==> is_digit(#[trigger] line@[j]),
            forall|j: int| 0 <= j < i ==> #[trigger] order[j] == digit_value(line@[j]),
        decreases chars.len() - i,
    {
        match to_digit(chars[i]) {
            Some(d) => order.push(d),
            None => {},
        }
        i += 1;
    }
    order
}

} // verus!
