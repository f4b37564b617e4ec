//! Day 25: the handshake of a card and a door.

use crate::text::{parse_u64, unsigned_value};
use vstd::prelude::*;

verus! {

/// The modulus of the handshake.
pub const MODULUS: u64 = 20201227;

/// The value after `k` rounds of multiplying 1 by `subject` modulo `MODULUS`.
pub open spec fn transformed(subject: int, k: nat) -> int
    decreases k,
{
    if k == 0 {
        1
    } else {
        (subject * transformed(subject, (k - 1) as nat)) % 20201227
    }
}

/// `k` is the least number of rounds after which `subject` gives `expected`.
pub open spec fn is_loop_size(subject: int, expected: int, k: nat) -> bool {
    &&& transformed(subject, k) == expected
    &&& forall|j: nat| j < k ==> #[trigger] transformed(subject, j) != expected
}

/// A transformed value is a residue of the modulus, or the 1 that the rounds start from.
pub proof fn lemma_transformed_bound(subject: int, k: nat)
    requires
        subject >= 0,
    ensures
        0 <= transformed(subject, k) < 20201227,
    decreases k,
{
    if k > 0 {
        lemma_transformed_bound(subject, (k - 1) as nat);
    }
}

/// The least number of rounds, `bound` at most, after which `subject`
/// gives `expected`; `None` where it takes more.
pub fn find_loop_size(subject: u64, expected: u64, bound: u64) -> (found: Option<u64>)
    requires
        subject * 20201226 <= u64::MAX,
    ensures
        match found {
            Some(k) => k <= bound && is_loop_size(subject as int, expected as int, k as nat),
            None => forall|k: nat| k <= bound ==> #[trigger] transformed(subject as int, k)
                != expected,
        },
{
    let mut value: u64 = 1;
    let mut loop_count: u64 = 0;
    while value != expected
        invariant
            subject * 20201226 <= u64::MAX,
            loop_count <= bound,
            value == transformed(subject as int, loop_count as nat),
            forall|j: nat| j < loop_count ==> #[trigger] transformed(subject as int, j) != expected,
        decreases bound - loop_count,
    {
        if loop_count == bound {
            return None;
        }
        proof {
            lemma_transformed_bound(subject as int, loop_count as nat);
            assert(subject * value <= subject * 20201226) by (nonlinear_arith)
                requires
                    0 <= value <= 20201226,
                    0 <= subject,
            ;
        }
        loop_count += 1;
        value = (subject * value) % MODULUS;
    }
    Some(loop_count)
}

/// The least number of rounds after which `subject` gives `expected`.
pub fn calculate_loop_size(subject: u64, expected: u64) -> (loop_count: u64)
    requires
        subject * 20201226 <= u64::MAX,
        exists|k: nat| k <= u64::MAX && transformed(subject as int, k) == expected,
    ensures
        is_loop_size(subject as int, expected as int, loop_count as nat),
{
    match find_loop_size(subject, expected, u64::MAX) {
        Some(loop_count) => loop_count,
        None => 0,
    }
}

/// The value after `loop_size` rounds with `subject`.
pub fn calculate_encryption_key(subject: u64, loop_size: u64) -> (key: u64)
    requires
        subject * 20201226 <= u64::MAX,
    ensures
        key == transformed(subject as int, loop_size as nat),
{
    let mut value: u64 = 1;
    let mut round: u64 = 0;
    while round < loop_size
        invariant
            subject * 20201226 <= u64::MAX,
            round <= loop_size,
            value == transformed(subject as int, round as nat),
        decreases loop_size - round,
    {
        proof {
            lemma_transformed_bound(subject as int, round as nat);
            assert(subject * value <= subject * 20201226) by (nonlinear_arith)
                requires
                    0 <= value <= 20201226,
                    0 <= subject,
            ;
        }
        value = (subject * value) % MODULUS;
        round += 1;
    }
    value
}

/// The encryption key: the door's public key transformed for as many
/// rounds as it takes 7 to give the card's public key.
pub fn part1(card_pubkey: u64, door_pubkey: u64) -> (key: u64)
    requires
        door_pubkey * 20201226 <= u64::MAX,
        exists|k: nat| k <= u64::MAX && transformed(7, k) == card_pubkey,
    ensures
        exists|k: nat|
            is_loop_size(7, card_pubkey as int, k) && key == transformed(door_pubkey as int, k),
{
    let loop_size = calculate_loop_size(7, card_pubkey);
    let key = calculate_encryption_key(door_pubkey, loop_size);
    assert(is_loop_size(7, card_pubkey as int, loop_size as nat) && key == transformed(
        door_pubkey as int,
        loop_size as nat,
    ));
    key
}

/// The two public keys that the first two lines spell.
pub fn read_keys(lines: &Vec<String>) -> (keys: (u64, u64))
    requires
        lines.len() >= 2,
        forall|i: int|
            0 <= i < lines.len() ==> unsigned_value(#[trigger] lines[i]@, u64::MAX as int) is Some,
    ensures
        unsigned_value(lines[0]@, u64::MAX as int) == Some(keys.0 as int),
        unsigned_value(lines[1]@, u64::MAX as int) == Some(keys.1 as int),
{
    let first = parse_u64(lines[0].as_str());
    let second = parse_u64(lines[1].as_str());
    match (first, second) {
        (Some(card), Some(door)) => (card, door),
        _ => (0, 0),
    }
}

} // verus!
