//! Day 14: a docking program that writes to memory through bit masks.

use crate::text::{
    all_digits, chars_of, check_stands_at, decimal_value, lemma_span, parse_range, scan, span_end,
    stands_at, CharClass,
};
use std::collections::HashMap;
use vstd::arithmetic::power2::{lemma2_to64, lemma_pow2_strictly_increases, lemma_pow2_unfold, pow2};
use vstd::prelude::*;

verus! {

/// A mask and the writes that are made under it.
pub struct ProgramChunk {
    /// The mask as it was written: `0`, `1` and `X`, highest bit first.
    pub original_bitmask: Vec<u8>,
    /// Ones where the mask has `X`.
    pub bitmask_zeroes: u64,
    /// Ones where the mask has `1`.
    pub bitmask_ones: u64,
    /// Address and value of each write.
    pub instructions: Vec<(u64, u64)>,
}

/// Whether a write among the first `k` to the address of write `i` comes after it.
pub open spec fn is_overwritten(writes: Seq<(u64, u64)>, i: int, k: int) -> bool {
    exists|j: int| i < j < k && (#[trigger] writes[j]).0 == writes[i].0
}

/// The sum of the values of those of the first `m` writes that are not
/// overwritten by any of the first `k`.
pub open spec fn live_sum(writes: Seq<(u64, u64)>, k: int, m: nat) -> int
    decreases m,
{
    if m == 0 {
        0
    } else {
        live_sum(writes, k, (m - 1) as nat) + if is_overwritten(writes, m - 1, k) {
            0
        } else {
            writes[m - 1].1 as int
        }
    }
}

/// The sum of what memory holds after the writes: of the values that no
/// later write replaced.
pub open spec fn memory_sum(writes: Seq<(u64, u64)>) -> int {
    live_sum(writes, writes.len() as int, writes.len())
}

/// What memory holds after the first `k` writes.
pub open spec fn memory_after(writes: Seq<(u64, u64)>, k: nat) -> Map<u64, u64>
    decreases k,
{
    if k == 0 {
        Map::empty()
    } else {
        memory_after(writes, (k - 1) as nat).insert(writes[k - 1].0, writes[k - 1].1)
    }
}

/// The value last written to `address` by the first `k` writes, or zero.
pub open spec fn last_value(writes: Seq<(u64, u64)>, address: u64, k: nat) -> int
    decreases k,
{
    if k == 0 {
        0
    } else if writes[k - 1].0 == address {
        writes[k - 1].1 as int
    } else {
        last_value(writes, address, (k - 1) as nat)
    }
}

/// Memory holds at an address the value last written to it.
pub proof fn lemma_memory_holds_last(writes: Seq<(u64, u64)>, address: u64, k: nat)
    requires
        k <= writes.len(),
    ensures
        last_value(writes, address, k) == if memory_after(writes, k).contains_key(address) {
            memory_after(writes, k)[address] as int
        } else {
            0
        },
    decreases k,
{
    if k > 0 {
        lemma_memory_holds_last(writes, address, (k - 1) as nat);
    }
}

/// The sum of the values of those of the first `m` writes that go to
/// `address` and are not overwritten by any of the first `k`.
pub open spec fn live_at(writes: Seq<(u64, u64)>, address: u64, k: int, m: nat) -> int
    decreases m,
{
    if m == 0 {
        0
    } else {
        live_at(writes, address, k, (m - 1) as nat) + if writes[m - 1].0 == address
            && !is_overwritten(writes, m - 1, k) {
            writes[m - 1].1 as int
        } else {
            0
        }
    }
}

/// A write to `address` at place `at` leaves nothing live at that address before it.
proof fn lemma_nothing_live_before(writes: Seq<(u64, u64)>, address: u64, k: int, at: int, m: nat)
    requires
        m <= at < k <= writes.len(),
        writes[at].0 == address,
    ensures
        live_at(writes, address, k, m) == 0,
    decreases m,
{
    if m > 0 {
        lemma_nothing_live_before(writes, address, k, at, (m - 1) as nat);
        if writes[m - 1].0 == address {
            assert(writes[at].0 == writes[m - 1].0);
            assert(is_overwritten(writes, m - 1, k));
        }
    }
}

/// A write to another address changes nothing about what is live at `address`.
proof fn lemma_live_at_unchanged(writes: Seq<(u64, u64)>, address: u64, k: int, m: nat)
    requires
        m <= k < writes.len(),
        writes[k].0 != address,
    ensures
        live_at(writes, address, k + 1, m) == live_at(writes, address, k, m),
    decreases m,
{
    if m > 0 {
        lemma_live_at_unchanged(writes, address, k, (m - 1) as nat);
        if writes[m - 1].0 == address {
            if is_overwritten(writes, m - 1, k + 1) {
                let j = choose|j: int| m - 1 < j < k + 1 && (#[trigger] writes[j]).0 == writes[m - 1].0;
                assert(j < k);
                assert(is_overwritten(writes, m - 1, k));
            }
            if is_overwritten(writes, m - 1, k) {
                let j = choose|j: int| m - 1 < j < k && (#[trigger] writes[j]).0 == writes[m - 1].0;
                assert(is_overwritten(writes, m - 1, k + 1));
            }
        }
    }
}

/// What is live at an address after `k` writes is the value last written to it.
proof fn lemma_live_at_is_last(writes: Seq<(u64, u64)>, address: u64, k: nat)
    requires
        k <= writes.len(),
    ensures
        live_at(writes, address, k as int, k) == last_value(writes, address, k),
    decreases k,
{
    if k > 0 {
        assert(!is_overwritten(writes, k - 1, k as int));
        if writes[k - 1].0 == address {
            lemma_nothing_live_before(writes, address, k as int, k - 1, (k - 1) as nat);
        } else {
            lemma_live_at_is_last(writes, address, (k - 1) as nat);
            lemma_live_at_unchanged(writes, address, k - 1, (k - 1) as nat);
        }
    }
}

/// One more write takes from the live sum what was live at its address.
proof fn lemma_live_sum_step(writes: Seq<(u64, u64)>, k: int, m: nat)
    requires
        m <= k < writes.len(),
    ensures
        live_sum(writes, k + 1, m) == live_sum(writes, k, m) - live_at(writes, writes[k].0, k, m),
    decreases m,
{
    if m > 0 {
        lemma_live_sum_step(writes, k, (m - 1) as nat);
        if is_overwritten(writes, m - 1, k + 1) {
            let j = choose|j: int| m - 1 < j < k + 1 && (#[trigger] writes[j]).0 == writes[m - 1].0;
            if j < k {
                assert(is_overwritten(writes, m - 1, k));
            }
        }
        if is_overwritten(writes, m - 1, k) {
            let j = choose|j: int| m - 1 < j < k && (#[trigger] writes[j]).0 == writes[m - 1].0;
            assert(is_overwritten(writes, m - 1, k + 1));
        }
        if writes[m - 1].0 == writes[k].0 {
            assert(is_overwritten(writes, m - 1, k + 1));
        }
    }
}

/// One more write changes the sum of memory by its value less the value
/// that the address held.
pub proof fn lemma_memory_sum_step(writes: Seq<(u64, u64)>, k: nat)
    requires
        k < writes.len(),
    ensures
        live_sum(writes, k as int + 1, k + 1) == live_sum(writes, k as int, k) - last_value(
            writes,
            writes[k as int].0,
            k,
        ) + writes[k as int].1,
{
    lemma_live_sum_step(writes, k as int, k);
    lemma_live_at_is_last(writes, writes[k as int].0, k);
    assert(!is_overwritten(writes, k as int, k as int + 1));
}

/// The live sum of `k` writes is at most `k` times the greatest value.
pub proof fn lemma_live_sum_bound(writes: Seq<(u64, u64)>, k: int, m: nat)
    requires
        m <= writes.len(),
    ensures
        0 <= live_sum(writes, k, m) <= m * 0xffff_ffff_ffff_ffff,
    decreases m,
{
    if m > 0 {
        lemma_live_sum_bound(writes, k, (m - 1) as nat);
        assert(m * 0xffff_ffff_ffff_ffff == (m - 1) * 0xffff_ffff_ffff_ffff + 0xffff_ffff_ffff_ffff)
            by (nonlinear_arith);
    }
}

/// The sum of what memory holds after the writes.
pub fn sum_memory(writes: &Vec<(u64, u64)>) -> (sum: u64)
    requires
        memory_sum(writes@) <= u64::MAX,
    ensures
        sum == memory_sum(writes@),
{
    broadcast use vstd::std_specs::hash::group_hash_axioms;

    let mut mem: HashMap<u64, u64> = HashMap::new();
    let mut total: u128 = 0;
    let mut k: usize = 0;
    while k < writes.len()
        invariant
            k <= writes.len(),
            mem@ == memory_after(writes@, k as nat),
            total == live_sum(writes@, k as int, k as nat),
        decreases writes.len() - k,
    {
        let (address, value) = writes[k];
        proof {
            lemma_memory_sum_step(writes@, k as nat);
            lemma_memory_holds_last(writes@, address, k as nat);
            lemma_live_sum_bound(writes@, k as int, k as nat);
            lemma_live_sum_bound(writes@, k + 1, (k + 1) as nat);
            assert((k + 1) * 0xffff_ffff_ffff_ffff <= 0x1_0000_0000_0000_0000
                * 0xffff_ffff_ffff_ffff) by (nonlinear_arith)
                requires
                    k + 1 <= 0x1_0000_0000_0000_0000,
            ;
        }
        match mem.insert(address, value) {
            Some(old) => {
                total = total + value as u128 - old as u128;
            },
            None => {
                total = total + value as u128;
            },
        }
        k += 1;
    }
    total as u64
}


/// The value that is written where `value` is given: the bits of the
/// value where the mask has `X`, and the bits of the mask elsewhere.
pub open spec fn masked(chunk: ProgramChunk, value: u64) -> u64 {
    (value & chunk.bitmask_zeroes) | chunk.bitmask_ones
}

/// The first `k` writes of a chunk, values masked.
pub open spec fn chunk_writes(chunk: ProgramChunk, k: nat) -> Seq<(u64, u64)>
    decreases k,
{
    if k == 0 {
        Seq::empty()
    } else {
        chunk_writes(chunk, (k - 1) as nat).push(
            (chunk.instructions[k - 1].0, masked(chunk, chunk.instructions[k - 1].1)),
        )
    }
}

/// The writes of the first `c` chunks, values masked.
pub open spec fn all_writes(chunks: Seq<ProgramChunk>, c: nat) -> Seq<(u64, u64)>
    decreases c,
{
    if c == 0 {
        Seq::empty()
    } else {
        all_writes(chunks, (c - 1) as nat) + chunk_writes(
            chunks[c - 1],
            chunks[c - 1].instructions@.len(),
        )
    }
}

/// The sum of what memory holds after the program, values masked.
pub fn part1(input: &[ProgramChunk]) -> (sum: u64)
    requires
        memory_sum(all_writes(input@, input@.len())) <= u64::MAX,
    ensures
        sum == memory_sum(all_writes(input@, input@.len())),
{
    let mut writes: Vec<(u64, u64)> = Vec::new();
    let mut c: usize = 0;
    while c < input.len()
        invariant
            c <= input.len(),
            writes@ == all_writes(input@, c as nat),
        decreases input.len() - c,
    {
        let chunk = &input[c];
        let ghost before = writes@;
        let mut k: usize = 0;
        while k < chunk.instructions.len()
            invariant
                k <= chunk.instructions.len(),
                writes@ == before + chunk_writes(*chunk, k as nat),
            decreases chunk.instructions.len() - k,
        {
            let instruction = chunk.instructions[k];
            writes.push(
                (instruction.0, (instruction.1 & chunk.bitmask_zeroes) | chunk.bitmask_ones),
            );
            proof {
                assert(writes@ =~= before + chunk_writes(*chunk, (k + 1) as nat));
            }
            k += 1;
        }
        c += 1;
    }
    sum_memory(&writes)
}

/// Whether `b` is one of the characters `0`, `1` and `X`.
pub open spec fn is_mask_char(b: u8) -> bool {
    b == 48 || b == 49 || b == 88
}

/// Whether the mask holds only `0`, `1` and `X`.
pub open spec fn is_mask(mask: Seq<u8>) -> bool {
    forall|i: int| 0 <= i < mask.len() ==> is_mask_char(#[trigger] mask[i])
}

/// The numbers that come of `values` by one more binary digit at the
/// end: `0`, `1`, or for `X` both, the `0` first.
pub open spec fn with_digit(values: Seq<int>, digit: u8) -> Seq<int> {
    if digit == 88 {
        Seq::new(2 * values.len(), |i: int| 2 * values[i / 2] + i % 2)
    } else if digit == 49 {
        Seq::new(values.len(), |i: int| 2 * values[i] + 1)
    } else {
        Seq::new(values.len(), |i: int| 2 * values[i])
    }
}

/// The numbers that the first `k` characters of the mask spell in
/// binary, an `X` standing for either digit: in ascending order.
pub open spec fn variations(mask: Seq<u8>, k: nat) -> Seq<int>
    decreases k,
{
    if k == 0 {
        seq![0int]
    } else {
        with_digit(variations(mask, (k - 1) as nat), mask[k - 1])
    }
}

/// The numbers that `k` characters spell are below two to the power `k`.
pub proof fn lemma_variations_bound(mask: Seq<u8>, k: nat)
    ensures
        forall|i: int|
            0 <= i < variations(mask, k).len() ==> 0 <= #[trigger] variations(mask, k)[i] < pow2(k),
    decreases k,
{
    lemma2_to64();
    if k > 0 {
        lemma_variations_bound(mask, (k - 1) as nat);
        lemma_pow2_unfold(k);
        let before = variations(mask, (k - 1) as nat);
        let here = variations(mask, k);
        assert forall|i: int| 0 <= i < here.len() implies 0 <= #[trigger] here[i] < pow2(k) by {
            if mask[k - 1] == 88 {
                assert(0 <= before[i / 2] < pow2((k - 1) as nat));
            } else {
                assert(0 <= before[i] < pow2((k - 1) as nat));
            }
        }
    }
}

/// The values of some machine numbers.
pub open spec fn as_ints(values: Seq<u64>) -> Seq<int> {
    values.map_values(|v: u64| v as int)
}

/// The numbers that the mask spells in binary, an `X` standing for either digit.
pub fn bitmask_variation(bitmask: &[u8]) -> (result: Vec<u64>)
    requires
        is_mask(bitmask@),
        bitmask.len() <= 64,
    ensures
        as_ints(result@) == variations(bitmask@, bitmask@.len()),
{
    let mut values: Vec<u64> = Vec::new();
    values.push(0);
    let mut k: usize = 0;
    proof {
        assert(as_ints(values@) =~= variations(bitmask@, 0));
    }
    while k < bitmask.len()
        invariant
            k <= bitmask.len() <= 64,
            is_mask(bitmask@),
            as_ints(values@) == variations(bitmask@, k as nat),
        decreases bitmask.len() - k,
    {
        let digit = bitmask[k];
        let ghost before = variations(bitmask@, k as nat);
        let ghost after = variations(bitmask@, (k + 1) as nat);
        proof {
            lemma_variations_bound(bitmask@, k as nat);
            lemma_variations_bound(bitmask@, (k + 1) as nat);
            lemma2_to64();
            if k + 1 < 64 {
                lemma_pow2_strictly_increases((k + 1) as nat, 64);
            }
            assert(is_mask_char(bitmask@[k as int]));
        }
        let mut next: Vec<u64> = Vec::new();
        let mut i: usize = 0;
        while i < values.len()
            invariant
                i <= values.len(),
                as_ints(values@) == before,
                after == with_digit(before, digit),
                is_mask_char(digit),
                forall|j: int| 0 <= j < after.len() ==> 0 <= #[trigger] after[j] <= u64::MAX,
                next.len() == if digit == 88 {
                    2 * i
                } else {
                    i as int
                },
                forall|j: int| 0 <= j < next.len() ==> #[trigger] next[j] == after[j],
            decreases values.len() - i,
        {
            let v = values[i];
            assert(before[i as int] == v);
            if digit == 88 {
                assert(after[2 * i] == 2 * before[i as int]);
                assert(after[2 * i + 1] == 2 * before[i as int] + 1);
                next.push(v * 2);
                next.push(v * 2 + 1);
            } else if digit == 49 {
                assert(after[i as int] == 2 * before[i as int] + 1);
                next.push(v * 2 + 1);
            } else {
                assert(after[i as int] == 2 * before[i as int]);
                next.push(v * 2);
            }
            i += 1;
        }
        proof {
            assert(as_ints(next@) =~= after);
        }
        values = next;
        k += 1;
    }
    values
}

/// The digit of `num` at place `i` of its 36 binary digits, highest first.
pub open spec fn digit_at(num: u64, i: int) -> u8 {
    if (num >> ((35 - i) as u64)) & 1 == 1 {
        49
    } else {
        48
    }
}

/// The mask laid over the 36 binary digits of `num`: where the mask has
/// `0`, the digit of `num` shows.
pub open spec fn laid_over(num: u64, mask: Seq<u8>) -> Seq<u8> {
    Seq::new(
        if mask.len() < 36 {
            mask.len()
        } else {
            36
        },
        |i: int|
            if mask[i] == 48 {
                digit_at(num, i)
            } else {
                mask[i]
            },
    )
}

/// The addresses that come of `num` under the mask: a `1` of the mask
/// sets the digit, an `X` stands for either digit.
pub fn apply_with_variations(num: u64, bitmask: &[u8]) -> (result: Vec<u64>)
    requires
        is_mask(bitmask@),
        num < 0x10_0000_0000,
    ensures
        as_ints(result@) == variations(laid_over(num, bitmask@), laid_over(num, bitmask@).len()),
{
    let len: usize = if bitmask.len() < 36 {
        bitmask.len()
    } else {
        36
    };
    let mut intermediary: Vec<u8> = Vec::new();
    let mut i: usize = 0;
    while i < len
        invariant
            i <= len <= 36,
            len <= bitmask.len(),
            is_mask(bitmask@),
            intermediary.len() == i,
            forall|j: int| 0 <= j < i ==> #[trigger] intermediary[j] == laid_over(num, bitmask@)[j],
        decreases len - i,
    {
        let b = bitmask[i];
        assert(is_mask_char(bitmask@[i as int]));
        let shown: u8 = if b == 48 {
            if (num >> ((35 - i) as u64)) & 1 == 1 {
                49
            } else {
                48
            }
        } else {
            b
        };
        intermediary.push(shown);
        i += 1;
    }
    proof {
        assert(intermediary@ =~= laid_over(num, bitmask@));
    }
    bitmask_variation(intermediary.as_slice())
}

/// The writes that one instruction makes under the mask: its value to
/// each of the first `k` addresses that come of its address.
pub open spec fn spread(mask: Seq<u8>, instruction: (u64, u64), k: nat) -> Seq<(u64, u64)>
    decreases k,
{
    if k == 0 {
        Seq::empty()
    } else {
        spread(mask, instruction, (k - 1) as nat).push(
            (
                variations(
                    laid_over(instruction.0, mask),
                    laid_over(instruction.0, mask).len(),
                )[k - 1] as u64,
                instruction.1,
            ),
        )
    }
}

/// The writes that the first `k` instructions of a chunk make to the
/// addresses that come of theirs.
pub open spec fn chunk_spread(chunk: ProgramChunk, k: nat) -> Seq<(u64, u64)>
    decreases k,
{
    if k == 0 {
        Seq::empty()
    } else {
        chunk_spread(chunk, (k - 1) as nat) + spread(
            chunk.original_bitmask@,
            chunk.instructions[k - 1],
            variations(
                laid_over(chunk.instructions[k - 1].0, chunk.original_bitmask@),
                laid_over(chunk.instructions[k - 1].0, chunk.original_bitmask@).len(),
            ).len(),
        )
    }
}

/// The writes that the first `c` chunks make to the addresses that come of theirs.
pub open spec fn all_spread(chunks: Seq<ProgramChunk>, c: nat) -> Seq<(u64, u64)>
    decreases c,
{
    if c == 0 {
        Seq::empty()
    } else {
        all_spread(chunks, (c - 1) as nat) + chunk_spread(
            chunks[c - 1],
            chunks[c - 1].instructions@.len(),
        )
    }
}

/// Every mask holds only `0`, `1` and `X`, and every address has 36 binary digits.
pub open spec fn can_spread(chunks: Seq<ProgramChunk>) -> bool {
    forall|c: int, k: int|
        0 <= c < chunks.len() && 0 <= k < chunks[c].instructions@.len() ==> is_mask(
            chunks[c].original_bitmask@,
        ) && (#[trigger] chunks[c].instructions@[k]).0 < 0x10_0000_0000
}

/// The sum of what memory holds after the program, each value written
/// to all the addresses that come of its address under the mask.
pub fn part2(input: &[ProgramChunk]) -> (sum: u64)
    requires
        can_spread(input@),
        memory_sum(all_spread(input@, input@.len())) <= u64::MAX,
    ensures
        sum == memory_sum(all_spread(input@, input@.len())),
{
    let mut writes: Vec<(u64, u64)> = Vec::new();
    let mut c: usize = 0;
    while c < input.len()
        invariant
            c <= input.len(),
            can_spread(input@),
            writes@ == all_spread(input@, c as nat),
        decreases input.len() - c,
    {
        let chunk = &input[c];
        let ghost before = writes@;
        let mut k: usize = 0;
        while k < chunk.instructions.len()
            invariant
                k <= chunk.instructions.len(),
                c < input.len(),
                *chunk == input[c as int],
                can_spread(input@),
                writes@ == before + chunk_spread(*chunk, k as nat),
            decreases chunk.instructions.len() - k,
        {
            let instruction = chunk.instructions[k];
            assert(is_mask(input@[c as int].original_bitmask@) && input@[c as int].instructions@[k as int].0
                < 0x10_0000_0000);
            let addresses = apply_with_variations(instruction.0, chunk.original_bitmask.as_slice());
            let ghost base = writes@;
            let ghost laid = laid_over(instruction.0, chunk.original_bitmask@);
            let mut a: usize = 0;
            proof {
                lemma_variations_bound(laid, laid.len());
                lemma2_to64();
                if laid.len() < 64 {
                    lemma_pow2_strictly_increases(laid.len(), 64);
                }
            }
            while a < addresses.len()
                invariant
                    a <= addresses.len(),
                    laid == laid_over(instruction.0, chunk.original_bitmask@),
                    as_ints(addresses@) == variations(laid, laid.len()),
                    writes@ == base + spread(chunk.original_bitmask@, instruction, a as nat),
                decreases addresses.len() - a,
            {
                writes.push((addresses[a], instruction.1));
                proof {
                    assert(as_ints(addresses@)[a as int] == addresses[a as int]);
                    assert(writes@ =~= base + spread(
                        chunk.original_bitmask@,
                        instruction,
                        (a + 1) as nat,
                    ));
                }
                a += 1;
            }
            proof {
                assert(addresses@.len() == as_ints(addresses@).len());
                assert(writes@ =~= before + chunk_spread(*chunk, (k + 1) as nat));
            }
            k += 1;
        }
        c += 1;
    }
    sum_memory(&writes)
}


/// The number whose binary digits are one where the first `k` characters
/// of the mask are `which`, highest digit first.
pub open spec fn mask_bits(mask: Seq<char>, k: nat, which: char) -> u64
    decreases k,
{
    if k == 0 {
        0
    } else if mask[k - 1] == which {
        (mask_bits(mask, (k - 1) as nat, which) << 1) | 1
    } else {
        mask_bits(mask, (k - 1) as nat, which) << 1
    }
}

/// The line sets a mask: `mask = ` and characters of `X`, `0` and `1`.
pub open spec fn is_mask_line(s: Seq<char>) -> bool {
    stands_at(s, "mask = "@, 0) && s.len() > 7 && span_end(s, 7, CharClass::Word) == s.len()
}

/// The mask of a line that sets one holds only `X`, `0` and `1`.
pub open spec fn is_plain_mask(s: Seq<char>) -> bool {
    forall|i: int| 7 <= i < s.len() ==> #[trigger] s[i] == 'X' || s[i] == '0' || s[i] == '1'
}

/// The line writes to memory: `mem[`, an address, `] = `, and a value.
pub open spec fn is_write_line(s: Seq<char>) -> bool {
    let a = span_end(s, 4, CharClass::Digit);
    let b = span_end(s, a + 4, CharClass::Digit);
    stands_at(s, "mem["@, 0) && 4 < a && stands_at(s, "] = "@, a) && a + 4 < b && b == s.len()
}

/// The address that a line writes to.
pub open spec fn write_address(s: Seq<char>) -> int {
    decimal_value(s.subrange(4, span_end(s, 4, CharClass::Digit)))
}

/// The value that a line writes.
pub open spec fn write_value(s: Seq<char>) -> int {
    decimal_value(s.subrange(span_end(s, 4, CharClass::Digit) + 4, s.len() as int))
}

/// What a chunk holds.
pub struct Chunk {
    pub mask: Seq<u8>,
    pub zeroes: u64,
    pub ones: u64,
    pub writes: Seq<(u64, u64)>,
}

/// What a chunk holds.
pub open spec fn chunk_of(chunk: ProgramChunk) -> Chunk {
    Chunk {
        mask: chunk.original_bitmask@,
        zeroes: chunk.bitmask_zeroes,
        ones: chunk.bitmask_ones,
        writes: chunk.instructions@,
    }
}

/// What some chunks hold.
pub open spec fn chunks_of(chunks: Seq<ProgramChunk>) -> Seq<Chunk> {
    chunks.map_values(|chunk: ProgramChunk| chunk_of(chunk))
}

/// The chunk that a line with a mask opens.
pub open spec fn opened(s: Seq<char>) -> Chunk {
    let mask = s.subrange(7, s.len() as int);
    Chunk {
        mask: mask.map_values(|c: char| c as u8),
        zeroes: mask_bits(mask, mask.len(), 'X'),
        ones: mask_bits(mask, mask.len(), '1'),
        writes: Seq::empty(),
    }
}

/// What is read of the program after the first `k` lines: the chunks
/// that are closed, and the open one. A line with a mask closes the open
/// chunk if it has writes, and opens another; a line that writes adds to
/// the open chunk; any other line is passed over.
pub open spec fn program_after(lines: Seq<String>, k: nat) -> (Seq<Chunk>, Chunk)
    decreases k,
{
    if k == 0 {
        (Seq::empty(), Chunk { mask: Seq::empty(), zeroes: 0, ones: 0, writes: Seq::empty() })
    } else {
        let (closed, open) = program_after(lines, (k - 1) as nat);
        let line = lines[k - 1]@;
        if is_mask_line(line) {
            if open.writes.len() > 0 {
                (closed.push(open), opened(line))
            } else {
                (closed, opened(line))
            }
        } else if is_write_line(line) {
            (
                closed,
                Chunk {
                    writes: open.writes.push((write_address(line) as u64, write_value(line) as u64)),
                    ..open
                },
            )
        } else {
            (closed, open)
        }
    }
}

/// The chunks that the lines hold: those that are closed, and the open one.
pub open spec fn program_of(lines: Seq<String>) -> Seq<Chunk> {
    program_after(lines, lines.len()).0.push(program_after(lines, lines.len()).1)
}

/// The line can be read: a mask is plain, and the numbers of a write fit in 64 bits.
pub open spec fn is_program_line(s: Seq<char>) -> bool {
    &&& is_mask_line(s) ==> is_plain_mask(s)
    &&& is_write_line(s) ==> write_address(s) <= u64::MAX && write_value(s) <= u64::MAX
}

/// The chunk that a line opens, if it sets a mask.
fn read_mask(line: &Vec<char>) -> (chunk: Option<ProgramChunk>)
    requires
        is_mask_line(line@) ==> is_plain_mask(line@),
    ensures
        match chunk {
            Some(c) => is_mask_line(line@) && chunk_of(c) == opened(line@),
            None => !is_mask_line(line@),
        },
{
    let word = chars_of("mask = ");
    proof {
        reveal_strlit("mask = ");
    }
    if !check_stands_at(line, &word, 0) || line.len() <= 7 {
        return None;
    }
    let end = scan(line, 7, CharClass::Word);
    if end != line.len() {
        return None;
    }
    let ghost mask = line@.subrange(7, line@.len() as int);
    let mut bitmask_zeroes: u64 = 0;
    let mut bitmask_ones: u64 = 0;
    let mut original: Vec<u8> = Vec::new();
    let mut i: usize = 7;
    while i < line.len()
        invariant
            7 <= i <= line.len(),
            is_plain_mask(line@),
            mask == line@.subrange(7, line@.len() as int),
            bitmask_zeroes == mask_bits(mask, (i - 7) as nat, 'X'),
            bitmask_ones == mask_bits(mask, (i - 7) as nat, '1'),
            original@ == mask.take(i - 7).map_values(|c: char| c as u8),
        decreases line.len() - i,
    {
        let ch = line[i];
        assert(mask[i - 7] == ch);
        assert(line@[i as int] == 'X' || line@[i as int] == '0' || line@[i as int] == '1');
        if ch == 'X' {
            bitmask_zeroes = bitmask_zeroes << 1 | 1;
            bitmask_ones = bitmask_ones << 1;
        } else if ch == '0' {
            bitmask_zeroes = bitmask_zeroes << 1;
            bitmask_ones = bitmask_ones << 1;
        } else {
            bitmask_zeroes = bitmask_zeroes << 1;
            bitmask_ones = bitmask_ones << 1 | 1;
        }
        original.push(ch as u8);
        proof {
            assert(mask.take(i - 7 + 1).map_values(|c: char| c as u8) =~= mask.take(
                i - 7,
            ).map_values(|c: char| c as u8).push(ch as u8));
        }
        i += 1;
    }
    proof {
        assert(mask.take(mask.len() as int) =~= mask);
    }
    Some(
        ProgramChunk {
            original_bitmask: original,
            bitmask_zeroes,
            bitmask_ones,
            instructions: Vec::new(),
        },
    )
}

/// Address and value of the write that a line makes, if it makes one.
fn read_write(line: &Vec<char>) -> (write: Option<(u64, u64)>)
    requires
        is_write_line(line@) ==> write_address(line@) <= u64::MAX && write_value(line@) <= u64::MAX,
    ensures
        match write {
            Some(w) => is_write_line(line@) && w.0 == write_address(line@) && w.1 == write_value(
                line@,
            ),
            None => !is_write_line(line@),
        },
{
    let mem = chars_of("mem[");
    let assign = chars_of("] = ");
    proof {
        reveal_strlit("mem[");
        reveal_strlit("] = ");
    }
    if !check_stands_at(line, &mem, 0) {
        return None;
    }
    let a = scan(line, 4, CharClass::Digit);
    if a <= 4 || !check_stands_at(line, &assign, a) {
        return None;
    }
    let b = scan(line, a + 4, CharClass::Digit);
    if b <= a + 4 || b != line.len() {
        return None;
    }
    proof {
        lemma_span(line@, 4, CharClass::Digit);
        lemma_span(line@, a + 4, CharClass::Digit);
        assert(all_digits(line@.subrange(4, a as int)));
        assert(all_digits(line@.subrange(a + 4, b as int)));
    }
    let address = parse_range(line, 4, a, u64::MAX);
    let value = parse_range(line, a + 4, b, u64::MAX);
    match (address, value) {
        (Some(address), Some(value)) => Some((address, value)),
        _ => None,
    }
}

/// The program that the lines hold, chunk by chunk.
pub fn read_input(lines: &Vec<String>) -> (program: Vec<ProgramChunk>)
    requires
        forall|i: int| 0 <= i < lines.len() ==> is_program_line(#[trigger] lines[i]@),
    ensures
        chunks_of(program@) == program_of(lines@),
{
    let mut result: Vec<ProgramChunk> = Vec::new();
    let mut current_chunk = ProgramChunk {
        original_bitmask: Vec::new(),
        bitmask_zeroes: 0,
        bitmask_ones: 0,
        instructions: Vec::new(),
    };
    let mut k: usize = 0;
    proof {
        assert(chunks_of(result@) =~= program_after(lines@, 0).0);
    }
    while k < lines.len()
        invariant
            k <= lines.len(),
            forall|i: int| 0 <= i < lines.len() ==> is_program_line(#[trigger] lines[i]@),
            chunks_of(result@) == program_after(lines@, k as nat).0,
            chunk_of(current_chunk) == program_after(lines@, k as nat).1,
        decreases lines.len() - k,
    {
        let line = chars_of(lines[k].as_str());
        assert(is_program_line(lines[k as int]@));
        match read_mask(&line) {
            Some(chunk) => {
                if current_chunk.instructions.len() > 0 {
                    let ghost closed = chunks_of(result@);
                    let ghost open = chunk_of(current_chunk);
                    result.push(current_chunk);
                    proof {
                        assert(chunks_of(result@) =~= closed.push(open));
                    }
                }
                current_chunk = chunk;
            },
            None => {
                match read_write(&line) {
                    Some(write) => {
                        current_chunk.instructions.push(write);
                    },
                    None => {},
                }
            },
        }
        k += 1;
    }
    let ghost closed = chunks_of(result@);
    let ghost open = chunk_of(current_chunk);
    result.push(current_chunk);
    proof {
        assert(chunks_of(result@) =~= closed.push(open));
    }
    result
}

} // verus!
