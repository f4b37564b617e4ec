//! Day 1: entries of an expense report that sum to 2020.

use crate::adaptors::{all_pairs, pairs_in_order};
use crate::sorting::{found_in_sorted, lemma_ascending_is_sorted, lemma_same_members, sort_in_place, values};
use crate::text::{parse_i32, signed_value};
use vstd::prelude::*;

verus! {

/// `x` is an entry whose complement to 2020 is an entry too.
pub open spec fn is_entry(s: Seq<int>, x: int) -> bool {
    s.contains(x) && s.contains(2020 - x)
}

/// `x` is the least such entry.
pub open spec fn is_least_entry(s: Seq<int>, x: int) -> bool {
    is_entry(s, x) && forall|y: int| is_entry(s, y) ==> x <= y
}

/// The product of the least entry whose complement to 2020 is also an
/// entry, and that complement.
pub fn part1(numbers: Vec<i32>) -> (product: i32)
    requires
        exists|x: int| is_entry(values(numbers@), x),
        forall|x: int|
            is_least_entry(values(numbers@), x) ==> i32::MIN <= x * (2020 - x) <= i32::MAX,
    ensures
        exists|x: int| is_least_entry(values(numbers@), x) && product == x * (2020 - x),
{
    let ghost given = values(numbers@);
    let mut sorted = numbers;
    sort_in_place(&mut sorted);
    proof {
        lemma_same_members(values(sorted@), given);
    }
    let mut i: usize = 0;
    while i < sorted.len()
        invariant
            i <= sorted.len(),
            given == values(numbers@),
            crate::sorting::ascending(values(sorted@)),
            forall|x: int| values(sorted@).contains(x) <==> given.contains(x),
            forall|j: int| 0 <= j < i ==> !is_entry(given, #[trigger] values(sorted@)[j]),
            forall|x: int| is_least_entry(given, x) ==> i32::MIN <= x * (2020 - x) <= i32::MAX,
        decreases sorted.len() - i,
    {
        let number = sorted[i];
        let target: i64 = 2020 - number as i64;
        assert(values(sorted@)[i as int] == number);
        if i32::MIN as i64 <= target && target <= i32::MAX as i64 && found_in_sorted(
            sorted.as_slice(),
            target as i32,
        ) {
            proof {
                assert(is_entry(given, number as int));
                assert forall|y: int| is_entry(given, y) implies number <= y by {
                    let k = choose|k: int| 0 <= k < sorted.len() && values(sorted@)[k] == y;
                    assert(!(k < i));
                    if k > i {
                        assert(values(sorted@)[i as int] <= values(sorted@)[k]);
                    }
                }
                assert(is_least_entry(given, number as int));
                assert(-0x4000_0000_0000_0000 <= number as int * target as int
                    <= 0x4000_0000_0000_0000) by (nonlinear_arith)
                    requires
                        -0x8000_0000 <= number <= 0x8000_0000,
                        -0x8000_0000 <= target <= 0x8000_0000,
                ;
            }
            let product = (number as i64 * target) as i32;
            assert(is_least_entry(given, number as int));
            assert(product == number as int * (2020 - number as int));
            return product;
        }
        proof {
            if values(sorted@).contains(2020 - number) {
                let k = choose|k: int|
                    0 <= k < sorted.len() && values(sorted@)[k] == 2020 - number;
                assert(sorted@[k] == 2020 - number);
            }
        }
        i += 1;
    }
    proof {
        let x = choose|x: int| is_entry(given, x);
        let k = choose|k: int| 0 <= k < sorted.len() && values(sorted@)[k] == x;
        assert(!is_entry(given, values(sorted@)[k]));
    }
    0
}

/// Whether the complement to 2020 of the sum of the pair is an entry.
pub open spec fn completes(s: Seq<int>, pair: (int, int)) -> bool {
    s.contains(2020 - pair.0 - pair.1)
}

/// `k` is the place of the first pair, among all pairs of places of the
/// sorted entries, whose complement to 2020 is an entry.
pub open spec fn is_first_triple(s: Seq<int>, k: int) -> bool {
    &&& 0 <= k < all_pairs(s.sort()).len()
    &&& completes(s, all_pairs(s.sort())[k])
    &&& forall|j: int| 0 <= j < k ==> !completes(s, #[trigger] all_pairs(s.sort())[j])
}

/// The product of the three entries of the triple that `pair` starts.
pub open spec fn triple_product(pair: (int, int)) -> int {
    pair.0 * pair.1 * (2020 - pair.0 - pair.1)
}

/// The product of three entries that sum to 2020: of the first pair, among
/// the pairs of the sorted entries, whose complement is an entry, and that
/// complement.
pub fn part2(numbers: Vec<i32>) -> (product: i32)
    requires
        exists|k: int| is_first_triple(values(numbers@), k),
        forall|k: int|
            is_first_triple(values(numbers@), k) ==> i32::MIN <= triple_product(
                all_pairs(values(numbers@).sort())[k],
            ) <= i32::MAX,
    ensures
        exists|k: int|
            is_first_triple(values(numbers@), k) && product == triple_product(
                all_pairs(values(numbers@).sort())[k],
            ),
{
    let ghost given = values(numbers@);
    let mut sorted = numbers;
    sort_in_place(&mut sorted);
    let pairs = pairs_in_order(sorted.as_slice());
    proof {
        lemma_same_members(values(sorted@), given);
        lemma_ascending_is_sorted(given, values(sorted@));
        lemma_pairs_of_values(sorted@);
    }
    let mut k: usize = 0;
    while k < pairs.len()
        invariant
            k <= pairs.len(),
            given == values(numbers@),
            crate::sorting::ascending(values(sorted@)),
            forall|x: int| values(sorted@).contains(x) <==> given.contains(x),
            pairs@.len() == all_pairs(given.sort()).len(),
            forall|j: int|
                0 <= j < pairs.len() ==> (#[trigger] pairs[j]).0 == all_pairs(given.sort())[j].0
                    && pairs[j].1 == all_pairs(given.sort())[j].1,
            forall|j: int| 0 <= j < k ==> !completes(given, #[trigger] all_pairs(given.sort())[j]),
            forall|k: int|
                is_first_triple(given, k) ==> i32::MIN <= triple_product(
                    all_pairs(given.sort())[k],
                ) <= i32::MAX,
        decreases pairs.len() - k,
    {
        let first = pairs[k].0;
        let second = pairs[k].1;
        let target: i64 = 2020 - first as i64 - second as i64;
        if i32::MIN as i64 <= target && target <= i32::MAX as i64 && found_in_sorted(
            sorted.as_slice(),
            target as i32,
        ) {
            proof {
                assert(is_first_triple(given, k as int));
                assert(first as i128 * second as i128 * target as i128 == triple_product(
                    all_pairs(given.sort())[k as int],
                ));
                assert(-0x8000_0000_0000_0000 <= first as int * second as int
                    <= 0x8000_0000_0000_0000) by (nonlinear_arith)
                    requires
                        -0x8000_0000 <= first <= 0x8000_0000,
                        -0x8000_0000 <= second <= 0x8000_0000,
                ;
            }
            let two: i128 = first as i128 * second as i128;
            assert(-0x1_0000_0000_0000_0000_0000_0000 <= two * target
                <= 0x1_0000_0000_0000_0000_0000_0000) by (nonlinear_arith)
                requires
                    -0x8000_0000_0000_0000 <= two <= 0x8000_0000_0000_0000,
                    -0x2_0000_0000 <= target <= 0x2_0000_0000,
            ;
            let product = (two * target as i128) as i32;
            assert(is_first_triple(given, k as int));
            assert(product == triple_product(all_pairs(given.sort())[k as int]));
            return product;
        }
        proof {
            if values(sorted@).contains(2020 - first - second) {
                let j = choose|j: int|
                    0 <= j < sorted.len() && values(sorted@)[j] == 2020 - first - second;
                assert(sorted@[j] == 2020 - first - second);
            }
        }
        k += 1;
    }
    proof {
        let k = choose|k: int| is_first_triple(given, k);
        assert(!completes(given, all_pairs(given.sort())[k]));
    }
    0
}

/// The pairs of the values are the values of the pairs.
proof fn lemma_pairs_of_values(s: Seq<i32>)
    ensures
        all_pairs(values(s)).len() == all_pairs(s).len(),
        forall|k: int|
            0 <= k < all_pairs(s).len() ==> (#[trigger] all_pairs(s)[k]).0 == all_pairs(
                values(s),
            )[k].0 && all_pairs(s)[k].1 == all_pairs(values(s))[k].1,
    decreases s.len(),
{
    if s.len() >= 2 {
        lemma_pairs_of_values(s.drop_first());
        assert(values(s).drop_first() =~= values(s.drop_first()));
    }
}

/// The number that a line spells, if it spells one that fits.
pub open spec fn line_number(line: String) -> Option<int> {
    signed_value(line@, i32::MIN as int, i32::MAX as int)
}

/// The numbers that the lines spell, in order; a line that spells none is passed over.
pub open spec fn numbers_of(lines: Seq<String>) -> Seq<int>
    decreases lines.len(),
{
    if lines.len() == 0 {
        Seq::empty()
    } else {
        match line_number(lines.last()) {
            Some(v) => numbers_of(lines.drop_last()).push(v),
            None => numbers_of(lines.drop_last()),
        }
    }
}

/// The numbers that the lines spell; a line that spells none is passed over.
pub fn read_numbers(lines: &Vec<String>) -> (numbers: Vec<i32>)
    ensures
        values(numbers@) == numbers_of(lines@),
{
    let mut numbers: Vec<i32> = Vec::new();
    let mut i: usize = 0;
    while i < lines.len()
        invariant
            i <= lines.len(),
            values(numbers@) == numbers_of(lines@.take(i as int)),
        decreases lines.len() - i,
    {
        proof {
            assert(lines@.take(i + 1).drop_last() =~= lines@.take(i as int));
        }
        match parse_i32(lines[i].as_str()) {
            Some(v) => {
                numbers.push(v);
                assert(values(numbers@) =~= numbers_of(lines@.take(i as int)).push(v as int));
            },
            None => {},
        }
        i += 1;
    }
    proof {
        assert(lines@.take(i as int) =~= lines@);
    }
    numbers
}

} // verus!
