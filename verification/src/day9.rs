//! Day 9: a stream of numbers, each the sum of two of those just before it.

use crate::adaptors::{extremes_of, sorted_copy, Extremes};
use crate::sorting::{found_in_sorted, lemma_same_members, values};
use vstd::prelude::*;

verus! {

/// How many numbers before a number are looked at for two that sum to it.
pub const PREAMBLE_SIZE: usize = 25;

/// Two of the numbers in `window`, or one of them taken twice, sum to `n`.
pub open spec fn is_pair_sum(n: int, window: Seq<int>) -> bool {
    exists|i: int, j: int|
        0 <= i < window.len() && 0 <= j < window.len() && #[trigger] window[i] + #[trigger] window[j]
            == n
}

/// Whether two of `numbers`, or one of them taken twice, sum to `n`.
pub fn is_sum_of_previous(n: i32, numbers: &[i32]) -> (found: bool)
    ensures
        found == is_pair_sum(n as int, values(numbers@)),
{
    let sorted = sorted_copy(numbers);
    proof {
        lemma_same_members(values(sorted@), values(numbers@));
    }
    let ghost given = values(numbers@);
    let mut i: usize = 0;
    while i < numbers.len()
        invariant
            i <= numbers.len(),
            given == values(numbers@),
            crate::sorting::ascending(values(sorted@)),
            forall|x: int| values(sorted@).contains(x) <==> given.contains(x),
            forall|a: int, b: int|
                0 <= a < i && 0 <= b < given.len() ==> #[trigger] given[a] + #[trigger] given[b]
                    != n,
        decreases numbers.len() - i,
    {
        let rest: i64 = n as i64 - numbers[i] as i64;
        assert(given[i as int] == numbers[i as int]);
        if i32::MIN as i64 <= rest && rest <= i32::MAX as i64 && found_in_sorted(
            sorted.as_slice(),
            rest as i32,
        ) {
            proof {
                assert(values(sorted@).contains(rest as int));
                assert(given.contains(rest as int));
                let b = choose|b: int| 0 <= b < given.len() && given[b] == rest;
                assert(given[i as int] + given[b] == n);
            }
            return true;
        }
        proof {
            assert forall|b: int| 0 <= b < given.len() implies given[i as int] + #[trigger] given[b]
                != n by {
                if given[i as int] + given[b] == n {
                    assert(given[b] == numbers[b]);
                    assert(given.contains(rest as int));
                }
            }
        }
        i += 1;
    }
    false
}

/// `i` is the place of a number that is not the sum of two of the
/// `PREAMBLE_SIZE` numbers before it.
pub open spec fn is_odd_one(s: Seq<int>, i: int) -> bool {
    25 <= i < s.len() && !is_pair_sum(s[i], s.subrange(i - 25, i))
}

/// The first number that is not the sum of two of the `PREAMBLE_SIZE`
/// numbers before it.
pub fn part1(numbers: &[i32]) -> (odd: i32)
    requires
        exists|i: int| is_odd_one(values(numbers@), i),
    ensures
        exists|i: int|
            is_odd_one(values(numbers@), i) && odd == numbers[i] && forall|j: int|
                j < i ==> !is_odd_one(values(numbers@), j),
{
    let ghost given = values(numbers@);
    let mut i: usize = PREAMBLE_SIZE;
    while i < numbers.len()
        invariant
            25 <= i,
            given == values(numbers@),
            forall|j: int| j < i ==> !is_odd_one(given, j),
        decreases numbers.len() - i,
    {
        let window = vstd::slice::slice_subrange(numbers, i - PREAMBLE_SIZE, i);
        assert(values(window@) =~= given.subrange(i - 25, i as int));
        assert(given[i as int] == numbers[i as int]);
        if !is_sum_of_previous(numbers[i], window) {
            assert(is_odd_one(given, i as int));
            return numbers[i];
        }
        i += 1;
    }
    proof {
        let w = choose|w: int| is_odd_one(given, w);
        assert(w < i);
    }
    0
}

/// The sum of the last `m` of the numbers.
pub open spec fn suffix_sum(s: Seq<int>, m: nat) -> int
    decreases m,
{
    if m == 0 {
        0
    } else {
        suffix_sum(s, (m - 1) as nat) + s[s.len() - m]
    }
}

/// `m` is the least count for which the last `m` numbers sum to `n` or more.
pub open spec fn is_stop(s: Seq<int>, n: int, m: nat) -> bool {
    &&& 1 <= m <= s.len()
    &&& suffix_sum(s, m) >= n
    &&& forall|k: nat| 1 <= k < m ==> #[trigger] suffix_sum(s, k) < n
}

/// The last `m` numbers sum to exactly `n`, and fewer of them to less.
pub open spec fn is_exact_run(s: Seq<int>, n: int, m: nat) -> bool {
    is_stop(s, n, m) && suffix_sum(s, m) == n
}

/// `lo` is the least and `hi` the greatest of the last `m` numbers.
pub open spec fn spans(s: Seq<int>, m: nat, lo: int, hi: int) -> bool {
    &&& exists|k: int| s.len() - m <= k < s.len() && s[k] == lo
    &&& exists|k: int| s.len() - m <= k < s.len() && s[k] == hi
    &&& forall|k: int| s.len() - m <= k < s.len() ==> lo <= #[trigger] s[k] <= hi
}

/// The sum of `m` numbers of 32 bits is small.
pub proof fn lemma_suffix_sum_bound(s: Seq<i32>, m: nat)
    requires
        m <= s.len(),
    ensures
        -0x8000_0000 * m <= suffix_sum(values(s), m) <= 0x8000_0000 * m,
    decreases m,
{
    if m > 0 {
        lemma_suffix_sum_bound(s, (m - 1) as nat);
        assert(values(s)[s.len() - m] == s[s.len() - m]);
    }
}

/// Looks from the end of `numbers` backwards for a run that sums to `n`:
/// the least and the greatest number of the shortest run from the end
/// that sums to `n` or more, if it sums to just `n`.
pub fn find_exact_sum_of_previous(n: i32, numbers: &[i32]) -> (found: Option<(i32, i32)>)
    requires
        numbers.len() <= u32::MAX,
        !is_exact_run(values(numbers@), n as int, 1),
    ensures
        match found {
            Some((lo, hi)) => exists|m: nat|
                is_exact_run(values(numbers@), n as int, m) && spans(
                    values(numbers@),
                    m,
                    lo as int,
                    hi as int,
                ),
            None => forall|m: nat| !is_exact_run(values(numbers@), n as int, m),
        },
{
    let ghost given = values(numbers@);
    let len = numbers.len();
    let mut sum: i64 = 0;
    let mut v: Vec<i32> = Vec::new();
    let mut m: usize = 0;
    while m < len
        invariant
            m <= len == numbers.len() <= u32::MAX,
            given == values(numbers@),
            sum == suffix_sum(given, m as nat),
            v.len() == m,
            forall|k: int| 0 <= k < m ==> #[trigger] v[k] == numbers[len - 1 - k],
            forall|k: nat| 1 <= k <= m ==> #[trigger] suffix_sum(given, k) < n,
            !is_exact_run(given, n as int, 1),
        decreases len - m,
    {
        let num = numbers[len - 1 - m];
        proof {
            lemma_suffix_sum_bound(numbers@, m as nat);
            lemma_suffix_sum_bound(numbers@, (m + 1) as nat);
            assert(given[len - (m + 1)] == num);
            assert(0x8000_0000 * (m + 1) <= 0x8000_0000 * 0x1_0000_0000) by (nonlinear_arith)
                requires
                    m + 1 <= 0x1_0000_0000,
            ;
        }
        sum = sum + num as i64;
        v.push(num);
        m += 1;
        if sum > n as i64 {
            assert(is_stop(given, n as int, m as nat));
            assert forall|k: nat| !is_exact_run(given, n as int, k) by {
                if is_exact_run(given, n as int, k) {
                    if k < m {
                        assert(suffix_sum(given, k) < n);
                    } else if k > m {
                        assert(suffix_sum(given, m as nat) < n);
                    }
                }
            }
            return None;
        }
        if sum == n as i64 {
            assert(is_exact_run(given, n as int, m as nat));
            match extremes_of(v.as_slice()) {
                Extremes::Pair(lo, hi) => {
                    proof {
                        let a = choose|a: int| 0 <= a < v.len() && v[a] == lo;
                        let b = choose|b: int| 0 <= b < v.len() && v[b] == hi;
                        assert(given[len - 1 - a] == lo);
                        assert(given[len - 1 - b] == hi);
                        assert forall|k: int| len - m <= k < len implies lo <= #[trigger] given[k]
                            <= hi by {
                            assert(v[len - 1 - k] == numbers[k]);
                        }
                        assert(spans(given, m as nat, lo as int, hi as int));
                    }
                    return Some((lo, hi));
                },
                _ => {
                    assert(m == 1);
                    return None;
                },
            }
        }
    }
    proof {
        assert forall|k: nat| !is_exact_run(given, n as int, k) by {
            if is_exact_run(given, n as int, k) {
                assert(suffix_sum(given, k) < n);
            }
        }
    }
    None
}

/// The numbers before place `i` end in a run that sums to exactly `target`.
pub open spec fn ends_run(s: Seq<int>, target: int, i: int) -> bool {
    0 <= i < s.len() && exists|m: nat| is_exact_run(s.take(i), target, m)
}

/// The sum of the least and the greatest number of the first run found
/// that sums to `target`: the runs that end before each place are looked
/// at, place by place.
pub fn part2(target: i32, numbers: &[i32]) -> (weakness: i32)
    requires
        numbers.len() <= u32::MAX,
        exists|i: int| ends_run(values(numbers@), target as int, i),
        forall|i: int|
            0 <= i < numbers.len() ==> !is_exact_run(
                #[trigger] values(numbers@).take(i),
                target as int,
                1,
            ),
        forall|i: int, m: nat, lo: int, hi: int|
            0 <= i < numbers.len() && is_exact_run(values(numbers@).take(i), target as int, m)
                && #[trigger] spans(values(numbers@).take(i), m, lo, hi) ==> i32::MIN <= lo + hi
                <= i32::MAX,
    ensures
        exists|i: int, m: nat, lo: int, hi: int|
            is_exact_run(values(numbers@).take(i), target as int, m) && #[trigger] spans(
                values(numbers@).take(i),
                m,
                lo,
                hi,
            ) && weakness == lo + hi && 0 <= i < numbers.len() && forall|j: int|
                j < i ==> !ends_run(values(numbers@), target as int, j),
{
    let ghost given = values(numbers@);
    let mut i: usize = 0;
    while i < numbers.len()
        invariant
            numbers.len() <= u32::MAX,
            given == values(numbers@),
            forall|j: int| j < i ==> !ends_run(given, target as int, j),
            forall|j: int|
                0 <= j < numbers.len() ==> !is_exact_run(#[trigger] given.take(j), target as int, 1),
            forall|j: int, m: nat, lo: int, hi: int|
                0 <= j < numbers.len() && is_exact_run(given.take(j), target as int, m)
                    && #[trigger] spans(given.take(j), m, lo, hi) ==> i32::MIN <= lo + hi
                    <= i32::MAX,
        decreases numbers.len() - i,
    {
        let before = vstd::slice::slice_subrange(numbers, 0, i);
        assert(values(before@) =~= given.take(i as int));
        match find_exact_sum_of_previous(target, before) {
            Some((lo, hi)) => {
                let ghost m = choose|m: nat|
                    is_exact_run(given.take(i as int), target as int, m) && spans(
                        given.take(i as int),
                        m,
                        lo as int,
                        hi as int,
                    );
                assert(spans(given.take(i as int), m, lo as int, hi as int));
                return lo + hi;
            },
            None => {
                assert(!ends_run(given, target as int, i as int));
            },
        }
        i += 1;
    }
    proof {
        let w = choose|w: int| ends_run(given, target as int, w);
        assert(w < i);
    }
    0
}


/// The numbers that the lines spell, in order; a line that spells none is passed over.
pub fn read_numbers(lines: &Vec<String>) -> (numbers: Vec<i32>)
    ensures
        values(numbers@) == crate::day1::numbers_of(lines@),
{
    crate::day1::read_numbers(lines)
}

} // verus!
