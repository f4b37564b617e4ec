//! Day 10: chains of joltage adapters.

use crate::adaptors::pair_windows;
use crate::sorting::{lemma_ascending_is_sorted, sort_in_place, values};
use crate::text::{parse_u32, unsigned_value};
use vstd::prelude::*;

verus! {

/// Each adapter is rated at least as high as the one before it.
pub open spec fn rising(s: Seq<u32>) -> bool {
    forall|i: int, j: int| 0 <= i <= j < s.len() ==> s[i] <= s[j]
}

/// The number of neighbours among the adapters.
pub open spec fn steps_of(s: Seq<u32>) -> nat {
    if s.len() == 0 {
        0
    } else {
        (s.len() - 1) as nat
    }
}

/// How many of the first `k` steps between neighbours are steps of one.
pub open spec fn unit_steps(s: Seq<u32>, k: nat) -> nat
    decreases k,
{
    if k == 0 {
        0
    } else {
        unit_steps(s, (k - 1) as nat) + if s[k as int] - s[k - 1] == 1 {
            1nat
        } else {
            0nat
        }
    }
}

/// The number of steps of one between neighbours times the number of other steps.
pub fn part1(adapters: &Vec<u32>) -> (product: u32)
    requires
        rising(adapters@),
        adapters.len() <= u32::MAX,
        unit_steps(adapters@, steps_of(adapters@)) * (steps_of(adapters@) - unit_steps(
            adapters@,
            steps_of(adapters@),
        )) <= u32::MAX,
    ensures
        product == unit_steps(adapters@, steps_of(adapters@)) * (steps_of(adapters@) - unit_steps(
            adapters@,
            steps_of(adapters@),
        )),
{
    let windows = pair_windows(adapters.as_slice());
    let mut ones: u32 = 0;
    let mut others: u32 = 0;
    let mut i: usize = 0;
    while i < windows.len()
        invariant
            i <= windows.len() == steps_of(adapters@) <= u32::MAX,
            rising(adapters@),
            forall|j: int|
                0 <= j < windows.len() ==> #[trigger] windows[j] == (adapters[j], adapters[j + 1]),
            ones == unit_steps(adapters@, i as nat),
            ones + others == i,
        decreases windows.len() - i,
    {
        let (first, second) = windows[i];
        if second - first == 1 {
            ones += 1;
        } else {
            others += 1;
        }
        i += 1;
    }
    ones * others
}

/// The number of ways to leave adapters out of a run of `run` adapters
/// that are less than three apart.
pub open spec fn ways_of_run(run: int) -> int {
    if run == 3 {
        2
    } else if run == 4 {
        4
    } else if run == 5 {
        7
    } else {
        1
    }
}

/// Where the count stands after some adapters.
pub struct Tally {
    /// The rating of the adapter seen last; zero before the first.
    pub last: int,
    /// The length of the run that the last adapter belongs to.
    pub run: int,
    /// The product of the ways of the runs that are closed.
    pub ways: int,
}

/// The tally after the first `k` adapters: a run is closed by a step of
/// three, or when it holds five adapters.
pub open spec fn tally_after(s: Seq<u32>, k: nat) -> Tally
    decreases k,
{
    if k == 0 {
        Tally { last: 0, run: 0, ways: 1 }
    } else {
        let before = tally_after(s, (k - 1) as nat);
        let adapter = s[k - 1] as int;
        if adapter - before.last == 3 || before.run == 5 {
            Tally { last: adapter, run: 1, ways: before.ways * ways_of_run(before.run) }
        } else {
            Tally { last: adapter, run: before.run + 1, ways: before.ways }
        }
    }
}

/// The tally keeps to the last adapter, its run is at most five long, and
/// its product never falls.
pub proof fn lemma_tally(s: Seq<u32>, k: nat, m: nat)
    requires
        k <= m <= s.len(),
    ensures
        0 <= tally_after(s, k).run <= 5,
        1 <= tally_after(s, k).ways <= tally_after(s, m).ways,
        k > 0 ==> tally_after(s, k).last == s[k - 1],
        k == 0 ==> tally_after(s, k).last == 0,
    decreases m, k,
{
    if k < m {
        lemma_tally(s, k, (m - 1) as nat);
        lemma_tally(s, (m - 1) as nat, (m - 1) as nat);
        let before = tally_after(s, (m - 1) as nat);
        assert(before.ways <= before.ways * ways_of_run(before.run)) by (nonlinear_arith)
            requires
                before.ways >= 1,
                ways_of_run(before.run) >= 1,
        ;
    } else if k > 0 {
        lemma_tally(s, (k - 1) as nat, (k - 1) as nat);
        let before = tally_after(s, (k - 1) as nat);
        assert(1 <= before.ways * ways_of_run(before.run)) by (nonlinear_arith)
            requires
                before.ways >= 1,
                ways_of_run(before.run) >= 1,
        ;
    }
}

/// The product of the ways of the closed runs of the adapters.
pub fn part2(adapters: &Vec<u32>) -> (ways: u64)
    requires
        rising(adapters@),
        tally_after(adapters@, adapters@.len()).ways <= u64::MAX,
    ensures
        ways == tally_after(adapters@, adapters@.len()).ways,
{
    let mut last_adapter: u32 = 0;
    let mut run: usize = 0;
    let mut result: u64 = 1;
    let mut i: usize = 0;
    while i < adapters.len()
        invariant
            i <= adapters.len(),
            rising(adapters@),
            tally_after(adapters@, adapters@.len()).ways <= u64::MAX,
            last_adapter == tally_after(adapters@, i as nat).last,
            run == tally_after(adapters@, i as nat).run,
            result == tally_after(adapters@, i as nat).ways,
        decreases adapters.len() - i,
    {
        proof {
            lemma_tally(adapters@, i as nat, i as nat);
            lemma_tally(adapters@, (i + 1) as nat, adapters@.len());
            if i > 0 {
                assert(adapters[i - 1] <= adapters[i as int]);
            }
        }
        let adapter = adapters[i];
        if adapter - last_adapter == 3 || run == 5 {
            if run == 3 {
                result *= 2;
            } else if run == 4 {
                result *= 4;
            } else if run == 5 {
                result *= 7;
            }
            run = 1;
        } else {
            run += 1;
        }
        last_adapter = adapter;
        i += 1;
    }
    result
}

/// `top` is the greatest of the ratings.
pub open spec fn is_top(ratings: Seq<int>, top: int) -> bool {
    ratings.contains(top) && forall|i: int| 0 <= i < ratings.len() ==> ratings[i] <= top
}

/// The rating that a line spells.
pub open spec fn rating_of(line: String) -> Option<int> {
    unsigned_value(line@, u32::MAX as int)
}

/// The ratings that the lines spell.
pub open spec fn ratings_of(lines: Seq<String>) -> Seq<int> {
    lines.map_values(|line: String| rating_of(line).unwrap())
}

/// The adapters that the lines spell, with the outlet, rated zero, and
/// the device, rated three above the highest adapter, in ascending order.
pub fn read_adapters(lines: &Vec<String>) -> (adapters: Vec<u32>)
    requires
        forall|i: int| 0 <= i < lines.len() ==> rating_of(#[trigger] lines[i]) is Some,
        forall|i: int| 0 <= i < lines.len() ==> ratings_of(lines@)[i] + 3 <= u32::MAX,
    ensures
        exists|top: int|
            is_top(ratings_of(lines@).push(0), top) && values(adapters@) == ratings_of(
                lines@,
            ).push(0).push(top + 3).sort(),
        rising(adapters@),
{
    let mut adapters: Vec<u32> = Vec::new();
    let mut top: u32 = 0;
    let ghost mut top_at: int = 0;
    let mut i: usize = 0;
    while i < lines.len()
        invariant
            i <= lines.len(),
            forall|j: int| 0 <= j < lines.len() ==> rating_of(#[trigger] lines[j]) is Some,
            forall|j: int| 0 <= j < lines.len() ==> ratings_of(lines@)[j] + 3 <= u32::MAX,
            adapters.len() == i,
            forall|j: int| 0 <= j < i ==> #[trigger] adapters[j] == ratings_of(lines@)[j],
            forall|j: int| 0 <= j < i ==> #[trigger] adapters[j] <= top,
            top == 0 || (0 <= top_at < i && adapters[top_at] == top),
            top + 3 <= u32::MAX,
        decreases lines.len() - i,
    {
        match parse_u32(lines[i].as_str()) {
            Some(rating) => {
                assert(rating == ratings_of(lines@)[i as int]);
                adapters.push(rating);
                if rating > top {
                    top = rating;
                    proof {
                        top_at = i as int;
                    }
                }
            },
            None => {
                assert(rating_of(lines[i as int]) is Some);
            },
        }
        i += 1;
    }
    adapters.push(0);
    adapters.push(top + 3);
    let ghost unsorted = values(adapters@);
    proof {
        let given = ratings_of(lines@).push(0);
        assert(unsorted =~= given.push(top + 3));
        if top == 0 {
            assert(given[given.len() - 1] == 0);
        } else {
            assert(given[top_at] == top);
        }
        assert forall|j: int| 0 <= j < given.len() implies given[j] <= top by {
            if j < i {
                assert(adapters[j] <= top);
            }
        }
        assert(is_top(given, top as int));
    }
    sort_in_place(&mut adapters);
    proof {
        lemma_ascending_is_sorted(unsorted, values(adapters@));
        assert forall|a: int, b: int| 0 <= a <= b < adapters.len() implies adapters[a]
            <= adapters[b] by {
            if a < b {
                assert(values(adapters@)[a] <= values(adapters@)[b]);
            }
        }
    }
    adapters
}

} // verus!
