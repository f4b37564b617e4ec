//! Day 6: the questions that the people of a group answered with yes.

use crate::adaptors::{count_unique, views_of};
use crate::text::{chars_of, lemma_push_contains};
use vstd::prelude::*;

verus! {

/// Where the count of questions stands after some lines: the sum over the
/// groups that are closed, and the answers of the group that is open.
pub struct AnyTally {
    pub sum: nat,
    pub group: Seq<char>,
}

/// The tally after the first `k` lines, counting for each group the
/// questions that anyone answered: an empty line closes a group, and so
/// does the last line.
pub open spec fn any_after(lines: Seq<String>, k: nat) -> AnyTally
    decreases k,
{
    if k == 0 {
        AnyTally { sum: 0, group: Seq::empty() }
    } else {
        let before = any_after(lines, (k - 1) as nat);
        let line = lines[k - 1]@;
        if line.len() == 0 {
            AnyTally { sum: before.sum + before.group.to_set().len(), group: Seq::empty() }
        } else if k == lines.len() {
            AnyTally { sum: before.sum + (before.group + line).to_set().len(), group: Seq::empty() }
        } else {
            AnyTally { sum: before.sum, group: before.group + line }
        }
    }
}

/// The sum never falls.
pub proof fn lemma_any_sum_grows(lines: Seq<String>, k: nat, m: nat)
    requires
        k <= m,
    ensures
        any_after(lines, k).sum <= any_after(lines, m).sum,
    decreases m,
{
    if k < m {
        lemma_any_sum_grows(lines, k, (m - 1) as nat);
    }
}

/// Puts the characters of `line` behind those in `group`.
fn extend(group: &mut Vec<char>, line: &Vec<char>)
    ensures
        final(group)@ == old(group)@ + line@,
{
    let mut i: usize = 0;
    while i < line.len()
        invariant
            i <= line.len(),
            group@ == old(group)@ + line@.take(i as int),
        decreases line.len() - i,
    {
        group.push(line[i]);
        proof {
            assert(line@.take(i + 1) =~= line@.take(i as int).push(line[i as int]));
            assert(group@ =~= old(group)@ + line@.take(i + 1));
        }
        i += 1;
    }
    proof {
        assert(line@.take(i as int) =~= line@);
    }
}

/// The sum, over the groups, of the number of questions that anyone in
/// the group answered.
pub fn part1(input: &[String]) -> (sum: usize)
    requires
        any_after(input@, input@.len()).sum <= usize::MAX,
    ensures
        sum == any_after(input@, input@.len()).sum,
{
    let mut group: Vec<char> = Vec::new();
    let mut result: usize = 0;
    let mut num: usize = 0;
    while num < input.len()
        invariant
            num <= input.len(),
            any_after(input@, input@.len()).sum <= usize::MAX,
            result == any_after(input@, num as nat).sum,
            group@ == any_after(input@, num as nat).group,
        decreases input.len() - num,
    {
        proof {
            lemma_any_sum_grows(input@, (num + 1) as nat, input@.len());
        }
        let line = chars_of(input[num].as_str());
        if line.len() == 0 {
            assert(views_of(group@) =~= group@);
            result += count_unique(group.as_slice());
            group = Vec::new();
        } else if num == input.len() - 1 {
            extend(&mut group, &line);
            assert(views_of(group@) =~= group@);
            result += count_unique(group.as_slice());
            group = Vec::new();
        } else {
            extend(&mut group, &line);
        }
        num += 1;
    }
    result
}

/// Where the count of questions stands after some lines: the sum over the
/// groups that are closed, the questions that everyone of the open group
/// answered so far, and whether the open group is still without a line.
pub struct AllTally {
    pub sum: nat,
    pub common: Set<char>,
    pub is_new_group: bool,
}

/// The tally after the first `k` lines, counting for each group the
/// questions that everyone answered: an empty line closes a group; the
/// last line is counted with its group, which then stays open.
pub open spec fn all_after(lines: Seq<String>, k: nat) -> AllTally
    decreases k,
{
    if k == 0 {
        AllTally { sum: 0, common: Set::empty(), is_new_group: true }
    } else {
        let before = all_after(lines, (k - 1) as nat);
        let line = lines[k - 1]@.to_set();
        let common = if before.is_new_group {
            line
        } else {
            before.common.intersect(line)
        };
        if lines[k - 1]@.len() == 0 {
            AllTally {
                sum: before.sum + before.common.len(),
                common: Set::empty(),
                is_new_group: true,
            }
        } else if k == lines.len() {
            AllTally { sum: before.sum + common.len(), ..before }
        } else {
            AllTally { sum: before.sum, common: common, is_new_group: false }
        }
    }
}

/// The sum never falls.
pub proof fn lemma_all_sum_grows(lines: Seq<String>, k: nat, m: nat)
    requires
        k <= m,
    ensures
        all_after(lines, k).sum <= all_after(lines, m).sum,
    decreases m,
{
    if k < m {
        lemma_all_sum_grows(lines, k, (m - 1) as nat);
    }
}

/// Whether `c` is among `chars`.
fn holds(chars: &Vec<char>, c: char) -> (found: bool)
    ensures
        found == chars@.contains(c),
{
    let mut i: usize = 0;
    while i < chars.len()
        invariant
            i <= chars.len(),
            forall|j: int| 0 <= j < i ==> chars[j] != c,
        decreases chars.len() - i,
    {
        if chars[i] == c {
            return true;
        }
        i += 1;
    }
    false
}

/// The characters of `line`, each once; only those that are also in
/// `within`, where it is given.
fn distinct_where(line: &Vec<char>, within: Option<&Vec<char>>) -> (chosen: Vec<char>)
    ensures
        chosen@.no_duplicates(),
        chosen@.to_set() == match within {
            Some(other) => other@.to_set().intersect(line@.to_set()),
            None => line@.to_set(),
        },
{
    let mut chosen: Vec<char> = Vec::new();
    let mut i: usize = 0;
    while i < line.len()
        invariant
            i <= line.len(),
            chosen@.no_duplicates(),
            forall|c: char|
                chosen@.contains(c) <==> line@.take(i as int).contains(c) && match within {
                    Some(other) => other@.contains(c),
                    None => true,
                },
        decreases line.len() - i,
    {
        let c = line[i];
        let wanted = match within {
            Some(other) => holds(other, c),
            None => true,
        };
        let ghost before = chosen@;
        let ghost sofar = line@.take(i as int);
        proof {
            assert(line@.take(i + 1) =~= sofar.push(c));
            lemma_push_contains(sofar, c);
            lemma_push_contains(before, c);
        }
        if wanted && !holds(&chosen, c) {
            chosen.push(c);
        }
        proof {
            assert forall|x: char|
                chosen@.contains(x) <==> sofar.push(c).contains(x) && match within {
                    Some(other) => other@.contains(x),
                    None => true,
                } by {
                assert(sofar.push(c).contains(x) <==> (sofar.contains(x) || x == c));
                assert(before.push(c).contains(x) <==> (before.contains(x) || x == c));
            }
        }
        i += 1;
    }
    proof {
        assert(line@.take(i as int) =~= line@);
        let goal = match within {
            Some(other) => other@.to_set().intersect(line@.to_set()),
            None => line@.to_set(),
        };
        assert(chosen@.to_set() =~= goal);
    }
    chosen
}

/// The sum, over the groups, of the number of questions that everyone in
/// the group answered.
pub fn part2(input: &[String]) -> (sum: usize)
    requires
        all_after(input@, input@.len()).sum <= usize::MAX,
    ensures
        sum == all_after(input@, input@.len()).sum,
{
    let mut set: Vec<char> = Vec::new();
    let mut result: usize = 0;
    let mut is_new_group = true;
    let mut num: usize = 0;
    while num < input.len()
        invariant
            num <= input.len(),
            all_after(input@, input@.len()).sum <= usize::MAX,
            result == all_after(input@, num as nat).sum,
            set@.no_duplicates(),
            set@.to_set() == all_after(input@, num as nat).common,
            is_new_group == all_after(input@, num as nat).is_new_group,
        decreases input.len() - num,
    {
        proof {
            lemma_all_sum_grows(input@, (num + 1) as nat, input@.len());
            set@.unique_seq_to_set();
        }
        let line = chars_of(input[num].as_str());
        if line.len() == 0 {
            result += set.len();
            set = Vec::new();
            is_new_group = true;
            proof {
                assert(set@.to_set() =~= Set::<char>::empty());
            }
        } else if num == input.len() - 1 {
            let last = if is_new_group {
                distinct_where(&line, None)
            } else {
                distinct_where(&line, Some(&set))
            };
            proof {
                last@.unique_seq_to_set();
            }
            result += last.len();
        } else {
            set = if is_new_group {
                distinct_where(&line, None)
            } else {
                distinct_where(&line, Some(&set))
            };
            is_new_group = false;
        }
        num += 1;
    }
    result
}

} // verus!
