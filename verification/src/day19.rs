//! Day 19: messages that are checked against rules which refer to one another.

use crate::text::{
    all_digits, chars_of, decimal_value, is_word, lemma_span, parse_digits, parse_unsigned_chars, scan,
    slice_of, span_end, split, split_chars, unsigned_value, views, CharClass,
};
use crate::budget::Budget;
use std::collections::HashMap;
use vstd::prelude::*;
use vstd::string::StrSliceExecFns;

verus! {

/// A rule: one character, a sequence of rules, or either of two sequences of rules.
pub enum Rule {
    CHAR(char),
    SINGLE(Vec<u32>),
    OR((Vec<u32>, Vec<u32>)),
}

/// A copy of some numbers.
fn copy_numbers(numbers: &Vec<u32>) -> (copy: Vec<u32>)
    ensures
        copy@ == numbers@,
{
    let mut copy: Vec<u32> = Vec::new();
    let mut i: usize = 0;
    while i < numbers.len()
        invariant
            i <= numbers.len(),
            copy@ == numbers@.take(i as int),
        decreases numbers.len() - i,
    {
        copy.push(numbers[i]);
        proof {
            assert(numbers@.take(i + 1) =~= numbers@.take(i as int).push(numbers[i as int]));
        }
        i += 1;
    }
    proof {
        assert(numbers@.take(i as int) =~= numbers@);
    }
    copy
}

impl Clone for Rule {
    /// A rule that says the same.
    fn clone(&self) -> (copy: Rule)
        ensures
            saying_of(copy) == saying_of(*self),
    {
        match self {
            Rule::CHAR(c) => Rule::CHAR(*c),
            Rule::SINGLE(subrules) => Rule::SINGLE(copy_numbers(subrules)),
            Rule::OR(pair) => Rule::OR((copy_numbers(&pair.0), copy_numbers(&pair.1))),
        }
    }
}

/// The rules, by number.
pub struct Rules {
    pub rules: HashMap<u32, Rule>,
}

/// A message.
pub struct Message {
    pub message: String,
}

/// What may be left of a text when a rule has matched its start; `None` for no match.
pub type Rest = Option<Seq<char>>;

/// What a rule says.
pub enum Saying {
    Char(char),
    Single(Seq<u32>),
    Or(Seq<u32>, Seq<u32>),
}

/// What a rule says.
pub open spec fn saying_of(rule: Rule) -> Saying {
    match rule {
        Rule::CHAR(c) => Saying::Char(c),
        Rule::SINGLE(subrules) => Saying::Single(subrules@),
        Rule::OR((first, second)) => Saying::Or(first@, second@),
    }
}

/// What the rules say, by number.
pub open spec fn sayings(rules: Map<u32, Rule>) -> Map<u32, Saying> {
    Map::new(|id: u32| rules.contains_key(id), |id: u32| saying_of(rules[id]))
}

impl View for Rules {
    type V = Map<u32, Saying>;

    open spec fn view(&self) -> Map<u32, Saying> {
        sayings(self.rules@)
    }
}

/// The rests after the rule with number `rule_id` is tried on `chunk`.
/// A character leaves the text behind it. A sequence of rules is
/// followed from the text, each rule from each rest of the one before;
/// a sequence that starts with its own number leaves no match. Of two
/// sequences the rests of both are taken together, but the empty rest
/// alone where it is among them. `None` where a rule is missing, or the
/// rules lead deeper than `fuel`.
pub open spec fn matches(rules: Map<u32, Saying>, chunk: Seq<char>, rule_id: u32, fuel: nat) -> Option<
    Seq<Rest>,
>
    decreases fuel, 0nat, 0nat,
{
    if !rules.contains_key(rule_id) || fuel == 0 {
        None
    } else {
        match rules[rule_id] {
            Saying::Char(c) => if chunk.len() > 0 && chunk[0] == c {
                Some(seq![Some(chunk.drop_first())])
            } else {
                Some(seq![None])
            },
            Saying::Single(subrules) => if subrules.len() > 0 && subrules[0] == rule_id {
                Some(seq![None])
            } else {
                followed(rules, chunk, subrules, subrules.len(), (fuel - 1) as nat)
            },
            Saying::Or(first, second) => match (
                followed(rules, chunk, first, first.len(), (fuel - 1) as nat),
                followed(rules, chunk, second, second.len(), (fuel - 1) as nat),
            ) {
                (Some(a), Some(b)) => Some(summed_up(a + b)),
                _ => None,
            },
        }
    }
}

/// The rests of two sequences taken together: no match where there is
/// none, the empty rest alone where it is among them.
pub open spec fn summed_up(result: Seq<Rest>) -> Seq<Rest> {
    if result.len() == 0 {
        seq![None]
    } else if result.contains(Some(Seq::<char>::empty())) {
        seq![Some(Seq::<char>::empty())]
    } else {
        result
    }
}

/// The rests after the first `k` rules of a sequence are followed from `chunk`.
pub open spec fn followed(
    rules: Map<u32, Saying>,
    chunk: Seq<char>,
    subrules: Seq<u32>,
    k: nat,
    fuel: nat,
) -> Option<Seq<Rest>>
    decreases fuel, 2nat, k,
{
    if k == 0 {
        Some(seq![Some(chunk)])
    } else {
        match followed(rules, chunk, subrules, (k - 1) as nat, fuel) {
            None => None,
            Some(list) => spread(rules, list, list.len(), subrules[k - 1], fuel),
        }
    }
}

/// The rests after a rule is tried on each of the first `j` rests of a
/// list: an empty rest or no match leaves no match.
pub open spec fn spread(
    rules: Map<u32, Saying>,
    list: Seq<Rest>,
    j: nat,
    rule_id: u32,
    fuel: nat,
) -> Option<Seq<Rest>>
    decreases fuel, 1nat, j,
{
    if j == 0 {
        Some(Seq::empty())
    } else {
        match spread(rules, list, (j - 1) as nat, rule_id, fuel) {
            None => None,
            Some(before) => match list[j - 1] {
                Some(chunk) => if chunk.len() > 0 {
                    match matches(rules, chunk, rule_id, fuel) {
                        None => None,
                        Some(found) => Some(before + found),
                    }
                } else {
                    Some(before.push(None))
                },
                None => Some(before.push(None)),
            },
        }
    }
}

/// The rests that some texts stand for.
pub open spec fn rests_of(found: Seq<Option<&str>>) -> Seq<Rest> {
    found.map_values(
        |rest: Option<&str>|
            match rest {
                Some(s) => Some(s@),
                None => None,
            },
    )
}

/// A list that was spread over stays spread over for fewer of its rests.
proof fn lemma_spread_prefix(
    rules: Map<u32, Saying>,
    list: Seq<Rest>,
    j: nat,
    j0: nat,
    rule_id: u32,
    fuel: nat,
)
    requires
        spread(rules, list, j, rule_id, fuel) is Some,
        j0 <= j,
    ensures
        spread(rules, list, j0, rule_id, fuel) is Some,
    decreases j,
{
    if j0 < j {
        lemma_spread_prefix(rules, list, (j - 1) as nat, j0, rule_id, fuel);
    }
}

/// A sequence that was followed was followed for fewer of its rules.
proof fn lemma_followed_prefix(
    rules: Map<u32, Saying>,
    chunk: Seq<char>,
    subrules: Seq<u32>,
    k: nat,
    k0: nat,
    fuel: nat,
)
    requires
        followed(rules, chunk, subrules, k, fuel) is Some,
        k0 <= k,
    ensures
        followed(rules, chunk, subrules, k0, fuel) is Some,
    decreases k,
{
    if k0 < k {
        lemma_followed_prefix(rules, chunk, subrules, (k - 1) as nat, k0, fuel);
    }
}

/// Whether the empty rest is among those found.
fn holds_empty(found: &Vec<Option<&str>>) -> (holds: bool)
    ensures
        holds == rests_of(found@).contains(Some(Seq::<char>::empty())),
{
    let mut i: usize = 0;
    while i < found.len()
        invariant
            i <= found.len(),
            forall|j: int| 0 <= j < i ==> rests_of(found@)[j] != Some(Seq::<char>::empty()),
        decreases found.len() - i,
    {
        match found[i] {
            Some(s) => {
                if s.is_empty() {
                    assert(s@ =~= Seq::<char>::empty());
                    assert(rests_of(found@)[i as int] == Some(Seq::<char>::empty()));
                    return true;
                }
            },
            None => {},
        }
        i += 1;
    }
    false
}

/// Follows a sequence of rules from `chunk` as deep as the budget allows.
fn follow<'a>(chunk: &'a str, rules: &Rules, subrules: &Vec<u32>, budget: Budget) -> (found: Option<
    Vec<Option<&'a str>>,
>)
    requires
        budget is Endless ==> followed(rules@, chunk@, subrules@, subrules@.len(), budget.fuel())
            is Some,
    ensures
        match found {
            Some(list) => followed(rules@, chunk@, subrules@, subrules@.len(), budget.fuel())
                == Some(rests_of(list@)),
            None => followed(rules@, chunk@, subrules@, subrules@.len(), budget.fuel()) is None,
        },
    decreases budget.fuel(), 2nat,
{
    let ghost fuel = budget.fuel();
    let mut list: Vec<Option<&'a str>> = Vec::new();
    list.push(Some(chunk));
    let mut k: usize = 0;
    proof {
        assert(rests_of(list@) =~= seq![Some(chunk@)]);
    }
    while k < subrules.len()
        invariant
            k <= subrules.len(),
            fuel == budget.fuel(),
            budget is Endless ==> followed(rules@, chunk@, subrules@, subrules@.len(), fuel)
                is Some,
            followed(rules@, chunk@, subrules@, k as nat, fuel) == Some(rests_of(list@)),
        decreases subrules.len() - k,
    {
        let subrule_id = subrules[k];
        let ghost given = rests_of(list@);
        proof {
            if followed(rules@, chunk@, subrules@, subrules@.len(), fuel) is Some {
                lemma_followed_prefix(
                    rules@,
                    chunk@,
                    subrules@,
                    subrules@.len(),
                    (k + 1) as nat,
                    fuel,
                );
            }
        }
        let mut next: Vec<Option<&'a str>> = Vec::new();
        let mut j: usize = 0;
        proof {
            assert(rests_of(next@) =~= Seq::<Rest>::empty());
        }
        while j < list.len()
            invariant
                j <= list.len(),
                fuel == budget.fuel(),
                given == rests_of(list@),
                followed(rules@, chunk@, subrules@, k as nat, fuel) == Some(given),
                k < subrules.len(),
                subrule_id == subrules[k as int],
                budget is Endless ==> spread(rules@, given, given.len(), subrule_id, fuel) is Some,
                spread(rules@, given, j as nat, subrule_id, fuel) == Some(rests_of(next@)),
            decreases list.len() - j,
        {
            proof {
                if spread(rules@, given, given.len(), subrule_id, fuel) is Some {
                    lemma_spread_prefix(
                        rules@,
                        given,
                        given.len(),
                        (j + 1) as nat,
                        subrule_id,
                        fuel,
                    );
                }
            }
            let ghost before = rests_of(next@);
            let mut go_on: Option<&'a str> = None;
            match list[j] {
                Some(rest) => {
                    if !rest.is_empty() {
                        go_on = Some(rest);
                    }
                },
                None => {},
            }
            match go_on {
                Some(rest) => {
                    assert(given[j as int] == Some(rest@));
                    match validate_within(rest, rules, subrule_id, budget.again()) {
                        Some(mut deeper) => {
                            let ghost found = rests_of(deeper@);
                            next.append(&mut deeper);
                            proof {
                                assert(rests_of(next@) =~= before + found);
                            }
                        },
                        None => {
                            proof {
                                assert(spread(rules@, given, (j + 1) as nat, subrule_id, fuel) is None);
                                if spread(rules@, given, given.len(), subrule_id, fuel) is Some {
                                    lemma_spread_prefix(
                                        rules@,
                                        given,
                                        given.len(),
                                        (j + 1) as nat,
                                        subrule_id,
                                        fuel,
                                    );
                                }
                                assert(followed(rules@, chunk@, subrules@, (k + 1) as nat, fuel) is None);
                                if followed(rules@, chunk@, subrules@, subrules@.len(), fuel) is Some {
                                    lemma_followed_prefix(
                                        rules@,
                                        chunk@,
                                        subrules@,
                                        subrules@.len(),
                                        (k + 1) as nat,
                                        fuel,
                                    );
                                }
                            }
                            return None;
                        },
                    }
                },
                None => {
                    next.push(None);
                    proof {
                        assert(rests_of(next@) =~= before.push(None));
                    }
                },
            }
            j += 1;
        }
        list = next;
        k += 1;
    }
    Some(list)
}

/// Tries a rule on `chunk` as deep as the budget allows; `None` where
/// it does not allow to end, or a rule is missing.
fn validate_within<'a>(chunk: &'a str, rules: &Rules, rule_id: u32, budget: Budget) -> (found: Option<
    Vec<Option<&'a str>>,
>)
    requires
        budget is Endless ==> matches(rules@, chunk@, rule_id, budget.fuel()) is Some,
    ensures
        match found {
            Some(list) => matches(rules@, chunk@, rule_id, budget.fuel()) == Some(rests_of(list@)),
            None => matches(rules@, chunk@, rule_id, budget.fuel()) is None,
        },
    decreases budget.fuel(), 0nat,
{
    broadcast use vstd::std_specs::hash::group_hash_axioms;

    let mut found: Vec<Option<&'a str>> = Vec::new();
    let left = match (rules.rules.get(&rule_id), budget.spend()) {
        (Some(rule), Some(left)) => (rule, left),
        _ => {
            return None;
        },
    };
    let rule = left.0;
    let left = left.1;
    match rule {
        Rule::CHAR(c) => {
            if !chunk.is_empty() && chunk.get_char(0) == *c {
                let rest = chunk.substring_char(1, chunk.unicode_len());
                found.push(Some(rest));
                proof {
                    assert(rest@ =~= chunk@.drop_first());
                    assert(rests_of(found@) =~= seq![Some(chunk@.drop_first())]);
                }
            } else {
                found.push(None);
                proof {
                    assert(rests_of(found@) =~= seq![None]);
                }
            }
        },
        Rule::SINGLE(subrules) => {
            if subrules.len() > 0 && subrules[0] == rule_id {
                found.push(None);
                proof {
                    assert(rests_of(found@) =~= seq![None]);
                }
            } else {
                return follow(chunk, rules, subrules, left);
            }
        },
        Rule::OR(pair) => {
            let first = follow(chunk, rules, &pair.0, left.again());
            let second = follow(chunk, rules, &pair.1, left);
            match (first, second) {
                (Some(mut result), Some(mut second)) => {
                    let ghost a = rests_of(result@);
                    let ghost b = rests_of(second@);
                    result.append(&mut second);
                    proof {
                        assert(rests_of(result@) =~= a + b);
                    }
                    if result.len() == 0 {
                        found.push(None);
                        proof {
                            assert(rests_of(found@) =~= seq![None]);
                        }
                    } else if holds_empty(&result) {
                        found.push(Some(""));
                        proof {
                            reveal_strlit("");
                            assert(""@ =~= Seq::<char>::empty());
                            assert(rests_of(found@) =~= seq![Some(Seq::<char>::empty())]);
                        }
                    } else {
                        found = result;
                    }
                },
                _ => {
                    return None;
                },
            }
        },
    }
    Some(found)
}

impl Message {
    /// The rests after the rule with number `rule_id` is tried on `chunk`.
    pub fn validate_chunk<'a>(chunk: &'a str, rules: &Rules, rule_id: u32) -> (found: Vec<
        Option<&'a str>,
    >)
        requires
            exists|fuel: nat| matches(rules@, chunk@, rule_id, fuel) is Some,
        ensures
            exists|fuel: nat|
                #[trigger] matches(rules@, chunk@, rule_id, fuel) == Some(rests_of(found@)),
    {
        let ghost fuel = choose|fuel: nat| matches(rules@, chunk@, rule_id, fuel) is Some;
        match validate_within(chunk, rules, rule_id, Budget::Endless(Ghost(fuel))) {
            Some(found) => found,
            None => Vec::new(),
        }
    }

    /// The rests after the rule with number `rule_id` is tried on
    /// `chunk`, going no deeper than `depth` rules; `None` where the
    /// rules lead deeper, or a rule is missing.
    pub fn validate_chunk_to_depth<'a>(
        chunk: &'a str,
        rules: &Rules,
        rule_id: u32,
        depth: usize,
    ) -> (found: Option<Vec<Option<&'a str>>>)
        ensures
            match found {
                Some(list) => matches(rules@, chunk@, rule_id, depth as nat) == Some(
                    rests_of(list@),
                ),
                None => matches(rules@, chunk@, rule_id, depth as nat) is None,
            },
    {
        validate_within(chunk, rules, rule_id, Budget::Counted(depth))
    }

    /// Whether rule 0 can match the whole message, going no deeper than
    /// `depth` rules; `None` where the rules lead deeper, or a rule is missing.
    pub fn validate_to_depth(&self, rules: &Rules, depth: usize) -> (valid: Option<bool>)
        ensures
            match valid {
                Some(v) => matches(rules@, self.message@, 0, depth as nat) is Some && v == matches(
                    rules@,
                    self.message@,
                    0,
                    depth as nat,
                ).unwrap().contains(Some(Seq::<char>::empty())),
                None => matches(rules@, self.message@, 0, depth as nat) is None,
            },
    {
        match Message::validate_chunk_to_depth(self.message.as_str(), rules, 0, depth) {
            Some(found) => Some(holds_empty(&found)),
            None => None,
        }
    }

    /// Whether rule 0 can match the whole message.
    pub fn validate(&self, rules: &Rules) -> (valid: bool)
        requires
            exists|fuel: nat| matches(rules@, self.message@, 0, fuel) is Some,
        ensures
            exists|fuel: nat|
                (#[trigger] matches(rules@, self.message@, 0, fuel)) is Some && valid
                    == matches(rules@, self.message@, 0, fuel).unwrap().contains(
                    Some(Seq::<char>::empty()),
                ),
    {
        let found = Message::validate_chunk(self.message.as_str(), rules, 0);
        let ghost fuel = choose|fuel: nat|
            #[trigger] matches(rules@, self.message@, 0, fuel) == Some(rests_of(found@));
        assert(matches(rules@, self.message@, 0, fuel).unwrap() == rests_of(found@));
        holds_empty(&found)
    }
}


/// A rule that was tried within some depth leaves the same rests within any greater depth.
pub proof fn lemma_matches_deeper(
    rules: Map<u32, Saying>,
    chunk: Seq<char>,
    rule_id: u32,
    fuel: nat,
    more: nat,
)
    requires
        matches(rules, chunk, rule_id, fuel) is Some,
        fuel <= more,
    ensures
        matches(rules, chunk, rule_id, more) == matches(rules, chunk, rule_id, fuel),
    decreases fuel, 0nat, 0nat,
{
    match rules[rule_id] {
        Saying::Char(c) => {},
        Saying::Single(subrules) => {
            if !(subrules.len() > 0 && subrules[0] == rule_id) {
                lemma_followed_deeper(
                    rules,
                    chunk,
                    subrules,
                    subrules.len(),
                    (fuel - 1) as nat,
                    (more - 1) as nat,
                );
            }
        },
        Saying::Or(first, second) => {
            lemma_followed_deeper(
                rules,
                chunk,
                first,
                first.len(),
                (fuel - 1) as nat,
                (more - 1) as nat,
            );
            lemma_followed_deeper(
                rules,
                chunk,
                second,
                second.len(),
                (fuel - 1) as nat,
                (more - 1) as nat,
            );
        },
    }
}

/// A sequence that was followed within some depth leaves the same rests
/// within any greater depth.
pub proof fn lemma_followed_deeper(
    rules: Map<u32, Saying>,
    chunk: Seq<char>,
    subrules: Seq<u32>,
    k: nat,
    fuel: nat,
    more: nat,
)
    requires
        followed(rules, chunk, subrules, k, fuel) is Some,
        fuel <= more,
    ensures
        followed(rules, chunk, subrules, k, more) == followed(rules, chunk, subrules, k, fuel),
    decreases fuel, 2nat, k,
{
    if k > 0 {
        lemma_followed_deeper(rules, chunk, subrules, (k - 1) as nat, fuel, more);
        let list = followed(rules, chunk, subrules, (k - 1) as nat, fuel).unwrap();
        lemma_spread_deeper(rules, list, list.len(), subrules[k - 1], fuel, more);
    }
}

/// A list that was spread over within some depth leaves the same rests
/// within any greater depth.
pub proof fn lemma_spread_deeper(
    rules: Map<u32, Saying>,
    list: Seq<Rest>,
    j: nat,
    rule_id: u32,
    fuel: nat,
    more: nat,
)
    requires
        spread(rules, list, j, rule_id, fuel) is Some,
        fuel <= more,
    ensures
        spread(rules, list, j, rule_id, more) == spread(rules, list, j, rule_id, fuel),
    decreases fuel, 1nat, j,
{
    if j > 0 {
        lemma_spread_deeper(rules, list, (j - 1) as nat, rule_id, fuel, more);
        match list[j - 1] {
            Some(chunk) => {
                if chunk.len() > 0 {
                    lemma_matches_deeper(rules, chunk, rule_id, fuel, more);
                }
            },
            None => {},
        }
    }
}

/// Rule 0 can be tried on the text.
pub open spec fn can_check(rules: Map<u32, Saying>, text: Seq<char>) -> bool {
    exists|fuel: nat| matches(rules, text, 0, fuel) is Some
}

/// Rule 0 can match the whole text.
pub open spec fn is_valid(rules: Map<u32, Saying>, text: Seq<char>) -> bool {
    exists|fuel: nat|
        (#[trigger] matches(rules, text, 0, fuel)) is Some && matches(
            rules,
            text,
            0,
            fuel,
        ).unwrap().contains(Some(Seq::<char>::empty()))
}

/// How many of the first `k` messages are valid.
pub open spec fn count_valid(rules: Map<u32, Saying>, messages: Seq<Message>, k: nat) -> nat
    decreases k,
{
    if k == 0 {
        0
    } else {
        count_valid(rules, messages, (k - 1) as nat) + if is_valid(rules, messages[k - 1].message@) {
            1nat
        } else {
            0nat
        }
    }
}

/// The number of messages that rule 0 can match.
fn count(rules: &Rules, messages: &[Message]) -> (valid: usize)
    requires
        forall|i: int| 0 <= i < messages.len() ==> can_check(rules@, (#[trigger] messages[i]).message@),
    ensures
        valid == count_valid(rules@, messages@, messages@.len()),
{
    let mut valid: usize = 0;
    let mut i: usize = 0;
    while i < messages.len()
        invariant
            i <= messages.len(),
            forall|j: int|
                0 <= j < messages.len() ==> can_check(rules@, (#[trigger] messages[j]).message@),
            valid == count_valid(rules@, messages@, i as nat),
            valid <= i,
        decreases messages.len() - i,
    {
        let message = &messages[i];
        assert(can_check(rules@, messages[i as int].message@));
        let found = message.validate(rules);
        proof {
            let text = message.message@;
            let fuel = choose|fuel: nat|
                (#[trigger] matches(rules@, text, 0, fuel)) is Some && found == matches(
                    rules@,
                    text,
                    0,
                    fuel,
                ).unwrap().contains(Some(Seq::<char>::empty()));
            if is_valid(rules@, text) {
                let other = choose|other: nat|
                    (#[trigger] matches(rules@, text, 0, other)) is Some && matches(
                        rules@,
                        text,
                        0,
                        other,
                    ).unwrap().contains(Some(Seq::<char>::empty()));
                if fuel <= other {
                    lemma_matches_deeper(rules@, text, 0, fuel, other);
                } else {
                    lemma_matches_deeper(rules@, text, 0, other, fuel);
                }
            }
        }
        if found {
            valid += 1;
        }
        i += 1;
    }
    valid
}

/// The number of messages that rule 0 can match.
pub fn part1(rules: &Rules, messages: &[Message]) -> (valid: usize)
    requires
        forall|i: int| 0 <= i < messages.len() ==> can_check(rules@, (#[trigger] messages[i]).message@),
    ensures
        valid == count_valid(rules@, messages@, messages@.len()),
{
    count(rules, messages)
}

/// The rules with rule 8 and rule 11, where they are there, replaced by
/// rules that refer to themselves.
pub open spec fn amended(rules: Map<u32, Saying>) -> Map<u32, Saying> {
    let with_eight = if rules.contains_key(8) {
        rules.insert(8, Saying::Or(seq![42u32], seq![42u32, 8u32]))
    } else {
        rules
    };
    if rules.contains_key(11) {
        with_eight.insert(11, Saying::Or(seq![42u32, 31u32], seq![42u32, 11u32, 31u32]))
    } else {
        with_eight
    }
}

/// The number of messages that rule 0 can match once rule 8 and rule 11
/// are replaced by rules that refer to themselves.
pub fn part2(rules: &Rules, messages: &[Message]) -> (valid: usize)
    requires
        forall|i: int|
            0 <= i < messages.len() ==> can_check(amended(rules@), (#[trigger] messages[i]).message@),
    ensures
        valid == count_valid(amended(rules@), messages@, messages@.len()),
{
    broadcast use vstd::std_specs::hash::group_hash_axioms;

    let mut modified_rules = Rules { rules: rules.rules.clone() };
    assert(modified_rules@ =~= rules@);
    if modified_rules.rules.contains_key(&8) {
        let mut first: Vec<u32> = Vec::new();
        first.push(42);
        let mut second: Vec<u32> = Vec::new();
        second.push(42);
        second.push(8);
        proof {
            assert(first@ =~= seq![42u32]);
            assert(second@ =~= seq![42u32, 8u32]);
        }
        let ghost before = modified_rules@;
        modified_rules.rules.insert(8, Rule::OR((first, second)));
        assert(modified_rules@ =~= before.insert(8, Saying::Or(seq![42u32], seq![42u32, 8u32])));
    }
    if modified_rules.rules.contains_key(&11) {
        let mut first: Vec<u32> = Vec::new();
        first.push(42);
        first.push(31);
        let mut second: Vec<u32> = Vec::new();
        second.push(42);
        second.push(11);
        second.push(31);
        proof {
            assert(first@ =~= seq![42u32, 31u32]);
            assert(second@ =~= seq![42u32, 11u32, 31u32]);
        }
        let ghost before = modified_rules@;
        modified_rules.rules.insert(11, Rule::OR((first, second)));
        assert(modified_rules@ =~= before.insert(
            11,
            Saying::Or(seq![42u32, 31u32], seq![42u32, 11u32, 31u32]),
        ));
    }
    assert(modified_rules@ =~= amended(rules@));
    count(&modified_rules, messages)
}


/// The numbers among the first `k` pieces, in order; a piece that spells
/// no number is passed over.
pub open spec fn numbers_among(pieces: Seq<Seq<char>>, k: nat) -> Seq<u32>
    decreases k,
{
    if k == 0 {
        Seq::empty()
    } else {
        match unsigned_value(pieces[k - 1], u32::MAX as int) {
            Some(v) => numbers_among(pieces, (k - 1) as nat).push(v as u32),
            None => numbers_among(pieces, (k - 1) as nat),
        }
    }
}

/// The numbers that a text holds between blanks.
pub open spec fn numbers_in(text: Seq<char>) -> Seq<u32> {
    numbers_among(split(text, ' '), split(text, ' ').len())
}

/// The numbers that a text holds between blanks.
pub fn read_numbers(text: &Vec<char>) -> (numbers: Vec<u32>)
    ensures
        numbers@ == numbers_in(text@),
{
    let pieces = split_chars(text, ' ');
    let ghost cut = split(text@, ' ');
    assert(pieces.len() == views(pieces@).len());
    let mut numbers: Vec<u32> = Vec::new();
    let mut k: usize = 0;
    while k < pieces.len()
        invariant
            k <= pieces.len(),
            views(pieces@) == cut,
            numbers@ == numbers_among(cut, k as nat),
        decreases pieces.len() - k,
    {
        assert(cut[k as int] == pieces[k as int]@);
        match parse_unsigned_chars(&pieces[k], u32::MAX as u64) {
            Some(v) => numbers.push(v as u32),
            None => {},
        }
        k += 1;
    }
    numbers
}

/// Where the number of the rule ends in a line.
pub open spec fn number_end(s: Seq<char>) -> int {
    span_end(s, 0, CharClass::Digit)
}

/// Where the first sequence of rules ends in a line.
pub open spec fn first_end(s: Seq<char>) -> int {
    span_end(s, number_end(s) + 2, CharClass::WordOrBlank)
}

/// The line starts with a number that fits in 32 bits, a colon and a blank.
pub open spec fn has_number(s: Seq<char>) -> bool {
    let a = number_end(s);
    0 < a && a + 1 < s.len() && s[a] == ':' && s[a + 1] == ' ' && decimal_value(s.subrange(0, a))
        <= u32::MAX
}

/// The line spells a character in quotes behind the number.
pub open spec fn is_char_line(s: Seq<char>) -> bool {
    let a = number_end(s);
    has_number(s) && s.len() == a + 5 && s[a + 2] == '"' && is_word(s[a + 3]) && s[a + 4] == '"'
}

/// The line spells one sequence of rules behind the number.
pub open spec fn is_single_line(s: Seq<char>) -> bool {
    has_number(s) && number_end(s) + 2 < first_end(s) && first_end(s) == s.len()
}

/// The line spells two sequences of rules behind the number, with a bar between.
pub open spec fn is_or_line(s: Seq<char>) -> bool {
    let b = first_end(s);
    &&& has_number(s)
    &&& number_end(s) + 2 < b < s.len()
    &&& s[b] == '|'
    &&& b + 1 < span_end(s, b + 1, CharClass::WordOrBlank)
    &&& span_end(s, b + 1, CharClass::WordOrBlank) == s.len()
}

/// The line spells a rule.
pub open spec fn is_rule_line(s: Seq<char>) -> bool {
    is_char_line(s) || is_single_line(s) || is_or_line(s)
}

/// The number of the rule that a line spells.
pub open spec fn rule_number(s: Seq<char>) -> u32 {
    decimal_value(s.subrange(0, number_end(s))) as u32
}

/// What the rule says that a line spells.
pub open spec fn rule_saying(s: Seq<char>) -> Saying {
    let a = number_end(s);
    let b = first_end(s);
    if is_or_line(s) {
        Saying::Or(numbers_in(s.subrange(a + 2, b)), numbers_in(s.subrange(b + 1, s.len() as int)))
    } else if is_single_line(s) {
        Saying::Single(numbers_in(s.subrange(a + 2, b)))
    } else {
        Saying::Char(s[a + 3])
    }
}

impl Rules {
    /// No rules.
    pub fn new() -> (rules: Rules)
        ensures
            rules@ == Map::<u32, Saying>::empty(),
    {
        let rules = Rules { rules: HashMap::new() };
        assert(rules@ =~= Map::<u32, Saying>::empty());
        rules
    }

    /// Notes the rule that a line spells: a number and a colon, and
    /// behind them a character in quotes, a sequence of numbers, or two
    /// sequences of numbers with a bar between.
    pub fn add_from_str(&mut self, s: &str)
        requires
            is_rule_line(s@),
        ensures
            final(self)@ == old(self)@.insert(rule_number(s@), rule_saying(s@)),
    {
        broadcast use vstd::std_specs::hash::group_hash_axioms;

        let chars = chars_of(s);
        let a = scan(&chars, 0, CharClass::Digit);
        let digits = slice_of(&chars, 0, a);
        proof {
            lemma_span(chars@, 0, CharClass::Digit);
            assert(digits@.skip(0) =~= digits@);
            assert(all_digits(digits@));
        }
        let id: u32 = match parse_digits(&digits, 0, u32::MAX as u64) {
            Some(v) => v as u32,
            None => 0,
        };
        let b = scan(&chars, a + 2, CharClass::WordOrBlank);
        let ghost before = self@;
        let rule = if b > a + 2 && b < chars.len() {
            let first = slice_of(&chars, a + 2, b);
            let second = slice_of(&chars, b + 1, chars.len());
            Rule::OR((read_numbers(&first), read_numbers(&second)))
        } else if b > a + 2 {
            let first = slice_of(&chars, a + 2, b);
            Rule::SINGLE(read_numbers(&first))
        } else {
            Rule::CHAR(chars[a + 3])
        };
        proof {
            lemma_span(chars@, a + 2, CharClass::WordOrBlank);
            assert(saying_of(rule) == rule_saying(s@));
        }
        self.rules.insert(id, rule);
        assert(self@ =~= before.insert(rule_number(s@), rule_saying(s@)));
    }
}

/// The place of the first empty line among the first `k`, or `k` where there is none.
pub open spec fn rules_end(lines: Seq<String>, k: nat) -> nat
    decreases k,
{
    if k == 0 {
        0
    } else if rules_end(lines, (k - 1) as nat) < k - 1 || lines[k - 1]@.len() == 0 {
        rules_end(lines, (k - 1) as nat)
    } else {
        k
    }
}

/// What the rules say that the first `k` lines spell.
pub open spec fn sayings_of(lines: Seq<String>, k: nat) -> Map<u32, Saying>
    decreases k,
{
    if k == 0 {
        Map::empty()
    } else {
        sayings_of(lines, (k - 1) as nat).insert(
            rule_number(lines[k - 1]@),
            rule_saying(lines[k - 1]@),
        )
    }
}

/// The first empty line lies at or before the end.
pub proof fn lemma_rules_end(lines: Seq<String>, k: nat)
    requires
        k <= lines.len(),
    ensures
        rules_end(lines, k) <= k,
        rules_end(lines, k) < k ==> lines[rules_end(lines, k) as int]@.len() == 0,
        forall|i: int| 0 <= i < rules_end(lines, k) ==> (#[trigger] lines[i])@.len() > 0,
    decreases k,
{
    if k > 0 {
        lemma_rules_end(lines, (k - 1) as nat);
    }
}

/// The texts of some messages.
pub open spec fn message_texts(messages: Seq<Message>) -> Seq<Seq<char>> {
    messages.map_values(|m: Message| m.message@)
}

/// The rules and the messages that the lines hold: rules up to the
/// first empty line, and behind it one message on each line.
pub fn read_input(lines: &Vec<String>) -> (read: (Rules, Vec<Message>))
    requires
        forall|i: int|
            0 <= i < rules_end(lines@, lines@.len()) ==> is_rule_line(#[trigger] lines[i]@),
    ensures
        read.0@ == sayings_of(lines@, rules_end(lines@, lines@.len())),
        message_texts(read.1@) == lines@.map_values(|line: String| line@).skip(
            if rules_end(lines@, lines@.len()) < lines@.len() {
                rules_end(lines@, lines@.len()) as int + 1
            } else {
                lines@.len() as int
            },
        ),
{
    let mut rules = Rules::new();
    let mut messages: Vec<Message> = Vec::new();
    let ghost end = rules_end(lines@, lines@.len());
    let ghost texts = lines@.map_values(|line: String| line@);
    let mut k: usize = 0;
    proof {
        lemma_rules_end(lines@, lines@.len());
    }
    while k < lines.len() && !lines[k].as_str().is_empty()
        invariant
            k <= lines.len(),
            k <= end == rules_end(lines@, lines@.len()),
            end <= lines.len(),
            end < lines.len() ==> lines[end as int]@.len() == 0,
            forall|i: int| 0 <= i < end ==> is_rule_line(#[trigger] lines[i]@),
            rules@ == sayings_of(lines@, k as nat),
        decreases lines.len() - k,
    {
        assert(k < end);
        rules.add_from_str(lines[k].as_str());
        k += 1;
    }
    proof {
        if k < end {
            assert(lines[k as int]@.len() > 0);
        }
        assert(k == end);
    }
    if k < lines.len() {
        k += 1;
    }
    let ghost from = k;
    proof {
        assert(message_texts(messages@) =~= texts.subrange(from as int, k as int));
    }
    while k < lines.len()
        invariant
            from <= k <= lines.len(),
            texts == lines@.map_values(|line: String| line@),
            message_texts(messages@) == texts.subrange(from as int, k as int),
        decreases lines.len() - k,
    {
        let ghost before = message_texts(messages@);
        messages.push(Message { message: lines[k].clone() });
        proof {
            assert(message_texts(messages@) =~= before.push(lines[k as int]@));
            assert(texts.subrange(from as int, k + 1) =~= texts.subrange(from as int, k as int).push(
                texts[k as int],
            ));
        }
        k += 1;
    }
    proof {
        assert(texts.subrange(from as int, lines@.len() as int) =~= texts.skip(from as int));
    }
    (rules, messages)
}

} // verus!
