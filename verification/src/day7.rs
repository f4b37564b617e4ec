//! Day 7: bags that must hold other bags.

use crate::adaptors::{count_unique, views_of};
use crate::budget::Budget;
use crate::text::{
    chars_of, check_stands_at, digit_value, find_last_word, is_digit, is_in_class, last_place,
    scan, slice_of, span_end, stands_at, string_of, texts, CharClass,
};
use vstd::prelude::*;

verus! {

/// A rule: the colour of a bag, and the colours and numbers of the bags that it must hold.
pub struct Rule {
    pub name: String,
    pub children: Vec<(String, usize)>,
}

/// The bags found to hold a bag of colour `name`, directly or through
/// other bags, in the first `r` rules and the first `c` children of the
/// rule after them: each holder as often as there are ways to it, right
/// before the holders of that holder. `None` where the search goes
/// deeper than `fuel` bags.
pub open spec fn holders(rules: Seq<Rule>, name: Seq<char>, fuel: nat, r: nat, c: nat) -> Option<
    Seq<Seq<char>>,
>
    decreases fuel, r, c,
{
    if c > 0 {
        match holders(rules, name, fuel, r, (c - 1) as nat) {
            None => None,
            Some(before) => if rules[r as int].children[c - 1].0@ == name {
                if fuel == 0 {
                    None
                } else {
                    match holders(rules, rules[r as int].name@, (fuel - 1) as nat, rules.len(), 0) {
                        None => None,
                        Some(deeper) => Some(before.push(rules[r as int].name@) + deeper),
                    }
                }
            } else {
                Some(before)
            },
        }
    } else if r > 0 {
        holders(rules, name, fuel, (r - 1) as nat, rules[r - 1].children@.len())
    } else {
        Some(Seq::empty())
    }
}

/// All bags found to hold a bag of colour `name`.
pub open spec fn all_holders(rules: Seq<Rule>, name: Seq<char>, fuel: nat) -> Option<
    Seq<Seq<char>>,
> {
    holders(rules, name, fuel, rules.len(), 0)
}

/// A search that ends within some depth finds the same within any greater depth.
pub proof fn lemma_holders_deeper(
    rules: Seq<Rule>,
    name: Seq<char>,
    fuel: nat,
    more: nat,
    r: nat,
    c: nat,
)
    requires
        holders(rules, name, fuel, r, c) is Some,
        fuel <= more,
    ensures
        holders(rules, name, more, r, c) == holders(rules, name, fuel, r, c),
    decreases fuel, r, c,
{
    if c > 0 {
        lemma_holders_deeper(rules, name, fuel, more, r, (c - 1) as nat);
        if rules[r as int].children[c - 1].0@ == name {
            lemma_holders_deeper(
                rules,
                rules[r as int].name@,
                (fuel - 1) as nat,
                (more - 1) as nat,
                rules.len(),
                0,
            );
        }
    } else if r > 0 {
        lemma_holders_deeper(rules, name, fuel, more, (r - 1) as nat, rules[r - 1].children@.len());
    }
}

/// Whether two texts are the same.
pub fn same_text(a: &str, b: &str) -> (same: bool)
    ensures
        same == (a@ == b@),
{
    let left = chars_of(a);
    crate::text::spells(&left, b)
}

/// The bags that hold a bag of colour `name`, searched as deep as the
/// budget allows; `None` where it does not allow to end the search.
fn find_bag_within(rules: &[Rule], name: &str, budget: Budget) -> (found: Option<Vec<String>>)
    requires
        budget is Endless ==> all_holders(rules@, name@, budget.fuel()) is Some,
    ensures
        match found {
            Some(results) => all_holders(rules@, name@, budget.fuel()) == Some(texts(results@)),
            None => all_holders(rules@, name@, budget.fuel()) is None,
        },
    decreases budget.fuel(),
{
    let ghost fuel = budget.fuel();
    let mut results: Vec<String> = Vec::new();
    let mut r: usize = 0;
    proof {
        assert(texts(results@) =~= Seq::<Seq<char>>::empty());
    }
    while r < rules.len()
        invariant
            r <= rules.len(),
            fuel == budget.fuel(),
            budget is Endless ==> all_holders(rules@, name@, fuel) is Some,
            holders(rules@, name@, fuel, r as nat, 0) == Some(texts(results@)),
        decreases rules.len() - r,
    {
        let rule = &rules[r];
        let mut c: usize = 0;
        while c < rule.children.len()
            invariant
                c <= rule.children.len(),
                r < rules.len(),
                *rule == rules[r as int],
                fuel == budget.fuel(),
                budget is Endless ==> all_holders(rules@, name@, fuel) is Some,
                holders(rules@, name@, fuel, r as nat, c as nat) == Some(texts(results@)),
            decreases rule.children.len() - c,
        {
            proof {
                if all_holders(rules@, name@, fuel) is Some {
                    lemma_holders_prefix(
                        rules@,
                        name@,
                        fuel,
                        rules@.len(),
                        0,
                        r as nat,
                        (c + 1) as nat,
                    );
                }
            }
            if same_text(rule.children[c].0.as_str(), name) {
                let ghost before = texts(results@);
                let deeper = match budget.spend() {
                    Some(left) => find_bag_within(rules, rule.name.as_str(), left),
                    None => None,
                };
                match deeper {
                    Some(mut deeper) => {
                        results.push(rule.name.clone());
                        let ghost found = texts(deeper@);
                        results.append(&mut deeper);
                        proof {
                            assert(texts(results@) =~= before.push(rule.name@) + found);
                        }
                    },
                    None => {
                        assert(holders(rules@, name@, fuel, r as nat, (c + 1) as nat) is None);
                        return None;
                    },
                }
            }
            c += 1;
        }
        proof {
            assert(holders(rules@, name@, fuel, (r + 1) as nat, 0) == holders(
                rules@,
                name@,
                fuel,
                r as nat,
                rule.children@.len(),
            ));
        }
        r += 1;
    }
    Some(results)
}

/// A search that ends has ended for every part of it.
proof fn lemma_holders_prefix(
    rules: Seq<Rule>,
    name: Seq<char>,
    fuel: nat,
    r: nat,
    c: nat,
    r0: nat,
    c0: nat,
)
    requires
        holders(rules, name, fuel, r, c) is Some,
        r0 < r || (r0 == r && c0 <= c),
        r <= rules.len(),
        r0 < rules.len() ==> c0 <= rules[r0 as int].children@.len(),
        r0 == rules.len() ==> c0 == 0,
        r < rules.len() ==> c <= rules[r as int].children@.len(),
        r == rules.len() ==> c == 0,
    ensures
        holders(rules, name, fuel, r0, c0) is Some,
    decreases r, c,
{
    if r0 == r && c0 == c {
    } else if c > 0 {
        lemma_holders_prefix(rules, name, fuel, r, (c - 1) as nat, r0, c0);
    } else {
        lemma_holders_prefix(
            rules,
            name,
            fuel,
            (r - 1) as nat,
            rules[r - 1].children@.len(),
            r0,
            c0,
        );
    }
}

/// The bags that hold a bag of colour `name`, directly or through other
/// bags: each holder as often as there are ways to it.
pub fn find_bag(rules: &[Rule], name: &str) -> (results: Vec<String>)
    requires
        exists|fuel: nat| all_holders(rules@, name@, fuel) is Some,
    ensures
        exists|fuel: nat| #[trigger] all_holders(rules@, name@, fuel) == Some(texts(results@)),
{
    let ghost fuel = choose|fuel: nat| all_holders(rules@, name@, fuel) is Some;
    match find_bag_within(rules, name, Budget::Endless(Ghost(fuel))) {
        Some(results) => results,
        None => Vec::new(),
    }
}

/// The bags that hold a bag of colour `name`, searched no deeper than
/// `depth` bags; `None` where the search would go deeper.
pub fn find_bag_to_depth(rules: &[Rule], name: &str, depth: usize) -> (found: Option<Vec<String>>)
    ensures
        match found {
            Some(results) => all_holders(rules@, name@, depth as nat) == Some(texts(results@)),
            None => all_holders(rules@, name@, depth as nat) is None,
        },
{
    find_bag_within(rules, name, Budget::Counted(depth))
}

/// The number of colours of bags that hold a shiny gold bag, directly or
/// through other bags.
pub fn part1(rules: &[Rule]) -> (count: usize)
    requires
        exists|fuel: nat| all_holders(rules@, "shiny gold"@, fuel) is Some,
    ensures
        exists|fuel: nat|
            all_holders(rules@, "shiny gold"@, fuel) is Some && count == (#[trigger] all_holders(
                rules@,
                "shiny gold"@,
                fuel,
            )).unwrap().to_set().len(),
{
    let bags = find_bag(rules, "shiny gold");
    let ghost fuel = choose|fuel: nat|
        #[trigger] all_holders(rules@, "shiny gold"@, fuel) == Some(texts(bags@));
    let count = count_unique(bags.as_slice());
    assert(views_of(bags@) =~= texts(bags@));
    assert(all_holders(rules@, "shiny gold"@, fuel).unwrap() == texts(bags@));
    count
}


/// The place of the first rule from `from` on for a bag of colour `name`.
pub open spec fn rule_place(rules: Seq<Rule>, name: Seq<char>, from: nat) -> Option<int>
    decreases rules.len() - from,
{
    if from >= rules.len() {
        None
    } else if rules[from as int].name@ == name {
        Some(from as int)
    } else {
        rule_place(rules, name, from + 1)
    }
}

/// The number of children of the rule for a bag of colour `name`.
pub open spec fn children_of(rules: Seq<Rule>, name: Seq<char>) -> nat {
    match rule_place(rules, name, 0) {
        Some(r) => rules[r].children@.len(),
        None => 0,
    }
}

/// The number of bags that make up a bag of colour `name`, itself
/// counted, as far as its first `c` children go: one, and for each child
/// its number times the bags that make up a bag of its colour. `None`
/// where a colour has no rule, the count goes deeper than `fuel` bags, or
/// a number does not fit in a machine word.
pub open spec fn bags_within(rules: Seq<Rule>, name: Seq<char>, fuel: nat, c: nat) -> Option<int>
    decreases fuel, c,
{
    match rule_place(rules, name, 0) {
        None => None,
        Some(r) => if c == 0 {
            Some(1)
        } else {
            match bags_within(rules, name, fuel, (c - 1) as nat) {
                None => None,
                Some(sum) => if fuel == 0 {
                    None
                } else {
                    let child = rules[r].children[c - 1];
                    match bags_within(
                        rules,
                        child.0@,
                        (fuel - 1) as nat,
                        children_of(rules, child.0@),
                    ) {
                        None => None,
                        Some(inner) => if sum + child.1 * inner <= usize::MAX {
                            Some(sum + child.1 * inner)
                        } else {
                            None
                        },
                    }
                },
            }
        },
    }
}

/// The number of bags that make up a bag of colour `name`, itself counted.
pub open spec fn all_bags(rules: Seq<Rule>, name: Seq<char>, fuel: nat) -> Option<int> {
    bags_within(rules, name, fuel, children_of(rules, name))
}

/// A count is at least one.
pub proof fn lemma_bags_positive(rules: Seq<Rule>, name: Seq<char>, fuel: nat, c: nat)
    requires
        bags_within(rules, name, fuel, c) is Some,
    ensures
        bags_within(rules, name, fuel, c).unwrap() >= 1,
        c > 0 ==> bags_within(rules, name, fuel, (c - 1) as nat) is Some && fuel > 0,
    decreases fuel, c,
{
    if c > 0 {
        lemma_bags_positive(rules, name, fuel, (c - 1) as nat);
        let r = rule_place(rules, name, 0).unwrap();
        let child = rules[r].children[c - 1];
        lemma_bags_positive(rules, child.0@, (fuel - 1) as nat, children_of(rules, child.0@));
        let inner = bags_within(rules, child.0@, (fuel - 1) as nat, children_of(rules, child.0@)).unwrap();
        assert(0 <= child.1 * inner) by (nonlinear_arith)
            requires
                0 <= child.1,
                inner >= 1,
        ;
    }
}

/// A count that ends has ended for fewer children.
proof fn lemma_bags_prefix(rules: Seq<Rule>, name: Seq<char>, fuel: nat, c: nat, c0: nat)
    requires
        bags_within(rules, name, fuel, c) is Some,
        c0 <= c,
    ensures
        bags_within(rules, name, fuel, c0) is Some,
    decreases c,
{
    if c0 < c {
        lemma_bags_prefix(rules, name, fuel, (c - 1) as nat, c0);
    }
}

/// The place of the rule for a bag of colour `name`.
pub fn find_rule(rules: &[Rule], name: &str) -> (place: Option<usize>)
    ensures
        match place {
            Some(r) => rule_place(rules@, name@, 0) == Some(r as int) && r < rules.len(),
            None => rule_place(rules@, name@, 0) is None,
        },
{
    let mut r: usize = 0;
    while r < rules.len()
        invariant
            r <= rules.len(),
            rule_place(rules@, name@, 0) == rule_place(rules@, name@, r as nat),
        decreases rules.len() - r,
    {
        if same_text(rules[r].name.as_str(), name) {
            return Some(r);
        }
        r += 1;
    }
    None
}

/// The number of bags that make up a bag of colour `name`, counted as
/// deep as the budget allows; `None` where it does not allow to end the
/// count, a colour has no rule, or a number does not fit.
fn count_bags_within(rules: &[Rule], name: &str, budget: Budget) -> (count: Option<usize>)
    requires
        budget is Endless ==> all_bags(rules@, name@, budget.fuel()) is Some,
    ensures
        match count {
            Some(n) => all_bags(rules@, name@, budget.fuel()) == Some(n as int) && n >= 1,
            None => all_bags(rules@, name@, budget.fuel()) is None,
        },
    decreases budget.fuel(),
{
    let ghost fuel = budget.fuel();
    match find_rule(rules, name) {
        None => None,
        Some(r) => {
            let rule = &rules[r];
            let mut sum: usize = 1;
            let mut c: usize = 0;
            while c < rule.children.len()
                invariant
                    c <= rule.children.len(),
                    r < rules.len(),
                    *rule == rules[r as int],
                    fuel == budget.fuel(),
                    rule_place(rules@, name@, 0) == Some(r as int),
                    budget is Endless ==> all_bags(rules@, name@, fuel) is Some,
                    bags_within(rules@, name@, fuel, c as nat) == Some(sum as int),
                    sum >= 1,
                decreases rule.children.len() - c,
            {
                proof {
                    if all_bags(rules@, name@, fuel) is Some {
                        lemma_bags_prefix(
                            rules@,
                            name@,
                            fuel,
                            rule.children@.len(),
                            (c + 1) as nat,
                        );
                    }
                }
                let child = &rule.children[c];
                let inner = match budget.spend() {
                    Some(left) => count_bags_within(rules, child.0.as_str(), left),
                    None => None,
                };
                let more = match inner {
                    Some(inner) => {
                        proof {
                            assert(0 <= child.1 * inner) by (nonlinear_arith)
                                requires
                                    0 <= child.1,
                                    0 <= inner,
                            ;
                        }
                        match child.1.checked_mul(inner) {
                            Some(product) => sum.checked_add(product),
                            None => None,
                        }
                    },
                    None => None,
                };
                match more {
                    Some(more) => {
                        sum = more;
                    },
                    None => {
                        assert(bags_within(rules@, name@, fuel, (c + 1) as nat) is None);
                        proof {
                            if all_bags(rules@, name@, fuel) is Some {
                                lemma_bags_prefix(
                                    rules@,
                                    name@,
                                    fuel,
                                    rule.children@.len(),
                                    (c + 1) as nat,
                                );
                            }
                        }
                        return None;
                    },
                }
                c += 1;
            }
            Some(sum)
        },
    }
}

/// The number of bags that make up a bag of colour `name`, itself
/// counted: one, and for each bag that it must hold its number times the
/// bags that make up such a bag.
pub fn count_bags(rules: &[Rule], name: &str) -> (count: usize)
    requires
        exists|fuel: nat| all_bags(rules@, name@, fuel) is Some,
    ensures
        exists|fuel: nat| #[trigger] all_bags(rules@, name@, fuel) == Some(count as int),
        count >= 1,
{
    let ghost fuel = choose|fuel: nat| all_bags(rules@, name@, fuel) is Some;
    match count_bags_within(rules, name, Budget::Endless(Ghost(fuel))) {
        Some(count) => count,
        None => 1,
    }
}

/// The number of bags that make up a bag of colour `name`, counted no
/// deeper than `depth` bags; `None` where the count would go deeper, a
/// colour has no rule, or a number does not fit in a machine word.
pub fn count_bags_to_depth(rules: &[Rule], name: &str, depth: usize) -> (count: Option<usize>)
    ensures
        match count {
            Some(n) => all_bags(rules@, name@, depth as nat) == Some(n as int),
            None => all_bags(rules@, name@, depth as nat) is None,
        },
{
    count_bags_within(rules, name, Budget::Counted(depth))
}

/// The number of bags inside a shiny gold bag.
pub fn part2(rules: &[Rule]) -> (count: usize)
    requires
        exists|fuel: nat| all_bags(rules@, "shiny gold"@, fuel) is Some,
    ensures
        exists|fuel: nat|
            #[trigger] all_bags(rules@, "shiny gold"@, fuel) == Some(count + 1),
{
    count_bags(rules, "shiny gold") - 1
}

/// Why a line is no rule.
#[derive(Debug, Clone, Copy, PartialEq, Eq, Structural)]
pub enum RuleError {
    /// The line does not say which `bags contain` what.
    InvalidRule,
}

/// The child that starts at place `p`: a digit, a blank, two words
/// with a blank between, and ` bag`, with or without an `s` behind. Told
/// as the place where it ends and the place where its second word ends.
pub open spec fn child_at(s: Seq<char>, p: int) -> Option<(int, int)> {
    let a = span_end(s, p + 2, CharClass::Word);
    let b = span_end(s, a + 1, CharClass::Word);
    if 0 <= p && p + 1 < s.len() && is_digit(s[p]) && s[p + 1] == ' ' && p + 2 < a && a < s.len()
        && s[a] == ' ' && a + 1 < b && stands_at(s, " bag"@, b) {
        if b + 4 < s.len() && s[b + 4] == 's' {
            Some((b + 5, b))
        } else {
            Some((b + 4, b))
        }
    } else {
        None
    }
}

/// The children told from place `p` on, each with its colour and number.
pub open spec fn children_from(s: Seq<char>, p: int) -> Seq<(Seq<char>, nat)>
    decreases s.len() - p,
{
    if p < 0 || p >= s.len() {
        Seq::empty()
    } else {
        match child_at(s, p) {
            Some((end, b)) => if p < end <= s.len() {
                seq![(s.subrange(p + 2, b), digit_value(s[p]) as nat)] + children_from(s, end)
            } else {
                Seq::empty()
            },
            None => children_from(s, p + 1),
        }
    }
}

/// What stands for the children of a rule in the specification.
pub open spec fn child_texts(children: Seq<(String, usize)>) -> Seq<(Seq<char>, nat)> {
    children.map_values(|child: (String, usize)| (child.0@, child.1 as nat))
}

impl Rule {
    /// The rule that a line spells: the colour before the last ` bags
    /// contain `, and behind it every child of the form `2 dark red bags`.
    pub fn from_str(s: &str) -> (parsed: Result<Rule, RuleError>)
        ensures
            match parsed {
                Ok(rule) => {
                    let at = last_place(s@, " bags contain "@, s@.len());
                    at >= 0 && rule.name@ == s@.subrange(0, at) && child_texts(rule.children@)
                        == children_from(s@.subrange(at + 14, s@.len() as int), 0)
                },
                Err(_) => last_place(s@, " bags contain "@, s@.len()) < 0,
            },
    {
        let chars = chars_of(s);
        let word = chars_of(" bags contain ");
        proof {
            reveal_strlit(" bags contain ");
            reveal_strlit(" bag");
        }
        let found = find_last_word(&chars, &word, chars.len());
        match found {
            None => Err(RuleError::InvalidRule),
            Some(at) => {
                let name = slice_of(&chars, 0, at);
                let rest = slice_of(&chars, at + 14, chars.len());
                let children = read_children(&rest);
                Ok(Rule { name: string_of(&name), children })
            },
        }
    }
}

/// The children that a text tells of.
pub fn read_children(s: &Vec<char>) -> (children: Vec<(String, usize)>)
    ensures
        child_texts(children@) == children_from(s@, 0),
{
    let bag = chars_of(" bag");
    let mut children: Vec<(String, usize)> = Vec::new();
    let mut p: usize = 0;
    proof {
        assert(child_texts(children@) =~= Seq::<(Seq<char>, nat)>::empty());
    }
    while p < s.len()
        invariant
            bag@ == " bag"@,
            children_from(s@, 0) == child_texts(children@) + children_from(s@, p as int),
        decreases s.len() - p,
    {
        proof {
            reveal_strlit(" bag");
        }
        let mut end: Option<(usize, usize)> = None;
        if p + 1 < s.len() && is_in_class(CharClass::Digit, s[p]) && s[p + 1] == ' ' {
            let a = scan(s, p + 2, CharClass::Word);
            if p + 2 < a && a < s.len() && s[a] == ' ' {
                let b = scan(s, a + 1, CharClass::Word);
                if a + 1 < b && check_stands_at(s, &bag, b) {
                    if b + 4 < s.len() && s[b + 4] == 's' {
                        end = Some((b + 5, b));
                    } else {
                        end = Some((b + 4, b));
                    }
                }
            }
        }
        match end {
            Some((end, b)) => {
                assert(child_at(s@, p as int) == Some((end as int, b as int)));
                let colour = slice_of(s, p + 2, b);
                let number = (s[p] as u32 - '0' as u32) as usize;
                let ghost before = child_texts(children@);
                children.push((string_of(&colour), number));
                proof {
                    assert(child_texts(children@) =~= before.push((colour@, number as nat)));
                    assert(children_from(s@, p as int) =~= seq![(colour@, number as nat)]
                        + children_from(s@, end as int));
                    assert(children_from(s@, 0) =~= child_texts(children@) + children_from(
                        s@,
                        end as int,
                    ));
                }
                p = end;
            },
            None => {
                assert(child_at(s@, p as int) is None);
                p += 1;
            },
        }
    }
    proof {
        assert(children_from(s@, p as int) =~= Seq::<(Seq<char>, nat)>::empty());
        assert(children_from(s@, 0) =~= child_texts(children@));
    }
    children
}

/// The rules that the first `k` lines spell, lines that spell none passed over.
pub open spec fn rule_lines(lines: Seq<String>, k: nat) -> Seq<Seq<char>>
    decreases k,
{
    if k == 0 {
        Seq::empty()
    } else if last_place(lines[k - 1]@, " bags contain "@, lines[k - 1]@.len()) >= 0 {
        rule_lines(lines, (k - 1) as nat).push(lines[k - 1]@)
    } else {
        rule_lines(lines, (k - 1) as nat)
    }
}

/// The rules that the lines spell; a line that spells none is passed over.
pub fn read_rules(lines: &Vec<String>) -> (rules: Vec<Rule>)
    ensures
        rules.len() == rule_lines(lines@, lines@.len()).len(),
        forall|i: int|
            0 <= i < rules.len() ==> {
                let line = #[trigger] rule_lines(lines@, lines@.len())[i];
                let at = last_place(line, " bags contain "@, line.len());
                rules[i].name@ == line.subrange(0, at) && child_texts(rules[i].children@)
                    == children_from(line.subrange(at + 14, line.len() as int), 0)
            },
{
    let mut rules: Vec<Rule> = Vec::new();
    let mut k: usize = 0;
    while k < lines.len()
        invariant
            k <= lines.len(),
            rules.len() == rule_lines(lines@, k as nat).len(),
            forall|i: int|
                0 <= i < rules.len() ==> {
                    let line = #[trigger] rule_lines(lines@, k as nat)[i];
                    let at = last_place(line, " bags contain "@, line.len());
                    rules[i].name@ == line.subrange(0, at) && child_texts(rules[i].children@)
                        == children_from(line.subrange(at + 14, line.len() as int), 0)
                },
        decreases lines.len() - k,
    {
        match Rule::from_str(lines[k].as_str()) {
            Ok(rule) => {
                rules.push(rule);
            },
            Err(_) => {},
        }
        k += 1;
    }
    rules
}

} // verus!
