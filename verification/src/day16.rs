//! Day 16: train tickets in a language one cannot read.

use crate::budget::Budget;
use crate::text::{
    all_digits, chars_of, check_stands_at, decimal_value, lemma_span_start, parse_range,
    parse_unsigned_chars, scan_back, slice_of, span_start, spells, split, split_chars, stands_at,
    starts_with, string_of, unsigned_value, views, CharClass,
};
use vstd::prelude::*;

verus! {

/// A rule for a field of a ticket: its name and the two ranges that its numbers lie in.
pub struct Rule {
    pub name: String,
    pub first: (u32, u32),
    pub second: (u32, u32),
}

/// The notes: the rules, one's own ticket, and the tickets nearby.
pub struct Input {
    pub rules: Vec<Rule>,
    pub ticket: Vec<u32>,
    pub nearby_tickets: Vec<Vec<u32>>,
}

/// Whether `num` lies in one of the two ranges of the rule.
pub open spec fn admits(rule: Rule, num: u32) -> bool {
    (rule.first.0 <= num <= rule.first.1) || (rule.second.0 <= num <= rule.second.1)
}

/// Whether some rule admits `num`.
pub open spec fn is_admitted(rules: Seq<Rule>, num: u32) -> bool {
    exists|i: int| 0 <= i < rules.len() && admits(#[trigger] rules[i], num)
}

/// Whether every number of the ticket is admitted by some rule.
pub open spec fn is_valid_ticket(rules: Seq<Rule>, ticket: Seq<u32>) -> bool {
    forall|j: int| 0 <= j < ticket.len() ==> is_admitted(rules, #[trigger] ticket[j])
}

/// The sum of those of the first `k` numbers of the ticket that no rule admits.
pub open spec fn ticket_errors(rules: Seq<Rule>, ticket: Seq<u32>, k: nat) -> nat
    decreases k,
{
    if k == 0 {
        0
    } else {
        ticket_errors(rules, ticket, (k - 1) as nat) + if is_admitted(rules, ticket[k - 1]) {
            0nat
        } else {
            ticket[k - 1] as nat
        }
    }
}

/// The sum of the numbers of the first `k` tickets that no rule admits.
pub open spec fn error_rate(rules: Seq<Rule>, tickets: Seq<Seq<u32>>, k: nat) -> nat
    decreases k,
{
    if k == 0 {
        0
    } else {
        error_rate(rules, tickets, (k - 1) as nat) + ticket_errors(
            rules,
            tickets[k - 1],
            tickets[k - 1].len(),
        )
    }
}

/// Those of the first `k` tickets that are valid, in order.
pub open spec fn valid_tickets(rules: Seq<Rule>, tickets: Seq<Seq<u32>>, k: nat) -> Seq<Seq<u32>>
    decreases k,
{
    if k == 0 {
        Seq::empty()
    } else if is_valid_ticket(rules, tickets[k - 1]) {
        valid_tickets(rules, tickets, (k - 1) as nat).push(tickets[k - 1])
    } else {
        valid_tickets(rules, tickets, (k - 1) as nat)
    }
}

/// The errors of some numbers of a ticket are no more than those of more numbers.
pub proof fn lemma_ticket_errors_grow(rules: Seq<Rule>, ticket: Seq<u32>, k: nat, m: nat)
    requires
        k <= m,
    ensures
        ticket_errors(rules, ticket, k) <= ticket_errors(rules, ticket, m),
    decreases m,
{
    if k < m {
        lemma_ticket_errors_grow(rules, ticket, k, (m - 1) as nat);
    }
}

/// The error rate of some tickets is no more than that of more tickets.
pub proof fn lemma_error_rate_grows(rules: Seq<Rule>, tickets: Seq<Seq<u32>>, k: nat, m: nat)
    requires
        k <= m,
    ensures
        error_rate(rules, tickets, k) <= error_rate(rules, tickets, m),
    decreases m,
{
    if k < m {
        lemma_error_rate_grows(rules, tickets, k, (m - 1) as nat);
    }
}

/// Whether some rule admits `num`.
pub fn check_number(rules: &Vec<Rule>, num: u32) -> (valid: bool)
    ensures
        valid == is_admitted(rules@, num),
{
    let mut i: usize = 0;
    while i < rules.len()
        invariant
            i <= rules.len(),
            forall|j: int| 0 <= j < i ==> !admits(#[trigger] rules[j], num),
        decreases rules.len() - i,
    {
        let rule = &rules[i];
        if num >= rule.first.0 && num <= rule.first.1 || num >= rule.second.0 && num
            <= rule.second.1 {
            return true;
        }
        i += 1;
    }
    false
}

/// Looks at the tickets nearby: tells the valid ones, and the sum of the
/// numbers that no rule admits.
fn sift(rules: &Vec<Rule>, tickets: &Vec<Vec<u32>>) -> (sifted: (Vec<Vec<u32>>, u32))
    requires
        error_rate(rules@, views(tickets@), tickets@.len()) <= u32::MAX,
    ensures
        views(sifted.0@) == valid_tickets(rules@, views(tickets@), tickets@.len()),
        sifted.1 == error_rate(rules@, views(tickets@), tickets@.len()),
{
    let ghost all = views(tickets@);
    let mut kept: Vec<Vec<u32>> = Vec::new();
    let mut result: u32 = 0;
    let mut t: usize = 0;
    proof {
        assert(views(kept@) =~= valid_tickets(rules@, all, 0));
    }
    while t < tickets.len()
        invariant
            t <= tickets.len(),
            all == views(tickets@),
            error_rate(rules@, all, tickets@.len()) <= u32::MAX,
            views(kept@) == valid_tickets(rules@, all, t as nat),
            result == error_rate(rules@, all, t as nat),
        decreases tickets.len() - t,
    {
        let ticket = &tickets[t];
        assert(all[t as int] == ticket@);
        proof {
            lemma_error_rate_grows(rules@, all, (t + 1) as nat, tickets@.len());
        }
        let mut ticket_valid = true;
        let mut copy: Vec<u32> = Vec::new();
        let ghost rate_before = result;
        let mut j: usize = 0;
        while j < ticket.len()
            invariant
                j <= ticket.len(),
                t < tickets.len(),
                all[t as int] == ticket@,
                rate_before + ticket_errors(rules@, ticket@, ticket@.len()) <= u32::MAX,
                result == rate_before + ticket_errors(rules@, ticket@, j as nat),
                ticket_valid <==> forall|i: int|
                    0 <= i < j ==> is_admitted(rules@, #[trigger] ticket[i]),
                copy@ == ticket@.take(j as int),
            decreases ticket.len() - j,
        {
            let num = ticket[j];
            proof {
                lemma_ticket_errors_grow(rules@, ticket@, (j + 1) as nat, ticket@.len());
                assert(ticket@.take(j + 1) =~= ticket@.take(j as int).push(num));
            }
            if !check_number(rules, num) {
                ticket_valid = false;
                result += num;
            }
            copy.push(num);
            j += 1;
        }
        proof {
            assert(ticket@.take(j as int) =~= ticket@);
        }
        if ticket_valid {
            let ghost before = views(kept@);
            kept.push(copy);
            proof {
                assert(views(kept@) =~= before.push(ticket@));
            }
        }
        t += 1;
    }
    (kept, result)
}

impl Input {
    /// Takes the tickets nearby that are not valid out of the notes, and
    /// tells the sum of the numbers that no rule admits.
    pub fn discard_invalid(&mut self) -> (rate: u32)
        requires
            error_rate(
                old(self).rules@,
                views(old(self).nearby_tickets@),
                old(self).nearby_tickets@.len(),
            ) <= u32::MAX,
        ensures
            rate == error_rate(
                old(self).rules@,
                views(old(self).nearby_tickets@),
                old(self).nearby_tickets@.len(),
            ),
            views(final(self).nearby_tickets@) == valid_tickets(
                old(self).rules@,
                views(old(self).nearby_tickets@),
                old(self).nearby_tickets@.len(),
            ),
            final(self).rules@ == old(self).rules@,
            final(self).ticket@ == old(self).ticket@,
    {
        let (kept, rate) = sift(&self.rules, &self.nearby_tickets);
        self.nearby_tickets = kept;
        rate
    }
}

/// The sum of the numbers on the tickets nearby that no rule admits.
pub fn part1(input: &Input) -> (rate: u32)
    requires
        error_rate(input.rules@, views(input.nearby_tickets@), input.nearby_tickets@.len())
            <= u32::MAX,
    ensures
        rate == error_rate(
            input.rules@,
            views(input.nearby_tickets@),
            input.nearby_tickets@.len(),
        ),
{
    sift(&input.rules, &input.nearby_tickets).1
}


/// The tickets that part two works on: the valid tickets nearby, and one's own.
pub open spec fn all_tickets(input: Input) -> Seq<Seq<u32>> {
    valid_tickets(input.rules@, views(input.nearby_tickets@), input.nearby_tickets@.len()).push(
        input.ticket@,
    )
}

/// Whether the rule admits what every ticket holds at place `pos`.
pub open spec fn fits_at(rule: Rule, tickets: Seq<Seq<u32>>, pos: int) -> bool {
    forall|t: int| 0 <= t < tickets.len() ==> admits(rule, #[trigger] tickets[t][pos])
}

/// The places below `k` at which the rule fits, in ascending order.
pub open spec fn places_below(rule: Rule, tickets: Seq<Seq<u32>>, k: nat) -> Seq<u32>
    decreases k,
{
    if k == 0 {
        Seq::empty()
    } else if fits_at(rule, tickets, k - 1) {
        places_below(rule, tickets, (k - 1) as nat).push((k - 1) as u32)
    } else {
        places_below(rule, tickets, (k - 1) as nat)
    }
}

/// For each rule the places at which it fits.
pub open spec fn candidates(rules: Seq<Rule>, tickets: Seq<Seq<u32>>) -> Seq<Seq<u32>> {
    Seq::new(rules.len(), |r: int| places_below(rules[r], tickets, tickets[0].len()))
}

/// The places that are the only candidate of one of the first `k` rules.
pub open spec fn settled_places(cands: Seq<Seq<u32>>, k: nat) -> Seq<u32>
    decreases k,
{
    if k == 0 {
        Seq::empty()
    } else if cands[k - 1].len() == 1 {
        settled_places(cands, (k - 1) as nat).push(cands[k - 1][0])
    } else {
        settled_places(cands, (k - 1) as nat)
    }
}

/// Those of the first `k` places of `c` that are not among `taken`.
pub open spec fn not_taken(c: Seq<u32>, taken: Seq<u32>, k: nat) -> Seq<u32>
    decreases k,
{
    if k == 0 {
        Seq::empty()
    } else if taken.contains(c[k - 1]) {
        not_taken(c, taken, (k - 1) as nat)
    } else {
        not_taken(c, taken, (k - 1) as nat).push(c[k - 1])
    }
}

/// The candidates after one round of narrowing down: a rule with more or
/// less than one candidate loses those that are the only candidate of a rule.
pub open spec fn narrowed_once(cands: Seq<Seq<u32>>) -> Seq<Seq<u32>> {
    Seq::new(
        cands.len(),
        |r: int|
            if cands[r].len() == 1 {
                cands[r]
            } else {
                not_taken(cands[r], settled_places(cands, cands.len()), cands[r].len())
            },
    )
}

/// The candidates after `k` rounds of narrowing down.
pub open spec fn narrowed(cands: Seq<Seq<u32>>, k: nat) -> Seq<Seq<u32>>
    decreases k,
{
    if k == 0 {
        cands
    } else {
        narrowed_once(narrowed(cands, (k - 1) as nat))
    }
}

/// Every rule that had a candidate at first has just one now.
pub open spec fn is_settled(cands: Seq<Seq<u32>>, at_first: Seq<Seq<u32>>) -> bool {
    forall|r: int|
        0 <= r < cands.len() ==> (#[trigger] at_first[r]).len() == 0 || cands[r].len() == 1
}

/// `k` is the first round after which the candidates are settled.
pub open spec fn settles_after(cands: Seq<Seq<u32>>, k: nat) -> bool {
    &&& is_settled(narrowed(cands, k), cands)
    &&& forall|j: nat| j < k ==> !is_settled(#[trigger] narrowed(cands, j), cands)
}

/// The product of what one's own ticket holds at the places of those of
/// the first `k` rules that have a candidate and a name that starts with
/// `departure`.
pub open spec fn departure_product(
    rules: Seq<Rule>,
    cands: Seq<Seq<u32>>,
    ticket: Seq<u32>,
    k: nat,
) -> int
    decreases k,
{
    if k == 0 {
        1
    } else if cands[k - 1].len() > 0 && "departure"@.is_prefix_of(rules[k - 1].name@) {
        departure_product(rules, cands, ticket, (k - 1) as nat) * ticket[cands[k - 1][0] as int]
    } else {
        departure_product(rules, cands, ticket, (k - 1) as nat)
    }
}

/// Narrowing down keeps the number of rules.
pub proof fn lemma_narrowed_len(cands: Seq<Seq<u32>>, k: nat)
    ensures
        narrowed(cands, k).len() == cands.len(),
    decreases k,
{
    if k > 0 {
        lemma_narrowed_len(cands, (k - 1) as nat);
    }
}

/// The places at which a rule fits lie below the bound.
pub proof fn lemma_places_below(rule: Rule, tickets: Seq<Seq<u32>>, k: nat)
    requires
        k <= u32::MAX,
    ensures
        forall|i: int|
            0 <= i < places_below(rule, tickets, k).len() ==> #[trigger] places_below(
                rule,
                tickets,
                k,
            )[i] < k,
    decreases k,
{
    if k > 0 {
        lemma_places_below(rule, tickets, (k - 1) as nat);
        let here = places_below(rule, tickets, k);
        let before = places_below(rule, tickets, (k - 1) as nat);
        assert forall|i: int| 0 <= i < here.len() implies #[trigger] here[i] < k by {
            if i < before.len() {
                assert(here[i] == before[i]);
            }
        }
    }
}

/// What is left of some places lies among them.
pub proof fn lemma_not_taken(c: Seq<u32>, taken: Seq<u32>, k: nat, bound: int)
    requires
        k <= c.len(),
        forall|i: int| 0 <= i < c.len() ==> #[trigger] c[i] < bound,
    ensures
        forall|i: int|
            0 <= i < not_taken(c, taken, k).len() ==> #[trigger] not_taken(c, taken, k)[i] < bound,
    decreases k,
{
    if k > 0 {
        lemma_not_taken(c, taken, (k - 1) as nat, bound);
        let here = not_taken(c, taken, k);
        let before = not_taken(c, taken, (k - 1) as nat);
        assert forall|i: int| 0 <= i < here.len() implies #[trigger] here[i] < bound by {
            if i < before.len() {
                assert(here[i] == before[i]);
            } else {
                assert(here[i] == c[k - 1]);
            }
        }
    }
}

/// Every candidate lies below `bound`.
pub open spec fn all_below(cands: Seq<Seq<u32>>, bound: int) -> bool {
    forall|r: int, i: int|
        0 <= r < cands.len() && 0 <= i < cands[r].len() ==> #[trigger] cands[r][i] < bound
}

/// Narrowing down leaves candidates below the bound they were below.
pub proof fn lemma_narrowed_below(cands: Seq<Seq<u32>>, k: nat, bound: int)
    requires
        all_below(cands, bound),
    ensures
        all_below(narrowed(cands, k), bound),
        narrowed(cands, k).len() == cands.len(),
    decreases k,
{
    if k > 0 {
        lemma_narrowed_below(cands, (k - 1) as nat, bound);
        let before = narrowed(cands, (k - 1) as nat);
        let after = narrowed(cands, k);
        assert forall|r: int, i: int|
            0 <= r < after.len() && 0 <= i < after[r].len() implies #[trigger] after[r][i]
            < bound by {
            if before[r].len() != 1 {
                assert forall|j: int| 0 <= j < before[r].len() implies #[trigger] before[r][j]
                    < bound by {}
                lemma_not_taken(
                    before[r],
                    settled_places(before, before.len()),
                    before[r].len(),
                    bound,
                );
            }
        }
    }
}

/// Whether `place` is among `places`.
fn is_among(places: &Vec<u32>, place: u32) -> (found: bool)
    ensures
        found == places@.contains(place),
{
    let mut i: usize = 0;
    while i < places.len()
        invariant
            i <= places.len(),
            forall|j: int| 0 <= j < i ==> places[j] != place,
        decreases places.len() - i,
    {
        if places[i] == place {
            return true;
        }
        i += 1;
    }
    false
}

/// For each rule the places at which it fits.
fn find_candidates(rules: &Vec<Rule>, tickets: &Vec<Vec<u32>>) -> (cands: Vec<Vec<u32>>)
    requires
        tickets.len() > 0,
        tickets[0].len() <= u32::MAX,
        forall|t: int| 0 <= t < tickets.len() ==> (#[trigger] tickets[t]).len() >= tickets[0].len(),
    ensures
        views(cands@) == candidates(rules@, views(tickets@)),
{
    let ghost all = views(tickets@);
    let width = tickets[0].len();
    assert(all[0] == tickets[0]@);
    let mut cands: Vec<Vec<u32>> = Vec::new();
    let mut r: usize = 0;
    while r < rules.len()
        invariant
            r <= rules.len(),
            all == views(tickets@),
            tickets.len() > 0,
            width == tickets[0].len() == all[0].len(),
            width <= u32::MAX,
            forall|t: int| 0 <= t < tickets.len() ==> (#[trigger] tickets[t]).len() >= width,
            cands.len() == r,
            forall|i: int|
                0 <= i < r ==> (#[trigger] cands[i])@ == places_below(rules[i], all, width as nat),
        decreases rules.len() - r,
    {
        let rule = &rules[r];
        let mut places: Vec<u32> = Vec::new();
        let mut pos: usize = 0;
        while pos < width
            invariant
                pos <= width <= u32::MAX,
                r < rules.len(),
                *rule == rules[r as int],
                all == views(tickets@),
                forall|t: int| 0 <= t < tickets.len() ==> (#[trigger] tickets[t]).len() >= width,
                places@ == places_below(*rule, all, pos as nat),
            decreases width - pos,
        {
            let mut fits = true;
            let mut t: usize = 0;
            while t < tickets.len()
                invariant
                    t <= tickets.len(),
                    pos < width,
                    all == views(tickets@),
                    forall|i: int|
                        0 <= i < tickets.len() ==> (#[trigger] tickets[i]).len() >= width,
                    fits <==> forall|i: int|
                        0 <= i < t ==> admits(*rule, #[trigger] all[i][pos as int]),
                decreases tickets.len() - t,
            {
                assert(tickets[t as int].len() >= width);
                assert(all[t as int] == tickets[t as int]@);
                let num = tickets[t][pos];
                if !(num >= rule.first.0 && num <= rule.first.1 || num >= rule.second.0 && num
                    <= rule.second.1) {
                    fits = false;
                }
                t += 1;
            }
            if fits {
                places.push(pos as u32);
            }
            pos += 1;
        }
        cands.push(places);
        r += 1;
    }
    proof {
        assert(views(cands@) =~= candidates(rules@, all));
    }
    cands
}

/// The places that are the only candidate of a rule.
fn find_settled(cands: &Vec<Vec<u32>>) -> (places: Vec<u32>)
    ensures
        places@ == settled_places(views(cands@), cands@.len()),
{
    let ghost lists = views(cands@);
    let mut places: Vec<u32> = Vec::new();
    let mut r: usize = 0;
    while r < cands.len()
        invariant
            r <= cands.len(),
            lists == views(cands@),
            places@ == settled_places(lists, r as nat),
        decreases cands.len() - r,
    {
        assert(lists[r as int] == cands[r as int]@);
        if cands[r].len() == 1 {
            places.push(cands[r][0]);
        }
        r += 1;
    }
    places
}

/// One round of narrowing down.
fn narrow_down(cands: &Vec<Vec<u32>>) -> (next: Vec<Vec<u32>>)
    ensures
        views(next@) == narrowed_once(views(cands@)),
{
    let ghost lists = views(cands@);
    let taken = find_settled(cands);
    let mut next: Vec<Vec<u32>> = Vec::new();
    let mut r: usize = 0;
    while r < cands.len()
        invariant
            r <= cands.len(),
            lists == views(cands@),
            taken@ == settled_places(lists, lists.len()),
            next.len() == r,
            forall|i: int| 0 <= i < r ==> (#[trigger] next[i])@ == narrowed_once(lists)[i],
        decreases cands.len() - r,
    {
        let list = &cands[r];
        assert(lists[r as int] == list@);
        let mut left: Vec<u32> = Vec::new();
        let mut i: usize = 0;
        while i < list.len()
            invariant
                i <= list.len(),
                left@ == if list.len() == 1 {
                    list@.take(i as int)
                } else {
                    not_taken(list@, taken@, i as nat)
                },
            decreases list.len() - i,
        {
            proof {
                assert(list@.take(i + 1) =~= list@.take(i as int).push(list[i as int]));
            }
            if list.len() == 1 || !is_among(&taken, list[i]) {
                left.push(list[i]);
            }
            i += 1;
        }
        proof {
            assert(list@.take(i as int) =~= list@);
        }
        next.push(left);
        r += 1;
    }
    proof {
        assert(views(next@) =~= narrowed_once(lists));
    }
    next
}

/// Whether every rule that had a candidate at first has just one now.
fn check_settled(cands: &Vec<Vec<u32>>, at_first: &Vec<Vec<u32>>) -> (settled: bool)
    requires
        cands.len() == at_first.len(),
    ensures
        settled == is_settled(views(cands@), views(at_first@)),
{
    let mut r: usize = 0;
    while r < cands.len()
        invariant
            r <= cands.len() == at_first.len(),
            forall|i: int|
                0 <= i < r ==> (#[trigger] views(at_first@)[i]).len() == 0 || views(cands@)[i].len()
                    == 1,
        decreases cands.len() - r,
    {
        assert(views(at_first@)[r as int] == at_first[r as int]@);
        assert(views(cands@)[r as int] == cands[r as int]@);
        if at_first[r].len() != 0 && cands[r].len() != 1 {
            return false;
        }
        r += 1;
    }
    true
}

/// A copy of the lists.
fn copy_lists(lists: &Vec<Vec<u32>>) -> (copy: Vec<Vec<u32>>)
    ensures
        views(copy@) == views(lists@),
{
    let mut copy: Vec<Vec<u32>> = Vec::new();
    let mut r: usize = 0;
    while r < lists.len()
        invariant
            r <= lists.len(),
            copy.len() == r,
            forall|i: int| 0 <= i < r ==> (#[trigger] copy[i])@ == lists[i]@,
        decreases lists.len() - r,
    {
        let list = &lists[r];
        let mut one: Vec<u32> = Vec::new();
        let mut i: usize = 0;
        while i < list.len()
            invariant
                i <= list.len(),
                one@ == list@.take(i as int),
            decreases list.len() - i,
        {
            one.push(list[i]);
            proof {
                assert(list@.take(i + 1) =~= list@.take(i as int).push(list[i as int]));
            }
            i += 1;
        }
        proof {
            assert(list@.take(i as int) =~= list@);
        }
        copy.push(one);
        r += 1;
    }
    proof {
        assert(views(copy@) =~= views(lists@));
    }
    copy
}

/// Part two can be set about: the error rate fits, the tickets are as
/// long as the first, and no two rules have the same name.
pub open spec fn can_prepare(input: Input) -> bool {
    let all = all_tickets(input);
    &&& error_rate(input.rules@, views(input.nearby_tickets@), input.nearby_tickets@.len())
        <= u32::MAX
    &&& all[0].len() <= u32::MAX
    &&& forall|t: int| 0 <= t < all.len() ==> (#[trigger] all[t]).len() >= all[0].len()
    &&& forall|i: int, j: int|
        0 <= i < j < input.rules@.len() ==> input.rules@[i].name@ != input.rules@[j].name@
}

/// The products of the fields of departure fit in 64 bits, once the
/// candidates are narrowed down for `k` rounds.
pub open spec fn products_fit(input: Input, k: nat) -> bool {
    forall|m: nat|
        m <= input.rules@.len() ==> #[trigger] departure_product(
            input.rules@,
            narrowed(candidates(input.rules@, all_tickets(input)), k),
            input.ticket@,
            m,
        ) <= u64::MAX
}

/// Part two can be worked out: it can be set about, narrowing down comes
/// to an end, and the product fits.
pub open spec fn can_solve(input: Input) -> bool {
    let cands = candidates(input.rules@, all_tickets(input));
    &&& can_prepare(input)
    &&& exists|k: nat| settles_after(cands, k)
    &&& forall|k: nat| settles_after(cands, k) ==> #[trigger] products_fit(input, k)
}

/// The product of departure is not negative, and never falls to zero
/// and rises again.
proof fn lemma_departure_product(rules: Seq<Rule>, cands: Seq<Seq<u32>>, ticket: Seq<u32>, k: nat)
    ensures
        0 <= departure_product(rules, cands, ticket, k),
    decreases k,
{
    if k > 0 {
        lemma_departure_product(rules, cands, ticket, (k - 1) as nat);
        let before = departure_product(rules, cands, ticket, (k - 1) as nat);
        let factor = ticket[cands[k - 1][0] as int];
        assert(0 <= before * factor) by (nonlinear_arith)
            requires
                0 <= before,
                0 <= factor,
        ;
    }
}

/// Narrowing down settles after one number of rounds only.
pub proof fn lemma_settles_once(cands: Seq<Seq<u32>>, j: nat, k: nat)
    requires
        settles_after(cands, j),
        settles_after(cands, k),
    ensures
        j == k,
{
    if j < k {
        assert(!is_settled(narrowed(cands, j), cands));
    } else if k < j {
        assert(!is_settled(narrowed(cands, k), cands));
    }
}

/// Works part two out as far as the budget allows: `None` where it
/// does not allow to narrow the candidates down to the end, or the
/// product does not fit in 64 bits.
fn solve(input: &Input, budget: Budget) -> (product: Option<u64>)
    requires
        can_prepare(*input),
        budget is Endless ==> settles_after(
            candidates(input.rules@, all_tickets(*input)),
            budget.fuel(),
        ) && products_fit(*input, budget.fuel()),
    ensures
        match product {
            Some(p) => exists|k: nat|
                k <= budget.fuel() && settles_after(
                    candidates(input.rules@, all_tickets(*input)),
                    k,
                ) && products_fit(*input, k) && p == departure_product(
                    input.rules@,
                    #[trigger] narrowed(candidates(input.rules@, all_tickets(*input)), k),
                    input.ticket@,
                    input.rules@.len(),
                ),
            None => forall|k: nat|
                k <= budget.fuel() && settles_after(
                    candidates(input.rules@, all_tickets(*input)),
                    k,
                ) ==> !#[trigger] products_fit(*input, k),
        },
{
    let ghost all = all_tickets(*input);
    let ghost start = candidates(input.rules@, all);
    let ghost fuel = budget.fuel();
    let (mut tickets, _) = sift(&input.rules, &input.nearby_tickets);
    let mut own: Vec<u32> = Vec::new();
    let mut i: usize = 0;
    while i < input.ticket.len()
        invariant
            i <= input.ticket.len(),
            own@ == input.ticket@.take(i as int),
        decreases input.ticket.len() - i,
    {
        own.push(input.ticket[i]);
        proof {
            assert(input.ticket@.take(i + 1) =~= input.ticket@.take(i as int).push(
                input.ticket[i as int],
            ));
        }
        i += 1;
    }
    let ghost kept = views(tickets@);
    tickets.push(own);
    proof {
        assert(input.ticket@.take(i as int) =~= input.ticket@);
        assert(views(tickets@) =~= kept.push(input.ticket@));
        assert(views(tickets@) == all);
        assert forall|t: int| 0 <= t < tickets.len() implies (#[trigger] tickets[t]).len()
            >= tickets[0].len() by {
            assert(all[t] == tickets[t]@);
            assert(all[0] == tickets[0]@);
        }
        assert(all[0] == tickets[0]@);
    }
    let at_first = find_candidates(&input.rules, &tickets);
    let mut cands = copy_lists(&at_first);
    let mut left = budget;
    let ghost mut k: nat = 0;
    proof {
        assert(views(at_first@).len() == input.rules@.len());
    }
    while !check_settled(&cands, &at_first)
        invariant
            fuel == budget.fuel(),
            start == candidates(input.rules@, all_tickets(*input)),
            left is Endless <==> budget is Endless,
            budget is Endless ==> settles_after(start, fuel),
            k + left.fuel() == fuel,
            views(at_first@) == start,
            views(cands@) == narrowed(start, k),
            cands.len() == at_first.len(),
            forall|j: nat| j < k ==> !is_settled(#[trigger] narrowed(start, j), start),
        decreases left.fuel(),
    {
        proof {
            if budget is Endless && k == fuel {
                assert(false);
            }
            lemma_narrowed_len(start, k + 1);
        }
        match left.spend() {
            Some(less) => {
                left = less;
            },
            None => {
                proof {
                    assert forall|m: nat| m <= fuel && settles_after(start, m) implies !products_fit(
                        *input,
                        m,
                    ) by {
                        if m < k {
                            assert(!is_settled(narrowed(start, m), start));
                        }
                    }
                }
                return None;
            },
        }
        cands = narrow_down(&cands);
        proof {
            k = k + 1;
            assert(views(cands@).len() == cands.len());
        }
    }
    proof {
        assert(settles_after(start, k));
        if budget is Endless {
            lemma_settles_once(start, k, fuel);
        }
        lemma_places_below_all(input.rules@, all);
        lemma_narrowed_below(start, k, all[0].len() as int);
        let found = narrowed(start, k);
        assert(all[all.len() - 1] == input.ticket@);
        assert(all[all.len() - 1].len() >= all[0].len());
        assert forall|r: int, i: int|
            0 <= r < found.len() && 0 <= i < found[r].len() implies #[trigger] found[r][i]
            < input.ticket@.len() by {
            assert(found[r][i] < all[0].len());
        }
    }
    let ghost last = narrowed(start, k);
    let mut product: u64 = 1;
    let mut r: usize = 0;
    proof {
        reveal_strlit("departure");
    }
    while r < input.rules.len()
        invariant
            r <= input.rules.len() == cands.len(),
            fuel == budget.fuel(),
            k <= fuel,
            start == candidates(input.rules@, all_tickets(*input)),
            last == narrowed(start, k),
            settles_after(start, k),
            views(cands@) == last,
            all_below(last, input.ticket@.len() as int),
            budget is Endless ==> products_fit(*input, k),
            forall|m: nat|
                m <= r ==> #[trigger] departure_product(input.rules@, last, input.ticket@, m)
                    <= u64::MAX,
            product == departure_product(input.rules@, last, input.ticket@, r as nat),
        decreases input.rules.len() - r,
    {
        assert(last[r as int] == cands[r as int]@);
        let name = chars_of(input.rules[r].name.as_str());
        let ghost before = product;
        if cands[r].len() > 0 && starts_with(&name, "departure") {
            assert(last[r as int][0] < input.ticket@.len());
            proof {
                if products_fit(*input, k) {
                    assert(departure_product(input.rules@, last, input.ticket@, (r + 1) as nat)
                        <= u64::MAX);
                }
                lemma_departure_product(input.rules@, last, input.ticket@, r as nat);
                assert(0 <= product * input.ticket@[last[r as int][0] as int]) by (nonlinear_arith)
                    requires
                        0 <= product,
                        0 <= input.ticket@[last[r as int][0] as int],
                ;
            }
            match product.checked_mul(input.ticket[cands[r][0] as usize] as u64) {
                Some(more) => {
                    product = more;
                },
                None => {
                    proof {
                        assert(departure_product(
                            input.rules@,
                            last,
                            input.ticket@,
                            (r + 1) as nat,
                        ) > u64::MAX);
                        assert(!products_fit(*input, k));
                        assert forall|m: nat| m <= fuel && settles_after(start, m) implies !products_fit(
                            *input,
                            m,
                        ) by {
                            lemma_settles_once(start, m, k);
                        }
                    }
                    return None;
                },
            }
        }
        proof {
            assert forall|m: nat| m <= r + 1 implies #[trigger] departure_product(
                input.rules@,
                last,
                input.ticket@,
                m,
            ) <= u64::MAX by {
                if m == r + 1 {
                    assert(departure_product(input.rules@, last, input.ticket@, m) == product);
                }
            }
        }
        r += 1;
    }
    proof {
        assert(products_fit(*input, k));
    }
    Some(product)
}

/// The product of the numbers of one's own ticket in the fields whose
/// name starts with `departure`, once it is worked out which field is
/// where: the places at which a rule fits all valid tickets are narrowed
/// down until each rule has one.
pub fn part2(input: &Input) -> (product: u64)
    requires
        can_solve(*input),
    ensures
        exists|k: nat|
            settles_after(candidates(input.rules@, all_tickets(*input)), k) && product
                == departure_product(
                input.rules@,
                #[trigger] narrowed(candidates(input.rules@, all_tickets(*input)), k),
                input.ticket@,
                input.rules@.len(),
            ),
{
    let ghost start = candidates(input.rules@, all_tickets(*input));
    let ghost end = choose|k: nat| settles_after(start, k);
    assert(products_fit(*input, end));
    match solve(input, Budget::Endless(Ghost(end))) {
        Some(product) => product,
        None => 0,
    }
}

/// The product of part two, with the candidates narrowed down for
/// `rounds` rounds at most; `None` where that takes more rounds, or the
/// product does not fit in 64 bits.
pub fn part2_within(input: &Input, rounds: usize) -> (product: Option<u64>)
    requires
        can_prepare(*input),
    ensures
        match product {
            Some(p) => exists|k: nat|
                k <= rounds && settles_after(candidates(input.rules@, all_tickets(*input)), k)
                    && p == departure_product(
                    input.rules@,
                    #[trigger] narrowed(candidates(input.rules@, all_tickets(*input)), k),
                    input.ticket@,
                    input.rules@.len(),
                ),
            None => forall|k: nat|
                k <= rounds && settles_after(candidates(input.rules@, all_tickets(*input)), k)
                    ==> !#[trigger] products_fit(*input, k),
        },
{
    solve(input, Budget::Counted(rounds))
}

/// The candidates found at first lie below the width of the tickets.
proof fn lemma_places_below_all(rules: Seq<Rule>, tickets: Seq<Seq<u32>>)
    requires
        tickets[0].len() <= u32::MAX,
    ensures
        all_below(candidates(rules, tickets), tickets[0].len() as int),
{
    let cands = candidates(rules, tickets);
    assert forall|r: int, i: int|
        0 <= r < cands.len() && 0 <= i < cands[r].len() implies #[trigger] cands[r][i]
        < tickets[0].len() by {
        lemma_places_below(rules[r], tickets, tickets[0].len());
    }
}


/// Where the four numbers of a rule start in its line, found from the
/// end of the line backwards.
pub open spec fn number_starts(s: Seq<char>) -> (int, int, int, int) {
    let p4 = span_start(s, s.len() as int, CharClass::Digit);
    let p3 = span_start(s, p4 - 1, CharClass::Digit);
    let p2 = span_start(s, p3 - 4, CharClass::Digit);
    let p1 = span_start(s, p2 - 1, CharClass::Digit);
    (p1, p2, p3, p4)
}

/// The line spells a rule: a name, a colon and a blank, and two ranges
/// with ` or ` between, each two numbers with a hyphen between.
pub open spec fn is_rule_text(s: Seq<char>) -> bool {
    let (p1, p2, p3, p4) = number_starts(s);
    &&& 1 <= p4 < s.len() && s[p4 - 1] == '-'
    &&& 4 <= p3 < p4 - 1 && stands_at(s, " or "@, p3 - 4)
    &&& 1 <= p2 < p3 - 4 && s[p2 - 1] == '-'
    &&& 2 < p1 < p2 - 1 && stands_at(s, ": "@, p1 - 2)
}

/// The four numbers of a rule.
pub open spec fn rule_numbers(s: Seq<char>) -> (int, int, int, int) {
    let (p1, p2, p3, p4) = number_starts(s);
    (
        decimal_value(s.subrange(p1, p2 - 1)),
        decimal_value(s.subrange(p2, p3 - 4)),
        decimal_value(s.subrange(p3, p4 - 1)),
        decimal_value(s.subrange(p4, s.len() as int)),
    )
}

/// The numbers of the rule fit in 32 bits.
pub open spec fn numbers_fit(s: Seq<char>) -> bool {
    rule_numbers(s).0 <= u32::MAX && rule_numbers(s).1 <= u32::MAX && rule_numbers(s).2
        <= u32::MAX && rule_numbers(s).3 <= u32::MAX
}

/// The rule that a line spells, if it spells one.
pub fn read_rule(s: &Vec<char>) -> (rule: Option<Rule>)
    requires
        is_rule_text(s@) ==> numbers_fit(s@),
    ensures
        match rule {
            Some(r) => is_rule_text(s@) && r.name@ == s@.subrange(0, number_starts(s@).0 - 2)
                && r.first.0 == rule_numbers(s@).0 && r.first.1 == rule_numbers(s@).1 && r.second.0
                == rule_numbers(s@).2 && r.second.1 == rule_numbers(s@).3,
            None => !is_rule_text(s@),
        },
{
    let or = chars_of(" or ");
    let colon = chars_of(": ");
    proof {
        reveal_strlit(" or ");
        reveal_strlit(": ");
    }
    let len = s.len();
    let p4 = scan_back(s, len, CharClass::Digit);
    if p4 < 1 || p4 >= len || s[p4 - 1] != '-' {
        return None;
    }
    let p3 = scan_back(s, p4 - 1, CharClass::Digit);
    if p3 < 4 || p3 >= p4 - 1 || !check_stands_at(s, &or, p3 - 4) {
        return None;
    }
    let p2 = scan_back(s, p3 - 4, CharClass::Digit);
    if p2 < 1 || p2 >= p3 - 4 || s[p2 - 1] != '-' {
        return None;
    }
    let p1 = scan_back(s, p2 - 1, CharClass::Digit);
    if p1 <= 2 || p1 >= p2 - 1 || !check_stands_at(s, &colon, p1 - 2) {
        return None;
    }
    proof {
        lemma_span_start(s@, len as int, CharClass::Digit);
        lemma_span_start(s@, p4 - 1, CharClass::Digit);
        lemma_span_start(s@, p3 - 4, CharClass::Digit);
        lemma_span_start(s@, p2 - 1, CharClass::Digit);
        assert(is_rule_text(s@));
        assert(all_digits(s@.subrange(p1 as int, p2 - 1)));
        assert(all_digits(s@.subrange(p2 as int, p3 - 4)));
        assert(all_digits(s@.subrange(p3 as int, p4 - 1)));
        assert(all_digits(s@.subrange(p4 as int, len as int)));
    }
    let a = parse_range(s, p1, p2 - 1, u32::MAX as u64);
    let b = parse_range(s, p2, p3 - 4, u32::MAX as u64);
    let c = parse_range(s, p3, p4 - 1, u32::MAX as u64);
    let d = parse_range(s, p4, len, u32::MAX as u64);
    match (a, b, c, d) {
        (Some(a), Some(b), Some(c), Some(d)) => {
            let name = slice_of(s, 0, p1 - 2);
            Some(
                Rule {
                    name: string_of(&name),
                    first: (a as u32, b as u32),
                    second: (c as u32, d as u32),
                },
            )
        },
        _ => None,
    }
}

/// The numbers that the first `k` pieces of a ticket spell.
pub open spec fn ticket_numbers(pieces: Seq<Seq<char>>, k: nat) -> Seq<u32>
    decreases k,
{
    if k == 0 {
        Seq::empty()
    } else {
        ticket_numbers(pieces, (k - 1) as nat).push(
            unsigned_value(pieces[k - 1], u32::MAX as int).unwrap() as u32,
        )
    }
}

/// The ticket that a line spells: numbers with commas between.
pub open spec fn ticket_of(line: Seq<char>) -> Seq<u32> {
    ticket_numbers(split(line, ','), split(line, ',').len())
}

/// Every piece of the line between commas spells a number.
pub open spec fn is_ticket(line: Seq<char>) -> bool {
    forall|i: int|
        0 <= i < split(line, ',').len() ==> unsigned_value(
            #[trigger] split(line, ',')[i],
            u32::MAX as int,
        ) is Some
}

/// The ticket that a line spells.
pub fn read_ticket(line: &Vec<char>) -> (ticket: Vec<u32>)
    requires
        is_ticket(line@),
    ensures
        ticket@ == ticket_of(line@),
{
    let pieces = split_chars(line, ',');
    let ghost cut = split(line@, ',');
    assert(pieces.len() == views(pieces@).len());
    let mut ticket: Vec<u32> = Vec::new();
    let mut k: usize = 0;
    while k < pieces.len()
        invariant
            k <= pieces.len(),
            views(pieces@) == cut,
            cut == split(line@, ','),
            is_ticket(line@),
            ticket@ == ticket_numbers(cut, k as nat),
        decreases pieces.len() - k,
    {
        assert(cut[k as int] == pieces[k as int]@);
        assert(unsigned_value(cut[k as int], u32::MAX as int) is Some);
        match parse_unsigned_chars(&pieces[k], u32::MAX as u64) {
            Some(v) => ticket.push(v as u32),
            None => {},
        }
        k += 1;
    }
    ticket
}

/// What is read of the notes so far.
pub struct Notes {
    /// 0 among the rules, 1 behind `your ticket:`, 2 behind `nearby tickets:`.
    pub section: int,
    /// Name and numbers of each rule.
    pub rules: Seq<(Seq<char>, (int, int, int, int))>,
    pub ticket: Seq<u32>,
    pub nearby: Seq<Seq<u32>>,
}

/// What is read after the first `k` lines: an empty line is passed over,
/// the two headings open their sections, and any other line is read as
/// its section asks; among the rules a line that spells none is passed over.
pub open spec fn notes_after(lines: Seq<String>, k: nat) -> Notes
    decreases k,
{
    if k == 0 {
        Notes { section: 0, rules: Seq::empty(), ticket: Seq::empty(), nearby: Seq::empty() }
    } else {
        let before = notes_after(lines, (k - 1) as nat);
        let line = lines[k - 1]@;
        if line.len() == 0 {
            before
        } else if line == "your ticket:"@ {
            Notes { section: 1, ..before }
        } else if line == "nearby tickets:"@ {
            Notes { section: 2, ..before }
        } else if before.section == 0 {
            if is_rule_text(line) {
                Notes {
                    rules: before.rules.push(
                        (line.subrange(0, number_starts(line).0 - 2), rule_numbers(line)),
                    ),
                    ..before
                }
            } else {
                before
            }
        } else if before.section == 1 {
            Notes { ticket: ticket_of(line), ..before }
        } else {
            Notes { nearby: before.nearby.push(ticket_of(line)), ..before }
        }
    }
}

/// The line can be read where it stands: the numbers of a rule fit in
/// 32 bits, and a ticket holds nothing but numbers.
pub open spec fn is_readable(lines: Seq<String>, k: int) -> bool {
    let line = lines[k]@;
    if line.len() == 0 || line == "your ticket:"@ || line == "nearby tickets:"@ {
        true
    } else if notes_after(lines, k as nat).section == 0 {
        is_rule_text(line) ==> numbers_fit(line)
    } else {
        is_ticket(line)
    }
}

/// What stands for the rules in the specification.
pub open spec fn rule_texts(rules: Seq<Rule>) -> Seq<(Seq<char>, (int, int, int, int))> {
    rules.map_values(
        |r: Rule| (r.name@, (r.first.0 as int, r.first.1 as int, r.second.0 as int, r.second.1 as int)),
    )
}

/// The notes that the lines hold: the rules, one's own ticket behind
/// `your ticket:`, and the tickets nearby behind `nearby tickets:`.
pub fn read_input(lines: &Vec<String>) -> (input: Input)
    requires
        forall|k: int| 0 <= k < lines.len() ==> #[trigger] is_readable(lines@, k),
    ensures
        rule_texts(input.rules@) == notes_after(lines@, lines@.len()).rules,
        input.ticket@ == notes_after(lines@, lines@.len()).ticket,
        views(input.nearby_tickets@) == notes_after(lines@, lines@.len()).nearby,
{
    let mut rules: Vec<Rule> = Vec::new();
    let mut ticket: Vec<u32> = Vec::new();
    let mut nearby_tickets: Vec<Vec<u32>> = Vec::new();
    let mut section: u8 = 0;
    let mut k: usize = 0;
    proof {
        assert(rule_texts(rules@) =~= notes_after(lines@, 0).rules);
        assert(views(nearby_tickets@) =~= notes_after(lines@, 0).nearby);
    }
    while k < lines.len()
        invariant
            k <= lines.len(),
            forall|i: int| 0 <= i < lines.len() ==> #[trigger] is_readable(lines@, i),
            section == notes_after(lines@, k as nat).section,
            0 <= section <= 2,
            rule_texts(rules@) == notes_after(lines@, k as nat).rules,
            ticket@ == notes_after(lines@, k as nat).ticket,
            views(nearby_tickets@) == notes_after(lines@, k as nat).nearby,
        decreases lines.len() - k,
    {
        let line = chars_of(lines[k].as_str());
        assert(is_readable(lines@, k as int));
        if line.len() == 0 {
        } else if spells(&line, "your ticket:") {
            section = 1;
        } else if spells(&line, "nearby tickets:") {
            section = 2;
        } else if section == 0 {
            match read_rule(&line) {
                Some(rule) => {
                    let ghost before = rule_texts(rules@);
                    rules.push(rule);
                    proof {
                        assert(rule_texts(rules@) =~= before.push(
                            (
                                line@.subrange(0, number_starts(line@).0 - 2),
                                rule_numbers(line@),
                            ),
                        ));
                    }
                },
                None => {},
            }
        } else if section == 1 {
            ticket = read_ticket(&line);
        } else {
            let ghost before = views(nearby_tickets@);
            nearby_tickets.push(read_ticket(&line));
            proof {
                assert(views(nearby_tickets@) =~= before.push(ticket_of(line@)));
            }
        }
        k += 1;
    }
    Input { rules, ticket, nearby_tickets }
}

} // verus!
