//! Day 2: passwords and the policies they were set under.

use crate::text::{
    all_digits, chars_of, count_char, decimal_value, is_word, lemma_span, occurrences,
    parse_digits, scan, slice_of, span_end, string_of, CharClass,
};
use vstd::prelude::*;

verus! {

/// A password with the policy it was set under: two numbers and a character.
pub struct PolicyPassword {
    pub first: usize,
    pub second: usize,
    pub character: char,
    pub pass: String,
}

/// Why a line spells no policy and password.
#[derive(Debug, Clone, Copy, PartialEq, Eq, Structural)]
pub enum PolicyError {
    /// The line is not of the form `1-3 a: abcde`.
    Malformed,
    /// A number of the policy does not fit in a machine word.
    NumberTooLarge,
}

/// Where the parts of a line end: the first number, the second number, the
/// blanks after it, the blanks after the colon, and the password.
pub open spec fn part_ends(s: Seq<char>) -> (int, int, int, int, int) {
    let a = span_end(s, 0, CharClass::Digit);
    let b = span_end(s, a + 1, CharClass::Digit);
    let c = span_end(s, b, CharClass::Space);
    let d = span_end(s, c + 2, CharClass::Space);
    let e = span_end(s, d, CharClass::Word);
    (a, b, c, d, e)
}

/// The line has the form of a policy and a password: a number, a hyphen,
/// a number, blanks, a character of a word, a colon, blanks, and a word to
/// the end of the line.
pub open spec fn is_policy_line(s: Seq<char>) -> bool {
    let (a, b, c, d, e) = part_ends(s);
    &&& 0 < a < s.len() && s[a] == '-'
    &&& a + 1 < b
    &&& b < c
    &&& c + 1 < s.len() && is_word(s[c]) && s[c + 1] == ':'
    &&& c + 2 < d
    &&& d < e
    &&& e == s.len()
}

/// The first number of the policy.
pub open spec fn first_of(s: Seq<char>) -> int {
    decimal_value(s.subrange(0, part_ends(s).0))
}

/// The second number of the policy.
pub open spec fn second_of(s: Seq<char>) -> int {
    decimal_value(s.subrange(part_ends(s).0 + 1, part_ends(s).1))
}

impl PolicyPassword {
    /// The policy and password that a line of the form `1-3 a: abcde` spells.
    pub fn from_str(s: &str) -> (parsed: Result<PolicyPassword, PolicyError>)
        ensures
            match parsed {
                Ok(p) => is_policy_line(s@) && p.first == first_of(s@) && p.second == second_of(s@)
                    && p.character == s@[part_ends(s@).2] && p.pass@ == s@.subrange(
                    part_ends(s@).3,
                    part_ends(s@).4,
                ),
                Err(PolicyError::Malformed) => !is_policy_line(s@),
                Err(PolicyError::NumberTooLarge) => is_policy_line(s@) && (first_of(s@)
                    > usize::MAX || second_of(s@) > usize::MAX),
            },
    {
        let chars = chars_of(s);
        let len = chars.len();
        let a = scan(&chars, 0, CharClass::Digit);
        if a == 0 || a >= len || chars[a] != '-' {
            return Err(PolicyError::Malformed);
        }
        let b = scan(&chars, a + 1, CharClass::Digit);
        if b == a + 1 {
            return Err(PolicyError::Malformed);
        }
        let c = scan(&chars, b, CharClass::Space);
        if c == b || c >= len || c + 1 >= len || !crate::text::is_in_class(CharClass::Word, chars[c]) || chars[c
            + 1] != ':' {
            return Err(PolicyError::Malformed);
        }
        let d = scan(&chars, c + 2, CharClass::Space);
        if d == c + 2 {
            return Err(PolicyError::Malformed);
        }
        let e = scan(&chars, d, CharClass::Word);
        if e == d || e != len {
            return Err(PolicyError::Malformed);
        }
        let first_digits = slice_of(&chars, 0, a);
        let second_digits = slice_of(&chars, a + 1, b);
        proof {
            lemma_span(chars@, 0, CharClass::Digit);
            lemma_span(chars@, a + 1, CharClass::Digit);
            assert(first_digits@.skip(0) =~= first_digits@);
            assert(second_digits@.skip(0) =~= second_digits@);
            assert(all_digits(first_digits@));
            assert(all_digits(second_digits@));
        }
        let first = parse_digits(&first_digits, 0, usize::MAX as u64);
        let second = parse_digits(&second_digits, 0, usize::MAX as u64);
        match (first, second) {
            (Some(first), Some(second)) => {
                let word = slice_of(&chars, d, e);
                Ok(
                    PolicyPassword {
                        first: first as usize,
                        second: second as usize,
                        character: chars[c],
                        pass: string_of(&word),
                    },
                )
            },
            _ => Err(PolicyError::NumberTooLarge),
        }
    }

    /// The character of the policy occurs in the password at least
    /// `first` and at most `second` times.
    pub open spec fn in_range(&self) -> bool {
        self.first <= occurrences(self.pass@, self.character) <= self.second
    }

    /// Both numbers of the policy are places of the password, counted from one.
    pub open spec fn has_places(&self) -> bool {
        1 <= self.first <= self.pass@.len() && 1 <= self.second <= self.pass@.len()
    }

    /// The character of the policy stands at exactly one of the places
    /// `first` and `second` of the password, counted from one.
    pub open spec fn at_one_place(&self) -> bool {
        (self.pass@[self.first - 1] == self.character) != (self.pass@[self.second - 1]
            == self.character)
    }
}

/// How many of the first `k` passwords keep to their policy read as a range.
pub open spec fn count_in_range(entries: Seq<PolicyPassword>, k: nat) -> nat
    decreases k,
{
    if k == 0 {
        0
    } else {
        count_in_range(entries, (k - 1) as nat) + if entries[k - 1].in_range() {
            1nat
        } else {
            0nat
        }
    }
}

/// How many of the first `k` passwords keep to their policy read as two places.
pub open spec fn count_at_one_place(entries: Seq<PolicyPassword>, k: nat) -> nat
    decreases k,
{
    if k == 0 {
        0
    } else {
        count_at_one_place(entries, (k - 1) as nat) + if entries[k - 1].at_one_place() {
            1nat
        } else {
            0nat
        }
    }
}

/// The number of passwords in which the character of the policy occurs
/// as often as the policy allows.
pub fn part1(policies_passwords: &[PolicyPassword]) -> (valid: usize)
    ensures
        valid == count_in_range(policies_passwords@, policies_passwords@.len()),
{
    let mut valid: usize = 0;
    let mut i: usize = 0;
    while i < policies_passwords.len()
        invariant
            i <= policies_passwords.len(),
            valid == count_in_range(policies_passwords@, i as nat),
            valid <= i,
        decreases policies_passwords.len() - i,
    {
        let entry = &policies_passwords[i];
        let pass = chars_of(entry.pass.as_str());
        let occurences = count_char(&pass, entry.character);
        if occurences >= entry.first && occurences <= entry.second {
            valid += 1;
        }
        i += 1;
    }
    valid
}

/// The number of passwords in which the character of the policy stands at
/// exactly one of the two places that the policy names.
pub fn part2(policies_passwords: &[PolicyPassword]) -> (valid: usize)
    requires
        forall|i: int|
            0 <= i < policies_passwords.len() ==> (#[trigger] policies_passwords[i]).has_places(),
    ensures
        valid == count_at_one_place(policies_passwords@, policies_passwords@.len()),
{
    let mut valid: usize = 0;
    let mut i: usize = 0;
    while i < policies_passwords.len()
        invariant
            i <= policies_passwords.len(),
            forall|j: int|
                0 <= j < policies_passwords.len() ==> (
                #[trigger] policies_passwords[j]).has_places(),
            valid == count_at_one_place(policies_passwords@, i as nat),
            valid <= i,
        decreases policies_passwords.len() - i,
    {
        let entry = &policies_passwords[i];
        assert(entry.has_places());
        let pass = chars_of(entry.pass.as_str());
        if (pass[entry.first - 1] == entry.character) != (pass[entry.second - 1]
            == entry.character) {
            valid += 1;
        }
        i += 1;
    }
    valid
}

/// The policies and passwords that the first `k` lines spell, lines that
/// spell none passed over.
pub open spec fn spelled_lines(lines: Seq<String>, k: nat) -> Seq<Seq<char>>
    decreases k,
{
    if k == 0 {
        Seq::empty()
    } else if is_policy_line(lines[k - 1]@) && first_of(lines[k - 1]@) <= usize::MAX && second_of(
        lines[k - 1]@,
    ) <= usize::MAX {
        spelled_lines(lines, (k - 1) as nat).push(lines[k - 1]@)
    } else {
        spelled_lines(lines, (k - 1) as nat)
    }
}

/// The policies and passwords that the lines spell; a line that spells
/// none is passed over.
pub fn read_policies_and_passwords(lines: &Vec<String>) -> (entries: Vec<PolicyPassword>)
    ensures
        entries.len() == spelled_lines(lines@, lines@.len()).len(),
        forall|i: int|
            0 <= i < entries.len() ==> {
                let line = #[trigger] spelled_lines(lines@, lines@.len())[i];
                entries[i].first == first_of(line) && entries[i].second == second_of(line)
                    && entries[i].character == line[part_ends(line).2] && entries[i].pass@
                    == line.subrange(part_ends(line).3, part_ends(line).4)
            },
{
    let mut entries: Vec<PolicyPassword> = Vec::new();
    let mut k: usize = 0;
    while k < lines.len()
        invariant
            k <= lines.len(),
            entries.len() == spelled_lines(lines@, k as nat).len(),
            forall|i: int|
                0 <= i < entries.len() ==> {
                    let line = #[trigger] spelled_lines(lines@, k as nat)[i];
                    entries[i].first == first_of(line) && entries[i].second == second_of(line)
                        && entries[i].character == line[part_ends(line).2] && entries[i].pass@
                        == line.subrange(part_ends(line).3, part_ends(line).4)
                },
        decreases lines.len() - k,
    {
        match PolicyPassword::from_str(lines[k].as_str()) {
            Ok(entry) => {
                entries.push(entry);
            },
            Err(_) => {},
        }
        k += 1;
    }
    entries
}

} // verus!
