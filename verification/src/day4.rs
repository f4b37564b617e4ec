//! Day 4: passports, their fields, and which of them are valid.

use crate::text::{
    all_digits, chars_of, decimal_value, is_digit, is_space, lemma_span, parse_digits,
    parse_unsigned_chars, scan, slice_of, span_end, spells, string_of, unsigned_value, CharClass,
};
use vstd::prelude::*;

verus! {

/// A passport: the fields that were found on it.
pub struct Passport {
    pub birth_year: Option<u32>,
    pub issue_year: Option<u32>,
    pub expiration_year: Option<u32>,
    pub height: Option<String>,
    pub hair_colour: Option<String>,
    pub eye_colour: Option<String>,
    pub passport_id: Option<String>,
    pub country_id: Option<u32>,
}

/// What a passport holds, texts as sequences of characters.
pub struct PassportFields {
    pub birth_year: Option<u32>,
    pub issue_year: Option<u32>,
    pub expiration_year: Option<u32>,
    pub height: Option<Seq<char>>,
    pub hair_colour: Option<Seq<char>>,
    pub eye_colour: Option<Seq<char>>,
    pub passport_id: Option<Seq<char>>,
    pub country_id: Option<u32>,
}

/// The text of a field, if it is there.
pub open spec fn text_of(field: Option<String>) -> Option<Seq<char>> {
    match field {
        Some(s) => Some(s@),
        None => None,
    }
}

impl View for Passport {
    type V = PassportFields;

    open spec fn view(&self) -> PassportFields {
        PassportFields {
            birth_year: self.birth_year,
            issue_year: self.issue_year,
            expiration_year: self.expiration_year,
            height: text_of(self.height),
            hair_colour: text_of(self.hair_colour),
            eye_colour: text_of(self.eye_colour),
            passport_id: text_of(self.passport_id),
            country_id: self.country_id,
        }
    }
}

/// What is wrong with a passport.
#[derive(Debug, Clone, Copy, PartialEq, Eq, Structural)]
pub enum PassportError {
    NoBirthYear,
    InvalidBirthYear,
    NoIssueYear,
    InvalidIssueYear,
    NoExpirationYear,
    InvalidExpirationYear,
    NoHeight,
    MalformedHeight,
    InvalidHeightValue,
    InvalidHeight,
    NoHairColour,
    InvalidHairColour,
    NoEyeColour,
    InvalidEyeColour,
    NoPassportId,
    InvalidPassportId,
}

/// A height is digits followed by `cm` or `in`.
pub open spec fn is_height(s: Seq<char>) -> bool {
    let a = span_end(s, 0, CharClass::Digit);
    a > 0 && s.len() == a + 2 && ((s[a] == 'c' && s[a + 1] == 'm') || (s[a] == 'i' && s[a + 1]
        == 'n'))
}

/// The number of a height.
pub open spec fn height_value(s: Seq<char>) -> int {
    decimal_value(s.subrange(0, span_end(s, 0, CharClass::Digit)))
}

/// What is wrong with a height, if anything: it must be 150 to 193 `cm`
/// or 59 to 76 `in`.
pub open spec fn height_error(s: Seq<char>) -> Option<PassportError> {
    if !is_height(s) {
        Some(PassportError::MalformedHeight)
    } else if height_value(s) > u32::MAX {
        Some(PassportError::InvalidHeightValue)
    } else if s[s.len() - 2] == 'c' && !(150 <= height_value(s) <= 193) {
        Some(PassportError::InvalidHeight)
    } else if s[s.len() - 2] == 'i' && !(59 <= height_value(s) <= 76) {
        Some(PassportError::InvalidHeight)
    } else {
        None
    }
}

/// Whether `c` is a digit or a letter `a` to `f`.
pub open spec fn is_hex(c: char) -> bool {
    is_digit(c) || 'a' <= c <= 'f'
}

/// A hair colour is `#` followed by six digits or letters `a` to `f`.
pub open spec fn is_hair_colour(s: Seq<char>) -> bool {
    s.len() == 7 && s[0] == '#' && forall|i: int| 1 <= i < 7 ==> is_hex(#[trigger] s[i])
}

/// An eye colour is one of seven words.
pub open spec fn is_eye_colour(s: Seq<char>) -> bool {
    s == seq!['a', 'm', 'b'] || s == seq!['b', 'l', 'u'] || s == seq!['b', 'r', 'n'] || s
        == seq!['g', 'r', 'y'] || s == seq!['g', 'r', 'n'] || s == seq!['h', 'z', 'l'] || s
        == seq!['o', 't', 'h']
}

/// A passport identifier is nine digits.
pub open spec fn is_passport_id(s: Seq<char>) -> bool {
    s.len() == 9 && all_digits(s)
}

/// The first thing wrong with a passport, if anything: the years, the
/// height, the hair colour, the eye colour and the identifier are looked
/// at in this order.
pub open spec fn first_error(p: PassportFields) -> Option<PassportError> {
    if p.birth_year is None {
        Some(PassportError::NoBirthYear)
    } else if !(1920 <= p.birth_year.unwrap() <= 2002) {
        Some(PassportError::InvalidBirthYear)
    } else if p.issue_year is None {
        Some(PassportError::NoIssueYear)
    } else if !(2010 <= p.issue_year.unwrap() <= 2020) {
        Some(PassportError::InvalidIssueYear)
    } else if p.expiration_year is None {
        Some(PassportError::NoExpirationYear)
    } else if !(2020 <= p.expiration_year.unwrap() <= 2030) {
        Some(PassportError::InvalidExpirationYear)
    } else if p.height is None {
        Some(PassportError::NoHeight)
    } else if height_error(p.height.unwrap()) is Some {
        height_error(p.height.unwrap())
    } else if p.hair_colour is None {
        Some(PassportError::NoHairColour)
    } else if !is_hair_colour(p.hair_colour.unwrap()) {
        Some(PassportError::InvalidHairColour)
    } else if p.eye_colour is None {
        Some(PassportError::NoEyeColour)
    } else if !is_eye_colour(p.eye_colour.unwrap()) {
        Some(PassportError::InvalidEyeColour)
    } else if p.passport_id is None {
        Some(PassportError::NoPassportId)
    } else if !is_passport_id(p.passport_id.unwrap()) {
        Some(PassportError::InvalidPassportId)
    } else {
        None
    }
}

/// All fields but the country are there.
pub open spec fn is_complete(p: PassportFields) -> bool {
    p.birth_year is Some && p.issue_year is Some && p.expiration_year is Some && p.height is Some
        && p.hair_colour is Some && p.eye_colour is Some && p.passport_id is Some
}

/// What is wrong with the height `s`, if anything.
pub fn check_height(s: &str) -> (found: Option<PassportError>)
    ensures
        found == height_error(s@),
{
    let chars = chars_of(s);
    let a = scan(&chars, 0, CharClass::Digit);
    if a == 0 || chars.len() < 2 || chars.len() - 2 != a {
        return Some(PassportError::MalformedHeight);
    }
    let cm = chars[a] == 'c' && chars[a + 1] == 'm';
    let inch = chars[a] == 'i' && chars[a + 1] == 'n';
    if !cm && !inch {
        return Some(PassportError::MalformedHeight);
    }
    let digits = slice_of(&chars, 0, a);
    proof {
        lemma_span(chars@, 0, CharClass::Digit);
        assert(digits@.skip(0) =~= digits@);
        assert(all_digits(digits@));
    }
    match parse_digits(&digits, 0, u32::MAX as u64) {
        None => Some(PassportError::InvalidHeightValue),
        Some(value) => {
            if cm && (value < 150 || value > 193) {
                Some(PassportError::InvalidHeight)
            } else if inch && (value < 59 || value > 76) {
                Some(PassportError::InvalidHeight)
            } else {
                None
            }
        },
    }
}

/// Whether `s` is a hair colour.
pub fn check_hair_colour(s: &str) -> (valid: bool)
    ensures
        valid == is_hair_colour(s@),
{
    let chars = chars_of(s);
    if chars.len() != 7 || chars[0] != '#' {
        return false;
    }
    let mut i: usize = 1;
    while i < 7
        invariant
            1 <= i <= 7,
            chars.len() == 7,
            chars@ == s@,
            chars[0] == '#',
            forall|j: int| 1 <= j < i ==> is_hex(#[trigger] chars[j]),
        decreases 7 - i,
    {
        let c = chars[i];
        if !(('0' <= c && c <= '9') || ('a' <= c && c <= 'f')) {
            assert(!is_hex(s@[i as int]));
            return false;
        }
        i += 1;
    }
    true
}

/// Whether `s` is an eye colour.
pub fn check_eye_colour(s: &str) -> (valid: bool)
    ensures
        valid == is_eye_colour(s@),
{
    let chars = chars_of(s);
    proof {
        reveal_strlit("amb");
        reveal_strlit("blu");
        reveal_strlit("brn");
        reveal_strlit("gry");
        reveal_strlit("grn");
        reveal_strlit("hzl");
        reveal_strlit("oth");
        assert("amb"@ =~= seq!['a', 'm', 'b']);
        assert("blu"@ =~= seq!['b', 'l', 'u']);
        assert("brn"@ =~= seq!['b', 'r', 'n']);
        assert("gry"@ =~= seq!['g', 'r', 'y']);
        assert("grn"@ =~= seq!['g', 'r', 'n']);
        assert("hzl"@ =~= seq!['h', 'z', 'l']);
        assert("oth"@ =~= seq!['o', 't', 'h']);
    }
    spells(&chars, "amb") || spells(&chars, "blu") || spells(&chars, "brn") || spells(
        &chars,
        "gry",
    ) || spells(&chars, "grn") || spells(&chars, "hzl") || spells(&chars, "oth")
}

/// Whether `s` is a passport identifier.
pub fn check_passport_id(s: &str) -> (valid: bool)
    ensures
        valid == is_passport_id(s@),
{
    let chars = chars_of(s);
    if chars.len() != 9 {
        return false;
    }
    let end = scan(&chars, 0, CharClass::Digit);
    proof {
        lemma_span(chars@, 0, CharClass::Digit);
    }
    end == 9
}

impl Passport {
    /// A passport without any field.
    pub fn empty() -> (made: Passport)
        ensures
            made@ == no_fields(),
    {
        Passport {
            birth_year: None,
            issue_year: None,
            expiration_year: None,
            height: None,
            hair_colour: None,
            eye_colour: None,
            passport_id: None,
            country_id: None,
        }
    }

    /// Whether all fields but the country are there.
    pub fn has_all_required_fields(&self) -> (complete: bool)
        ensures
            complete == is_complete(self@),
    {
        self.birth_year.is_some() && self.issue_year.is_some() && self.expiration_year.is_some()
            && self.height.is_some() && self.hair_colour.is_some() && self.eye_colour.is_some()
            && self.passport_id.is_some()
    }

    /// Checks the fields of the passport, and tells the first thing wrong with it.
    pub fn validate(&self) -> (checked: Result<(), PassportError>)
        ensures
            match checked {
                Ok(_) => first_error(self@) is None,
                Err(e) => first_error(self@) == Some(e),
            },
    {
        match self.birth_year {
            None => {
                return Err(PassportError::NoBirthYear);
            },
            Some(year) => {
                if year < 1920 || year > 2002 {
                    return Err(PassportError::InvalidBirthYear);
                }
            },
        }
        match self.issue_year {
            None => {
                return Err(PassportError::NoIssueYear);
            },
            Some(year) => {
                if year < 2010 || year > 2020 {
                    return Err(PassportError::InvalidIssueYear);
                }
            },
        }
        match self.expiration_year {
            None => {
                return Err(PassportError::NoExpirationYear);
            },
            Some(year) => {
                if year < 2020 || year > 2030 {
                    return Err(PassportError::InvalidExpirationYear);
                }
            },
        }
        match &self.height {
            None => {
                return Err(PassportError::NoHeight);
            },
            Some(height) => {
                match check_height(height.as_str()) {
                    Some(e) => {
                        return Err(e);
                    },
                    None => {},
                }
            },
        }
        match &self.hair_colour {
            None => {
                return Err(PassportError::NoHairColour);
            },
            Some(colour) => {
                if !check_hair_colour(colour.as_str()) {
                    return Err(PassportError::InvalidHairColour);
                }
            },
        }
        match &self.eye_colour {
            None => {
                return Err(PassportError::NoEyeColour);
            },
            Some(colour) => {
                if !check_eye_colour(colour.as_str()) {
                    return Err(PassportError::InvalidEyeColour);
                }
            },
        }
        match &self.passport_id {
            None => {
                return Err(PassportError::NoPassportId);
            },
            Some(id) => {
                if !check_passport_id(id.as_str()) {
                    return Err(PassportError::InvalidPassportId);
                }
            },
        }
        Ok(())
    }
}

/// No field at all.
pub open spec fn no_fields() -> PassportFields {
    PassportFields {
        birth_year: None,
        issue_year: None,
        expiration_year: None,
        height: None,
        hair_colour: None,
        eye_colour: None,
        passport_id: None,
        country_id: None,
    }
}

/// How many of the first `k` passports are complete.
pub open spec fn count_complete(passports: Seq<Passport>, k: nat) -> nat
    decreases k,
{
    if k == 0 {
        0
    } else {
        count_complete(passports, (k - 1) as nat) + if is_complete(passports[k - 1]@) {
            1nat
        } else {
            0nat
        }
    }
}

/// How many of the first `k` passports have nothing wrong with them.
pub open spec fn count_valid(passports: Seq<Passport>, k: nat) -> nat
    decreases k,
{
    if k == 0 {
        0
    } else {
        count_valid(passports, (k - 1) as nat) + if first_error(passports[k - 1]@) is None {
            1nat
        } else {
            0nat
        }
    }
}

/// The number of passports with all fields but the country.
pub fn part1(passports: &[Passport]) -> (count: usize)
    ensures
        count == count_complete(passports@, passports@.len()),
{
    let mut count: usize = 0;
    let mut i: usize = 0;
    while i < passports.len()
        invariant
            i <= passports.len(),
            count == count_complete(passports@, i as nat),
            count <= i,
        decreases passports.len() - i,
    {
        if passports[i].has_all_required_fields() {
            count += 1;
        }
        i += 1;
    }
    count
}

/// The number of passports with nothing wrong with them.
pub fn part2(passports: &[Passport]) -> (count: usize)
    ensures
        count == count_valid(passports@, passports@.len()),
{
    let mut count: usize = 0;
    let mut i: usize = 0;
    while i < passports.len()
        invariant
            i <= passports.len(),
            count == count_valid(passports@, i as nat),
            count <= i,
        decreases passports.len() - i,
    {
        if passports[i].validate().is_ok() {
            count += 1;
        }
        i += 1;
    }
    count
}


/// The first field at or after `from`: a word, a colon, and text without
/// blanks. Told as the place where the word starts, the place of the
/// colon, and the place where the text ends.
pub open spec fn next_field(s: Seq<char>, from: int) -> Option<(int, int, int)>
    decreases s.len() - from,
{
    if from < 0 || from >= s.len() {
        None
    } else {
        let q = span_end(s, from, CharClass::Word);
        if from < q && q + 1 < s.len() && s[q] == ':' && !is_space(s[q + 1]) {
            Some((from, q, span_end(s, q + 1, CharClass::NonSpace)))
        } else if from < q <= s.len() {
            next_field(s, q)
        } else {
            next_field(s, from + 1)
        }
    }
}

/// A field lies after the place where it was looked for, and within the text.
pub proof fn lemma_next_field(s: Seq<char>, from: int)
    requires
        0 <= from,
    ensures
        match next_field(s, from) {
            Some((p, q, r)) => from <= p < q && q + 1 < r <= s.len(),
            None => true,
        },
    decreases s.len() - from,
{
    if from < s.len() {
        let q = span_end(s, from, CharClass::Word);
        lemma_span(s, from, CharClass::Word);
        if from < q && q + 1 < s.len() && s[q] == ':' && !is_space(s[q + 1]) {
            lemma_span(s, q + 1, CharClass::NonSpace);
            assert(span_end(s, q + 1, CharClass::NonSpace) == span_end(
                s,
                q + 2,
                CharClass::NonSpace,
            ));
            lemma_span(s, q + 2, CharClass::NonSpace);
        } else if from < q {
            lemma_next_field(s, q);
        } else {
            lemma_next_field(s, from + 1);
        }
    }
}

/// The fields at or after `from`, each as its key and its value.
pub open spec fn fields_from(s: Seq<char>, from: int) -> Seq<(Seq<char>, Seq<char>)>
    decreases s.len() - from,
{
    match next_field(s, from) {
        Some((p, q, r)) => if from < r <= s.len() {
            seq![(s.subrange(p, q), s.subrange(q + 1, r))] + fields_from(s, r)
        } else {
            Seq::empty()
        },
        None => Seq::empty(),
    }
}

/// The number that the value of a field spells.
pub open spec fn field_number(value: Seq<char>) -> Option<int> {
    unsigned_value(value, u32::MAX as int)
}

/// Whether the key is one of a passport, and the value a number where the key asks for one.
pub open spec fn is_known_field(key: Seq<char>, value: Seq<char>) -> bool {
    ((key == "byr"@ || key == "iyr"@ || key == "eyr"@ || key == "cid"@) && field_number(value)
        is Some) || key == "hgt"@ || key == "hcl"@ || key == "ecl"@ || key == "pid"@
}

/// The passport with one more field noted; a later field replaces an earlier one.
pub open spec fn with_field(p: PassportFields, key: Seq<char>, value: Seq<char>) -> PassportFields {
    if key == "byr"@ {
        PassportFields { birth_year: Some(field_number(value).unwrap() as u32), ..p }
    } else if key == "iyr"@ {
        PassportFields { issue_year: Some(field_number(value).unwrap() as u32), ..p }
    } else if key == "eyr"@ {
        PassportFields { expiration_year: Some(field_number(value).unwrap() as u32), ..p }
    } else if key == "hgt"@ {
        PassportFields { height: Some(value), ..p }
    } else if key == "hcl"@ {
        PassportFields { hair_colour: Some(value), ..p }
    } else if key == "ecl"@ {
        PassportFields { eye_colour: Some(value), ..p }
    } else if key == "pid"@ {
        PassportFields { passport_id: Some(value), ..p }
    } else if key == "cid"@ {
        PassportFields { country_id: Some(field_number(value).unwrap() as u32), ..p }
    } else {
        p
    }
}

/// The passport with the fields noted, one after the other.
pub open spec fn with_fields(p: PassportFields, fields: Seq<(Seq<char>, Seq<char>)>) -> PassportFields
    decreases fields.len(),
{
    if fields.len() == 0 {
        p
    } else {
        with_fields(with_field(p, fields[0].0, fields[0].1), fields.drop_first())
    }
}

/// The passport that a text spells.
pub open spec fn passport_of(s: Seq<char>) -> PassportFields {
    with_fields(no_fields(), fields_from(s, 0))
}

/// Every field of the text is one of a passport.
pub open spec fn is_passport_text(s: Seq<char>) -> bool {
    forall|i: int|
        0 <= i < fields_from(s, 0).len() ==> is_known_field(
            (#[trigger] fields_from(s, 0)[i]).0,
            fields_from(s, 0)[i].1,
        )
}

/// The first field at or after `from`.
pub fn find_field(s: &Vec<char>, from: usize) -> (found: Option<(usize, usize, usize)>)
    ensures
        match found {
            Some((p, q, r)) => next_field(s@, from as int) == Some((p as int, q as int, r as int))
                && from <= p < q && q + 1 < r <= s.len(),
            None => next_field(s@, from as int) is None,
        },
{
    let mut at = from;
    while at < s.len()
        invariant
            from <= at,
            next_field(s@, from as int) == next_field(s@, at as int),
        decreases s.len() - at,
    {
        let q = scan(s, at, CharClass::Word);
        if at < q && q < s.len() && q + 1 < s.len() && s[q] == ':' && !crate::text::is_in_class(
            CharClass::Space,
            s[q + 1],
        ) {
            let r = scan(s, q + 1, CharClass::NonSpace);
            proof {
                lemma_next_field(s@, at as int);
            }
            return Some((at, q, r));
        }
        if at < q {
            at = q;
        } else {
            at = at + 1;
        }
    }
    None
}

impl Passport {
    /// Notes the fields of the text on the passport.
    fn note_fields(&mut self, s: &Vec<char>)
        requires
            is_passport_text(s@),
        ensures
            final(self)@ == with_fields(old(self)@, fields_from(s@, 0)),
    {
        let ghost all = fields_from(s@, 0);
        let ghost start = self@;
        let mut at: usize = 0;
        let ghost mut done: int = 0;
        loop
            invariant
                at <= s.len(),
                all == fields_from(s@, 0),
                start == old(self)@,
                is_passport_text(s@),
                0 <= done <= all.len(),
                fields_from(s@, at as int) == all.skip(done),
                with_fields(self@, fields_from(s@, at as int)) == with_fields(start, all),
            decreases s.len() - at,
        {
            proof {
                reveal_strlit("byr");
                reveal_strlit("iyr");
                reveal_strlit("eyr");
                reveal_strlit("hgt");
                reveal_strlit("hcl");
                reveal_strlit("ecl");
                reveal_strlit("pid");
                reveal_strlit("cid");
                assert("byr"@ =~= seq!['b', 'y', 'r']);
                assert("iyr"@ =~= seq!['i', 'y', 'r']);
                assert("eyr"@ =~= seq!['e', 'y', 'r']);
                assert("hgt"@ =~= seq!['h', 'g', 't']);
                assert("hcl"@ =~= seq!['h', 'c', 'l']);
                assert("ecl"@ =~= seq!['e', 'c', 'l']);
                assert("pid"@ =~= seq!['p', 'i', 'd']);
                assert("cid"@ =~= seq!['c', 'i', 'd']);
            }
            match find_field(s, at) {
                None => {
                    return ;
                },
                Some((p, q, r)) => {
                    let key = slice_of(s, p, q);
                    let value = slice_of(s, q + 1, r);
                    let ghost rest = fields_from(s@, r as int);
                    let ghost before = self@;
                    proof {
                        assert(fields_from(s@, at as int) =~= seq![(key@, value@)] + rest);
                        assert(all[done] == fields_from(s@, at as int)[0]);
                        assert(is_known_field(key@, value@));
                        assert(fields_from(s@, at as int).drop_first() =~= rest);
                        assert(rest =~= all.skip(done + 1));
                        done = done + 1;
                    }
                    if spells(&key, "byr") {
                        self.birth_year = number_of(&value);
                    } else if spells(&key, "iyr") {
                        self.issue_year = number_of(&value);
                    } else if spells(&key, "eyr") {
                        self.expiration_year = number_of(&value);
                    } else if spells(&key, "hgt") {
                        self.height = Some(string_of(&value));
                    } else if spells(&key, "hcl") {
                        self.hair_colour = Some(string_of(&value));
                    } else if spells(&key, "ecl") {
                        self.eye_colour = Some(string_of(&value));
                    } else if spells(&key, "pid") {
                        self.passport_id = Some(string_of(&value));
                    } else if spells(&key, "cid") {
                        self.country_id = number_of(&value);
                    }
                    proof {
                        let here = seq![(key@, value@)] + rest;
                        assert(here[0] == (key@, value@));
                        assert(here.drop_first() =~= rest);
                        assert(with_fields(before, here) == with_fields(
                            with_field(before, key@, value@),
                            rest,
                        ));
                        assert(self@ == with_field(before, key@, value@));
                    }
                    at = r;
                },
            }
        }
    }

    /// The passport that the characters spell.
    pub fn from_chars(s: &Vec<char>) -> (made: Passport)
        requires
            is_passport_text(s@),
        ensures
            made@ == passport_of(s@),
    {
        let mut passport = Passport::empty();
        passport.note_fields(s);
        passport
    }

    /// The passport that a text spells: each word that is followed by a
    /// colon and more text is a field, the text up to the next blank its value.
    pub fn from_str(s: &str) -> (made: Passport)
        requires
            is_passport_text(s@),
        ensures
            made@ == passport_of(s@),
    {
        let chars = chars_of(s);
        Passport::from_chars(&chars)
    }
}

/// The number that the value of a field spells.
fn number_of(value: &Vec<char>) -> (number: Option<u32>)
    ensures
        match number {
            Some(v) => field_number(value@) == Some(v as int),
            None => field_number(value@) is None,
        },
{
    match parse_unsigned_chars(value, u32::MAX as u64) {
        Some(v) => Some(v as u32),
        None => None,
    }
}

/// The texts of the passports gathered from the first `k` lines, and the
/// lines of the passport that is not yet closed, joined by blanks. An empty
/// line closes a passport; the last line is a passport by itself.
pub open spec fn gathered(lines: Seq<String>, k: nat) -> (Seq<Seq<char>>, Seq<char>)
    decreases k,
{
    if k == 0 {
        (Seq::empty(), Seq::empty())
    } else {
        let (records, buffer) = gathered(lines, (k - 1) as nat);
        let line = lines[k - 1]@;
        if line.len() == 0 && buffer.len() > 0 {
            (records.push(buffer), Seq::empty())
        } else if k == lines.len() {
            (records.push(line), buffer)
        } else {
            (records, buffer + seq![' '] + line)
        }
    }
}

/// The texts of the passports that the lines hold.
pub open spec fn records_of(lines: Seq<String>) -> Seq<Seq<char>> {
    gathered(lines, lines.len()).0
}

/// What is gathered from fewer lines stays when more lines are gathered.
pub proof fn lemma_gathered_stays(lines: Seq<String>, k: nat, m: nat)
    requires
        k <= m <= lines.len(),
    ensures
        gathered(lines, k).0.len() <= gathered(lines, m).0.len(),
        forall|i: int|
            0 <= i < gathered(lines, k).0.len() ==> gathered(lines, k).0[i] == gathered(
                lines,
                m,
            ).0[i],
    decreases m,
{
    if k < m {
        lemma_gathered_stays(lines, k, (m - 1) as nat);
    }
}

/// The passports that the lines hold.
pub fn read_passports(lines: &Vec<String>) -> (passports: Vec<Passport>)
    requires
        forall|i: int|
            0 <= i < records_of(lines@).len() ==> is_passport_text(#[trigger] records_of(lines@)[i]),
    ensures
        passports.len() == records_of(lines@).len(),
        forall|i: int|
            0 <= i < passports.len() ==> (#[trigger] passports[i])@ == passport_of(
                records_of(lines@)[i],
            ),
{
    let mut result: Vec<Passport> = Vec::new();
    let mut buffer: Vec<char> = Vec::new();
    let mut num: usize = 0;
    while num < lines.len()
        invariant
            num <= lines.len(),
            forall|i: int|
                0 <= i < records_of(lines@).len() ==> is_passport_text(
                    #[trigger] records_of(lines@)[i],
                ),
            buffer@ == gathered(lines@, num as nat).1,
            result.len() == gathered(lines@, num as nat).0.len(),
            forall|i: int|
                0 <= i < result.len() ==> (#[trigger] result[i])@ == passport_of(
                    gathered(lines@, num as nat).0[i],
                ),
        decreases lines.len() - num,
    {
        let line = chars_of(lines[num].as_str());
        let ghost before = gathered(lines@, num as nat);
        proof {
            lemma_gathered_stays(lines@, (num + 1) as nat, lines@.len());
            lemma_gathered_stays(lines@, num as nat, (num + 1) as nat);
        }
        if line.len() == 0 && buffer.len() > 0 {
            proof {
                assert(gathered(lines@, (num + 1) as nat).0[before.0.len() as int] == buffer@);
                assert(records_of(lines@)[before.0.len() as int] == buffer@);
            }
            result.push(Passport::from_chars(&buffer));
            buffer = Vec::new();
        } else if num == lines.len() - 1 {
            proof {
                assert(gathered(lines@, (num + 1) as nat).0[before.0.len() as int] == line@);
                assert(records_of(lines@)[before.0.len() as int] == line@);
            }
            result.push(Passport::from_chars(&line));
        } else {
            buffer.push(' ');
            let mut i: usize = 0;
            while i < line.len()
                invariant
                    i <= line.len(),
                    buffer@ == before.1 + seq![' '] + line@.take(i as int),
                decreases line.len() - i,
            {
                buffer.push(line[i]);
                proof {
                    assert(line@.take(i + 1) =~= line@.take(i as int).push(line[i as int]));
                    assert(buffer@ =~= before.1 + seq![' '] + line@.take(i + 1));
                }
                i += 1;
            }
            proof {
                assert(line@.take(i as int) =~= line@);
            }
        }
        num += 1;
    }
    result
}

} // verus!
