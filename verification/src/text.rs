//! Reading characters, digits and numbers from text.

use vstd::prelude::*;

verus! {

/// The characters of `s`, in order.
pub fn chars_of(s: &str) -> (chars: Vec<char>)
    ensures
        chars@ == s@,
{
    let mut chars: Vec<char> = Vec::new();
    for c in it: s.chars()
        invariant
            chars@ == it.seq().take(it.index() as int),
            it.seq() == s@,
    {
        chars.push(c);
    }
    chars
}

/// Whether `c` is one of the digits `0` to `9`.
pub open spec fn is_digit(c: char) -> bool {
    '0' <= c <= '9'
}

/// The value of a digit.
pub open spec fn digit_value(c: char) -> int {
    c as u32 - '0' as u32
}

/// The value of the digit `c`, or `None` where `c` is no digit.
pub fn to_digit(c: char) -> (d: Option<u32>)
    ensures
        d == if is_digit(c) { Some(digit_value(c) as u32) } else { None },
{
    if '0' <= c && c <= '9' {
        Some(c as u32 - '0' as u32)
    } else {
        None
    }
}


/// Every character of `s` is a digit.
pub open spec fn all_digits(s: Seq<char>) -> bool {
    forall|i: int| 0 <= i < s.len() ==> is_digit(#[trigger] s[i])
}

/// The number that the digits `s` spell in decimal; zero for no digits.
pub open spec fn decimal_value(s: Seq<char>) -> int
    decreases s.len(),
{
    if s.len() == 0 {
        0
    } else {
        decimal_value(s.drop_last()) * 10 + digit_value(s.last())
    }
}

/// `s` without a sign in front.
pub open spec fn unsigned_part(s: Seq<char>, minus_too: bool) -> Seq<char> {
    if s.len() > 0 && (s[0] == '+' || (minus_too && s[0] == '-')) {
        s.drop_first()
    } else {
        s
    }
}

/// The number that `s` spells, if it is at most `max`: one or more digits,
/// with or without `+` in front.
pub open spec fn unsigned_value(s: Seq<char>, max: int) -> Option<int> {
    let digits = unsigned_part(s, false);
    if digits.len() > 0 && all_digits(digits) && decimal_value(digits) <= max {
        Some(decimal_value(digits))
    } else {
        None
    }
}

/// The number that `s` spells, if it lies in `min..=max`: one or more
/// digits, with or without `+` or `-` in front.
pub open spec fn signed_value(s: Seq<char>, min: int, max: int) -> Option<int> {
    let digits = unsigned_part(s, true);
    let value = if s.len() > 0 && s[0] == '-' {
        -decimal_value(digits)
    } else {
        decimal_value(digits)
    };
    if digits.len() > 0 && all_digits(digits) && min <= value <= max {
        Some(value)
    } else {
        None
    }
}

/// Digits spell at least what fewer of them spell.
pub proof fn lemma_decimal_grows(s: Seq<char>, k: int)
    requires
        all_digits(s),
        0 <= k <= s.len(),
    ensures
        0 <= decimal_value(s.take(k)) <= decimal_value(s),
    decreases s.len() - k,
{
    if k == s.len() {
        assert(s.take(k) =~= s);
        lemma_decimal_nonnegative(s);
    } else {
        lemma_decimal_grows(s, k + 1);
        assert(s.take(k + 1).drop_last() =~= s.take(k));
        assert(s.take(k + 1).last() == s[k]);
        lemma_decimal_nonnegative(s.take(k));
    }
}

/// Digits spell no negative number.
pub proof fn lemma_decimal_nonnegative(s: Seq<char>)
    requires
        all_digits(s),
    ensures
        0 <= decimal_value(s),
    decreases s.len(),
{
    if s.len() > 0 {
        lemma_decimal_nonnegative(s.drop_last());
    }
}

/// The number that the digits in `s` from place `from` on spell, if there
/// is at least one, all are digits, and the number is at most `max`.
pub fn parse_digits(s: &Vec<char>, from: usize, max: u64) -> (parsed: Option<u64>)
    requires
        from <= s.len(),
    ensures
        match parsed {
            Some(v) => from < s.len() && all_digits(s@.skip(from as int)) && v == decimal_value(
                s@.skip(from as int),
            ) && v <= max,
            None => !(from < s.len() && all_digits(s@.skip(from as int)) && decimal_value(
                s@.skip(from as int),
            ) <= max),
        },
{
    if from >= s.len() {
        return None;
    }
    let ghost digits = s@.skip(from as int);
    let mut value: u64 = 0;
    let mut i: usize = from;
    while i < s.len()
        invariant
            from <= i <= s.len(),
            digits == s@.skip(from as int),
            all_digits(digits.take(i - from)),
            value == decimal_value(digits.take(i - from)),
            value <= max,
        decreases s.len() - i,
    {
        let ghost upto = digits.take(i - from + 1);
        proof {
            assert(upto.drop_last() =~= digits.take(i - from));
            assert(upto.last() == s[i as int]);
        }
        match to_digit(s[i]) {
            None => {
                assert(!is_digit(digits[i - from]));
                return None;
            },
            Some(d) => {
                if d as u64 > max || value > (max - d as u64) / 10 {
                    proof {
                        assert(decimal_value(upto) > max);
                        if all_digits(digits) {
                            lemma_decimal_grows(digits, i - from + 1);
                        }
                    }
                    return None;
                }
                assert(all_digits(upto)) by {
                    assert forall|j: int| 0 <= j < upto.len() implies is_digit(
                        #[trigger] upto[j],
                    ) by {
                        if j < i - from {
                            assert(upto[j] == digits.take(i - from)[j]);
                        }
                    }
                }
                value = value * 10 + d as u64;
            },
        }
        i += 1;
    }
    proof {
        assert(digits.take(i - from) =~= digits);
    }
    Some(value)
}

/// The unsigned number that `chars` spell, if it is at most `max`.
pub fn parse_unsigned_chars(chars: &Vec<char>, max: u64) -> (parsed: Option<u64>)
    ensures
        match parsed {
            Some(v) => unsigned_value(chars@, max as int) == Some(v as int),
            None => unsigned_value(chars@, max as int) is None,
        },
{
    let from: usize = if chars.len() > 0 && chars[0] == '+' {
        1
    } else {
        0
    };
    proof {
        assert(chars@.skip(0) =~= chars@);
        assert(chars@.len() > 0 ==> chars@.skip(1) =~= chars@.drop_first());
    }
    parse_digits(chars, from, max)
}

/// The unsigned number that `s` spells, if it is at most `max`.
pub fn parse_unsigned(s: &str, max: u64) -> (parsed: Option<u64>)
    ensures
        match parsed {
            Some(v) => unsigned_value(s@, max as int) == Some(v as int),
            None => unsigned_value(s@, max as int) is None,
        },
{
    let chars = chars_of(s);
    parse_unsigned_chars(&chars, max)
}

/// The signed number that `chars` spell, if it lies in `min..=max`.
pub fn parse_signed_chars(chars: &Vec<char>, min: i64, max: i64) -> (parsed: Option<i64>)
    requires
        min <= 0 <= max,
    ensures
        match parsed {
            Some(v) => signed_value(chars@, min as int, max as int) == Some(v as int),
            None => signed_value(chars@, min as int, max as int) is None,
        },
{
    let negative = chars.len() > 0 && chars[0] == '-';
    let from: usize = if chars.len() > 0 && (chars[0] == '+' || chars[0] == '-') {
        1
    } else {
        0
    };
    proof {
        assert(chars@.skip(0) =~= chars@);
        assert(chars@.len() > 0 ==> chars@.skip(1) =~= chars@.drop_first());
        if from <= chars.len() && all_digits(chars@.skip(from as int)) {
            lemma_decimal_nonnegative(chars@.skip(from as int));
        }
    }
    if negative {
        let bound: u64 = if min == i64::MIN {
            0x8000_0000_0000_0000
        } else {
            (-min) as u64
        };
        match parse_digits(chars, from, bound) {
            Some(magnitude) => {
                if magnitude == 0x8000_0000_0000_0000 {
                    Some(i64::MIN)
                } else {
                    Some(-(magnitude as i64))
                }
            },
            None => None,
        }
    } else {
        match parse_digits(chars, from, max as u64) {
            Some(magnitude) => Some(magnitude as i64),
            None => None,
        }
    }
}

/// The signed number that `s` spells, if it lies in `min..=max`.
pub fn parse_signed(s: &str, min: i64, max: i64) -> (parsed: Option<i64>)
    requires
        min <= 0 <= max,
    ensures
        match parsed {
            Some(v) => signed_value(s@, min as int, max as int) == Some(v as int),
            None => signed_value(s@, min as int, max as int) is None,
        },
{
    let chars = chars_of(s);
    parse_signed_chars(&chars, min, max)
}

/// The number that `s` spells, if it fits in 32 bits with a sign.
pub fn parse_i32(s: &str) -> (parsed: Option<i32>)
    ensures
        match parsed {
            Some(v) => signed_value(s@, i32::MIN as int, i32::MAX as int) == Some(v as int),
            None => signed_value(s@, i32::MIN as int, i32::MAX as int) is None,
        },
{
    match parse_signed(s, i32::MIN as i64, i32::MAX as i64) {
        Some(v) => Some(v as i32),
        None => None,
    }
}

/// The number that `s` spells, if it fits in 64 bits with a sign.
pub fn parse_i64(s: &str) -> (parsed: Option<i64>)
    ensures
        match parsed {
            Some(v) => signed_value(s@, i64::MIN as int, i64::MAX as int) == Some(v as int),
            None => signed_value(s@, i64::MIN as int, i64::MAX as int) is None,
        },
{
    parse_signed(s, i64::MIN, i64::MAX)
}

/// The number that `s` spells, if it fits in 32 bits without a sign.
pub fn parse_u32(s: &str) -> (parsed: Option<u32>)
    ensures
        match parsed {
            Some(v) => unsigned_value(s@, u32::MAX as int) == Some(v as int),
            None => unsigned_value(s@, u32::MAX as int) is None,
        },
{
    match parse_unsigned(s, u32::MAX as u64) {
        Some(v) => Some(v as u32),
        None => None,
    }
}

/// The number that `s` spells, if it fits in 64 bits without a sign.
pub fn parse_u64(s: &str) -> (parsed: Option<u64>)
    ensures
        match parsed {
            Some(v) => unsigned_value(s@, u64::MAX as int) == Some(v as int),
            None => unsigned_value(s@, u64::MAX as int) is None,
        },
{
    parse_unsigned(s, u64::MAX)
}


/// The pieces into which the separator `sep` cuts `s`: one more than `sep`
/// occurs in `s`, none of them holding `sep`.
pub open spec fn split(s: Seq<char>, sep: char) -> Seq<Seq<char>>
    decreases s.len(),
{
    if s.len() == 0 {
        seq![Seq::empty()]
    } else {
        let before = split(s.drop_last(), sep);
        if s.last() == sep {
            before.push(Seq::empty())
        } else {
            before.drop_last().push(before.last().push(s.last()))
        }
    }
}

/// The views of some vectors.
pub open spec fn views<T>(v: Seq<Vec<T>>) -> Seq<Seq<T>> {
    v.map_values(|piece: Vec<T>| piece@)
}

/// The pieces into which `sep` cuts `s`.
pub fn split_chars(s: &Vec<char>, sep: char) -> (pieces: Vec<Vec<char>>)
    ensures
        views(pieces@) == split(s@, sep),
{
    let mut pieces: Vec<Vec<char>> = Vec::new();
    let mut current: Vec<char> = Vec::new();
    let mut i: usize = 0;
    while i < s.len()
        invariant
            i <= s.len(),
            split(s@.take(i as int), sep) == views(pieces@).push(current@),
        decreases s.len() - i,
    {
        proof {
            assert(s@.take(i + 1).drop_last() =~= s@.take(i as int));
            assert(views(pieces@).push(current@).drop_last() =~= views(pieces@));
        }
        let c = s[i];
        if c == sep {
            let ghost closed = views(pieces@).push(current@);
            pieces.push(current);
            current = Vec::new();
            proof {
                assert(views(pieces@) =~= closed);
            }
        } else {
            current.push(c);
        }
        i += 1;
    }
    proof {
        assert(s@.take(i as int) =~= s@);
    }
    let ghost all = views(pieces@).push(current@);
    pieces.push(current);
    proof {
        assert(views(pieces@) =~= all);
    }
    pieces
}

/// Whether `chars` spell the word `word`.
pub fn spells(chars: &Vec<char>, word: &str) -> (same: bool)
    ensures
        same == (chars@ == word@),
{
    let other = chars_of(word);
    if chars.len() != other.len() {
        return false;
    }
    let mut i: usize = 0;
    while i < chars.len()
        invariant
            i <= chars.len() == other.len(),
            other@ == word@,
            forall|j: int| 0 <= j < i ==> chars[j] == other[j],
        decreases chars.len() - i,
    {
        if chars[i] != other[i] {
            return false;
        }
        i += 1;
    }
    proof {
        assert(chars@ =~= word@);
    }
    true
}


/// A class of characters.
#[derive(Debug, Clone, Copy, PartialEq, Eq, Structural)]
pub enum CharClass {
    /// The digits `0` to `9`.
    Digit,
    /// Blank, tab, line feed, vertical tab, form feed and carriage return.
    Space,
    /// Letters `a` to `z` and `A` to `Z`, digits, and the underscore.
    Word,
    /// Anything that is not of the class `Space`.
    NonSpace,
    /// What is of the class `Word`, and the blank.
    WordOrBlank,
    /// Anything at all.
    Any,
}

/// Whether `c` is a blank or one of the other characters of the class `Space`.
pub open spec fn is_space(c: char) -> bool {
    c == ' ' || c == '\t' || c == '\n' || c == '\r' || c as u32 == 11 || c as u32 == 12
}

/// Whether `c` is a letter, a digit or the underscore.
pub open spec fn is_word(c: char) -> bool {
    is_digit(c) || ('a' <= c <= 'z') || ('A' <= c <= 'Z') || c == '_'
}

/// Whether `c` belongs to `class`.
pub open spec fn in_class(class: CharClass, c: char) -> bool {
    match class {
        CharClass::Digit => is_digit(c),
        CharClass::Space => is_space(c),
        CharClass::Word => is_word(c),
        CharClass::NonSpace => !is_space(c),
        CharClass::WordOrBlank => is_word(c) || c == ' ',
        CharClass::Any => true,
    }
}

/// Whether `c` belongs to `class`.
pub fn is_in_class(class: CharClass, c: char) -> (belongs: bool)
    ensures
        belongs == in_class(class, c),
{
    let space = c == ' ' || c == '\t' || c == '\n' || c == '\r' || c as u32 == 11 || c as u32
        == 12;
    let digit = '0' <= c && c <= '9';
    match class {
        CharClass::Digit => digit,
        CharClass::Space => space,
        CharClass::Word => digit || ('a' <= c && c <= 'z') || ('A' <= c && c <= 'Z') || c == '_',
        CharClass::NonSpace => !space,
        CharClass::WordOrBlank => digit || ('a' <= c && c <= 'z') || ('A' <= c && c <= 'Z') || c
            == '_' || c == ' ',
        CharClass::Any => true,
    }
}

/// Where the longest run of characters of `class` that starts at `from` ends.
pub open spec fn span_end(s: Seq<char>, from: int, class: CharClass) -> int
    decreases s.len() - from,
{
    if 0 <= from < s.len() && in_class(class, s[from]) {
        span_end(s, from + 1, class)
    } else {
        from
    }
}

/// A run ends at or after its start, within the text, with every character
/// in it of the class and the character after it, if any, not.
pub proof fn lemma_span(s: Seq<char>, from: int, class: CharClass)
    requires
        0 <= from <= s.len(),
    ensures
        from <= span_end(s, from, class) <= s.len(),
        forall|i: int| from <= i < span_end(s, from, class) ==> in_class(class, #[trigger] s[i]),
        span_end(s, from, class) < s.len() ==> !in_class(class, s[span_end(s, from, class)]),
    decreases s.len() - from,
{
    if from < s.len() && in_class(class, s[from]) {
        lemma_span(s, from + 1, class);
    }
}

/// Where the longest run of characters of `class` that starts at `from` ends.
pub fn scan(s: &Vec<char>, from: usize, class: CharClass) -> (end: usize)
    requires
        from <= s.len(),
    ensures
        end == span_end(s@, from as int, class),
        from <= end <= s.len(),
{
    let mut end = from;
    while end < s.len() && is_in_class(class, s[end])
        invariant
            from <= end <= s.len(),
            span_end(s@, from as int, class) == span_end(s@, end as int, class),
        decreases s.len() - end,
    {
        end += 1;
    }
    end
}

/// The characters of `s` from `from` up to `to`.
pub fn slice_of(s: &Vec<char>, from: usize, to: usize) -> (piece: Vec<char>)
    requires
        from <= to <= s.len(),
    ensures
        piece@ == s@.subrange(from as int, to as int),
{
    let mut piece: Vec<char> = Vec::new();
    let mut i: usize = from;
    while i < to
        invariant
            from <= i <= to <= s.len(),
            piece@ == s@.subrange(from as int, i as int),
        decreases to - i,
    {
        piece.push(s[i]);
        proof {
            assert(s@.subrange(from as int, i + 1) =~= s@.subrange(from as int, i as int).push(
                s[i as int],
            ));
        }
        i += 1;
    }
    piece
}

/// The string that the standard library's `Iterator::collect` makes of
/// `chars`: it holds just these characters, in order.
#[verifier::external_body]
pub(crate) fn string_of(chars: &Vec<char>) -> (s: String)
    ensures
        s@ == chars@,
{
    chars.iter().collect()
}

/// How often `c` occurs in `s`.
pub open spec fn occurrences(s: Seq<char>, c: char) -> nat
    decreases s.len(),
{
    if s.len() == 0 {
        0
    } else {
        occurrences(s.drop_last(), c) + if s.last() == c {
            1nat
        } else {
            0nat
        }
    }
}

/// How often `c` occurs in `s`.
pub fn count_char(s: &Vec<char>, c: char) -> (count: usize)
    ensures
        count == occurrences(s@, c),
{
    let mut count: usize = 0;
    let mut i: usize = 0;
    while i < s.len()
        invariant
            i <= s.len(),
            count == occurrences(s@.take(i as int), c),
            count <= i,
        decreases s.len() - i,
    {
        proof {
            assert(s@.take(i + 1).drop_last() =~= s@.take(i as int));
        }
        if s[i] == c {
            count += 1;
        }
        i += 1;
    }
    proof {
        assert(s@.take(i as int) =~= s@);
    }
    count
}


/// Whether `chars` start with the word `word`.
pub fn starts_with(chars: &Vec<char>, word: &str) -> (does: bool)
    ensures
        does == word@.is_prefix_of(chars@),
{
    let other = chars_of(word);
    if chars.len() < other.len() {
        return false;
    }
    let mut i: usize = 0;
    while i < other.len()
        invariant
            i <= other.len() <= chars.len(),
            other@ == word@,
            forall|j: int| 0 <= j < i ==> chars[j] == other[j],
        decreases other.len() - i,
    {
        if chars[i] != other[i] {
            assert(chars@.subrange(0, word@.len() as int)[i as int] != word@[i as int]);
            return false;
        }
        i += 1;
    }
    proof {
        assert(chars@.subrange(0, word@.len() as int) =~= word@);
    }
    true
}


/// `s` without the character `c`.
pub open spec fn without(s: Seq<char>, c: char) -> Seq<char>
    decreases s.len(),
{
    if s.len() == 0 {
        s
    } else if s.last() == c {
        without(s.drop_last(), c)
    } else {
        without(s.drop_last(), c).push(s.last())
    }
}

/// `s` without the character `c`.
pub fn remove_char(s: &Vec<char>, c: char) -> (left: Vec<char>)
    ensures
        left@ == without(s@, c),
{
    let mut left: Vec<char> = Vec::new();
    let mut k: usize = 0;
    while k < s.len()
        invariant
            k <= s.len(),
            left@ == without(s@.take(k as int), c),
        decreases s.len() - k,
    {
        proof {
            assert(s@.take(k + 1).drop_last() =~= s@.take(k as int));
        }
        if s[k] != c {
            left.push(s[k]);
        }
        k += 1;
    }
    proof {
        assert(s@.take(k as int) =~= s@);
    }
    left
}


/// Where the longest run of characters of `class` that ends before `to` starts.
pub open spec fn span_start(s: Seq<char>, to: int, class: CharClass) -> int
    decreases to,
{
    if 0 < to <= s.len() && in_class(class, s[to - 1]) {
        span_start(s, to - 1, class)
    } else {
        to
    }
}

/// A run starts at or before its end, with every character in it of the
/// class and the character before it, if any, not.
pub proof fn lemma_span_start(s: Seq<char>, to: int, class: CharClass)
    requires
        0 <= to <= s.len(),
    ensures
        0 <= span_start(s, to, class) <= to,
        forall|i: int| span_start(s, to, class) <= i < to ==> in_class(class, #[trigger] s[i]),
        span_start(s, to, class) > 0 ==> !in_class(class, s[span_start(s, to, class) - 1]),
    decreases to,
{
    if 0 < to && in_class(class, s[to - 1]) {
        lemma_span_start(s, to - 1, class);
    }
}

/// Where the longest run of characters of `class` that ends before `to` starts.
pub fn scan_back(s: &Vec<char>, to: usize, class: CharClass) -> (start: usize)
    requires
        to <= s.len(),
    ensures
        start == span_start(s@, to as int, class),
        start <= to,
{
    let mut start = to;
    while start > 0 && is_in_class(class, s[start - 1])
        invariant
            start <= to <= s.len(),
            span_start(s@, to as int, class) == span_start(s@, start as int, class),
        decreases start,
    {
        start -= 1;
    }
    start
}

/// Whether `word` stands in `s` at place `at`.
pub open spec fn stands_at(s: Seq<char>, word: Seq<char>, at: int) -> bool {
    0 <= at && at + word.len() <= s.len() && s.subrange(at, at + word.len()) == word
}

/// Whether `word` stands in `s` at place `at`.
pub fn check_stands_at(s: &Vec<char>, word: &Vec<char>, at: usize) -> (stands: bool)
    ensures
        stands == stands_at(s@, word@, at as int),
{
    if word.len() > s.len() || at > s.len() - word.len() {
        return false;
    }
    let mut i: usize = 0;
    while i < word.len()
        invariant
            i <= word.len(),
            at + word.len() <= s.len(),
            forall|j: int| 0 <= j < i ==> s[at + j] == word[j],
        decreases word.len() - i,
    {
        if s[at + i] != word[i] {
            assert(s@.subrange(at as int, at + word.len())[i as int] != word@[i as int]);
            return false;
        }
        i += 1;
    }
    proof {
        assert(s@.subrange(at as int, at + word.len()) =~= word@);
    }
    true
}

/// The number that the digits of `s` from `from` up to `to` spell, if it is at most `max`.
pub fn parse_range(s: &Vec<char>, from: usize, to: usize, max: u64) -> (parsed: Option<u64>)
    requires
        from <= to <= s.len(),
    ensures
        match parsed {
            Some(v) => from < to && all_digits(s@.subrange(from as int, to as int)) && v
                == decimal_value(s@.subrange(from as int, to as int)) && v <= max,
            None => !(from < to && all_digits(s@.subrange(from as int, to as int))
                && decimal_value(s@.subrange(from as int, to as int)) <= max),
        },
{
    let piece = slice_of(s, from, to);
    proof {
        assert(piece@.skip(0) =~= piece@);
    }
    parse_digits(&piece, 0, max)
}


/// The first place at or after `from` at which `word` stands in `s`, or
/// the length of `s` where it stands at none.
pub open spec fn first_place(s: Seq<char>, word: Seq<char>, from: int) -> int
    decreases s.len() - from,
{
    if from < 0 || from >= s.len() {
        s.len() as int
    } else if stands_at(s, word, from) {
        from
    } else {
        first_place(s, word, from + 1)
    }
}

/// The first place of a word lies at or after where it was looked for.
pub proof fn lemma_first_place(s: Seq<char>, word: Seq<char>, from: int)
    requires
        0 <= from <= s.len(),
    ensures
        from <= first_place(s, word, from) <= s.len(),
        first_place(s, word, from) < s.len() ==> stands_at(s, word, first_place(s, word, from)),
    decreases s.len() - from,
{
    if from < s.len() && !stands_at(s, word, from) {
        lemma_first_place(s, word, from + 1);
    }
}

/// The first place at or after `from` at which `word` stands in `s`.
pub fn find_word(s: &Vec<char>, word: &Vec<char>, from: usize) -> (place: usize)
    requires
        from <= s.len(),
    ensures
        place == first_place(s@, word@, from as int),
        from <= place <= s.len(),
{
    let mut at = from;
    while at < s.len()
        invariant
            from <= at <= s.len(),
            first_place(s@, word@, from as int) == first_place(s@, word@, at as int),
        decreases s.len() - at,
    {
        if check_stands_at(s, word, at) {
            return at;
        }
        at += 1;
    }
    at
}

/// The pieces of `s` from `from` on between the places where the
/// separator `word` stands, found from left to right.
pub open spec fn split_by(s: Seq<char>, word: Seq<char>, from: int) -> Seq<Seq<char>>
    decreases s.len() - from,
{
    let p = first_place(s, word, from);
    if word.len() > 0 && 0 <= from <= p < s.len() && p + word.len() <= s.len() {
        seq![s.subrange(from, p)] + split_by(s, word, p + word.len())
    } else {
        seq![s.subrange(from, s.len() as int)]
    }
}

/// The pieces of `s` between the places where the separator `word` stands.
pub fn split_words(s: &Vec<char>, word: &Vec<char>) -> (pieces: Vec<Vec<char>>)
    requires
        word.len() > 0,
    ensures
        views(pieces@) == split_by(s@, word@, 0),
{
    let mut pieces: Vec<Vec<char>> = Vec::new();
    let mut from: usize = 0;
    proof {
        assert(views(pieces@) =~= Seq::<Seq<char>>::empty());
    }
    loop
        invariant
            from <= s.len(),
            word.len() > 0,
            split_by(s@, word@, 0) == views(pieces@) + split_by(s@, word@, from as int),
        decreases s.len() - from,
    {
        let p = find_word(s, word, from);
        let ghost before = views(pieces@);
        if p < s.len() {
            proof {
                lemma_first_place(s@, word@, from as int);
                assert(stands_at(s@, word@, p as int));
            }
            pieces.push(slice_of(s, from, p));
            proof {
                assert(views(pieces@) =~= before.push(s@.subrange(from as int, p as int)));
                assert(split_by(s@, word@, from as int) =~= seq![s@.subrange(from as int, p as int)]
                    + split_by(s@, word@, p + word@.len()));
                assert(split_by(s@, word@, 0) =~= views(pieces@) + split_by(
                    s@,
                    word@,
                    p + word@.len(),
                ));
            }
            from = p + word.len();
        } else {
            pieces.push(slice_of(s, from, s.len()));
            proof {
                assert(views(pieces@) =~= before.push(s@.subrange(from as int, s@.len() as int)));
                assert(split_by(s@, word@, from as int) =~= seq![
                    s@.subrange(from as int, s@.len() as int),
                ]);
                assert(split_by(s@, word@, 0) =~= views(pieces@));
            }
            return pieces;
        }
    }
}

/// The last place below `bound` at which `word` stands in `s`, or -1.
pub open spec fn last_place(s: Seq<char>, word: Seq<char>, bound: nat) -> int
    decreases bound,
{
    if bound == 0 {
        -1
    } else if stands_at(s, word, bound - 1) {
        bound - 1
    } else {
        last_place(s, word, (bound - 1) as nat)
    }
}

/// The last place below `bound` at which `word` stands in `s`.
pub fn find_last_word(s: &Vec<char>, word: &Vec<char>, bound: usize) -> (place: Option<usize>)
    ensures
        match place {
            Some(p) => last_place(s@, word@, bound as nat) == p && p < bound && stands_at(
                s@,
                word@,
                p as int,
            ),
            None => last_place(s@, word@, bound as nat) == -1,
        },
{
    let mut at = bound;
    while at > 0
        invariant
            at <= bound,
            last_place(s@, word@, bound as nat) == last_place(s@, word@, at as nat),
        decreases at,
    {
        if check_stands_at(s, word, at - 1) {
            return Some(at - 1);
        }
        at -= 1;
    }
    None
}


/// The texts of some strings.
pub open spec fn texts(names: Seq<String>) -> Seq<Seq<char>> {
    names.map_values(|s: String| s@)
}

/// The different pieces among the first `k`, each where it first occurs.
pub open spec fn distinct(pieces: Seq<Seq<char>>, k: nat) -> Seq<Seq<char>>
    decreases k,
{
    if k == 0 {
        Seq::empty()
    } else if distinct(pieces, (k - 1) as nat).contains(pieces[k - 1]) {
        distinct(pieces, (k - 1) as nat)
    } else {
        distinct(pieces, (k - 1) as nat).push(pieces[k - 1])
    }
}

/// What holds a sequence with one more item.
pub proof fn lemma_push_contains<T>(s: Seq<T>, x: T)
    ensures
        forall|y: T| #[trigger] s.push(x).contains(y) <==> (s.contains(y) || y == x),
{
    assert forall|y: T| #[trigger] s.push(x).contains(y) <==> (s.contains(y) || y == x) by {
        if s.contains(y) {
            let j = choose|j: int| 0 <= j < s.len() && s[j] == y;
            assert(s.push(x)[j] == y);
        }
        if y == x {
            assert(s.push(x)[s.len() as int] == y);
        }
        if s.push(x).contains(y) {
            let t = s.push(x);
            let j = choose|j: int| 0 <= j < t.len() && t[j] == y;
            if j < s.len() {
                assert(s[j] == y);
            }
        }
    }
}

/// A sequence without an item twice stays so with one more item that it did not hold.
pub proof fn lemma_push_no_duplicates<T>(s: Seq<T>, x: T)
    requires
        s.no_duplicates(),
        !s.contains(x),
    ensures
        s.push(x).no_duplicates(),
{
    assert forall|i: int, j: int| 0 <= i < j < s.push(x).len() implies s.push(x)[i] != s.push(
        x,
    )[j] by {
        if j == s.len() {
            if s.push(x)[i] == x {
                assert(s[i] == x);
            }
        }
    }
}

/// Whether a string of the text of `name` is among `list`.
pub fn has_name(list: &Vec<String>, name: &String) -> (found: bool)
    ensures
        found == texts(list@).contains(name@),
{
    let mut i: usize = 0;
    while i < list.len()
        invariant
            i <= list.len(),
            forall|j: int| 0 <= j < i ==> texts(list@)[j] != name@,
        decreases list.len() - i,
    {
        if list[i] == *name {
            assert(texts(list@)[i as int] == name@);
            return true;
        }
        i += 1;
    }
    false
}

/// The different pieces as strings, each where it first occurs.
pub fn distinct_names(pieces: &Vec<Vec<char>>) -> (names: Vec<String>)
    ensures
        texts(names@) == distinct(views(pieces@), pieces@.len()),
        texts(names@).no_duplicates(),
{
    let mut names: Vec<String> = Vec::new();
    let mut k: usize = 0;
    proof {
        assert(texts(names@) =~= Seq::<Seq<char>>::empty());
    }
    while k < pieces.len()
        invariant
            k <= pieces.len(),
            texts(names@) == distinct(views(pieces@), k as nat),
            texts(names@).no_duplicates(),
        decreases pieces.len() - k,
    {
        let name = string_of(&pieces[k]);
        assert(views(pieces@)[k as int] == name@);
        if !has_name(&names, &name) {
            let ghost before = texts(names@);
            names.push(name);
            proof {
                assert(texts(names@) =~= before.push(name@));
                lemma_push_no_duplicates(before, name@);
            }
        }
        k += 1;
    }
    names
}


/// Those of the first `k` names of `s` that are among `other`, where
/// `wanted` holds, or that are not among them, where it does not.
pub open spec fn kept(s: Seq<Seq<char>>, other: Seq<Seq<char>>, wanted: bool, k: nat) -> Seq<
    Seq<char>,
>
    decreases k,
{
    if k == 0 {
        Seq::empty()
    } else if other.contains(s[k - 1]) == wanted {
        kept(s, other, wanted, (k - 1) as nat).push(s[k - 1])
    } else {
        kept(s, other, wanted, (k - 1) as nat)
    }
}

/// What is kept is what was there and is wanted; and nothing is kept
/// twice that was not there twice.
pub proof fn lemma_kept(s: Seq<Seq<char>>, other: Seq<Seq<char>>, wanted: bool, k: nat)
    requires
        k <= s.len(),
    ensures
        forall|x: Seq<char>| #[trigger]
            kept(s, other, wanted, k).contains(x) <==> (s.take(k as int).contains(x)
                && other.contains(x) == wanted),
        s.no_duplicates() ==> kept(s, other, wanted, k).no_duplicates(),
        kept(s, other, wanted, k).len() <= k,
    decreases k,
{
    if k > 0 {
        lemma_kept(s, other, wanted, (k - 1) as nat);
        let before = kept(s, other, wanted, (k - 1) as nat);
        let last = s[k - 1];
        lemma_push_contains(before, last);
        lemma_push_contains(s.take(k - 1), last);
        assert(s.take(k as int) =~= s.take(k - 1).push(last));
        if s.no_duplicates() && other.contains(last) == wanted {
            if before.contains(last) {
                let front = s.take(k - 1);
                let i = choose|i: int| 0 <= i < front.len() && front[i] == last;
                assert(s[i] == s[k - 1]);
            }
            lemma_push_no_duplicates(before, last);
        }
    } else {
        assert(s.take(0) =~= Seq::<Seq<char>>::empty());
    }
}

/// Those of `list` that are among `other`, where `wanted` holds, or
/// that are not among them, where it does not.
pub fn keep_names(list: &Vec<String>, other: &Vec<String>, wanted: bool) -> (left: Vec<String>)
    ensures
        texts(left@) == kept(texts(list@), texts(other@), wanted, list@.len()),
{
    let mut left: Vec<String> = Vec::new();
    let mut k: usize = 0;
    proof {
        assert(texts(left@) =~= Seq::<Seq<char>>::empty());
    }
    while k < list.len()
        invariant
            k <= list.len(),
            texts(left@) == kept(texts(list@), texts(other@), wanted, k as nat),
        decreases list.len() - k,
    {
        assert(texts(list@)[k as int] == list[k as int]@);
        if has_name(other, &list[k]) == wanted {
            let ghost before = texts(left@);
            left.push(list[k].clone());
            proof {
                assert(texts(left@) =~= before.push(list[k as int]@));
            }
        }
        k += 1;
    }
    left
}

/// A copy of the names.
pub fn copy_names(list: &Vec<String>) -> (copy: Vec<String>)
    ensures
        texts(copy@) == texts(list@),
{
    let mut copy: Vec<String> = Vec::new();
    let mut k: usize = 0;
    while k < list.len()
        invariant
            k <= list.len(),
            texts(copy@) == texts(list@).take(k as int),
        decreases list.len() - k,
    {
        let ghost before = texts(copy@);
        copy.push(list[k].clone());
        proof {
            assert(texts(copy@) =~= before.push(list[k as int]@));
            assert(texts(list@).take(k + 1) =~= texts(list@).take(k as int).push(list[k as int]@));
        }
        k += 1;
    }
    proof {
        assert(texts(list@).take(k as int) =~= texts(list@));
    }
    copy
}

} // verus!
