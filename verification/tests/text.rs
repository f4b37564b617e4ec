use advent2020::text::{
    chars_of, check_stands_at, count_char, distinct_names, find_last_word, find_word, has_name,
    is_in_class, keep_names, parse_i32, parse_i64, parse_range, parse_u32, parse_u64, remove_char,
    scan, scan_back, slice_of, spells, split_chars, split_words, starts_with, to_digit, CharClass,
};

fn chars(text: &str) -> Vec<char> {
    text.chars().collect()
}

fn strings(texts: &[&str]) -> Vec<String> {
    texts.iter().map(|t| t.to_string()).collect()
}

#[test]
fn numbers_without_a_sign() {
    assert_eq!(parse_u32("0"), Some(0));
    assert_eq!(parse_u32("+17"), Some(17));
    assert_eq!(parse_u32("007"), Some(7));
    assert_eq!(parse_u32("4294967295"), Some(u32::MAX));
    assert_eq!(parse_u32("4294967296"), None);
    assert_eq!(parse_u64("18446744073709551615"), Some(u64::MAX));
    assert_eq!(parse_u64("18446744073709551616"), None);
    assert_eq!(parse_u64("99999999999999999999999"), None);
    for text in ["", "+", "-1", "1 ", " 1", "1a", "++1", "٣"] {
        assert_eq!(parse_u32(text), None, "{:?}", text);
    }
}

#[test]
fn numbers_with_a_sign() {
    assert_eq!(parse_i32("-2147483648"), Some(i32::MIN));
    assert_eq!(parse_i32("2147483647"), Some(i32::MAX));
    assert_eq!(parse_i32("2147483648"), None);
    assert_eq!(parse_i32("-2147483649"), None);
    assert_eq!(parse_i32("+5"), Some(5));
    assert_eq!(parse_i32("-0"), Some(0));
    assert_eq!(parse_i64("-9223372036854775808"), Some(i64::MIN));
    assert_eq!(parse_i64("9223372036854775807"), Some(i64::MAX));
    assert_eq!(parse_i64("9223372036854775808"), None);
    for text in ["", "-", "+", "--1", "1-", "- 1"] {
        assert_eq!(parse_i64(text), None, "{:?}", text);
    }
    assert_eq!(parse_range(&chars("ab123cd"), 2, 5, 1000), Some(123));
    assert_eq!(parse_range(&chars("ab123cd"), 2, 5, 122), None);
    assert_eq!(parse_range(&chars("ab123cd"), 2, 6, 1000), None);
    assert_eq!(parse_range(&chars("ab123cd"), 2, 2, 1000), None);
}

#[test]
fn digits_and_classes() {
    assert_eq!(to_digit('0'), Some(0));
    assert_eq!(to_digit('9'), Some(9));
    assert_eq!(to_digit('a'), None);
    assert!(is_in_class(CharClass::Digit, '5') && !is_in_class(CharClass::Digit, 'x'));
    assert!(is_in_class(CharClass::Space, '\t') && !is_in_class(CharClass::Space, '_'));
    assert!(is_in_class(CharClass::Word, '_') && !is_in_class(CharClass::Word, '-'));
    assert!(is_in_class(CharClass::NonSpace, '-') && !is_in_class(CharClass::NonSpace, ' '));
    assert!(is_in_class(CharClass::WordOrBlank, ' ') && !is_in_class(CharClass::WordOrBlank, '|'));
    assert!(is_in_class(CharClass::Any, '\n'));
}

#[test]
fn runs_of_a_class() {
    let text = chars("abc 123  x");
    assert_eq!(scan(&text, 0, CharClass::Word), 3);
    assert_eq!(scan(&text, 3, CharClass::Word), 3);
    assert_eq!(scan(&text, 4, CharClass::Digit), 7);
    assert_eq!(scan(&text, 7, CharClass::Space), 9);
    assert_eq!(scan(&text, 9, CharClass::Any), 10);
    assert_eq!(scan(&text, 10, CharClass::Any), 10);
    assert_eq!(scan_back(&text, 7, CharClass::Digit), 4);
    assert_eq!(scan_back(&text, 4, CharClass::Digit), 4);
    assert_eq!(scan_back(&text, 3, CharClass::Word), 0);
    assert_eq!(slice_of(&text, 4, 7), chars("123"));
}

#[test]
fn pieces_between_separators() {
    assert_eq!(split_chars(&chars("a,b,,c"), ','), vec![chars("a"), chars("b"), chars(""), chars("c")]);
    assert_eq!(split_chars(&chars(""), ','), vec![chars("")]);
    assert_eq!(split_chars(&chars(","), ','), vec![chars(""), chars("")]);
    assert_eq!(split_words(&chars("a, b,c, , d"), &chars(", ")), vec![chars("a"), chars("b,c"), chars(""), chars("d")]);
    assert_eq!(split_words(&chars("aaa"), &chars("aa")), vec![chars(""), chars("a")]);
    assert_eq!(split_words(&chars(""), &chars(", ")), vec![chars("")]);
}

#[test]
fn words_in_a_text() {
    let text = chars("one two one");
    assert!(check_stands_at(&text, &chars("one"), 0));
    assert!(check_stands_at(&text, &chars("one"), 8));
    assert!(!check_stands_at(&text, &chars("one"), 9));
    assert!(check_stands_at(&text, &chars(""), 11));
    assert!(!check_stands_at(&text, &chars(""), 12));
    assert_eq!(find_word(&text, &chars("one"), 0), 0);
    assert_eq!(find_word(&text, &chars("one"), 1), 8);
    assert_eq!(find_word(&text, &chars("six"), 0), 11);
    assert_eq!(find_last_word(&text, &chars("one"), 11), Some(8));
    assert_eq!(find_last_word(&text, &chars("one"), 8), Some(0));
    assert_eq!(find_last_word(&text, &chars("one"), 0), None);
    assert!(starts_with(&text, "one t") && !starts_with(&text, "two"));
    assert!(spells(&text, "one two one") && !spells(&text, "one two"));
    assert_eq!(chars_of("häh"), chars("häh"));
    assert_eq!(count_char(&text, 'o'), 3);
    assert_eq!(remove_char(&text, 'o'), chars("ne tw ne"));
}

#[test]
fn names_as_sets() {
    let names = distinct_names(&vec![chars("b"), chars("a"), chars("b"), chars("")]);
    assert_eq!(names, strings(&["b", "a", ""]));
    assert!(has_name(&names, &"a".to_string()) && !has_name(&names, &"c".to_string()));
    let other = strings(&["a", "c"]);
    assert_eq!(keep_names(&names, &other, true), strings(&["a"]));
    assert_eq!(keep_names(&names, &other, false), strings(&["b", ""]));
}
