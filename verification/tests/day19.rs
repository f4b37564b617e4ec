use advent2020::day19::{part1, part2, read_input, read_numbers, Message, Rule, Rules};

fn lines(text: &str) -> Vec<String> {
    text.lines().map(|l| l.to_string()).collect()
}

const FIRST: &str = "0: 4 1 5
1: 2 3 | 3 2
2: 4 4 | 5 5
3: 4 5 | 5 4
4: \"a\"
5: \"b\"

ababbb
bababa
abbbab
aaabbb
aaaabbb";

const SECOND: &str = "0: 8 11
8: 42
11: 42 31
42: \"a\"
31: \"b\"

aab
aaab
aaabb
ab
aaaabbb
aabb

b";

#[test]
fn sample_messages_against_the_rules() {
    let (rules, messages) = read_input(&lines(FIRST));
    assert_eq!(messages.len(), 5);
    let valid: Vec<bool> = messages.iter().map(|m| m.validate(&rules)).collect();
    assert_eq!(valid, vec![true, false, true, false, false]);
    assert_eq!(part1(&rules, &messages), 2);
    assert_eq!(part2(&rules, &messages), 2);
}

#[test]
fn rules_that_refer_to_themselves() {
    let (rules, messages) = read_input(&lines(SECOND));
    assert_eq!(messages.len(), 8);
    assert_eq!(messages[6].message, "");
    assert_eq!(part1(&rules, &messages), 1);
    assert_eq!(part2(&rules, &messages), 4);
}

#[test]
fn rests_after_a_rule() {
    let (rules, _) = read_input(&lines(FIRST));
    assert_eq!(Message::validate_chunk("ababbb", &rules, 0), vec![None, None, None, None, Some("")]);
    assert_eq!(Message::validate_chunk("bababa", &rules, 0), vec![None]);
    assert_eq!(Message::validate_chunk("ab", &rules, 1), vec![None, None, None]);
    assert_eq!(Message::validate_chunk("ab", &rules, 4), vec![Some("b")]);
    assert_eq!(Message::validate_chunk("ab", &rules, 5), vec![None]);
    assert_eq!(Message::validate_chunk("", &rules, 0), vec![None]);
    assert_eq!(Message::validate_chunk("", &rules, 4), vec![None]);
}

#[test]
fn a_sequence_that_starts_with_its_own_number_matches_nothing() {
    let mut rules = Rules::new();
    rules.add_from_str("0: 0 1");
    rules.add_from_str("1: \"a\"");
    assert_eq!(Message::validate_chunk("aa", &rules, 0), vec![None]);
    assert!(!Message { message: "a".to_string() }.validate(&rules));
}

#[test]
fn lines_spell_rules() {
    let mut rules = Rules::new();
    rules.add_from_str("12: 4 x 15  7");
    rules.add_from_str("3: 1 2 | 3");
    rules.add_from_str("44: \"z\"");
    rules.add_from_str("5: \"a\"");
    rules.add_from_str("5: 9");
    assert_eq!(rules.rules.len(), 4);
    assert!(matches!(&rules.rules[&12], Rule::SINGLE(v) if v == &vec![4, 15, 7]));
    assert!(matches!(&rules.rules[&3], Rule::OR((a, b)) if a == &vec![1, 2] && b == &vec![3]));
    assert!(matches!(&rules.rules[&44], Rule::CHAR('z')));
    assert!(matches!(&rules.rules[&5], Rule::SINGLE(v) if v == &vec![9]));
    assert_eq!(read_numbers(&" 1 22 x 333 ".chars().collect()), vec![1, 22, 333]);
    assert_eq!(read_numbers(&"99999999999 4".chars().collect()), vec![4]);
}

#[test]
fn rules_are_followed_to_the_depth_allowed() {
    let (rules, messages) = read_input(&lines(FIRST));
    assert_eq!(messages[0].validate_to_depth(&rules, 4), Some(true));
    assert_eq!(messages[1].validate_to_depth(&rules, 4), Some(false));
    assert_eq!(messages[0].validate_to_depth(&rules, 3), None);
    assert_eq!(Message::validate_chunk_to_depth("ab", &rules, 4, 1), Some(vec![Some("b")]));
    assert_eq!(Message::validate_chunk_to_depth("ab", &rules, 4, 0), None);
    assert_eq!(Message::validate_chunk_to_depth("ab", &rules, 7, 9), None);
    let mut round = Rules::new();
    round.add_from_str("0: 1 2");
    round.add_from_str("1: 0 2");
    round.add_from_str("2: \"a\"");
    assert_eq!(Message { message: "aa".to_string() }.validate_to_depth(&round, 500), None);
}
