use advent2020::day16::{
    check_number, part1, part2, part2_within, read_input, read_rule, Input, Rule,
};

fn rule(name: &str, first: (u32, u32), second: (u32, u32)) -> Rule {
    Rule { name: name.to_string(), first, second }
}

fn first_sample() -> Input {
    Input {
        rules: vec![
            rule("class", (1, 3), (5, 7)),
            rule("row", (6, 11), (33, 44)),
            rule("seat", (13, 40), (45, 50)),
        ],
        ticket: vec![7, 1, 14],
        nearby_tickets: vec![vec![7, 3, 47], vec![40, 4, 50], vec![55, 2, 20], vec![38, 6, 12]],
    }
}

fn second_sample() -> Input {
    Input {
        rules: vec![
            rule("departure class", (0, 1), (4, 19)),
            rule("row", (0, 5), (8, 19)),
            rule("departure seat", (0, 13), (16, 19)),
        ],
        ticket: vec![11, 12, 13],
        nearby_tickets: vec![vec![3, 9, 18], vec![15, 1, 5], vec![5, 14, 9], vec![99, 1, 1]],
    }
}

#[test]
fn sample_error_rate() {
    assert_eq!(part1(&first_sample()), 71);
    assert_eq!(part1(&second_sample()), 99);
}

#[test]
fn tickets_that_are_not_valid_are_taken_out() {
    let mut input = first_sample();
    assert_eq!(input.discard_invalid(), 71);
    assert_eq!(input.nearby_tickets, vec![vec![7, 3, 47]]);
    assert_eq!(input.ticket, vec![7, 1, 14]);
    assert_eq!(input.discard_invalid(), 0);
}

#[test]
fn numbers_against_the_rules() {
    let input = first_sample();
    for (num, valid) in [(0, false), (1, true), (3, true), (4, false), (12, false), (13, true), (44, true), (50, true), (51, false)] {
        assert_eq!(check_number(&input.rules, num), valid, "{}", num);
    }
}

#[test]
fn fields_of_departure_multiplied() {
    assert_eq!(part2(&second_sample()), 12 * 13);
    let mut input = second_sample();
    input.rules[1].name = "departure row".to_string();
    assert_eq!(part2(&input), 12 * 11 * 13);
    input.rules[0].name = "class".to_string();
    input.rules[1].name = "row".to_string();
    input.rules[2].name = "seat".to_string();
    assert_eq!(part2(&input), 1);
}

#[test]
fn notes_are_read_section_by_section() {
    let text = "class: 1-3 or 5-7
row: 6-11 or 33-44
departure: seat: 13-40 or 45-50
no rule at all

your ticket:
7,1,14

nearby tickets:
7,3,47
40,4,50
55,2,20
38,6,12";
    let input = read_input(&text.lines().map(|l| l.to_string()).collect());
    assert_eq!(input.rules.len(), 3);
    assert_eq!(input.rules[2].name, "departure: seat");
    assert_eq!((input.rules[2].first, input.rules[2].second), ((13, 40), (45, 50)));
    assert_eq!(input.ticket, vec![7, 1, 14]);
    assert_eq!(input.nearby_tickets.len(), 4);
    assert_eq!(part1(&input), 71);
}

#[test]
fn a_rule_is_read_from_its_end() {
    let rule = read_rule(&"a: 1-2 or 3-4: 10-20 or 30-45".chars().collect()).unwrap();
    assert_eq!(rule.name, "a: 1-2 or 3-4");
    assert_eq!((rule.first, rule.second), ((10, 20), (30, 45)));
    for line in [": 1-2 or 3-4", "a: 1-2 or 3-", "a: 1-2 and 3-4", "a:1-2 or 3-4", "a: -2 or 3-4", "a: 1-2 or 3-4 "] {
        assert!(read_rule(&line.chars().collect()).is_none(), "{}", line);
    }
}

#[test]
fn narrowing_down_gives_up_after_the_rounds_allowed() {
    let input = second_sample();
    assert_eq!(part2_within(&input, 1), None);
    assert_eq!(part2_within(&input, 2), Some(12 * 13));
    let mut large = second_sample();
    large.ticket = vec![u32::MAX, u32::MAX, u32::MAX];
    large.rules = vec![
        rule("departure a", (0, 1), (4, u32::MAX)),
        rule("departure b", (0, 5), (8, u32::MAX)),
        rule("departure c", (0, 13), (16, u32::MAX)),
    ];
    assert_eq!(part2_within(&large, 10), None);
}
