use advent2020::day7::{
    count_bags, count_bags_to_depth, find_bag, find_bag_to_depth, part1, part2, read_children,
    read_rules, Rule, RuleError,
};

const SAMPLE: &str = "light red bags contain 1 bright white bag, 2 muted yellow bags.
dark orange bags contain 3 bright white bags, 4 muted yellow bags.
bright white bags contain 1 shiny gold bag.
muted yellow bags contain 2 shiny gold bags, 9 faded blue bags.
shiny gold bags contain 1 dark olive bag, 2 vibrant plum bags.
dark olive bags contain 3 faded blue bags, 4 dotted black bags.
vibrant plum bags contain 5 faded blue bags, 6 dotted black bags.
faded blue bags contain no other bags.
dotted black bags contain no other bags.";

const DEEP: &str = "shiny gold bags contain 2 dark red bags.
dark red bags contain 2 dark orange bags.
dark orange bags contain 2 dark yellow bags.
dark yellow bags contain 2 dark green bags.
dark green bags contain 2 dark blue bags.
dark blue bags contain 2 dark violet bags.
dark violet bags contain no other bags.";

fn rules(text: &str) -> Vec<Rule> {
    read_rules(&text.lines().map(|l| l.to_string()).collect())
}

#[test]
fn sample_bags_that_hold_a_shiny_gold_one() {
    assert_eq!(part1(&rules(SAMPLE)), 4);
    assert_eq!(part1(&rules(DEEP)), 0);
}

#[test]
fn sample_bags_inside_a_shiny_gold_one() {
    assert_eq!(part2(&rules(SAMPLE)), 32);
    assert_eq!(part2(&rules(DEEP)), 126);
}

#[test]
fn holders_come_once_for_each_way_to_them() {
    let found = find_bag(&rules(SAMPLE), "faded blue");
    assert_eq!(
        found,
        vec![
            "muted yellow", "light red", "dark orange", "dark olive", "shiny gold", "bright white",
            "light red", "dark orange", "muted yellow", "light red", "dark orange", "vibrant plum",
            "shiny gold", "bright white", "light red", "dark orange", "muted yellow", "light red",
            "dark orange"
        ]
    );
    assert_eq!(find_bag(&rules(SAMPLE), "light red"), Vec::<String>::new());
}

#[test]
fn a_bag_counts_itself() {
    assert_eq!(count_bags(&rules(SAMPLE), "faded blue"), 1);
    assert_eq!(count_bags(&rules(SAMPLE), "dark olive"), 1 + 3 + 4);
    assert_eq!(count_bags(&rules(SAMPLE), "shiny gold"), 33);
}

#[test]
fn a_line_spells_a_rule() {
    let rule = Rule::from_str("light red bags contain 1 bright white bag, 2 muted yellow bags.").ok().unwrap();
    assert_eq!(rule.name, "light red");
    assert_eq!(rule.children, vec![("bright white".to_string(), 1), ("muted yellow".to_string(), 2)]);
    let rule = Rule::from_str("a bags contain b bags contain 12 c d bags").ok().unwrap();
    assert_eq!(rule.name, "a bags contain b");
    assert_eq!(rule.children, vec![("c d".to_string(), 2)]);
    assert_eq!(Rule::from_str("light red bags hold nothing").err(), Some(RuleError::InvalidRule));
    assert_eq!(rules("nothing\nx bags contain 1 y z bag").len(), 1);
}

#[test]
fn children_are_found_anywhere() {
    let text: Vec<char> = "9 a b bag7 c d bagsx 1 e f bat 3 g  h bags 5 i j bags".chars().collect();
    assert_eq!(
        read_children(&text),
        vec![("a b".to_string(), 9), ("c d".to_string(), 7), ("i j".to_string(), 5)]
    );
}

#[test]
fn searches_give_up_at_the_depth_allowed() {
    let deep = rules(DEEP);
    assert_eq!(count_bags_to_depth(&deep, "shiny gold", 6), Some(127));
    assert_eq!(count_bags_to_depth(&deep, "shiny gold", 5), None);
    assert_eq!(count_bags_to_depth(&deep, "dark violet", 0), Some(1));
    assert_eq!(count_bags_to_depth(&deep, "no such", 9), None);
    assert_eq!(find_bag_to_depth(&deep, "dark violet", 6).map(|v| v.len()), Some(6));
    assert_eq!(find_bag_to_depth(&deep, "dark violet", 5), None);
    assert_eq!(find_bag_to_depth(&deep, "shiny gold", 0), Some(Vec::new()));
    let round = rules("a b bags contain 1 c d bag.\nc d bags contain 2 a b bags.");
    assert_eq!(find_bag_to_depth(&round, "a b", 1000), None);
    assert_eq!(count_bags_to_depth(&round, "a b", 1000), None);
    let big = rules("a b bags contain 9 c d bags.\nc d bags contain 9 c e bags.\nc e bags contain 9 c f bags.\nc f bags contain 9 c g bags.\nc g bags contain 9 c h bags.\nc h bags contain 9 c i bags.\nc i bags contain 9 c j bags.\nc j bags contain 9 c k bags.\nc k bags contain 9 c l bags.\nc l bags contain 9 c m bags.\nc m bags contain 9 c n bags.\nc n bags contain 9 c o bags.\nc o bags contain 9 c p bags.\nc p bags contain 9 c q bags.\nc q bags contain 9 c r bags.\nc r bags contain 9 c s bags.\nc s bags contain 9 c t bags.\nc t bags contain 9 c u bags.\nc u bags contain 9 c v bags.\nc v bags contain 9 c w bags.\nc w bags contain 9 c x bags.\nc x bags contain no bags.");
    assert_eq!(count_bags_to_depth(&big, "c e", 100), Some((9u64.pow(20) - 1) as usize / 8));
    assert_eq!(count_bags_to_depth(&big, "a b", 100), None);
}
