use advent2020::day2::{part1, part2, read_policies_and_passwords, PolicyError, PolicyPassword};

fn sample() -> Vec<PolicyPassword> {
    let lines: Vec<String> = ["1-3 a: abcde", "1-3 b: cdefg", "2-9 c: ccccccccc"]
        .iter()
        .map(|l| l.to_string())
        .collect();
    read_policies_and_passwords(&lines)
}

#[test]
fn sample_passwords_by_range() {
    assert_eq!(part1(&sample()), 2);
}

#[test]
fn sample_passwords_by_place() {
    assert_eq!(part2(&sample()), 1);
}

#[test]
fn a_line_spells_policy_and_password() {
    let entry = PolicyPassword::from_str("12-345 \t z:  pass_w0rd").ok().unwrap();
    assert_eq!((entry.first, entry.second, entry.character), (12, 345, 'z'));
    assert_eq!(entry.pass, "pass_w0rd");
}

#[test]
fn lines_of_another_form_are_refused() {
    for line in ["", "1-3 a:abcde", "1-3a: abcde", "-3 a: abcde", "1- a: abcde", "1-3 ab: abcde", "1-3 a: ", "1-3 a: ab cd", "1-3 a: abc ", " 1-3 a: abc", "1-3 a; abc"] {
        assert_eq!(PolicyPassword::from_str(line).err(), Some(PolicyError::Malformed), "{}", line);
    }
    assert_eq!(
        PolicyPassword::from_str("1-99999999999999999999999 a: abc").err(),
        Some(PolicyError::NumberTooLarge)
    );
    let lines = vec!["1-3 a: abcde".to_string(), "nothing".to_string(), "2-4 b: bb".to_string()];
    assert_eq!(read_policies_and_passwords(&lines).len(), 2);
}
