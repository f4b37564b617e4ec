use advent2020::day18::{evaluate, part1, part2, read_equations, try_evaluate, Equation};

fn equation(text: &str) -> Equation {
    read_equations(&vec![text.to_string()]).remove(0)
}

fn polish(text: &str, plus_precedence: bool) -> String {
    equation(text).to_polish(plus_precedence).iter().collect()
}

const SAMPLES: [(&str, i64, i64); 6] = [
    ("1 + 2 * 3 + 4 * 5 + 6", 231, 71),
    ("1 + (2 * 3) + (4 * (5 + 6))", 51, 51),
    ("2 * 3 + (4 * 5)", 46, 26),
    ("5 + (8 * 3 + 9 + 3 * 4 * 3)", 1445, 437),
    ("5 * 9 * (7 * 3 * 3 + 9 * 3 + (8 + 6 * 4))", 669060, 12240),
    ("((2 + 4 * 9) * (6 + 9 * 8 + 6) + 6) + 2 + 4 * 2", 23340, 13632),
];

#[test]
fn sample_expressions() {
    for (text, giving_way_to_plus, giving_way_to_all) in SAMPLES {
        assert_eq!(equation(text).calculate(false), giving_way_to_plus, "{}", text);
        assert_eq!(equation(text).calculate(true), giving_way_to_all, "{}", text);
    }
}

#[test]
fn sums_of_the_samples() {
    let lines: Vec<String> = SAMPLES.iter().map(|s| s.0.to_string()).collect();
    let equations = read_equations(&lines);
    assert_eq!(part1(&equations), 231 + 51 + 46 + 1445 + 669060 + 23340);
    assert_eq!(part2(&equations), 71 + 51 + 26 + 437 + 12240 + 13632);
    assert_eq!(part1(&[]), 0);
}

#[test]
fn reverse_polish_notation() {
    assert_eq!(polish("1 + 2 * 3 + 4 * 5 + 6", false), "12+34+56+**");
    assert_eq!(polish("1 + 2 * 3 + 4 * 5 + 6", true), "12+3*4+5*6+");
    assert_eq!(polish("2 * 3 + (4 * 5)", false), "2345*+*");
    assert_eq!(polish("2 * 3 + (4 * 5)", true), "23*45*+");
    assert_eq!(evaluate(&"23*45*+".chars().collect()), 26);
    assert_eq!(evaluate(&Vec::new()), 0);
}

#[test]
fn blanks_are_taken_out_and_digits_stand_alone() {
    assert_eq!(equation(" 1 +  2 ").raw, "1+2");
    assert_eq!(equation("").calculate(true), 0);
    assert_eq!(equation("7").calculate(false), 7);
    assert_eq!(equation("12").calculate(false), 2);
    assert!(Equation::is_operator('+'));
    assert!(Equation::is_operator('*'));
    assert!(!Equation::is_operator('-'));
}

#[test]
fn what_cannot_be_evaluated() {
    let tokens = |text: &str| text.chars().collect::<Vec<char>>();
    assert_eq!(try_evaluate(&tokens("23*45*+")), Some(26));
    assert_eq!(try_evaluate(&tokens("")), Some(0));
    assert_eq!(try_evaluate(&tokens("23")), Some(3));
    assert_eq!(try_evaluate(&tokens("2+")), None);
    assert_eq!(try_evaluate(&tokens("+")), None);
    assert_eq!(try_evaluate(&tokens("23(")), None);
    assert_eq!(try_evaluate(&tokens("23-")), None);
    let mut huge = tokens("9");
    for _ in 0..20 {
        huge.extend(tokens("9*"));
    }
    assert_eq!(try_evaluate(&huge), None);
}
