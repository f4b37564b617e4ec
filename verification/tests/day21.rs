use advent2020::day21::{
    allergens_to_possible_ingredients, part1, part2, part2_within, read_food, Food, FoodError,
};

const SAMPLE: &str = "mxmxvkd kfcds sqjhc nhms (contains dairy, fish)
trh fvjkl sbzzf mxmxvkd (contains dairy)
sqjhc fvjkl (contains soy)
sqjhc mxmxvkd sbzzf (contains fish)";

fn sample() -> Vec<Food> {
    read_food(&SAMPLE.lines().map(|l| l.to_string()).collect())
}

#[test]
fn sample_ingredients_without_allergens() {
    assert_eq!(part1(&sample()), 5);
    assert_eq!(part1(&[]), 0);
}

#[test]
fn sample_dangerous_ingredients() {
    assert_eq!(part2(&sample()), "mxmxvkd,sqjhc,fvjkl");
    assert_eq!(part2(&[]), "");
}

#[test]
fn possible_ingredients_of_each_allergen() {
    let entries = allergens_to_possible_ingredients(&sample());
    assert_eq!(
        entries,
        vec![
            ("dairy".to_string(), vec!["mxmxvkd".to_string()]),
            ("fish".to_string(), vec!["mxmxvkd".to_string(), "sqjhc".to_string()]),
            ("soy".to_string(), vec!["sqjhc".to_string(), "fvjkl".to_string()]),
        ]
    );
}

#[test]
fn a_line_spells_a_food() {
    let food = Food::from_str("a b  a (contains x, y,z, x) rest").ok().unwrap();
    assert_eq!(food.ingredients, vec!["a", "b", ""]);
    assert_eq!(food.allergens, vec!["x", "y,z"]);
    let food = Food::from_str("a (contains b) (contains c)").ok().unwrap();
    assert_eq!(food.ingredients, vec!["a", "(contains", "b)"]);
    assert_eq!(food.allergens, vec!["c"]);
    let food = Food::from_str(" (contains )").ok().unwrap();
    assert_eq!(food.ingredients, vec![""]);
    assert_eq!(food.allergens, vec![""]);
    assert_eq!(Food::from_str("a b c").err(), Some(FoodError::ParseFiasco));
    assert_eq!(Food::from_str("a (contains b").err(), Some(FoodError::ParseFiasco));
    assert_eq!(Food::from_str("a) (contains").err(), Some(FoodError::ParseFiasco));
}

#[test]
fn rounds_of_telling_allergens_apart() {
    assert_eq!(part2_within(&sample(), 2), None);
    assert_eq!(part2_within(&sample(), 3).as_deref(), Some("mxmxvkd,sqjhc,fvjkl"));
    let lone = read_food(&vec!["a (contains x)".to_string()]);
    assert_eq!(part2_within(&lone, 1000), None);
    let none = read_food(&vec!["a b (contains x)".to_string()]);
    assert_eq!(part2_within(&none, 0).as_deref(), Some(""));
}
