//! Day 21: foods, their ingredients, and the allergens that some of them hold.

use crate::text::{
    chars_of, copy_names, distinct, distinct_names, find_last_word, has_name, keep_names, kept,
    last_place, lemma_kept, lemma_push_contains, lemma_push_no_duplicates, slice_of, split,
    split_by, split_chars, split_words, texts, views,
};
use crate::adaptors::{join_names, joined};
use crate::budget::Budget;
use vstd::prelude::*;

verus! {

/// A food: its ingredients, and the allergens that it is known to hold.
pub struct Food {
    pub ingredients: Vec<String>,
    pub allergens: Vec<String>,
}

/// Why a line spells no food.
#[derive(Debug, Clone, Copy, PartialEq, Eq, Structural)]
pub enum FoodError {
    /// The line does not end its ingredients with ` (contains ` and a list in parentheses.
    ParseFiasco,
}

/// A name of an ingredient or an allergen.
pub type Name = Seq<char>;

/// What a food holds.
pub struct Meal {
    pub ingredients: Seq<Name>,
    pub allergens: Seq<Name>,
}

/// What a food holds.
pub open spec fn meal_of(food: Food) -> Meal {
    Meal { ingredients: texts(food.ingredients@), allergens: texts(food.allergens@) }
}

/// What some foods hold.
pub open spec fn meals_of(foods: Seq<Food>) -> Seq<Meal> {
    foods.map_values(|food: Food| meal_of(food))
}

/// No ingredient and no allergen is listed twice.
pub open spec fn is_meal(meal: Meal) -> bool {
    meal.ingredients.no_duplicates() && meal.allergens.no_duplicates()
}

/// No food lists an ingredient or an allergen twice.
pub open spec fn are_meals(meals: Seq<Meal>) -> bool {
    forall|i: int| 0 <= i < meals.len() ==> is_meal(#[trigger] meals[i])
}

/// Where the parts of a line lie: the place of the last ` (contains `
/// that has a closing parenthesis behind it, and the place of the last
/// closing parenthesis.
pub open spec fn food_parts(s: Seq<char>) -> Option<(int, int)> {
    let c = last_place(s, ")"@, s.len());
    if c >= 10 {
        let o = last_place(s, " (contains "@, (c - 10) as nat);
        if o >= 0 {
            Some((o, c))
        } else {
            None
        }
    } else {
        None
    }
}

/// The ingredients that a line names: the different words before ` (contains `.
pub open spec fn named_ingredients(s: Seq<char>) -> Seq<Name> {
    let pieces = split(s.subrange(0, food_parts(s).unwrap().0), ' ');
    distinct(pieces, pieces.len())
}

/// The allergens that a line names: the different pieces between `, `
/// in what the parentheses hold behind `contains`.
pub open spec fn named_allergens(s: Seq<char>) -> Seq<Name> {
    let (o, c) = food_parts(s).unwrap();
    let pieces = split_by(s.subrange(o + 11, c), ", "@, 0);
    distinct(pieces, pieces.len())
}

impl Food {
    /// The food that a line spells: ingredients with blanks between, and
    /// in parentheses behind `contains` the allergens with `, ` between.
    pub fn from_str(s: &str) -> (parsed: Result<Food, FoodError>)
        ensures
            match parsed {
                Ok(food) => food_parts(s@) is Some && meal_of(food).ingredients
                    == named_ingredients(s@) && meal_of(food).allergens == named_allergens(s@)
                    && is_meal(meal_of(food)),
                Err(_) => food_parts(s@) is None,
            },
    {
        let chars = chars_of(s);
        let close = chars_of(")");
        let contains = chars_of(" (contains ");
        let comma = chars_of(", ");
        proof {
            reveal_strlit(")");
            reveal_strlit(" (contains ");
            reveal_strlit(", ");
        }
        match find_last_word(&chars, &close, chars.len()) {
            None => Err(FoodError::ParseFiasco),
            Some(c) => {
                if c < 10 {
                    return Err(FoodError::ParseFiasco);
                }
                match find_last_word(&chars, &contains, c - 10) {
                    None => Err(FoodError::ParseFiasco),
                    Some(o) => {
                        let first = slice_of(&chars, 0, o);
                        let second = slice_of(&chars, o + 11, c);
                        let words = split_chars(&first, ' ');
                        let pieces = split_words(&second, &comma);
                        let ingredients = distinct_names(&words);
                        let allergens = distinct_names(&pieces);
                        assert(views(words@).len() == words@.len());
                        assert(views(pieces@).len() == pieces@.len());
                        Ok(Food { ingredients, allergens })
                    },
                }
            },
        }
    }
}

/// The foods that the lines spell, one on each line.
pub fn read_food(lines: &Vec<String>) -> (foods: Vec<Food>)
    requires
        forall|i: int| 0 <= i < lines.len() ==> food_parts(#[trigger] lines[i]@) is Some,
    ensures
        foods.len() == lines.len(),
        are_meals(meals_of(foods@)),
        forall|i: int|
            0 <= i < lines.len() ==> (#[trigger] meals_of(foods@)[i]).ingredients
                == named_ingredients(lines[i]@) && meals_of(foods@)[i].allergens
                == named_allergens(lines[i]@),
{
    let mut foods: Vec<Food> = Vec::new();
    let mut i: usize = 0;
    while i < lines.len()
        invariant
            i <= lines.len(),
            forall|j: int| 0 <= j < lines.len() ==> food_parts(#[trigger] lines[j]@) is Some,
            foods.len() == i,
            are_meals(meals_of(foods@)),
            forall|j: int|
                0 <= j < i ==> (#[trigger] meals_of(foods@)[j]).ingredients == named_ingredients(
                    lines[j]@,
                ) && meals_of(foods@)[j].allergens == named_allergens(lines[j]@),
        decreases lines.len() - i,
    {
        assert(food_parts(lines[i as int]@) is Some);
        let ghost before = meals_of(foods@);
        match Food::from_str(lines[i].as_str()) {
            Ok(food) => {
                let ghost meal = meal_of(food);
                foods.push(food);
                proof {
                    assert(meals_of(foods@) =~= before.push(meal));
                }
            },
            Err(_) => {},
        }
        i += 1;
    }
    foods
}

/// Whether some food is known to hold the allergen.
pub open spec fn has_allergen(meals: Seq<Meal>, a: Name) -> bool {
    exists|i: int| 0 <= i < meals.len() && (#[trigger] meals[i]).allergens.contains(a)
}

/// Whether the ingredient is in every food that is known to hold the allergen.
pub open spec fn is_in_all(meals: Seq<Meal>, a: Name, x: Name) -> bool {
    forall|i: int|
        0 <= i < meals.len() && (#[trigger] meals[i]).allergens.contains(a)
            ==> meals[i].ingredients.contains(x)
}

/// Whether the ingredient may hold the allergen: some food is known to
/// hold the allergen, and the ingredient is in every such food.
pub open spec fn is_possible(meals: Seq<Meal>, a: Name, x: Name) -> bool {
    has_allergen(meals, a) && is_in_all(meals, a, x)
}

/// Whether the ingredient may hold some allergen.
pub open spec fn is_suspicious(meals: Seq<Meal>, x: Name) -> bool {
    exists|a: Name| #[trigger] is_possible(meals, a, x)
}

/// The allergens of the first `f` foods and of the first `j` allergens
/// of the food behind them, each where it first occurs.
pub open spec fn allergens_met(meals: Seq<Meal>, f: nat, j: nat) -> Seq<Name>
    decreases f, j,
{
    if j > 0 {
        let before = allergens_met(meals, f, (j - 1) as nat);
        if before.contains(meals[f as int].allergens[j - 1]) {
            before
        } else {
            before.push(meals[f as int].allergens[j - 1])
        }
    } else if f > 0 {
        allergens_met(meals, (f - 1) as nat, meals[f - 1].allergens.len())
    } else {
        Seq::empty()
    }
}

/// All allergens, each where it first occurs.
pub open spec fn all_allergens(meals: Seq<Meal>) -> Seq<Name> {
    allergens_met(meals, meals.len(), 0)
}

/// The first `f` foods and the first `j` allergens of the food behind
/// them are looked at: whether one of them is the allergen.
pub open spec fn is_met(meals: Seq<Meal>, a: Name, f: int, j: int) -> bool {
    (exists|i: int| 0 <= i < f && (#[trigger] meals[i]).allergens.contains(a)) || (f < meals.len()
        && meals[f].allergens.take(j).contains(a))
}

/// Whether the ingredient is in every food looked at that holds the allergen.
pub open spec fn fits_so_far(meals: Seq<Meal>, a: Name, x: Name, f: int, j: int) -> bool {
    (forall|i: int|
        0 <= i < f && (#[trigger] meals[i]).allergens.contains(a) ==> meals[i].ingredients.contains(
            x,
        )) && (f < meals.len() && meals[f].allergens.take(j).contains(a)
        ==> meals[f].ingredients.contains(x))
}

/// The entries stand for the allergens looked at so far: their keys are
/// those allergens, and each holds the ingredients that fit so far.
pub open spec fn are_entries(
    entries: Seq<(String, Vec<String>)>,
    meals: Seq<Meal>,
    f: int,
    j: int,
) -> bool {
    &&& entries.len() == allergens_met(meals, f as nat, j as nat).len()
    &&& forall|e: int|
        0 <= e < entries.len() ==> (#[trigger] entries[e]).0@ == allergens_met(
            meals,
            f as nat,
            j as nat,
        )[e]
    &&& forall|e: int| 0 <= e < entries.len() ==> texts((#[trigger] entries[e]).1@).no_duplicates()
    &&& forall|e: int, x: Name|
        0 <= e < entries.len() ==> (#[trigger] texts(entries[e].1@).contains(x) <==> fits_so_far(
            meals,
            entries[e].0@,
            x,
            f,
            j,
        ))
}

/// An allergen is among those met just when it was looked at.
pub proof fn lemma_allergens_met(meals: Seq<Meal>, f: nat, j: nat)
    requires
        f <= meals.len(),
        f < meals.len() ==> j <= meals[f as int].allergens.len(),
        f == meals.len() ==> j == 0,
    ensures
        allergens_met(meals, f, j).no_duplicates(),
        forall|a: Name| #[trigger]
            allergens_met(meals, f, j).contains(a) <==> is_met(meals, a, f as int, j as int),
    decreases f, j,
{
    let here = allergens_met(meals, f, j);
    if j > 0 {
        lemma_allergens_met(meals, f, (j - 1) as nat);
        let before = allergens_met(meals, f, (j - 1) as nat);
        let a0 = meals[f as int].allergens[j - 1];
        let list = meals[f as int].allergens;
        lemma_push_contains(before, a0);
        lemma_push_contains(list.take(j - 1), a0);
        assert(list.take(j as int) =~= list.take(j - 1).push(a0));
        if !before.contains(a0) {
            lemma_push_no_duplicates(before, a0);
        }
        assert forall|a: Name| #[trigger] here.contains(a) <==> is_met(
            meals,
            a,
            f as int,
            j as int,
        ) by {
            assert(before.contains(a) <==> is_met(meals, a, f as int, j - 1));
            assert(list.take(j as int).contains(a) <==> (list.take(j - 1).contains(a) || a == a0));
        }
    } else if f > 0 {
        let last = meals[f - 1].allergens;
        lemma_allergens_met(meals, (f - 1) as nat, last.len());
        assert(last.take(last.len() as int) =~= last);
        assert forall|a: Name| #[trigger] here.contains(a) <==> is_met(meals, a, f as int, 0) by {
            assert(here.contains(a) <==> is_met(meals, a, f - 1, last.len() as int));
            if f < meals.len() {
                assert(meals[f as int].allergens.take(0) =~= Seq::<Name>::empty());
            }
            if is_met(meals, a, f - 1, last.len() as int) {
                if last.contains(a) {
                    assert(meals[f - 1].allergens.contains(a));
                } else {
                    let i = choose|i: int|
                        0 <= i < f - 1 && (#[trigger] meals[i]).allergens.contains(a);
                    assert(0 <= i < f && meals[i].allergens.contains(a));
                }
            }
            if is_met(meals, a, f as int, 0) {
                let i = choose|i: int| 0 <= i < f && (#[trigger] meals[i]).allergens.contains(a);
                if i == f - 1 {
                    assert(last.contains(a));
                } else {
                    assert(0 <= i < f - 1 && meals[i].allergens.contains(a));
                }
            }
        }
    } else {
        assert forall|a: Name| #[trigger] here.contains(a) <==> is_met(meals, a, 0, 0) by {
            if 0 < meals.len() {
                assert(meals[0].allergens.take(0) =~= Seq::<Name>::empty());
            }
        }
    }
}


/// The place of the entry for the allergen, if there is one.
fn find_entry(entries: &Vec<(String, Vec<String>)>, allergen: &String) -> (place: Option<usize>)
    ensures
        match place {
            Some(e) => e < entries.len() && entries[e as int].0@ == allergen@,
            None => forall|e: int| 0 <= e < entries.len() ==> (#[trigger] entries[e]).0@ != allergen@,
        },
{
    let mut e: usize = 0;
    while e < entries.len()
        invariant
            e <= entries.len(),
            forall|i: int| 0 <= i < e ==> (#[trigger] entries[i]).0@ != allergen@,
        decreases entries.len() - e,
    {
        if entries[e].0 == *allergen {
            return Some(e);
        }
        e += 1;
    }
    None
}

/// Looks at one more allergen of a food: the entry of the allergen keeps
/// the ingredients that the food holds too, or is made of the
/// ingredients of the food where there was none.
fn note_allergen(
    entries: &mut Vec<(String, Vec<String>)>,
    foods: &[Food],
    Ghost(f): Ghost<int>,
    Ghost(j): Ghost<int>,
    food: &Food,
    allergen: &String,
)
    requires
        are_meals(meals_of(foods@)),
        0 <= f < foods.len(),
        0 <= j < foods[f].allergens.len(),
        *food == foods[f],
        *allergen == foods[f].allergens[j],
        are_entries(old(entries)@, meals_of(foods@), f, j),
    ensures
        are_entries(final(entries)@, meals_of(foods@), f, j + 1),
{
    let ghost meals = meals_of(foods@);
    let ghost a = allergen@;
    let ghost before = entries@;
    proof {
        lemma_allergens_met(meals, f as nat, j as nat);
        assert(meals[f] == meal_of(foods[f]));
        assert(is_meal(meals[f]));
        assert(meals[f].allergens[j] == a);
        assert(!meals[f].allergens.take(j).contains(a)) by {
            if meals[f].allergens.take(j).contains(a) {
                let front = meals[f].allergens.take(j);
                let i = choose|i: int| 0 <= i < front.len() && front[i] == a;
                assert(meals[f].allergens[i] == meals[f].allergens[j]);
            }
        }
        assert(meals[f].allergens.take(j + 1) =~= meals[f].allergens.take(j).push(a));
        lemma_push_contains(meals[f].allergens.take(j), a);
    }
    match find_entry(entries, allergen) {
        Some(e) => {
            let left = keep_names(&entries[e].1, &food.ingredients, true);
            proof {
                lemma_kept(
                    texts(before[e as int].1@),
                    meals[f].ingredients,
                    true,
                    before[e as int].1@.len(),
                );
                assert(texts(before[e as int].1@).take(before[e as int].1@.len() as int) =~= texts(
                    before[e as int].1@,
                ));
                assert(allergens_met(meals, f as nat, j as nat)[e as int] == a);
                assert(allergens_met(meals, f as nat, j as nat).contains(a));
            }
            entries.set(e, (allergen.clone(), left));
            proof {
                assert forall|i: int, x: Name| 0 <= i < entries.len() implies (#[trigger] texts(
                    entries[i].1@,
                ).contains(x) <==> fits_so_far(meals, entries[i].0@, x, f, j + 1)) by {
                    if i == e {
                        assert(texts(before[i].1@).contains(x) <==> fits_so_far(
                            meals,
                            before[i].0@,
                            x,
                            f,
                            j,
                        ));
                    } else {
                        assert(entries[i] == before[i]);
                        assert(texts(before[i].1@).contains(x) <==> fits_so_far(
                            meals,
                            before[i].0@,
                            x,
                            f,
                            j,
                        ));
                        assert(before[i].0@ != a) by {
                            let keys = allergens_met(meals, f as nat, j as nat);
                            assert(keys[i] == before[i].0@);
                            assert(keys[e as int] == a);
                        }
                    }
                }
            }
        },
        None => {
            proof {
                let keys = allergens_met(meals, f as nat, j as nat);
                assert(!keys.contains(a)) by {
                    if keys.contains(a) {
                        let i = choose|i: int| 0 <= i < keys.len() && keys[i] == a;
                        assert(before[i].0@ == a);
                    }
                }
                assert(!is_met(meals, a, f, j));
            }
            entries.push((allergen.clone(), copy_names(&food.ingredients)));
            proof {
                assert forall|i: int, x: Name| 0 <= i < entries.len() implies (#[trigger] texts(
                    entries[i].1@,
                ).contains(x) <==> fits_so_far(meals, entries[i].0@, x, f, j + 1)) by {
                    if i < before.len() {
                        assert(entries[i] == before[i]);
                        assert(texts(before[i].1@).contains(x) <==> fits_so_far(
                            meals,
                            before[i].0@,
                            x,
                            f,
                            j,
                        ));
                        assert(before[i].0@ != a) by {
                            let keys = allergens_met(meals, f as nat, j as nat);
                            assert(keys[i] == before[i].0@);
                            assert(keys.contains(keys[i]));
                        }
                    }
                }
            }
        },
    }
}

/// For each allergen the ingredients that may hold it: those that are
/// in every food that is known to hold the allergen. The allergens come
/// in the order in which the foods name them first.
pub fn allergens_to_possible_ingredients(foods: &[Food]) -> (entries: Vec<(String, Vec<String>)>)
    requires
        are_meals(meals_of(foods@)),
    ensures
        are_entries(entries@, meals_of(foods@), foods@.len() as int, 0),
{
    let ghost meals = meals_of(foods@);
    let mut entries: Vec<(String, Vec<String>)> = Vec::new();
    let mut f: usize = 0;
    while f < foods.len()
        invariant
            f <= foods.len(),
            meals == meals_of(foods@),
            are_meals(meals),
            are_entries(entries@, meals, f as int, 0),
        decreases foods.len() - f,
    {
        let food = &foods[f];
        let mut j: usize = 0;
        while j < food.allergens.len()
            invariant
                j <= food.allergens.len(),
                f < foods.len(),
                *food == foods[f as int],
                meals == meals_of(foods@),
                are_meals(meals),
                are_entries(entries@, meals, f as int, j as int),
            decreases food.allergens.len() - j,
        {
            note_allergen(&mut entries, foods, Ghost(f as int), Ghost(j as int), food, &food.allergens[j]);
            j += 1;
        }
        proof {
            let last = meals[f as int].allergens;
            assert(meals[f as int] == meal_of(foods[f as int]));
            assert(last.take(last.len() as int) =~= last);
            if f + 1 < meals.len() {
                assert(meals[f + 1].allergens.take(0) =~= Seq::<Name>::empty());
            }
            assert forall|e: int, x: Name| 0 <= e < entries.len() implies (#[trigger] texts(
                entries[e].1@,
            ).contains(x) <==> fits_so_far(meals, entries[e].0@, x, f + 1, 0)) by {
                assert(texts(entries[e].1@).contains(x) <==> fits_so_far(
                    meals,
                    entries[e].0@,
                    x,
                    f as int,
                    last.len() as int,
                ));
            }
        }
        f += 1;
    }
    entries
}


/// Whether the ingredient is among the possible ingredients of one of the first `e` entries.
pub open spec fn is_listed(entries: Seq<(String, Vec<String>)>, x: Name, e: int) -> bool {
    exists|i: int| 0 <= i < e && texts((#[trigger] entries[i]).1@).contains(x)
}

/// The entries of all foods list just the ingredients that may hold some allergen.
pub proof fn lemma_entries_possible(entries: Seq<(String, Vec<String>)>, meals: Seq<Meal>)
    requires
        are_entries(entries, meals, meals.len() as int, 0),
    ensures
        forall|x: Name| is_suspicious(meals, x) <==> is_listed(entries, x, entries.len() as int),
        forall|e: int, x: Name|
            0 <= e < entries.len() ==> (#[trigger] texts(entries[e].1@).contains(x) <==> is_possible(
                meals,
                entries[e].0@,
                x,
            )),
{
    let n = meals.len();
    lemma_allergens_met(meals, n, 0);
    let keys = allergens_met(meals, n, 0);
    assert forall|e: int, x: Name| 0 <= e < entries.len() implies (#[trigger] texts(
        entries[e].1@,
    ).contains(x) <==> is_possible(meals, entries[e].0@, x)) by {
        let a = entries[e].0@;
        assert(keys[e] == a);
        assert(keys.contains(a));
        assert(is_met(meals, a, n as int, 0));
        assert(texts(entries[e].1@).contains(x) <==> fits_so_far(meals, a, x, n as int, 0));
    }
    assert forall|x: Name| is_suspicious(meals, x) <==> is_listed(
        entries,
        x,
        entries.len() as int,
    ) by {
        if is_suspicious(meals, x) {
            let a = choose|a: Name| #[trigger] is_possible(meals, a, x);
            assert(is_met(meals, a, n as int, 0));
            assert(keys.contains(a));
            let e = choose|e: int| 0 <= e < keys.len() && keys[e] == a;
            assert(entries[e].0@ == a);
            assert(texts(entries[e].1@).contains(x));
        }
        if is_listed(entries, x, entries.len() as int) {
            let e = choose|e: int|
                0 <= e < entries.len() && texts((#[trigger] entries[e]).1@).contains(x);
            assert(is_possible(meals, entries[e].0@, x));
        }
    }
}

/// How many of the first `k` ingredients of a list can hold no allergen.
pub open spec fn safe_among(meals: Seq<Meal>, list: Seq<Name>, k: nat) -> nat
    decreases k,
{
    if k == 0 {
        0
    } else {
        safe_among(meals, list, (k - 1) as nat) + if is_suspicious(meals, list[k - 1]) {
            0nat
        } else {
            1nat
        }
    }
}

/// How often an ingredient that can hold no allergen is listed in the first `f` foods.
pub open spec fn safe_total(meals: Seq<Meal>, f: nat) -> nat
    decreases f,
{
    if f == 0 {
        0
    } else {
        safe_total(meals, (f - 1) as nat) + safe_among(
            meals,
            meals[f - 1].ingredients,
            meals[f - 1].ingredients.len(),
        )
    }
}

/// The count of safe ingredients never falls.
pub proof fn lemma_safe_grows(meals: Seq<Meal>, f: nat, g: nat, list: Seq<Name>, k: nat, m: nat)
    requires
        f <= g,
        k <= m,
    ensures
        safe_total(meals, f) <= safe_total(meals, g),
        safe_among(meals, list, k) <= safe_among(meals, list, m),
    decreases g + m,
{
    if f < g {
        lemma_safe_grows(meals, f, (g - 1) as nat, list, k, k);
    }
    if k < m {
        lemma_safe_grows(meals, f, f, list, k, (m - 1) as nat);
    }
}

/// `names` holds what `first` holds and what `second` holds.
pub open spec fn holds_both(names: Seq<Name>, first: Seq<Name>, second: Seq<Name>) -> bool {
    forall|x: Name| #[trigger] names.contains(x) <==> (first.contains(x) || second.contains(x))
}

/// The ingredients that may hold some allergen, each once.
fn suspicious_names(entries: &Vec<(String, Vec<String>)>) -> (names: Vec<String>)
    ensures
        forall|x: Name| texts(names@).contains(x) <==> is_listed(entries@, x, entries@.len() as int),
{
    let mut names: Vec<String> = Vec::new();
    let mut e: usize = 0;
    while e < entries.len()
        invariant
            e <= entries.len(),
            forall|x: Name| texts(names@).contains(x) <==> is_listed(entries@, x, e as int),
        decreases entries.len() - e,
    {
        let list = &entries[e].1;
        let ghost done = texts(names@);
        let mut k: usize = 0;
        proof {
            assert(texts(list@).take(0) =~= Seq::<Name>::empty());
        }
        while k < list.len()
            invariant
                k <= list.len(),
                e < entries.len(),
                *list == entries[e as int].1,
                forall|x: Name| done.contains(x) <==> is_listed(entries@, x, e as int),
                holds_both(texts(names@), done, texts(list@).take(k as int)),
            decreases list.len() - k,
        {
            let ghost before = texts(names@);
            let ghost name = list[k as int]@;
            proof {
                assert(texts(list@).take(k + 1) =~= texts(list@).take(k as int).push(name));
                lemma_push_contains(texts(list@).take(k as int), name);
                lemma_push_contains(before, name);
            }
            let ghost mut pushed = false;
            if !has_name(&names, &list[k]) {
                names.push(list[k].clone());
                proof {
                    assert(texts(names@) =~= before.push(name));
                    pushed = true;
                }
            }
            proof {
                let front = texts(list@).take(k as int);
                assert(texts(list@).take(k + 1) == front.push(name));
                assert forall|x: Name| #[trigger]
                    texts(names@).contains(x) <==> (done.contains(x) || front.push(name).contains(
                        x,
                    )) by {
                    assert(before.contains(x) <==> (done.contains(x) || front.contains(x)));
                    assert(front.push(name).contains(x) <==> (front.contains(x) || x == name));
                    if pushed {
                        assert(before.push(name).contains(x) <==> (before.contains(x) || x == name));
                    } else {
                        assert(before.contains(name));
                    }
                }
            }
            k += 1;
        }
        proof {
            assert(texts(list@).take(k as int) =~= texts(list@));
            assert forall|x: Name| texts(names@).contains(x) <==> is_listed(
                entries@,
                x,
                e + 1,
            ) by {
                if is_listed(entries@, x, e + 1) {
                    let i = choose|i: int|
                        0 <= i < e + 1 && texts((#[trigger] entries[i]).1@).contains(x);
                    if i < e {
                        assert(is_listed(entries@, x, e as int));
                    }
                }
                if done.contains(x) {
                    let i = choose|i: int|
                        0 <= i < e && texts((#[trigger] entries[i]).1@).contains(x);
                    assert(0 <= i < e + 1 && texts(entries[i].1@).contains(x));
                }
                if texts(list@).contains(x) {
                    assert(0 <= e < e + 1 && texts(entries[e as int].1@).contains(x));
                }
            }
        }
        e += 1;
    }
    names
}

/// How often an ingredient that can hold no allergen is listed in the foods.
pub fn part1(foods: &[Food]) -> (count: usize)
    requires
        are_meals(meals_of(foods@)),
        safe_total(meals_of(foods@), foods@.len()) <= usize::MAX,
    ensures
        count == safe_total(meals_of(foods@), foods@.len()),
{
    let ghost meals = meals_of(foods@);
    let entries = allergens_to_possible_ingredients(foods);
    let suspicious = suspicious_names(&entries);
    proof {
        lemma_entries_possible(entries@, meals);
    }
    let mut sum: usize = 0;
    let mut f: usize = 0;
    while f < foods.len()
        invariant
            f <= foods.len(),
            meals == meals_of(foods@),
            safe_total(meals, foods@.len()) <= usize::MAX,
            forall|x: Name| texts(suspicious@).contains(x) <==> is_suspicious(meals, x),
            sum == safe_total(meals, f as nat),
        decreases foods.len() - f,
    {
        let list = &foods[f].ingredients;
        assert(meals[f as int] == meal_of(foods[f as int]));
        let ghost base = sum;
        let mut k: usize = 0;
        proof {
            lemma_safe_grows(meals, (f + 1) as nat, foods@.len(), texts(list@), 0, 0);
        }
        while k < list.len()
            invariant
                k <= list.len(),
                forall|x: Name| texts(suspicious@).contains(x) <==> is_suspicious(meals, x),
                base + safe_among(meals, texts(list@), list@.len()) <= usize::MAX,
                sum == base + safe_among(meals, texts(list@), k as nat),
            decreases list.len() - k,
        {
            proof {
                lemma_safe_grows(meals, 0, 0, texts(list@), (k + 1) as nat, list@.len());
                assert(texts(list@)[k as int] == list[k as int]@);
            }
            if !has_name(&suspicious, &list[k]) {
                sum += 1;
            }
            k += 1;
        }
        f += 1;
    }
    sum
}


/// The ingredients of the first `f` foods and the first `j` ingredients
/// of the food behind them, each where it first occurs.
pub open spec fn ingredients_met(meals: Seq<Meal>, f: nat, j: nat) -> Seq<Name>
    decreases f, j,
{
    if j > 0 {
        let before = ingredients_met(meals, f, (j - 1) as nat);
        if before.contains(meals[f as int].ingredients[j - 1]) {
            before
        } else {
            before.push(meals[f as int].ingredients[j - 1])
        }
    } else if f > 0 {
        ingredients_met(meals, (f - 1) as nat, meals[f - 1].ingredients.len())
    } else {
        Seq::empty()
    }
}

/// All ingredients, each where it first occurs.
pub open spec fn all_ingredients(meals: Seq<Meal>) -> Seq<Name> {
    ingredients_met(meals, meals.len(), 0)
}

/// All ingredients, or all allergens, each where it first occurs.
fn first_occurrences(foods: &[Food], allergens: bool) -> (names: Vec<String>)
    ensures
        texts(names@) == if allergens {
            all_allergens(meals_of(foods@))
        } else {
            all_ingredients(meals_of(foods@))
        },
{
    let ghost meals = meals_of(foods@);
    let mut names: Vec<String> = Vec::new();
    let mut f: usize = 0;
    proof {
        assert(texts(names@) =~= Seq::<Name>::empty());
    }
    while f < foods.len()
        invariant
            f <= foods.len(),
            meals == meals_of(foods@),
            texts(names@) == if allergens {
                allergens_met(meals, f as nat, 0)
            } else {
                ingredients_met(meals, f as nat, 0)
            },
        decreases foods.len() - f,
    {
        let list = if allergens {
            &foods[f].allergens
        } else {
            &foods[f].ingredients
        };
        assert(meals[f as int] == meal_of(foods[f as int]));
        let mut j: usize = 0;
        while j < list.len()
            invariant
                j <= list.len(),
                f < foods.len(),
                meals == meals_of(foods@),
                texts(list@) == if allergens {
                    meals[f as int].allergens
                } else {
                    meals[f as int].ingredients
                },
                texts(names@) == if allergens {
                    allergens_met(meals, f as nat, j as nat)
                } else {
                    ingredients_met(meals, f as nat, j as nat)
                },
            decreases list.len() - j,
        {
            assert(texts(list@)[j as int] == list[j as int]@);
            if !has_name(&names, &list[j]) {
                let ghost before = texts(names@);
                names.push(list[j].clone());
                proof {
                    assert(texts(names@) =~= before.push(list[j as int]@));
                }
            }
            j += 1;
        }
        f += 1;
    }
    names
}

/// Those of the first `k` ingredients of `all` that are in every food
/// that still holds the allergen.
pub open spec fn candidates(meals: Seq<Meal>, all: Seq<Name>, a: Name, k: nat) -> Seq<Name>
    decreases k,
{
    if k == 0 {
        Seq::empty()
    } else if is_in_all(meals, a, all[k - 1]) {
        candidates(meals, all, a, (k - 1) as nat).push(all[k - 1])
    } else {
        candidates(meals, all, a, (k - 1) as nat)
    }
}

/// Whether the ingredient is in every food that holds the allergen.
fn check_in_all(foods: &Vec<Food>, allergen: &String, ingredient: &String) -> (holds: bool)
    ensures
        holds == is_in_all(meals_of(foods@), allergen@, ingredient@),
{
    let ghost meals = meals_of(foods@);
    let mut i: usize = 0;
    while i < foods.len()
        invariant
            i <= foods.len(),
            meals == meals_of(foods@),
            forall|m: int|
                0 <= m < i && (#[trigger] meals[m]).allergens.contains(allergen@)
                    ==> meals[m].ingredients.contains(ingredient@),
        decreases foods.len() - i,
    {
        assert(meals[i as int] == meal_of(foods[i as int]));
        if has_name(&foods[i].allergens, allergen) && !has_name(&foods[i].ingredients, ingredient) {
            return false;
        }
        i += 1;
    }
    true
}

/// The ingredients of `all` that are in every food that holds the allergen.
fn find_candidates(foods: &Vec<Food>, all: &Vec<String>, allergen: &String) -> (found: Vec<String>)
    ensures
        texts(found@) == candidates(meals_of(foods@), texts(all@), allergen@, all@.len()),
{
    let mut found: Vec<String> = Vec::new();
    let mut k: usize = 0;
    proof {
        assert(texts(found@) =~= Seq::<Name>::empty());
    }
    while k < all.len()
        invariant
            k <= all.len(),
            texts(found@) == candidates(meals_of(foods@), texts(all@), allergen@, k as nat),
        decreases all.len() - k,
    {
        assert(texts(all@)[k as int] == all[k as int]@);
        if check_in_all(foods, allergen, &all[k]) {
            let ghost before = texts(found@);
            found.push(all[k].clone());
            proof {
                assert(texts(found@) =~= before.push(all[k as int]@));
            }
        }
        k += 1;
    }
    found
}

/// The place of the first allergen from `from` on that has just one candidate.
pub open spec fn first_single(meals: Seq<Meal>, all: Seq<Name>, keys: Seq<Name>, from: nat) -> Option<
    int,
>
    decreases keys.len() - from,
{
    if from >= keys.len() {
        None
    } else if candidates(meals, all, keys[from as int], all.len()).len() == 1 {
        Some(from as int)
    } else {
        first_single(meals, all, keys, from + 1)
    }
}

/// The first allergen that has just one candidate, and that candidate.
fn find_single(foods: &Vec<Food>, all: &Vec<String>, keys: &Vec<String>) -> (found: Option<
    (usize, String),
>)
    ensures
        match found {
            Some((k, name)) => first_single(meals_of(foods@), texts(all@), texts(keys@), 0) == Some(
                k as int,
            ) && k < keys.len() && name@ == candidates(
                meals_of(foods@),
                texts(all@),
                keys[k as int]@,
                all@.len(),
            )[0],
            None => first_single(meals_of(foods@), texts(all@), texts(keys@), 0) is None,
        },
{
    let mut k: usize = 0;
    while k < keys.len()
        invariant
            k <= keys.len(),
            first_single(meals_of(foods@), texts(all@), texts(keys@), 0) == first_single(
                meals_of(foods@),
                texts(all@),
                texts(keys@),
                k as nat,
            ),
        decreases keys.len() - k,
    {
        assert(texts(keys@)[k as int] == keys[k as int]@);
        let found = find_candidates(foods, all, &keys[k]);
        if found.len() == 1 {
            assert(texts(found@)[0] == found[0]@);
            return Some((k, found[0].clone()));
        }
        k += 1;
    }
    None
}

/// The place of the first of the names from `from` on that is `x`.
pub open spec fn place_from(names: Seq<Name>, x: Name, from: nat) -> Option<int>
    decreases names.len() - from,
{
    if from >= names.len() {
        None
    } else if names[from as int] == x {
        Some(from as int)
    } else {
        place_from(names, x, from + 1)
    }
}

/// What is known of which ingredient holds which allergen: ingredients
/// and their allergens, place by place.
pub struct Known {
    pub ingredients: Seq<Name>,
    pub allergens: Seq<Name>,
}

/// What is known with one more ingredient and its allergen noted: an
/// ingredient that is known already gets the allergen in place of its own.
pub open spec fn noted(known: Known, x: Name, a: Name) -> Known {
    match place_from(known.ingredients, x, 0) {
        Some(i) => Known { allergens: known.allergens.update(i, a), ..known },
        None => Known { ingredients: known.ingredients.push(x), allergens: known.allergens.push(a) },
    }
}

/// The food without the ingredients and the allergens that are known.
pub open spec fn stripped(meal: Meal, known: Known) -> Meal {
    Meal {
        ingredients: kept(meal.ingredients, known.ingredients, false, meal.ingredients.len()),
        allergens: kept(meal.allergens, known.allergens, false, meal.allergens.len()),
    }
}

/// The foods without the ingredients and the allergens that are known.
pub open spec fn all_stripped(meals: Seq<Meal>, known: Known) -> Seq<Meal> {
    Seq::new(meals.len(), |i: int| stripped(meals[i], known))
}

/// What is known in the end, where that takes no more than `fuel`
/// rounds: in each round the first allergen with just one candidate is
/// noted with that candidate, and what is known is taken out of the
/// foods; the rounds end when no allergen has just one candidate.
pub open spec fn deduced(
    meals: Seq<Meal>,
    all: Seq<Name>,
    keys: Seq<Name>,
    known: Known,
    fuel: nat,
) -> Option<Known>
    decreases fuel,
{
    match first_single(meals, all, keys, 0) {
        None => Some(known),
        Some(k) => if fuel == 0 {
            None
        } else {
            let more = noted(known, candidates(meals, all, keys[k], all.len())[0], keys[k]);
            deduced(all_stripped(meals, more), all, keys, more, (fuel - 1) as nat)
        },
    }
}

/// The place of a name among the names.
fn find_name(names: &Vec<String>, name: &String) -> (place: Option<usize>)
    ensures
        match place {
            Some(i) => place_from(texts(names@), name@, 0) == Some(i as int) && i < names.len(),
            None => place_from(texts(names@), name@, 0) is None,
        },
{
    let mut i: usize = 0;
    while i < names.len()
        invariant
            i <= names.len(),
            place_from(texts(names@), name@, 0) == place_from(texts(names@), name@, i as nat),
        decreases names.len() - i,
    {
        assert(texts(names@)[i as int] == names[i as int]@);
        if names[i] == *name {
            return Some(i);
        }
        i += 1;
    }
    None
}

/// What is known, as the two lists stand for it.
pub open spec fn known_of(ingredients: Seq<String>, allergens: Seq<String>) -> Known {
    Known { ingredients: texts(ingredients), allergens: texts(allergens) }
}

/// The foods without the ingredients and the allergens given.
fn strip(foods: &Vec<Food>, ingredients: &Vec<String>, allergens: &Vec<String>) -> (left: Vec<Food>)
    ensures
        meals_of(left@) == all_stripped(meals_of(foods@), known_of(ingredients@, allergens@)),
{
    let ghost meals = meals_of(foods@);
    let ghost known = known_of(ingredients@, allergens@);
    let mut left: Vec<Food> = Vec::new();
    let mut i: usize = 0;
    while i < foods.len()
        invariant
            i <= foods.len(),
            meals == meals_of(foods@),
            known == known_of(ingredients@, allergens@),
            left.len() == i,
            forall|m: int| 0 <= m < i ==> meal_of(#[trigger] left[m]) == stripped(meals[m], known),
        decreases foods.len() - i,
    {
        assert(meals[i as int] == meal_of(foods[i as int]));
        left.push(
            Food {
                ingredients: keep_names(&foods[i].ingredients, ingredients, false),
                allergens: keep_names(&foods[i].allergens, allergens, false),
            },
        );
        i += 1;
    }
    proof {
        assert(meals_of(left@) =~= all_stripped(meals, known));
    }
    left
}


/// Notes one more ingredient and its allergen.
fn note(ingredients: &mut Vec<String>, allergens: &mut Vec<String>, x: String, a: String)
    requires
        old(ingredients).len() == old(allergens).len(),
    ensures
        final(ingredients).len() == final(allergens).len(),
        known_of(final(ingredients)@, final(allergens)@) == noted(
            known_of(old(ingredients)@, old(allergens)@),
            x@,
            a@,
        ),
{
    let ghost before = known_of(ingredients@, allergens@);
    match find_name(ingredients, &x) {
        Some(i) => {
            allergens.set(i, a);
            proof {
                assert(texts(allergens@) =~= before.allergens.update(i as int, a@));
            }
        },
        None => {
            ingredients.push(x);
            allergens.push(a);
            proof {
                assert(texts(ingredients@) =~= before.ingredients.push(x@));
                assert(texts(allergens@) =~= before.allergens.push(a@));
            }
        },
    }
}

/// A copy of the foods.
fn copy_foods(foods: &[Food]) -> (copy: Vec<Food>)
    ensures
        meals_of(copy@) == meals_of(foods@),
{
    let mut copy: Vec<Food> = Vec::new();
    let mut i: usize = 0;
    while i < foods.len()
        invariant
            i <= foods.len(),
            copy.len() == i,
            forall|m: int| 0 <= m < i ==> meal_of(#[trigger] copy[m]) == meal_of(foods[m]),
        decreases foods.len() - i,
    {
        copy.push(
            Food {
                ingredients: crate::text::copy_names(&foods[i].ingredients),
                allergens: crate::text::copy_names(&foods[i].allergens),
            },
        );
        i += 1;
    }
    proof {
        assert(meals_of(copy@) =~= meals_of(foods@));
    }
    copy
}

/// Whether a text comes before another in the order of a dictionary
/// that goes by the numbers of the characters.
pub open spec fn precedes(a: Seq<char>, b: Seq<char>) -> bool
    decreases a.len(),
{
    if a.len() == 0 {
        b.len() > 0
    } else if b.len() == 0 {
        false
    } else if a[0] != b[0] {
        a[0] < b[0]
    } else {
        precedes(a.drop_first(), b.drop_first())
    }
}

/// Whether a text comes before another in the order of a dictionary.
pub fn text_precedes(a: &String, b: &String) -> (before: bool)
    ensures
        before == precedes(a@, b@),
{
    let left = chars_of(a.as_str());
    let right = chars_of(b.as_str());
    let mut i: usize = 0;
    proof {
        assert(left@.skip(0) =~= left@);
        assert(right@.skip(0) =~= right@);
    }
    while i < left.len() && i < right.len()
        invariant
            i <= left.len(),
            i <= right.len(),
            left@ == a@,
            right@ == b@,
            precedes(a@, b@) == precedes(left@.skip(i as int), right@.skip(i as int)),
        decreases left.len() - i,
    {
        proof {
            assert(left@.skip(i as int).drop_first() =~= left@.skip(i + 1));
            assert(right@.skip(i as int).drop_first() =~= right@.skip(i + 1));
        }
        if left[i] != right[i] {
            return left[i] < right[i];
        }
        i += 1;
    }
    i >= left.len() && i < right.len()
}

/// The first place from `from` on whose key does not come before `a`.
pub open spec fn slot(keys: Seq<Name>, a: Name, from: nat) -> nat
    decreases keys.len() - from,
{
    if from >= keys.len() || !precedes(keys[from as int], a) {
        from
    } else {
        slot(keys, a, from + 1)
    }
}

/// The register with `x` filed under `a`: in place of what was filed
/// under `a`, or before the first key that does not come before `a`.
pub open spec fn filed(register: Known, a: Name, x: Name) -> Known {
    let p = slot(register.allergens, a, 0) as int;
    if p < register.allergens.len() && register.allergens[p] == a {
        Known { ingredients: register.ingredients.update(p, x), ..register }
    } else if p <= register.allergens.len() && p <= register.ingredients.len() {
        Known {
            ingredients: register.ingredients.insert(p, x),
            allergens: register.allergens.insert(p, a),
        }
    } else {
        register
    }
}

/// The register in which the first `k` of the known ingredients are
/// filed under their allergens, one after the other.
pub open spec fn register_of(known: Known, k: nat) -> Known
    decreases k,
{
    if k == 0 {
        Known { ingredients: Seq::empty(), allergens: Seq::empty() }
    } else {
        filed(register_of(known, (k - 1) as nat), known.allergens[k - 1], known.ingredients[k - 1])
    }
}

/// The first place of the register whose key does not come before `a`.
fn find_slot(keys: &Vec<String>, a: &String) -> (p: usize)
    ensures
        p == slot(texts(keys@), a@, 0),
        p <= keys.len(),
{
    let mut p: usize = 0;
    while p < keys.len() && text_precedes(&keys[p], a)
        invariant
            p <= keys.len(),
            slot(texts(keys@), a@, 0) == slot(texts(keys@), a@, p as nat),
        decreases keys.len() - p,
    {
        assert(texts(keys@)[p as int] == keys[p as int]@);
        p += 1;
    }
    proof {
        if p < keys.len() {
            assert(texts(keys@)[p as int] == keys[p as int]@);
        }
    }
    p
}

/// The known ingredients in the order of their allergens, with commas between.
pub open spec fn listing(known: Known) -> Seq<char> {
    joined(register_of(known, known.ingredients.len()).ingredients, ","@)
}

/// Files the known ingredients under their allergens and lists them.
fn list_known(ingredients: &Vec<String>, allergens: &Vec<String>) -> (text: String)
    requires
        ingredients.len() == allergens.len(),
    ensures
        text@ == listing(known_of(ingredients@, allergens@)),
{
    let ghost known = known_of(ingredients@, allergens@);
    let mut keys: Vec<String> = Vec::new();
    let mut values: Vec<String> = Vec::new();
    let mut k: usize = 0;
    proof {
        assert(texts(keys@) =~= Seq::<Name>::empty());
        assert(texts(values@) =~= Seq::<Name>::empty());
    }
    while k < ingredients.len()
        invariant
            k <= ingredients.len() == allergens.len(),
            known == known_of(ingredients@, allergens@),
            keys.len() == values.len(),
            known_of(values@, keys@) == register_of(known, k as nat),
        decreases ingredients.len() - k,
    {
        let a = &allergens[k];
        let x = &ingredients[k];
        assert(known.allergens[k as int] == a@);
        assert(known.ingredients[k as int] == x@);
        let ghost before = known_of(values@, keys@);
        let p = find_slot(&keys, a);
        let mut same = false;
        if p < keys.len() {
            assert(texts(keys@)[p as int] == keys[p as int]@);
            same = keys[p] == *a;
        }
        if same {
            values.set(p, x.clone());
            proof {
                assert(texts(values@) =~= before.ingredients.update(p as int, x@));
            }
        } else {
            keys.insert(p, a.clone());
            values.insert(p, x.clone());
            proof {
                assert(texts(keys@) =~= before.allergens.insert(p as int, a@));
                assert(texts(values@) =~= before.ingredients.insert(p as int, x@));
            }
        }
        k += 1;
    }
    join_names(values.as_slice(), ",")
}

/// Nothing known.
pub open spec fn nothing_known() -> Known {
    Known { ingredients: Seq::empty(), allergens: Seq::empty() }
}

/// What is known in the end of the foods given.
pub open spec fn known_in_the_end(meals: Seq<Meal>, fuel: nat) -> Option<Known> {
    deduced(meals, all_ingredients(meals), all_allergens(meals), nothing_known(), fuel)
}

/// What is known in the end, as far as the budget allows to go; `None`
/// where it does not allow to get to the end.
fn deduce(foods: &[Food], budget: Budget) -> (known: Option<(Vec<String>, Vec<String>)>)
    requires
        budget is Endless ==> known_in_the_end(meals_of(foods@), budget.fuel()) is Some,
    ensures
        match known {
            Some(lists) => lists.0.len() == lists.1.len() && known_in_the_end(
                meals_of(foods@),
                budget.fuel(),
            ) == Some(known_of(lists.0@, lists.1@)),
            None => known_in_the_end(meals_of(foods@), budget.fuel()) is None,
        },
{
    let ghost meals = meals_of(foods@);
    let ghost fuel = budget.fuel();
    let all = first_occurrences(foods, false);
    let keys = first_occurrences(foods, true);
    let mut now = copy_foods(foods);
    let mut ingredients: Vec<String> = Vec::new();
    let mut allergens: Vec<String> = Vec::new();
    let mut left = budget;
    let mut found_any = true;
    proof {
        assert(known_of(ingredients@, allergens@) == nothing_known()) by {
            assert(texts(ingredients@) =~= Seq::<Name>::empty());
            assert(texts(allergens@) =~= Seq::<Name>::empty());
        }
    }
    while found_any
        invariant
            meals == meals_of(foods@),
            fuel == budget.fuel(),
            texts(all@) == all_ingredients(meals),
            texts(keys@) == all_allergens(meals),
            ingredients.len() == allergens.len(),
            left is Endless <==> budget is Endless,
            budget is Endless ==> known_in_the_end(meals, fuel) is Some,
            found_any ==> deduced(
                meals_of(now@),
                texts(all@),
                texts(keys@),
                known_of(ingredients@, allergens@),
                left.fuel(),
            ) == known_in_the_end(meals, fuel),
            !found_any ==> Some(known_of(ingredients@, allergens@)) == known_in_the_end(
                meals,
                fuel,
            ),
        decreases left.fuel(), found_any as int,
    {
        match find_single(&now, &all, &keys) {
            None => {
                found_any = false;
            },
            Some((k, name)) => {
                let less = match left.spend() {
                    Some(less) => less,
                    None => {
                        return None;
                    },
                };
                assert(texts(keys@)[k as int] == keys[k as int]@);
                note(&mut ingredients, &mut allergens, name, keys[k].clone());
                now = strip(&now, &ingredients, &allergens);
                left = less;
            },
        }
    }
    Some((ingredients, allergens))
}

/// The ingredients that hold an allergen, in the order of their
/// allergens, with commas between. Round by round the first allergen that
/// just one ingredient can hold is noted with that ingredient, and both
/// are taken out of all foods, until no allergen is left with just one.
pub fn part2(foods: &[Food]) -> (text: String)
    requires
        exists|fuel: nat| known_in_the_end(meals_of(foods@), fuel) is Some,
    ensures
        exists|fuel: nat|
            (#[trigger] known_in_the_end(meals_of(foods@), fuel)) is Some && text@ == listing(
                known_in_the_end(meals_of(foods@), fuel).unwrap(),
            ),
{
    let ghost meals = meals_of(foods@);
    let ghost fuel = choose|fuel: nat| known_in_the_end(meals, fuel) is Some;
    match deduce(foods, Budget::Endless(Ghost(fuel))) {
        Some((ingredients, allergens)) => {
            let text = list_known(&ingredients, &allergens);
            assert(known_in_the_end(meals, fuel) is Some && text@ == listing(
                known_in_the_end(meals, fuel).unwrap(),
            ));
            text
        },
        None => String::new(),
    }
}

/// The ingredients that hold an allergen, in the order of their
/// allergens, with commas between, found in `rounds` rounds at most;
/// `None` where it takes more.
pub fn part2_within(foods: &[Food], rounds: usize) -> (text: Option<String>)
    ensures
        match text {
            Some(t) => known_in_the_end(meals_of(foods@), rounds as nat) is Some && t@ == listing(
                known_in_the_end(meals_of(foods@), rounds as nat).unwrap(),
            ),
            None => known_in_the_end(meals_of(foods@), rounds as nat) is None,
        },
{
    match deduce(foods, Budget::Counted(rounds)) {
        Some((ingredients, allergens)) => Some(list_known(&ingredients, &allergens)),
        None => None,
    }
}

} // verus!
