use ladle::dump::{dump_remote, strip_ids, Datadump, Dropped};
use ladle::models::{
    Classifications, Dependency, Ingredient, IngredientIndex, Label, LabelIndex, Recipe,
    RecipeIndex, Requirement,
};
use ladle::tables::TranslationTable;
use ladle::tiers::CycleError;

fn dish(id: &str, name: &str, ingredients: &[&str], builds_on: &[&str], tags: &[&str]) -> Recipe {
    Recipe {
        id: id.to_string(),
        name: name.to_string(),
        author: format!("author of {}", name),
        directions: format!("how to make {}", name),
        information: format!("about {}", name),
        classifications: Classifications { dairy: true, meat: false, gluten: true, animal_product: true },
        requirements: ingredients
            .iter()
            .map(|i| Requirement {
                ingredient: IngredientIndex { id: i.to_string(), name: format!("name of {}", i) },
                quantity: format!("some {}", i),
                optional: i.ends_with('?'),
            })
            .collect(),
        dependencies: builds_on
            .iter()
            .map(|r| Dependency {
                recipe: RecipeIndex { id: r.to_string(), name: format!("name of {}", r) },
                quantity: format!("one {}", r),
                optional: false,
            })
            .collect(),
        tags: tags
            .iter()
            .map(|l| LabelIndex { id: l.to_string(), name: format!("name of {}", l) })
            .collect(),
    }
}

fn stock(id: &str, name: &str) -> Ingredient {
    Ingredient {
        id: id.to_string(),
        name: name.to_string(),
        classifications: Classifications { dairy: false, meat: true, gluten: false, animal_product: true },
        used_in: vec![RecipeIndex { id: "r".to_string(), name: "R".to_string() }],
    }
}

fn tag(id: &str, name: &str) -> Label {
    Label {
        id: id.to_string(),
        name: name.to_string(),
        tagged_recipes: vec![RecipeIndex { id: "r".to_string(), name: "R".to_string() }],
    }
}

fn pairs(list: &[(&str, &str)]) -> TranslationTable {
    let mut table = TranslationTable::new();
    for (from, to) in list {
        table.insert(from.to_string(), to.to_string());
    }
    table
}

fn source() -> (Vec<Recipe>, Vec<Ingredient>, Vec<Label>) {
    (
        vec![
            dish("r-tarte", "Tarte aux pommes", &["i-pomme", "i-sucre"], &["r-pate", "r-creme"], &["l-four"]),
            dish("r-pate", "pâte brisée", &["i-farine", "i-beurre"], &[], &["l-base", "l-four"]),
            dish("r-creme", "Crème pâtissière", &["i-lait", "i-sucre"], &[], &["l-base"]),
            dish("r-menu", "Menu", &[], &["r-tarte", "r-salade"], &[]),
            dish("r-salade", "Salade", &["i-gone"], &[], &["l-gone"]),
        ],
        vec![
            stock("i-sucre", "Sucre"),
            stock("i-pomme", "pomme"),
            stock("i-lait", "Lait"),
            stock("i-farine", "farine"),
            stock("i-beurre", "Beurre"),
        ],
        vec![tag("l-four", "four"), tag("l-base", "Base")],
    )
}

fn ids(recipes: &Vec<Recipe>) -> Vec<&str> {
    recipes.iter().map(|r| r.id.as_str()).collect()
}

#[test]
fn a_snapshot_lists_tier_after_tier_and_by_name_within() {
    let (recipes, ingredients, labels) = source();
    let dump = dump_remote(&recipes, &ingredients, &labels).unwrap();
    assert_eq!(ids(&dump.recipes), vec!["r-creme", "r-pate", "r-salade", "r-tarte", "r-menu"]);
    assert_eq!(
        dump.ingredients.iter().map(|i| i.name.as_str()).collect::<Vec<_>>(),
        vec!["Beurre", "farine", "Lait", "pomme", "Sucre"]
    );
    assert_eq!(dump.labels.iter().map(|l| l.name.as_str()).collect::<Vec<_>>(), vec!["Base", "four"]);
    assert_eq!(dump.recipes[3].requirements.len(), 2);
    assert_eq!(dump.recipes[3].author, "author of Tarte aux pommes");
    assert_eq!(dump.ingredients[0].used_in.len(), 1);
}

#[test]
fn a_snapshot_does_not_depend_on_the_order_of_arrival() {
    let (recipes, ingredients, labels) = source();
    let first = dump_remote(&recipes, &ingredients, &labels).unwrap();
    let (mut recipes, mut ingredients, mut labels) = source();
    recipes.reverse();
    ingredients.rotate_left(2);
    labels.reverse();
    let second = dump_remote(&recipes, &ingredients, &labels).unwrap();
    assert_eq!(ids(&first.recipes), ids(&second.recipes));
    assert_eq!(
        first.ingredients.iter().map(|i| i.id.as_str()).collect::<Vec<_>>(),
        second.ingredients.iter().map(|i| i.id.as_str()).collect::<Vec<_>>()
    );
    assert_eq!(
        first.labels.iter().map(|l| l.id.as_str()).collect::<Vec<_>>(),
        second.labels.iter().map(|l| l.id.as_str()).collect::<Vec<_>>()
    );
}

#[test]
fn a_snapshot_of_a_circle_fails() {
    let recipes = vec![dish("a", "A", &[], &["b"], &[]), dish("b", "B", &[], &["a"], &[])];
    assert_eq!(dump_remote(&recipes, &vec![], &vec![]).unwrap_err(), CycleError { stuck: vec![0, 1] });
}

#[test]
fn a_snapshot_of_nothing_is_empty() {
    let dump = dump_remote(&vec![], &vec![], &vec![]).unwrap();
    assert!(dump.recipes.is_empty() && dump.ingredients.is_empty() && dump.labels.is_empty());
}

#[test]
fn references_are_rewritten_through_the_tables() {
    let mut recipe = dish("r", "R", &["i1", "i2?", "i3"], &["r1", "r2"], &["l1", "l2", "l3"]);
    let dropped = strip_ids(
        &mut recipe,
        &pairs(&[("r2", "R2")]),
        &pairs(&[("i1", "I1"), ("i3", "I3"), ("i4", "I4")]),
        &pairs(&[("l2", "L2"), ("l2", "L2b")]),
    );
    assert_eq!(
        dropped,
        Dropped {
            ingredients: vec!["name of i2?".to_string()],
            recipes: vec!["name of r1".to_string()],
            labels: vec!["name of l1".to_string(), "name of l3".to_string()],
        }
    );
    assert_eq!(recipe.id, "r");
    assert_eq!(recipe.name, "R");
    assert_eq!(recipe.author, "author of R");
    assert_eq!(recipe.directions, "how to make R");
    assert_eq!(recipe.information, "about R");
    assert!(recipe.classifications.dairy && !recipe.classifications.meat);
    assert_eq!(
        recipe
            .requirements
            .iter()
            .map(|r| (r.ingredient.id.as_str(), r.ingredient.name.as_str(), r.quantity.as_str(), r.optional))
            .collect::<Vec<_>>(),
        vec![("I1", "name of i1", "some i1", false), ("I3", "name of i3", "some i3", false)]
    );
    assert_eq!(
        recipe
            .dependencies
            .iter()
            .map(|d| (d.recipe.id.as_str(), d.recipe.name.as_str(), d.quantity.as_str(), d.optional))
            .collect::<Vec<_>>(),
        vec![("R2", "name of r2", "one r2", false)]
    );
    assert_eq!(
        recipe.tags.iter().map(|t| (t.id.as_str(), t.name.as_str())).collect::<Vec<_>>(),
        vec![("L2b", "name of l2")]
    );
}

#[test]
fn optional_requirements_stay_optional() {
    let mut recipe = dish("r", "R", &["i2?"], &[], &[]);
    let dropped = strip_ids(
        &mut recipe,
        &TranslationTable::new(),
        &pairs(&[("i2?", "I2")]),
        &TranslationTable::new(),
    );
    assert_eq!(dropped, Dropped { ingredients: vec![], recipes: vec![], labels: vec![] });
    assert_eq!(recipe.requirements.len(), 1);
    assert!(recipe.requirements[0].optional);
    assert_eq!(recipe.requirements[0].ingredient.id, "I2");
}

#[test]
fn stripping_numbers_every_kind_by_itself() {
    let (recipes, ingredients, labels) = source();
    let mut dump = dump_remote(&recipes, &ingredients, &labels).unwrap();
    dump.strip();
    assert_eq!(
        ids(&dump.recipes),
        vec!["__recipe_0", "__recipe_1", "__recipe_2", "__recipe_3", "__recipe_4"]
    );
    assert_eq!(
        dump.recipes.iter().map(|r| r.name.as_str()).collect::<Vec<_>>(),
        vec!["Crème pâtissière", "pâte brisée", "Salade", "Tarte aux pommes", "Menu"]
    );
    assert_eq!(
        dump.ingredients.iter().map(|i| (i.id.as_str(), i.name.as_str())).collect::<Vec<_>>(),
        vec![
            ("__ingredient_0", "Beurre"),
            ("__ingredient_1", "farine"),
            ("__ingredient_2", "Lait"),
            ("__ingredient_3", "pomme"),
            ("__ingredient_4", "Sucre"),
        ]
    );
    assert_eq!(
        dump.labels.iter().map(|l| (l.id.as_str(), l.name.as_str())).collect::<Vec<_>>(),
        vec![("__label_0", "Base"), ("__label_1", "four")]
    );
}

#[test]
fn stripping_empties_the_lists_of_referring_recipes() {
    let (recipes, ingredients, labels) = source();
    let mut dump = dump_remote(&recipes, &ingredients, &labels).unwrap();
    dump.strip();
    assert!(dump.ingredients.iter().all(|i| i.used_in.is_empty()));
    assert!(dump.labels.iter().all(|l| l.tagged_recipes.is_empty()));
    assert!(dump.ingredients.iter().all(|i| i.classifications.meat && !i.classifications.dairy));
}

#[test]
fn stripping_rewrites_every_reference_and_drops_the_dangling_ones() {
    let (recipes, ingredients, labels) = source();
    let mut dump = dump_remote(&recipes, &ingredients, &labels).unwrap();
    let dropped = dump.strip();
    let nothing = || Dropped { ingredients: vec![], recipes: vec![], labels: vec![] };
    assert_eq!(
        dropped,
        vec![
            nothing(),
            nothing(),
            Dropped {
                ingredients: vec!["name of i-gone".to_string()],
                recipes: vec![],
                labels: vec!["name of l-gone".to_string()],
            },
            nothing(),
            nothing(),
        ]
    );
    let tarte = &dump.recipes[3];
    assert_eq!(
        tarte.requirements.iter().map(|r| r.ingredient.id.as_str()).collect::<Vec<_>>(),
        vec!["__ingredient_3", "__ingredient_4"]
    );
    assert_eq!(tarte.requirements[0].quantity, "some i-pomme");
    assert_eq!(tarte.requirements[0].ingredient.name, "name of i-pomme");
    assert_eq!(
        tarte.dependencies.iter().map(|d| d.recipe.id.as_str()).collect::<Vec<_>>(),
        vec!["__recipe_1", "__recipe_0"]
    );
    assert_eq!(tarte.tags.iter().map(|t| t.id.as_str()).collect::<Vec<_>>(), vec!["__label_1"]);
    assert_eq!(tarte.author, "author of Tarte aux pommes");
    let salade = &dump.recipes[2];
    assert!(salade.requirements.is_empty());
    assert!(salade.tags.is_empty());
    let menu = &dump.recipes[4];
    assert_eq!(
        menu.dependencies.iter().map(|d| d.recipe.id.as_str()).collect::<Vec<_>>(),
        vec!["__recipe_3", "__recipe_2"]
    );
}

#[test]
fn stripping_twice_runs_on_placeholders() {
    let (recipes, ingredients, labels) = source();
    let mut dump = dump_remote(&recipes, &ingredients, &labels).unwrap();
    dump.strip();
    let once: Vec<String> = dump.recipes.iter().map(|r| format!("{:?}", r)).collect();
    dump.strip();
    let twice: Vec<String> = dump.recipes.iter().map(|r| format!("{:?}", r)).collect();
    assert_eq!(once, twice);
}

#[test]
fn two_snapshots_of_the_same_source_are_the_same() {
    let (recipes, ingredients, labels) = source();
    let mut first = dump_remote(&recipes, &ingredients, &labels).unwrap();
    first.strip();
    let (mut recipes, mut ingredients, mut labels) = source();
    recipes.rotate_left(3);
    ingredients.reverse();
    labels.reverse();
    let mut second = dump_remote(&recipes, &ingredients, &labels).unwrap();
    second.strip();
    assert_eq!(format!("{:?}", first), format!("{:?}", second));
}

#[test]
fn placeholders_count_past_nine() {
    let labels: Vec<Label> =
        (0..12).map(|n| tag(&format!("l{}", n), &format!("label {:02}", n))).collect();
    let mut dump = Datadump { recipes: vec![], ingredients: vec![], labels };
    dump.strip();
    assert_eq!(dump.labels[9].id, "__label_9");
    assert_eq!(dump.labels[10].id, "__label_10");
    assert_eq!(dump.labels[11].id, "__label_11");
    assert_eq!(dump.labels[11].name, "label 11");
}

#[test]
fn a_dependency_on_a_later_recipe_is_dropped() {
    let recipes = vec![dish("a", "A", &[], &["b", "a"], &[]), dish("b", "B", &[], &["a"], &[])];
    let mut dump = Datadump { recipes, ingredients: vec![], labels: vec![] };
    let dropped = dump.strip();
    assert_eq!(dropped[0].recipes, vec!["name of b".to_string(), "name of a".to_string()]);
    assert!(dropped[1].recipes.is_empty());
    assert!(dump.recipes[0].dependencies.is_empty());
    assert_eq!(
        dump.recipes[1].dependencies.iter().map(|d| d.recipe.id.as_str()).collect::<Vec<_>>(),
        vec!["__recipe_0"]
    );
}

fn flagged(id: &str, name: &str, dairy: bool) -> Ingredient {
    Ingredient {
        id: id.to_string(),
        name: name.to_string(),
        classifications: Classifications { dairy, meat: !dairy, gluten: false, animal_product: true },
        used_in: vec![],
    }
}

fn stripped_text(recipes: Vec<Recipe>, ingredients: Vec<Ingredient>, labels: Vec<Label>) -> String {
    let mut dump = dump_remote(&recipes, &ingredients, &labels).unwrap();
    dump.strip();
    format!("{:?}", dump)
}

#[test]
fn two_ingredients_of_one_name_come_out_the_same_in_either_order() {
    let one_way = vec![flagged("i-b", "Sel", true), flagged("i-a", "Sel", false)];
    let other_way = vec![flagged("i-a", "Sel", false), flagged("i-b", "Sel", true)];
    let first = dump_remote(&vec![], &one_way, &vec![]).unwrap();
    let second = dump_remote(&vec![], &other_way, &vec![]).unwrap();
    assert_eq!(first.ingredients.iter().map(|i| i.id.as_str()).collect::<Vec<_>>(), vec!["i-a", "i-b"]);
    assert_eq!(second.ingredients.iter().map(|i| i.id.as_str()).collect::<Vec<_>>(), vec!["i-a", "i-b"]);
    let first = stripped_text(vec![], one_way, vec![]);
    let second = stripped_text(vec![], other_way, vec![]);
    assert_eq!(first, second);
    let mut dump = dump_remote(
        &vec![],
        &vec![flagged("i-b", "Sel", true), flagged("i-a", "Sel", false)],
        &vec![],
    )
    .unwrap();
    dump.strip();
    assert_eq!(dump.ingredients[0].id, "__ingredient_0");
    assert!(!dump.ingredients[0].classifications.dairy);
    assert!(dump.ingredients[1].classifications.dairy);
}

#[test]
fn two_names_of_one_key_come_out_the_same_in_either_order() {
    let recipes = |order: &[usize]| -> Vec<Recipe> {
        let all = vec![
            dish("r1", "tarte", &["i1"], &[], &["l1"]),
            dish("r2", "Tarte", &["i2"], &["r1"], &["l2"]),
            dish("r3", "TARTE", &["i1", "i2"], &[], &[]),
            dish("r4", "Tarte", &[], &[], &["l1", "l2"]),
        ];
        order.iter().map(|&k| all[k].clone()).collect()
    };
    let ingredients = |swap: bool| -> Vec<Ingredient> {
        let mut all = vec![stock("i1", "Crème"), stock("i2", "creme")];
        if swap {
            all.reverse();
        }
        all
    };
    let labels = |swap: bool| -> Vec<Label> {
        let mut all = vec![tag("l1", "été"), tag("l2", "Ete")];
        if swap {
            all.reverse();
        }
        all
    };
    let first = dump_remote(&recipes(&[0, 1, 2, 3]), &ingredients(false), &labels(false)).unwrap();
    assert_eq!(ids(&first.recipes), vec!["r3", "r4", "r1", "r2"]);
    assert_eq!(first.ingredients.iter().map(|i| i.id.as_str()).collect::<Vec<_>>(), vec!["i1", "i2"]);
    assert_eq!(first.labels.iter().map(|l| l.id.as_str()).collect::<Vec<_>>(), vec!["l2", "l1"]);
    let one = stripped_text(recipes(&[0, 1, 2, 3]), ingredients(false), labels(false));
    for order in [[3, 2, 1, 0], [1, 3, 0, 2], [2, 0, 3, 1]] {
        assert_eq!(stripped_text(recipes(&order), ingredients(true), labels(true)), one);
        assert_eq!(stripped_text(recipes(&order), ingredients(false), labels(true)), one);
    }
}

#[test]
fn references_that_come_out_under_one_identifier_keep_the_first() {
    let mut recipe = dish("r", "R", &["i1", "i2", "i3"], &["r1", "r2"], &["l1", "l2", "l1"]);
    let dropped = strip_ids(
        &mut recipe,
        &pairs(&[("r1", "R"), ("r2", "R")]),
        &pairs(&[("i1", "X"), ("i2", "Y"), ("i3", "X")]),
        &pairs(&[("l1", "L"), ("l2", "M")]),
    );
    assert_eq!(dropped, Dropped { ingredients: vec![], recipes: vec![], labels: vec![] });
    assert_eq!(
        recipe
            .requirements
            .iter()
            .map(|r| (r.ingredient.id.as_str(), r.quantity.as_str()))
            .collect::<Vec<_>>(),
        vec![("X", "some i1"), ("Y", "some i2")]
    );
    assert_eq!(
        recipe
            .dependencies
            .iter()
            .map(|d| (d.recipe.id.as_str(), d.quantity.as_str()))
            .collect::<Vec<_>>(),
        vec![("R", "one r1")]
    );
    assert_eq!(recipe.tags.iter().map(|t| t.id.as_str()).collect::<Vec<_>>(), vec!["L", "M"]);
}
