use ladle::gateway::{
    dependency_create, ingredient_create, recipe_create, recipe_tag, requirement_create,
};
use ladle::migration::{
    gen_ingredient_table, ingredient_creations, recipe_clone, record_tier, tier_creations,
    Attachment, Attachments, CloneRun,
};
use ladle::tiers::CycleError;
use ladle::models::{
    Classifications, Dependency, Ingredient, IngredientIndex, LabelIndex, Recipe, RecipeIndex,
    Requirement,
};
use ladle::tables::TranslationTable;

fn source_ingredient(id: &str, name: &str, dairy: bool) -> Ingredient {
    Ingredient {
        id: id.to_string(),
        name: name.to_string(),
        classifications: Classifications { dairy, meat: false, gluten: !dairy, animal_product: dairy },
        used_in: vec![RecipeIndex { id: "r".to_string(), name: "R".to_string() }],
    }
}

fn needs(id: &str, name: &str, quantity: &str, optional: bool) -> Requirement {
    Requirement {
        ingredient: IngredientIndex { id: id.to_string(), name: name.to_string() },
        quantity: quantity.to_string(),
        optional,
    }
}

fn builds_on(id: &str, name: &str, quantity: &str, optional: bool) -> Dependency {
    Dependency {
        recipe: RecipeIndex { id: id.to_string(), name: name.to_string() },
        quantity: quantity.to_string(),
        optional,
    }
}

fn tagged(id: &str, name: &str) -> LabelIndex {
    LabelIndex { id: id.to_string(), name: name.to_string() }
}

fn table_of(pairs: &[(&str, &str)]) -> TranslationTable {
    let mut table = TranslationTable::new();
    for (from, to) in pairs {
        table.insert(from.to_string(), to.to_string());
    }
    table
}

fn source_recipe() -> Recipe {
    Recipe {
        id: "r-src".to_string(),
        name: "Quiche".to_string(),
        author: "Ann".to_string(),
        directions: "Bake.".to_string(),
        information: "Serves 4".to_string(),
        classifications: Classifications::default(),
        requirements: vec![
            needs("i1", "Lait", "20 cl", false),
            needs("i2", "Lardons", "100 g", true),
            needs("i3", "Oeufs", "3", false),
        ],
        dependencies: vec![
            builds_on("r1", "Pâte brisée", "1", false),
            builds_on("r2", "Salade", "", true),
        ],
        tags: vec![tagged("l1", "hiver"), tagged("l2", "four")],
    }
}

fn created_recipe(id: &str) -> Recipe {
    Recipe { id: id.to_string(), ..Recipe::default() }
}

#[test]
fn a_table_answers_with_the_latest_entry() {
    let mut table = TranslationTable::new();
    assert_eq!(table.get("a"), None);
    assert!(!table.contains_key("a"));
    table.insert("a".to_string(), "1".to_string());
    table.insert("b".to_string(), "2".to_string());
    assert_eq!(table.get("a"), Some(&"1".to_string()));
    assert_eq!(table.get("b"), Some(&"2".to_string()));
    assert_eq!(table.get("c"), None);
    table.insert("a".to_string(), "3".to_string());
    assert_eq!(table.get("a"), Some(&"3".to_string()));
    assert_eq!(table.get("b"), Some(&"2".to_string()));
    assert!(table.contains_key("a"));
    assert!(!table.contains_key("A"));
    assert!(!table.contains_key(""));
}

#[test]
fn ingredients_are_created_with_their_flags() {
    let ingredients = vec![source_ingredient("i1", "Lait", true), source_ingredient("i2", "Blé", false)];
    assert_eq!(
        ingredient_creations("dst", &ingredients),
        vec![
            ingredient_create("dst", "Lait", true, false, false, true),
            ingredient_create("dst", "Blé", false, false, true, false),
        ]
    );
    assert_eq!(ingredient_creations("dst", &vec![]), vec![]);
}

#[test]
fn the_ingredient_table_records_what_the_destination_returned() {
    let ingredients = vec![
        source_ingredient("i1", "Lait", true),
        source_ingredient("i2", "Blé", false),
        source_ingredient("i3", "lait", true),
        source_ingredient("i4", "Riz", false),
    ];
    let created = vec![
        Some(IngredientIndex { id: "d1".to_string(), name: "Lait".to_string() }),
        None,
        Some(IngredientIndex { id: "d1".to_string(), name: "Lait".to_string() }),
    ];
    let table = gen_ingredient_table(&ingredients, &created);
    assert_eq!(table.get("i1"), Some(&"d1".to_string()));
    assert_eq!(table.get("i2"), None);
    assert_eq!(table.get("i3"), Some(&"d1".to_string()));
    assert_eq!(table.get("i4"), None);
    assert_eq!(table.get("d1"), None);
}

#[test]
fn a_tier_is_created_recipe_by_recipe() {
    let quiche = source_recipe();
    let plain = Recipe { id: "p".to_string(), name: "Pain".to_string(), ..Recipe::default() };
    let tier = vec![&quiche, &plain];
    assert_eq!(
        tier_creations("dst", &tier),
        vec![
            recipe_create("dst", "Quiche", "Ann", "Bake.", "Serves 4"),
            recipe_create("dst", "Pain", "", "", ""),
        ]
    );
}

#[test]
fn a_tier_is_recorded_once_it_is_done() {
    let a = Recipe { id: "a".to_string(), ..Recipe::default() };
    let b = Recipe { id: "b".to_string(), ..Recipe::default() };
    let c = Recipe { id: "c".to_string(), ..Recipe::default() };
    let tier = vec![&a, &b, &c];
    let mut table = table_of(&[("z", "dz"), ("a", "stale")]);
    record_tier(&mut table, &tier, &vec![Some(created_recipe("da")), None, Some(created_recipe("dc"))]);
    assert_eq!(table.get("a"), Some(&"da".to_string()));
    assert_eq!(table.get("b"), None);
    assert_eq!(table.get("c"), Some(&"dc".to_string()));
    assert_eq!(table.get("z"), Some(&"dz".to_string()));
}

#[test]
fn answers_that_are_missing_count_as_failures() {
    let a = Recipe { id: "a".to_string(), ..Recipe::default() };
    let b = Recipe { id: "b".to_string(), ..Recipe::default() };
    let tier = vec![&a, &b];
    let mut table = TranslationTable::new();
    record_tier(&mut table, &tier, &vec![Some(created_recipe("da"))]);
    assert_eq!(table.get("a"), Some(&"da".to_string()));
    assert_eq!(table.get("b"), None);
    let mut table = TranslationTable::new();
    record_tier(
        &mut table,
        &vec![&a],
        &vec![Some(created_recipe("da")), Some(created_recipe("extra"))],
    );
    assert_eq!(table.get("a"), Some(&"da".to_string()));
}

#[test]
fn a_clone_attaches_everything_that_is_mapped() {
    let recipe = source_recipe();
    let ingredients = table_of(&[("i1", "d1"), ("i2", "d2"), ("i3", "d3")]);
    let recipes = table_of(&[("r1", "e1"), ("r2", "e2")]);
    let steps = recipe_clone("dst", &recipe, "new", &ingredients, &recipes);
    assert_eq!(
        steps,
        Attachments {
            recipe: "Quiche".to_string(),
            tags: vec![
                Attachment { subject: "hiver".to_string(), request: recipe_tag("dst", "new", "hiver") },
                Attachment { subject: "four".to_string(), request: recipe_tag("dst", "new", "four") },
            ],
            requirements: vec![
                Attachment {
                    subject: "Lait".to_string(),
                    request: requirement_create("dst", "new", "d1", "20 cl", false),
                },
                Attachment {
                    subject: "Lardons".to_string(),
                    request: requirement_create("dst", "new", "d2", "100 g", true),
                },
                Attachment {
                    subject: "Oeufs".to_string(),
                    request: requirement_create("dst", "new", "d3", "3", false),
                },
            ],
            dependencies: vec![
                Attachment {
                    subject: "Pâte brisée".to_string(),
                    request: dependency_create("dst", "new", "e1", "1", false),
                },
                Attachment {
                    subject: "Salade".to_string(),
                    request: dependency_create("dst", "new", "e2", "", true),
                },
            ],
            unmapped_ingredients: vec![],
            unmapped_recipes: vec![],
        }
    );
}

#[test]
fn a_clone_leaves_out_and_names_what_is_not_mapped() {
    let recipe = source_recipe();
    let ingredients = table_of(&[("i2", "d2")]);
    let recipes = table_of(&[("r2", "e2"), ("r-src", "loop")]);
    let steps = recipe_clone("dst", &recipe, "new", &ingredients, &recipes);
    assert_eq!(steps.tags.len(), 2);
    assert_eq!(
        steps.requirements,
        vec![Attachment {
            subject: "Lardons".to_string(),
            request: requirement_create("dst", "new", "d2", "100 g", true),
        }]
    );
    assert_eq!(steps.unmapped_ingredients, vec!["Lait".to_string(), "Oeufs".to_string()]);
    assert_eq!(
        steps.dependencies,
        vec![Attachment {
            subject: "Salade".to_string(),
            request: dependency_create("dst", "new", "e2", "", true),
        }]
    );
    assert_eq!(steps.unmapped_recipes, vec!["Pâte brisée".to_string()]);
}

#[test]
fn a_clone_keeps_the_counts_of_what_is_mapped() {
    let recipe = source_recipe();
    let ingredients = table_of(&[("i1", "d1"), ("i3", "d1")]);
    let recipes = TranslationTable::new();
    let steps = recipe_clone("dst", &recipe, "new", &ingredients, &recipes);
    let mapped = recipe.requirements.iter().filter(|r| ingredients.contains_key(&r.ingredient.id)).count();
    assert_eq!(steps.requirements.len(), mapped);
    assert_eq!(steps.requirements.len() + steps.unmapped_ingredients.len(), recipe.requirements.len());
    assert_eq!(steps.dependencies.len(), 0);
    assert_eq!(steps.unmapped_recipes.len(), recipe.dependencies.len());
    assert_eq!(steps.tags.len(), recipe.tags.len());
}

#[test]
fn a_bare_recipe_has_nothing_to_attach() {
    let steps = recipe_clone(
        "dst",
        &Recipe::default(),
        "new",
        &TranslationTable::new(),
        &TranslationTable::new(),
    );
    assert_eq!(
        steps,
        Attachments {
            recipe: String::new(),
            tags: vec![],
            requirements: vec![],
            dependencies: vec![],
            unmapped_ingredients: vec![],
            unmapped_recipes: vec![],
        }
    );
}

fn chained(id: &str, name: &str, needs_recipes: &[&str]) -> Recipe {
    Recipe {
        id: id.to_string(),
        name: name.to_string(),
        dependencies: needs_recipes.iter().map(|r| builds_on(r, r, "1", false)).collect(),
        requirements: vec![needs("i1", "Lait", "1 l", false)],
        ..Recipe::default()
    }
}

#[test]
fn a_run_goes_tier_by_tier() {
    let recipes = vec![
        chained("menu", "Menu", &["tarte", "pain"]),
        chained("tarte", "Tarte", &["pate"]),
        chained("pate", "Pâte", &[]),
        chained("pain", "Pain", &[]),
    ];
    let mut run = CloneRun::new("dst", recipes, table_of(&[("i1", "d1")])).unwrap();

    assert!(!run.finished());
    assert_eq!(
        run.creations(),
        vec![recipe_create("dst", "Pâte", "", "", ""), recipe_create("dst", "Pain", "", "", "")]
    );
    let created = vec![Some(created_recipe("d-pate")), Some(created_recipe("d-pain"))];
    let plans = run.attachments(&created);
    assert_eq!(plans.len(), 2);
    let pate = plans[0].as_ref().unwrap();
    assert_eq!(pate.recipe, "Pâte");
    assert_eq!(
        pate.requirements,
        vec![Attachment {
            subject: "Lait".to_string(),
            request: requirement_create("dst", "d-pate", "d1", "1 l", false),
        }]
    );
    assert!(pate.dependencies.is_empty() && pate.unmapped_recipes.is_empty());
    run = run.advance(&created);

    assert!(!run.finished());
    assert_eq!(run.creations(), vec![recipe_create("dst", "Tarte", "", "", "")]);
    let created = vec![Some(created_recipe("d-tarte"))];
    let plans = run.attachments(&created);
    let tarte = plans[0].as_ref().unwrap();
    assert_eq!(
        tarte.dependencies,
        vec![Attachment {
            subject: "pate".to_string(),
            request: dependency_create("dst", "d-tarte", "d-pate", "1", false),
        }]
    );
    run = run.advance(&created);

    assert_eq!(run.creations(), vec![recipe_create("dst", "Menu", "", "", "")]);
    let created = vec![Some(created_recipe("d-menu"))];
    let plans = run.attachments(&created);
    let menu = plans[0].as_ref().unwrap();
    assert_eq!(
        menu.dependencies.iter().map(|a| a.request.endpoint.as_str()).collect::<Vec<_>>(),
        vec!["dst/recipes/d-menu/dependencies/add", "dst/recipes/d-menu/dependencies/add"]
    );
    assert_eq!(
        menu.dependencies.iter().map(|a| a.subject.as_str()).collect::<Vec<_>>(),
        vec!["tarte", "pain"]
    );
    run = run.advance(&created);

    assert!(run.finished());
    assert_eq!(run.creations(), vec![]);
    assert_eq!(run.attachments(&vec![]).len(), 0);
    let run = run.advance(&vec![Some(created_recipe("stray"))]);
    assert!(run.finished());
}

#[test]
fn a_run_drops_what_depends_on_a_failed_creation() {
    let recipes = vec![
        chained("tarte", "Tarte", &["pate", "creme"]),
        chained("pate", "Pâte", &[]),
        chained("creme", "Crème", &[]),
    ];
    let mut run = CloneRun::new("dst", recipes, TranslationTable::new()).unwrap();
    let created = vec![None, Some(created_recipe("d-creme"))];
    let plans = run.attachments(&created);
    assert!(plans[0].is_none());
    let creme = plans[1].as_ref().unwrap();
    assert_eq!(creme.unmapped_ingredients, vec!["Lait".to_string()]);
    assert!(creme.requirements.is_empty());
    run = run.advance(&created);
    let created = vec![Some(created_recipe("d-tarte"))];
    let plans = run.attachments(&created);
    let tarte = plans[0].as_ref().unwrap();
    assert_eq!(
        tarte.dependencies,
        vec![Attachment {
            subject: "creme".to_string(),
            request: dependency_create("dst", "d-tarte", "d-creme", "1", false),
        }]
    );
    assert_eq!(tarte.unmapped_recipes, vec!["pate".to_string()]);
    assert!(run.advance(&created).finished());
}

#[test]
fn a_run_over_nothing_has_one_empty_tier() {
    let mut run = CloneRun::new("dst", vec![], TranslationTable::new()).unwrap();
    assert!(!run.finished());
    assert_eq!(run.creations(), vec![]);
    assert_eq!(run.attachments(&vec![]).len(), 0);
    run = run.advance(&vec![]);
    assert!(run.finished());
}

#[test]
fn a_run_does_not_start_on_a_circle() {
    let recipes = vec![chained("a", "A", &["b"]), chained("b", "B", &["a"]), chained("c", "C", &[])];
    assert_eq!(
        CloneRun::new("dst", recipes, TranslationTable::new()).unwrap_err(),
        CycleError { stuck: vec![0, 1] }
    );
}
