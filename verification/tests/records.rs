use ladle::actions::{ingredient_edit, label_edit, none, recipe_edit, EditError};
use ladle::gateway::{ingredient_update, label_update, recipe_update};
use ladle::gateway::recipe_get;
use ladle::models::{
    Classifications, Dependency, Ingredient, IngredientIndex, Label, LabelIndex, Recipe,
    RecipeIndex, Record, Referenced, Requirement,
};
use ladle::tree::TreeWalk;

#[test]
fn records_are_the_same_when_their_identifiers_are() {
    let a = RecipeIndex { id: "r1".to_string(), name: "Tarte".to_string() };
    let b = RecipeIndex { id: "r1".to_string(), name: "Tourte".to_string() };
    let c = RecipeIndex { id: "r2".to_string(), name: "Tarte".to_string() };
    assert!(a == b);
    assert!(a != c);
    let a = IngredientIndex { id: "i1".to_string(), name: "x".to_string() };
    let b = IngredientIndex { id: "i1".to_string(), name: "y".to_string() };
    assert!(a == b);
    let a = LabelIndex { id: "l1".to_string(), name: "x".to_string() };
    let b = LabelIndex { id: "l2".to_string(), name: "x".to_string() };
    assert!(a != b);
    let a = Recipe { id: "r".to_string(), name: "one".to_string(), ..Recipe::default() };
    let b = Recipe { id: "r".to_string(), author: "someone".to_string(), ..Recipe::default() };
    assert!(a == b);
    let a = Ingredient { id: "i".to_string(), ..Ingredient::default() };
    let b = Ingredient { id: "j".to_string(), ..Ingredient::default() };
    assert!(a != b);
    let a = Label { id: "l".to_string(), name: "a".to_string(), tagged_recipes: vec![] };
    let b = Label { id: "l".to_string(), name: "b".to_string(), tagged_recipes: vec![] };
    assert!(a == b);
}

#[test]
fn requirements_and_dependencies_are_told_apart_by_their_target() {
    let flour = IngredientIndex { id: "i1".to_string(), name: "farine".to_string() };
    let a = Requirement { ingredient: flour.clone(), quantity: "1".to_string(), optional: false };
    let b = Requirement { ingredient: flour, quantity: "2".to_string(), optional: true };
    assert!(a == b);
    let c = Requirement {
        ingredient: IngredientIndex { id: "i2".to_string(), name: "farine".to_string() },
        quantity: "1".to_string(),
        optional: false,
    };
    assert!(a != c);
    let base = RecipeIndex { id: "r1".to_string(), name: "pâte".to_string() };
    let a = Dependency { recipe: base.clone(), quantity: "1".to_string(), optional: false };
    let b = Dependency { recipe: base, quantity: "".to_string(), optional: true };
    assert!(a == b);
}

#[test]
fn default_records_are_empty() {
    let recipe = Recipe::default();
    assert_eq!(
        (recipe.id.as_str(), recipe.name.as_str(), recipe.author.as_str()),
        ("", "", "")
    );
    assert_eq!((recipe.directions.as_str(), recipe.information.as_str()), ("", ""));
    assert!(recipe.requirements.is_empty() && recipe.dependencies.is_empty() && recipe.tags.is_empty());
    assert_eq!(
        recipe.classifications,
        Classifications { dairy: false, meat: false, gluten: false, animal_product: false }
    );
    let ingredient = Ingredient::default();
    assert_eq!((ingredient.id.as_str(), ingredient.name.as_str()), ("", ""));
    assert!(ingredient.used_in.is_empty());
    assert_eq!(ingredient.classifications, Classifications::default());
    let label = Label::default();
    assert_eq!((label.id.as_str(), label.name.as_str(), label.tagged_recipes.len()), ("", "", 0));
    let requirement = Requirement::default();
    assert_eq!((requirement.ingredient.id.as_str(), requirement.quantity.as_str()), ("", ""));
    assert!(!requirement.optional);
    let dependency = Dependency::default();
    assert_eq!((dependency.recipe.name.as_str(), dependency.optional), ("", false));
    assert_eq!(RecipeIndex::default().id, "");
    assert_eq!(IngredientIndex::default().name, "");
    assert_eq!(LabelIndex::default().id, "");
}

#[test]
fn a_copy_holds_what_the_record_holds() {
    let recipe = Recipe {
        id: "r".to_string(),
        name: "Tarte".to_string(),
        author: "Ann".to_string(),
        directions: "Bake.".to_string(),
        information: "4".to_string(),
        classifications: Classifications { dairy: true, meat: false, gluten: true, animal_product: true },
        requirements: vec![Requirement {
            ingredient: IngredientIndex { id: "i".to_string(), name: "farine".to_string() },
            quantity: "200 g".to_string(),
            optional: true,
        }],
        dependencies: vec![Dependency {
            recipe: RecipeIndex { id: "p".to_string(), name: "pâte".to_string() },
            quantity: "1".to_string(),
            optional: false,
        }],
        tags: vec![LabelIndex { id: "l".to_string(), name: "four".to_string() }],
    };
    assert_eq!(format!("{:?}", recipe.clone()), format!("{:?}", recipe));
    assert_eq!(format!("{:?}", recipe.duplicate()), format!("{:?}", recipe));
    let ingredient = Ingredient {
        id: "i".to_string(),
        name: "farine".to_string(),
        classifications: Classifications { dairy: false, meat: false, gluten: true, animal_product: false },
        used_in: vec![RecipeIndex { id: "r".to_string(), name: "Tarte".to_string() }],
    };
    assert_eq!(format!("{:?}", ingredient.clone()), format!("{:?}", ingredient));
    let label = Label {
        id: "l".to_string(),
        name: "four".to_string(),
        tagged_recipes: vec![RecipeIndex { id: "r".to_string(), name: "Tarte".to_string() }],
    };
    assert_eq!(format!("{:?}", label.duplicate()), format!("{:?}", label));
}

#[test]
fn a_record_gives_its_identifier_name_and_references() {
    let ingredient = Ingredient {
        id: "i".to_string(),
        name: "farine".to_string(),
        classifications: Classifications::default(),
        used_in: vec![
            RecipeIndex { id: "r".to_string(), name: "Tarte".to_string() },
            RecipeIndex { id: "s".to_string(), name: "Pain".to_string() },
        ],
    };
    assert_eq!((ingredient.id().as_str(), ingredient.name().as_str()), ("i", "farine"));
    assert_eq!(ingredient.reference_count(), 2);
    let label = Label { id: "l".to_string(), name: "four".to_string(), tagged_recipes: vec![] };
    assert_eq!((label.id().as_str(), label.name().as_str(), label.reference_count()), ("l", "four", 0));
    let entry = RecipeIndex { id: "r".to_string(), name: "Tarte".to_string() };
    assert_eq!((entry.id().as_str(), entry.name().as_str()), ("r", "Tarte"));
}

#[test]
fn an_edit_is_one_update_with_what_was_given() {
    let recipe = RecipeIndex { id: "r1".to_string(), name: "Tarte".to_string() };
    assert_eq!(
        recipe_edit("u", &recipe, Some("Tourte"), None, &Some("Bake longer.".to_string()), &None),
        recipe_update("u", "r1", Some("Tourte"), None, Some("Bake longer."), None)
    );
    assert_eq!(
        recipe_edit("u", &recipe, None, Some("Ann"), &None, &Some(String::new())),
        recipe_update("u", "r1", None, Some("Ann"), None, Some(""))
    );
    let ingredient = IngredientIndex { id: "i1".to_string(), name: "Lait".to_string() };
    assert_eq!(
        ingredient_edit("u", &ingredient, None, Some(true), None, None, Some(true)),
        ingredient_update("u", "i1", None, Some(true), None, None, Some(true))
    );
    let label = LabelIndex { id: "l1".to_string(), name: "hiver".to_string() };
    assert_eq!(label_edit("u", &label, Some("été")), Ok(label_update("u", "l1", "été")));
    assert_eq!(label_edit("u", &label, None), Err(EditError::MissingName));
}

#[test]
fn a_field_that_is_left_out_reads_none() {
    assert_eq!(none(), "None");
}

fn node(id: &str, builds_on: &[&str]) -> Recipe {
    Recipe {
        id: id.to_string(),
        name: format!("recipe {}", id),
        dependencies: builds_on
            .iter()
            .map(|r| Dependency {
                recipe: RecipeIndex { id: r.to_string(), name: String::new() },
                quantity: String::new(),
                optional: false,
            })
            .collect(),
        ..Recipe::default()
    }
}

#[test]
fn a_walk_fetches_each_recipe_once_and_dependencies_in_order() {
    let mut walk = TreeWalk::new("top");
    assert!(walk.tree.is_empty());
    assert_eq!(walk.pending, vec!["top".to_string()]);
    assert_eq!(walk.next("u"), Some(recipe_get("u", "top")));
    assert!(walk.pending.is_empty());
    walk.add(node("top", &["a", "b", "a"]));
    assert_eq!(walk.pending, vec!["a".to_string(), "b".to_string(), "a".to_string()]);
    assert_eq!(walk.next("u"), Some(recipe_get("u", "a")));
    walk.add(node("a", &["b", "top"]));
    assert_eq!(walk.next("u"), Some(recipe_get("u", "b")));
    walk.add(node("b", &[]));
    assert_eq!(walk.next("u"), None);
    assert!(walk.pending.is_empty());
    assert_eq!(walk.tree.iter().map(|r| r.id.as_str()).collect::<Vec<_>>(), vec!["top", "a", "b"]);
    assert_eq!(walk.next("u"), None);
}

#[test]
fn a_walk_over_a_circle_ends() {
    let mut walk = TreeWalk::new("a");
    assert_eq!(walk.next("u"), Some(recipe_get("u", "a")));
    walk.add(node("a", &["a", "b"]));
    assert_eq!(walk.next("u"), Some(recipe_get("u", "b")));
    walk.add(node("b", &["a"]));
    assert_eq!(walk.next("u"), None);
    assert_eq!(walk.tree.len(), 2);
}
