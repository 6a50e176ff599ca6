use ladle::gateway::{
    ingredient_create, ingredient_get, ingredient_index, label_create, label_get, label_index,
    recipe_get, recipe_index,
};
use ladle::identify::{
    identify, ingredient_identify, label_identify, recipe_identify, IdentifyError, Progress,
    Resolution, Step,
};
use ladle::models::{
    Classifications, Ingredient, IngredientIndex, Label, LabelIndex, Recipe, RecipeIndex,
};

fn candidate(id: &str, name: &str) -> IngredientIndex {
    IngredientIndex { id: id.to_string(), name: name.to_string() }
}

fn picked(resolution: Resolution<IngredientIndex>) -> (String, String, String) {
    match resolution {
        Resolution::ExactMatch(e) => ("exact".to_string(), e.id, e.name),
        Resolution::UniqueFuzzyMatch(e) => ("fuzzy".to_string(), e.id, e.name),
        Resolution::AmbiguousCandidates(names) => {
            ("ambiguous".to_string(), String::new(), names.join("|"))
        }
        Resolution::NoMatch => ("none".to_string(), String::new(), String::new()),
    }
}

fn found<I>(step: Step<I>) -> (I, bool) {
    match step {
        Step::Found { entry, fuzzy } => (entry, fuzzy),
        _ => panic!("the step does not end the resolution"),
    }
}

fn text3(a: &str, b: &str, c: &str) -> (String, String, String) {
    (a.to_string(), b.to_string(), c.to_string())
}

#[test]
fn a_single_candidate_is_taken_whatever_its_name() {
    assert_eq!(
        picked(identify("sel", vec![candidate("i1", "sel")])),
        text3("exact", "i1", "sel")
    );
    assert_eq!(
        picked(identify("sel", vec![candidate("i2", "sel fin")])),
        text3("fuzzy", "i2", "sel fin")
    );
}

#[test]
fn of_several_candidates_the_first_named_like_the_clue_is_taken() {
    let listing = vec![
        candidate("i1", "sel fin"),
        candidate("i2", "sel"),
        candidate("i3", "gros sel"),
        candidate("i4", "sel"),
    ];
    assert_eq!(picked(identify("sel", listing)), text3("exact", "i2", "sel"));
}

#[test]
fn several_candidates_with_other_names_are_all_reported() {
    let listing = vec![candidate("i1", "sel fin"), candidate("i3", "gros sel")];
    assert_eq!(picked(identify("sel", listing)), text3("ambiguous", "", "sel fin|gros sel"));
}

#[test]
fn no_candidate_is_no_match() {
    assert_eq!(picked(identify("sel", vec![])), text3("none", "", ""));
}

#[test]
fn names_are_compared_exactly() {
    let listing = vec![candidate("i1", "Sel"), candidate("i2", "sel ")];
    assert_eq!(picked(identify("sel", listing)), text3("ambiguous", "", "Sel|sel "));
}

#[test]
fn resolution_starts_with_a_lookup_by_identifier() {
    assert_eq!(
        ingredient_identify("u", "sel", false, Progress::Start),
        Step::Fetch(ingredient_get("u", "sel"))
    );
    assert_eq!(label_identify("u", "été", true, Progress::Start), Step::Fetch(label_get("u", "été")));
    assert_eq!(recipe_identify("u", "r1", Progress::Start), Step::Fetch(recipe_get("u", "r1")));
}

#[test]
fn a_clue_that_is_an_identifier_gives_that_record() {
    let record = Ingredient {
        id: "i9".to_string(),
        name: "Poivre".to_string(),
        classifications: Classifications::default(),
        used_in: vec![RecipeIndex { id: "r".to_string(), name: "R".to_string() }],
    };
    let (entry, fuzzy) =
        found(ingredient_identify("u", "i9", true, Progress::Fetched(Some(record))));
    assert_eq!((entry.id.as_str(), entry.name.as_str(), fuzzy), ("i9", "Poivre", false));

    let label = Label { id: "l9".to_string(), name: "hiver".to_string(), tagged_recipes: vec![] };
    let (entry, fuzzy) = found(label_identify("u", "l9", false, Progress::Fetched(Some(label))));
    assert_eq!((entry.id.as_str(), entry.name.as_str(), fuzzy), ("l9", "hiver", false));

    let recipe = Recipe { id: "r9".to_string(), name: "Tarte".to_string(), ..Recipe::default() };
    let (entry, fuzzy) = found(recipe_identify("u", "r9", Progress::Fetched(Some(recipe))));
    assert_eq!((entry.id.as_str(), entry.name.as_str(), fuzzy), ("r9", "Tarte", false));
}

#[test]
fn a_failed_lookup_is_followed_by_a_listing() {
    assert_eq!(
        ingredient_identify("u", "sel", false, Progress::Fetched(None)),
        Step::List(ingredient_index("u", "sel"))
    );
    assert_eq!(
        label_identify("u", "hiv", false, Progress::Fetched(None)),
        Step::List(label_index("u", "hiv"))
    );
    assert_eq!(
        recipe_identify("u", "tar", Progress::Fetched(None)),
        Step::List(recipe_index("u", "tar"))
    );
}

#[test]
fn a_listing_with_one_other_name_is_a_fuzzy_match() {
    let listing = vec![candidate("i2", "sel fin")];
    let (entry, fuzzy) =
        found(ingredient_identify("u", "sel", false, Progress::Listed(Some(listing))));
    assert_eq!((entry.id.as_str(), entry.name.as_str(), fuzzy), ("i2", "sel fin", true));
    let listing = vec![candidate("i2", "sel")];
    let (entry, fuzzy) =
        found(ingredient_identify("u", "sel", true, Progress::Listed(Some(listing))));
    assert_eq!((entry.id.as_str(), fuzzy), ("i2", false));
}

#[test]
fn an_unresolved_clue_reports_every_candidate() {
    let listing = vec![candidate("i1", "sel fin"), candidate("i3", "gros sel")];
    assert_eq!(
        ingredient_identify("u", "sel", false, Progress::Listed(Some(listing))),
        Step::Failed(IdentifyError::Unmatched {
            message: "Failed to identify ingredient from: `sel`".to_string(),
            candidates: vec!["sel fin".to_string(), "gros sel".to_string()],
        })
    );
    assert_eq!(
        ingredient_identify("u", "sel", false, Progress::Listed(Some(vec![]))),
        Step::Failed(IdentifyError::Unmatched {
            message: "Failed to identify ingredient from: `sel`".to_string(),
            candidates: vec![],
        })
    );
    let labels = vec![
        LabelIndex { id: "l1".to_string(), name: "hiver".to_string() },
        LabelIndex { id: "l2".to_string(), name: "hivernal".to_string() },
    ];
    assert_eq!(
        label_identify("u", "hiv", false, Progress::Listed(Some(labels))),
        Step::Failed(IdentifyError::Unmatched {
            message: "Failed to identify label from: `hiv`".to_string(),
            candidates: vec!["hiver".to_string(), "hivernal".to_string()],
        })
    );
    let recipes = vec![
        RecipeIndex { id: "r1".to_string(), name: "Tarte aux pommes".to_string() },
        RecipeIndex { id: "r2".to_string(), name: "Tarte au citron".to_string() },
    ];
    assert_eq!(
        recipe_identify("u", "Tarte", Progress::Listed(Some(recipes))),
        Step::Failed(IdentifyError::Unmatched {
            message: "Failed to identify recipe from: `Tarte`".to_string(),
            candidates: vec!["Tarte aux pommes".to_string(), "Tarte au citron".to_string()],
        })
    );
}

#[test]
fn an_unresolved_clue_is_created_on_demand() {
    let listing = vec![candidate("i1", "sel fin"), candidate("i3", "gros sel")];
    assert_eq!(
        ingredient_identify("u", "sel", true, Progress::Listed(Some(listing))),
        Step::Create(ingredient_create("u", "sel", false, false, false, false))
    );
    assert_eq!(
        ingredient_identify("u", "sel", true, Progress::Listed(Some(vec![]))),
        Step::Create(ingredient_create("u", "sel", false, false, false, false))
    );
    assert_eq!(
        label_identify("u", "hiver", true, Progress::Listed(Some(vec![]))),
        Step::Create(label_create("u", "hiver"))
    );
}

#[test]
fn creation_on_demand_does_not_replace_a_match() {
    let listing = vec![candidate("i1", "sel fin"), candidate("i3", "sel")];
    let (entry, fuzzy) =
        found(ingredient_identify("u", "sel", true, Progress::Listed(Some(listing))));
    assert_eq!((entry.id.as_str(), fuzzy), ("i3", false));
}

#[test]
fn what_was_created_is_the_result() {
    let (entry, fuzzy) = found(ingredient_identify(
        "u",
        "sel",
        true,
        Progress::Created(Some(candidate("i77", "sel"))),
    ));
    assert_eq!((entry.id.as_str(), entry.name.as_str(), fuzzy), ("i77", "sel", false));
}

#[test]
fn a_request_that_failed_ends_the_resolution() {
    assert_eq!(
        ingredient_identify("u", "sel", true, Progress::Listed(None)),
        Step::Failed(IdentifyError::Unanswered)
    );
    assert_eq!(
        ingredient_identify("u", "sel", true, Progress::Created(None)),
        Step::Failed(IdentifyError::Unanswered)
    );
    assert_eq!(
        label_identify("u", "x", false, Progress::Listed(None)),
        Step::Failed(IdentifyError::Unanswered)
    );
    assert_eq!(
        recipe_identify("u", "x", Progress::Listed(None)),
        Step::Failed(IdentifyError::Unanswered)
    );
}
