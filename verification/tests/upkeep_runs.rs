use ladle::clean::{
    clean_ingredients, clean_labels, ingredient_deletions, label_deletions, unused, CleanReport,
    CleanStep, Cleaning,
};
use ladle::fetch::{
    fetch_ingredients, fetch_labels, fetch_recipes, gather, ingredient_fetches, is_known,
    label_fetches, recipe_fetches, FetchStep, Fetching,
};
use ladle::gateway::{
    ingredient_delete, ingredient_get, ingredient_index, label_delete, label_get, label_index,
    recipe_get, recipe_get_requirements, recipe_index, requirement_create, requirement_delete,
};
use ladle::merge::{
    ingredient_merge, merge_additions, merge_completion, merge_deletions, merge_targets,
    requirement_fetches, MergeError, MergeStep, MergeTarget, Merging,
};
use ladle::models::Recipe;
use ladle::models::{
    Classifications, Ingredient, IngredientIndex, Label, LabelIndex, RecipeIndex, Requirement,
};

fn user(id: &str) -> RecipeIndex {
    RecipeIndex { id: id.to_string(), name: format!("recipe {}", id) }
}

fn stocked(id: &str, name: &str, used_in: &[&str]) -> Ingredient {
    Ingredient {
        id: id.to_string(),
        name: name.to_string(),
        classifications: Classifications::default(),
        used_in: used_in.iter().map(|r| user(r)).collect(),
    }
}

fn sticker(id: &str, name: &str, tagged: &[&str]) -> Label {
    Label {
        id: id.to_string(),
        name: name.to_string(),
        tagged_recipes: tagged.iter().map(|r| user(r)).collect(),
    }
}

fn wants(ingredient: &str, quantity: &str, optional: bool) -> Requirement {
    Requirement {
        ingredient: IngredientIndex { id: ingredient.to_string(), name: String::new() },
        quantity: quantity.to_string(),
        optional,
    }
}

fn target(recipe: &str, quantity: &str) -> MergeTarget {
    MergeTarget { recipe_id: recipe.to_string(), quantity: quantity.to_string() }
}

fn ids_of(found: &Vec<Ingredient>) -> Vec<&str> {
    found.iter().map(|i| i.id.as_str()).collect()
}

#[test]
fn every_listed_element_is_fetched() {
    let index = vec![
        IngredientIndex { id: "i1".to_string(), name: "a".to_string() },
        IngredientIndex { id: "i2".to_string(), name: "b".to_string() },
    ];
    assert_eq!(
        ingredient_fetches("src", &index),
        vec![ingredient_get("src", "i1"), ingredient_get("src", "i2")]
    );
    let index = vec![LabelIndex { id: "l1".to_string(), name: "a".to_string() }];
    assert_eq!(label_fetches("src", &index), vec![label_get("src", "l1")]);
    let index = vec![user("r1"), user("r2"), user("r3")];
    assert_eq!(
        recipe_fetches("src", &index),
        vec![recipe_get("src", "r1"), recipe_get("src", "r2"), recipe_get("src", "r3")]
    );
    assert_eq!(recipe_fetches("src", &vec![]), vec![]);
}

#[test]
fn failed_fetches_are_left_out_and_each_entity_is_kept_once() {
    let fetched = vec![
        Some(stocked("i1", "first", &[])),
        None,
        Some(stocked("i2", "second", &["r"])),
        Some(stocked("i1", "again", &["r"])),
        None,
        Some(stocked("i3", "third", &[])),
    ];
    let kept = gather(fetched);
    assert_eq!(ids_of(&kept), vec!["i1", "i2", "i3"]);
    assert_eq!(kept[0].name, "first");
    assert!(is_known(&kept, "i2"));
    assert!(!is_known(&kept, "i4"));
    assert_eq!(gather::<Ingredient>(vec![None, None]).len(), 0);
    assert_eq!(gather::<Ingredient>(vec![]).len(), 0);
}

#[test]
fn only_what_no_recipe_refers_to_is_picked() {
    let fetched = vec![
        Some(stocked("i1", "used", &["r1"])),
        Some(stocked("i2", "unused", &[])),
        None,
        Some(stocked("i3", "used twice", &["r1", "r2"])),
        Some(stocked("i4", "unused too", &[])),
        Some(stocked("i2", "unused", &[])),
    ];
    let found = unused(fetched);
    assert_eq!(ids_of(&found), vec!["i2", "i4"]);
    for ingredient in &found {
        assert!(ingredient.used_in.is_empty());
    }
}

#[test]
fn a_pass_over_labels_works_the_same() {
    let fetched = vec![
        Some(sticker("l1", "hiver", &[])),
        Some(sticker("l2", "été", &["r1"])),
        None,
        Some(sticker("l3", "four", &[])),
    ];
    let found = unused(fetched);
    assert_eq!(found.iter().map(|l| l.id.as_str()).collect::<Vec<_>>(), vec!["l1", "l3"]);
    assert_eq!(
        label_deletions("src", &found),
        vec![label_delete("src", "l1"), label_delete("src", "l3")]
    );
}

#[test]
fn nothing_is_picked_where_everything_is_referred_to() {
    let fetched = vec![Some(stocked("i1", "a", &["r"])), None, Some(stocked("i2", "b", &["r"]))];
    assert_eq!(unused(fetched).len(), 0);
    assert_eq!(unused::<Label>(vec![]).len(), 0);
}

#[test]
fn what_is_picked_is_deleted() {
    let found = vec![stocked("i2", "unused", &[]), stocked("i4", "unused too", &[])];
    assert_eq!(
        ingredient_deletions("src", &found),
        vec![ingredient_delete("src", "i2"), ingredient_delete("src", "i4")]
    );
    assert_eq!(ingredient_deletions("src", &vec![]), vec![]);
}

#[test]
fn a_merge_asks_for_the_requirements_of_each_user() {
    assert_eq!(
        requirement_fetches("src", &vec![user("r1"), user("r2")]),
        vec![recipe_get_requirements("src", "r1"), recipe_get_requirements("src", "r2")]
    );
}

#[test]
fn targets_are_the_users_that_name_the_obsolete_ingredient() {
    let uses = vec![user("r1"), user("r2"), user("r3"), user("r4"), user("r5")];
    let fetched = vec![
        Some(vec![wants("salt", "1 pinch", false), wants("old", "200 g", true)]),
        None,
        Some(vec![wants("salt", "1 pinch", false)]),
        Some(vec![wants("old", "first", false), wants("old", "second", false)]),
    ];
    assert_eq!(
        merge_targets("old", &uses, &fetched),
        vec![target("r1", "200 g"), target("r4", "first")]
    );
    assert_eq!(merge_targets("old", &vec![], &fetched), vec![]);
    assert_eq!(merge_targets("old", &uses, &vec![]), vec![]);
}

#[test]
fn every_target_gets_the_target_ingredient_in_the_same_quantity() {
    let targets = vec![target("r1", "200 g"), target("r4", "1")];
    assert_eq!(
        merge_additions("src", "new", &targets),
        vec![
            requirement_create("src", "r1", "new", "200 g", false),
            requirement_create("src", "r4", "new", "1", false),
        ]
    );
}

#[test]
fn an_old_requirement_goes_only_after_the_new_one_is_confirmed() {
    let targets = vec![target("r1", "a"), target("r2", "b"), target("r3", "c")];
    assert_eq!(
        merge_deletions("src", "old", &targets, &vec![true, false, true]),
        vec![requirement_delete("src", "r1", "old"), requirement_delete("src", "r3", "old")]
    );
    assert_eq!(
        merge_deletions("src", "old", &targets, &vec![true]),
        vec![requirement_delete("src", "r1", "old")]
    );
    assert_eq!(merge_deletions("src", "old", &targets, &vec![]), vec![]);
    assert_eq!(merge_deletions("src", "old", &targets, &vec![true, true, true]).len(), 3);
}

#[test]
fn the_obsolete_ingredient_goes_when_nothing_is_left_behind() {
    let uses = vec![user("r1"), user("r2")];
    let fetched = vec![Some(vec![wants("old", "1", false)]), Some(vec![])];
    let targets = vec![target("r1", "1")];
    assert_eq!(
        merge_completion("src", "old", &uses, &fetched, &targets, &vec![true], &vec![true]),
        Some(ingredient_delete("src", "old"))
    );
    assert_eq!(
        merge_completion("src", "old", &vec![], &vec![], &vec![], &vec![], &vec![]),
        Some(ingredient_delete("src", "old"))
    );
}

#[test]
fn the_obsolete_ingredient_stays_when_something_is_left_behind() {
    let uses = vec![user("r1"), user("r2")];
    let fetched = vec![Some(vec![wants("old", "1", false)]), Some(vec![])];
    let targets = vec![target("r1", "1")];
    assert_eq!(
        merge_completion("src", "old", &uses, &fetched, &targets, &vec![false], &vec![]),
        None
    );
    assert_eq!(
        merge_completion("src", "old", &uses, &fetched, &targets, &vec![true], &vec![false]),
        None
    );
    assert_eq!(
        merge_completion("src", "old", &uses, &fetched, &targets, &vec![true], &vec![]),
        None
    );
    let unanswered = vec![Some(vec![wants("old", "1", false)]), None];
    assert_eq!(
        merge_completion("src", "old", &uses, &unanswered, &targets, &vec![true], &vec![true]),
        None
    );
    let short = vec![Some(vec![wants("old", "1", false)])];
    assert_eq!(
        merge_completion("src", "old", &uses, &short, &targets, &vec![true], &vec![true]),
        None
    );
}

#[test]
fn a_fetch_lists_then_fetches_then_gathers() {
    match fetch_recipes("src", Fetching::Start) {
        FetchStep::List(request) => assert_eq!(request, recipe_index("src", "")),
        other => panic!("unexpected step {:?}", other),
    }
    match fetch_recipes("src", Fetching::Listed(Some(vec![user("r1"), user("r2")]))) {
        FetchStep::Fetch(requests) => {
            assert_eq!(requests, vec![recipe_get("src", "r1"), recipe_get("src", "r2")])
        }
        other => panic!("unexpected step {:?}", other),
    }
    let one = Recipe { id: "r1".to_string(), ..Recipe::default() };
    let again = Recipe { id: "r1".to_string(), name: "late".to_string(), ..Recipe::default() };
    match fetch_recipes("src", Fetching::Fetched(vec![Some(one), None, Some(again)])) {
        FetchStep::Done(records) => {
            assert_eq!(records.len(), 1);
            assert_eq!(records[0].name, "");
        }
        other => panic!("unexpected step {:?}", other),
    }
    match fetch_ingredients("src", Fetching::Start) {
        FetchStep::List(request) => assert_eq!(request, ingredient_index("src", "")),
        other => panic!("unexpected step {:?}", other),
    }
    match fetch_labels("src", Fetching::Start) {
        FetchStep::List(request) => assert_eq!(request, label_index("src", "")),
        other => panic!("unexpected step {:?}", other),
    }
}

#[test]
fn a_fetch_fails_with_its_listing() {
    assert!(matches!(fetch_recipes("src", Fetching::Listed(None)), FetchStep::Failed));
    assert!(matches!(fetch_ingredients("src", Fetching::Listed(None)), FetchStep::Failed));
    assert!(matches!(fetch_labels("src", Fetching::Listed(None)), FetchStep::Failed));
}

#[test]
fn a_pass_goes_on_when_a_deletion_fails() {
    match clean_ingredients("src", Cleaning::Start) {
        CleanStep::List(request) => assert_eq!(request, ingredient_index("src", "")),
        other => panic!("unexpected step {:?}", other),
    }
    assert!(matches!(clean_ingredients("src", Cleaning::Listed(None)), CleanStep::Failed));
    let index = vec![IngredientIndex { id: "i1".to_string(), name: "a".to_string() }];
    match clean_ingredients("src", Cleaning::Listed(Some(index))) {
        CleanStep::Fetch(requests) => assert_eq!(requests, vec![ingredient_get("src", "i1")]),
        other => panic!("unexpected step {:?}", other),
    }
    let fetched = vec![
        Some(stocked("i1", "used", &["r1"])),
        Some(stocked("i2", "first", &[])),
        None,
        Some(stocked("i3", "second", &[])),
        Some(stocked("i4", "third", &[])),
    ];
    let (records, requests) = match clean_ingredients("src", Cleaning::Fetched(fetched)) {
        CleanStep::Delete(records, requests) => (records, requests),
        other => panic!("unexpected step {:?}", other),
    };
    assert_eq!(ids_of(&records), vec!["i2", "i3", "i4"]);
    assert_eq!(
        requests,
        vec![
            ingredient_delete("src", "i2"),
            ingredient_delete("src", "i3"),
            ingredient_delete("src", "i4"),
        ]
    );
    match clean_ingredients("src", Cleaning::Deleted(records, vec![true, false])) {
        CleanStep::Done(report) => assert_eq!(
            report,
            CleanReport {
                deleted: vec!["first".to_string()],
                failed: vec!["second".to_string(), "third".to_string()],
            }
        ),
        other => panic!("unexpected step {:?}", other),
    }
}

#[test]
fn the_pass_over_labels_takes_the_same_steps() {
    match clean_labels("src", Cleaning::Start) {
        CleanStep::List(request) => assert_eq!(request, label_index("src", "")),
        other => panic!("unexpected step {:?}", other),
    }
    let fetched = vec![Some(sticker("l1", "hiver", &[])), Some(sticker("l2", "été", &["r"]))];
    let (records, requests) = match clean_labels("src", Cleaning::Fetched(fetched)) {
        CleanStep::Delete(records, requests) => (records, requests),
        other => panic!("unexpected step {:?}", other),
    };
    assert_eq!(requests, vec![label_delete("src", "l1")]);
    match clean_labels("src", Cleaning::Deleted(records, vec![true])) {
        CleanStep::Done(report) => {
            assert_eq!(report, CleanReport { deleted: vec!["hiver".to_string()], failed: vec![] })
        }
        other => panic!("unexpected step {:?}", other),
    }
    assert!(matches!(clean_labels("src", Cleaning::Listed(None)), CleanStep::Failed));
}

fn resolved(id: &str) -> Option<IngredientIndex> {
    Some(IngredientIndex { id: id.to_string(), name: format!("name of {}", id) })
}

#[test]
fn a_merge_ends_on_an_unresolved_clue() {
    for progress in [
        Merging::Identified(None, resolved("old")),
        Merging::Identified(resolved("new"), None),
        Merging::Identified(None, None),
    ] {
        assert!(matches!(
            ingredient_merge("src", progress),
            MergeStep::Failed(MergeError::Unresolved)
        ));
    }
}

#[test]
fn a_merge_goes_step_by_step() {
    let state = match ingredient_merge("src", Merging::Identified(resolved("new"), resolved("old"))) {
        MergeStep::FetchObsolete(state, request) => {
            assert_eq!(request, ingredient_get("src", "old"));
            state
        }
        other => panic!("unexpected step {:?}", other),
    };
    assert_eq!((state.target_id.as_str(), state.obsolete_id.as_str()), ("new", "old"));
    let record = stocked("old", "Old", &["r1", "r2", "r3"]);
    let state = match ingredient_merge("src", Merging::Used(state, Some(record))) {
        MergeStep::FetchRequirements(state, requests) => {
            assert_eq!(
                requests,
                vec![
                    recipe_get_requirements("src", "r1"),
                    recipe_get_requirements("src", "r2"),
                    recipe_get_requirements("src", "r3"),
                ]
            );
            state
        }
        other => panic!("unexpected step {:?}", other),
    };
    let fetched = vec![
        Some(vec![wants("old", "1 kg", true)]),
        Some(vec![wants("salt", "1", false)]),
        Some(vec![wants("salt", "1", false), wants("old", "2 l", false)]),
    ];
    let state = match ingredient_merge("src", Merging::Required(state, fetched)) {
        MergeStep::Add(state, requests) => {
            assert_eq!(
                requests,
                vec![
                    requirement_create("src", "r1", "new", "1 kg", false),
                    requirement_create("src", "r3", "new", "2 l", false),
                ]
            );
            state
        }
        other => panic!("unexpected step {:?}", other),
    };
    assert_eq!(state.targets, vec![target("r1", "1 kg"), target("r3", "2 l")]);
    let state = match ingredient_merge("src", Merging::Added(state, vec![true, true])) {
        MergeStep::Delete(state, requests) => {
            assert_eq!(
                requests,
                vec![requirement_delete("src", "r1", "old"), requirement_delete("src", "r3", "old")]
            );
            state
        }
        other => panic!("unexpected step {:?}", other),
    };
    match ingredient_merge("src", Merging::Deleted(state, vec![true, true])) {
        MergeStep::Complete(request) => assert_eq!(request, ingredient_delete("src", "old")),
        other => panic!("unexpected step {:?}", other),
    }
    assert!(matches!(ingredient_merge("src", Merging::Completed(true)), MergeStep::Done));
    assert!(matches!(
        ingredient_merge("src", Merging::Completed(false)),
        MergeStep::Failed(MergeError::Unanswered)
    ));
}

#[test]
fn a_merge_that_leaves_a_recipe_behind_keeps_the_obsolete_ingredient() {
    let state = match ingredient_merge("src", Merging::Identified(resolved("new"), resolved("old"))) {
        MergeStep::FetchObsolete(state, _) => state,
        other => panic!("unexpected step {:?}", other),
    };
    assert!(matches!(
        ingredient_merge("src", Merging::Used(state, None)),
        MergeStep::Failed(MergeError::Unanswered)
    ));
    let state = match ingredient_merge("src", Merging::Identified(resolved("new"), resolved("old"))) {
        MergeStep::FetchObsolete(state, _) => state,
        other => panic!("unexpected step {:?}", other),
    };
    let record = stocked("old", "Old", &["r1", "r2"]);
    let state = match ingredient_merge("src", Merging::Used(state, Some(record))) {
        MergeStep::FetchRequirements(state, _) => state,
        other => panic!("unexpected step {:?}", other),
    };
    let fetched =
        vec![Some(vec![wants("old", "1", false)]), Some(vec![wants("old", "2", false)])];
    let state = match ingredient_merge("src", Merging::Required(state, fetched)) {
        MergeStep::Add(state, _) => state,
        other => panic!("unexpected step {:?}", other),
    };
    let state = match ingredient_merge("src", Merging::Added(state, vec![true, false])) {
        MergeStep::Delete(state, requests) => {
            assert_eq!(requests, vec![requirement_delete("src", "r1", "old")]);
            state
        }
        other => panic!("unexpected step {:?}", other),
    };
    assert!(matches!(
        ingredient_merge("src", Merging::Deleted(state, vec![true])),
        MergeStep::Failed(MergeError::Incomplete)
    ));
}

#[test]
fn what_is_gathered_has_each_identifier_once() {
    let fetched = vec![
        Some(stocked("a", "1", &[])),
        Some(stocked("b", "2", &[])),
        Some(stocked("a", "3", &[])),
        Some(stocked("b", "4", &[])),
        Some(stocked("c", "5", &[])),
    ];
    let kept = gather(fetched);
    let mut seen: Vec<&str> = ids_of(&kept);
    seen.sort();
    seen.dedup();
    assert_eq!(seen.len(), kept.len());
    assert_eq!(ids_of(&kept), vec!["a", "b", "c"]);
}
