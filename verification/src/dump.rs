//! A portable, anonymous snapshot of a recipe graph.
//!
//! A snapshot lists the recipes tier by tier, each tier in the order of the
//! recipes' names, and the ingredients and the labels in the order of their
//! names. Stripping it replaces every identifier by a placeholder that only
//! says where the entity stands in its list, rewrites every reference
//! accordingly, and empties the lists of referring recipes. A reference
//! whose target has no placeholder is left out.

use crate::models::{
    first_of_each, has_id, lemma_first_of_each_distinct, views, Dependency, DependencyView,
    EntryView, Ingredient, IngredientIndex, IngredientView, Label, LabelIndex, LabelView, Recipe,
    RecipeIndex, RecipeView, Record, Requirement, RequirementView,
};
use crate::migration::{unmapped, unmapped_ingredients, unmapped_recipes};
use crate::order::{
    arranged, distinct_keys, dump_key, dump_keys, lemma_bytes_tell_texts_apart,
    lemma_sorted_ignores_order, sort_by_name, sort_members, sorted_by_key, SortKeyView,
};
use crate::tables::{recorded, TranslationTable};
use crate::text::{decimal, numbered, same_text};
use crate::tiers::{
    acyclic, ascending, graph, in_tier, is_stuck, is_tiering, lemma_acyclic_has_tiering,
    lemma_acyclic_rearranged, lemma_tiering_unique, lemma_tiers_rearranged, positions, rearranges,
    recipe_tier_positions, tier_positions, tiering, CycleError,
};
use vstd::prelude::*;
use vstd::seq_lib::group_to_multiset_ensures;
use vstd::utf8::encode_utf8;

verus! {

/// Everything a service holds: its recipes, ingredients and labels.
#[derive(Debug)]
pub struct Datadump {
    pub recipes: Vec<Recipe>,
    pub ingredients: Vec<Ingredient>,
    pub labels: Vec<Label>,
}

/// What a snapshot holds.
pub struct DatadumpView {
    pub recipes: Seq<RecipeView>,
    pub ingredients: Seq<IngredientView>,
    pub labels: Seq<LabelView>,
}

impl View for Datadump {
    type V = DatadumpView;

    open spec fn view(&self) -> DatadumpView {
        DatadumpView {
            recipes: views(self.recipes@),
            ingredients: views(self.ingredients@),
            labels: views(self.labels@),
        }
    }
}

/// What each recipe of a list is ordered by.
pub open spec fn recipe_keys(recipes: Seq<RecipeView>) -> Seq<SortKeyView> {
    recipes.map_values(|r: RecipeView| dump_key(r.name, r.id))
}

/// What each ingredient of a list is ordered by.
pub open spec fn ingredient_keys(ingredients: Seq<IngredientView>) -> Seq<SortKeyView> {
    ingredients.map_values(|i: IngredientView| dump_key(i.name, i.id))
}

/// What each label of a list is ordered by.
pub open spec fn label_keys(labels: Seq<LabelView>) -> Seq<SortKeyView> {
    labels.map_values(|l: LabelView| dump_key(l.name, l.id))
}

/// No two recipes of the list have the same identifier.
pub open spec fn unique_recipes(recipes: Seq<RecipeView>) -> bool {
    forall|i: int, j: int| 0 <= i < j < recipes.len() ==> recipes[i].id != recipes[j].id
}

/// No two ingredients of the list have the same identifier.
pub open spec fn unique_ingredients(ingredients: Seq<IngredientView>) -> bool {
    forall|i: int, j: int| 0 <= i < j < ingredients.len() ==> ingredients[i].id != ingredients[j].id
}

/// No two labels of the list have the same identifier.
pub open spec fn unique_labels(labels: Seq<LabelView>) -> bool {
    forall|i: int, j: int| 0 <= i < j < labels.len() ==> labels[i].id != labels[j].id
}

/// The recipes of a tier, in the order of their names; recipes whose names
/// have the same key are ordered by the name itself, and recipes of one
/// name by their identifier.
pub open spec fn tier_by_name(recipes: Seq<RecipeView>, tier: Seq<int>) -> Seq<RecipeView> {
    sorted_by_key(arranged(recipes, tier), arranged(recipe_keys(recipes), tier))
}

/// The recipes of a list of tiers, tier after tier, each tier in the order
/// of the names.
pub open spec fn recipes_in_order(recipes: Seq<RecipeView>, tiers: Seq<Seq<int>>) -> Seq<
    RecipeView,
>
    decreases tiers.len(),
{
    if tiers.len() == 0 {
        Seq::empty()
    } else {
        recipes_in_order(recipes, tiers.drop_last()) + tier_by_name(recipes, tiers.last())
    }
}

/// The snapshot of what was fetched.
pub open spec fn dump_of(
    recipes: Seq<RecipeView>,
    ingredients: Seq<IngredientView>,
    labels: Seq<LabelView>,
) -> DatadumpView {
    DatadumpView {
        recipes: recipes_in_order(recipes, tiering(graph(recipes))),
        ingredients: sorted_by_key(ingredients, ingredient_keys(ingredients)),
        labels: sorted_by_key(labels, label_keys(labels)),
    }
}

/// Arranges what was fetched from a service as a snapshot. Fails exactly
/// when recipes depend on each other in a circle.
pub fn dump_remote(
    recipes: &Vec<Recipe>,
    ingredients: &Vec<Ingredient>,
    labels: &Vec<Label>,
) -> (outcome: Result<Datadump, CycleError>)
    ensures
        match outcome {
            Ok(dump) => acyclic(graph(views(recipes@))) && dump@ == dump_of(
                views(recipes@),
                views(ingredients@),
                views(labels@),
            ),
            Err(error) => !acyclic(graph(views(recipes@))) && is_stuck(
                graph(views(recipes@)),
                positions(error.stuck@),
            ),
        },
{
    let tiers = match recipe_tier_positions(recipes) {
        Ok(tiers) => tiers,
        Err(error) => {
            return Err(error);
        },
    };
    let ghost set = views(recipes@);
    let ghost places = tier_positions(tiers@);
    proof {
        lemma_tiering_unique(graph(set), places, tiering(graph(set)));
        assert(dump_keys(recipes@) =~= recipe_keys(set));
    }
    let mut ordered: Vec<Recipe> = Vec::new();
    let mut t: usize = 0;
    assert(places.take(0) =~= Seq::empty());
    while t < tiers.len()
        invariant
            t <= tiers.len(),
            set == views(recipes@),
            places == tier_positions(tiers@),
            is_tiering(graph(set), places),
            dump_keys(recipes@) == recipe_keys(set),
            views(ordered@) == recipes_in_order(set, places.take(t as int)),
        decreases tiers.len() - t,
    {
        let tier = &tiers[t];
        let ghost before = views(ordered@);
        proof {
            assert(places[t as int] == positions(tier@));
            assert forall|k: int| 0 <= k < tier.len() implies (#[trigger] tier[k])
                < recipes.len() by {
                assert(positions(tier@)[k] == tier[k]);
                assert(places[t as int].contains(tier[k] as int));
            }
        }
        let mut members = sort_members(recipes, tier);
        let ghost added = views(members@);
        ordered.append(&mut members);
        proof {
            let next = places.take(t as int + 1);
            assert(next.drop_last() =~= places.take(t as int));
            assert(next.last() == places[t as int]);
            assert(views(ordered@) =~= before + added);
        }
        t += 1;
    }
    assert(places.take(t as int) =~= places);
    let sorted_ingredients = sort_by_name(ingredients);
    let sorted_labels = sort_by_name(labels);
    proof {
        assert(dump_keys(ingredients@) =~= ingredient_keys(views(ingredients@)));
        assert(dump_keys(labels@) =~= label_keys(views(labels@)));
    }
    Ok(Datadump { recipes: ordered, ingredients: sorted_ingredients, labels: sorted_labels })
}

/// `entry` under the identifier that the table gives it, if it gives one.
pub open spec fn renamed(table: Map<Seq<char>, Seq<char>>, entry: EntryView) -> Option<EntryView> {
    if table.contains_key(entry.id) {
        Some(EntryView { id: table[entry.id], name: entry.name })
    } else {
        None
    }
}

/// `requirement` with its ingredient renamed, if the table knows it.
pub open spec fn renamed_requirement(
    table: Map<Seq<char>, Seq<char>>,
    requirement: RequirementView,
) -> Option<RequirementView> {
    match renamed(table, requirement.ingredient) {
        Some(ingredient) => Some(
            RequirementView {
                ingredient,
                quantity: requirement.quantity,
                optional: requirement.optional,
            },
        ),
        None => None,
    }
}

/// `dependency` with its recipe renamed, if the table knows it.
pub open spec fn renamed_dependency(
    table: Map<Seq<char>, Seq<char>>,
    dependency: DependencyView,
) -> Option<DependencyView> {
    match renamed(table, dependency.recipe) {
        Some(recipe) => Some(
            DependencyView { recipe, quantity: dependency.quantity, optional: dependency.optional },
        ),
        None => None,
    }
}

/// The requirements whose ingredient the table knows, renamed, in order.
pub open spec fn translated_requirements(
    table: Map<Seq<char>, Seq<char>>,
    requirements: Seq<RequirementView>,
) -> Seq<RequirementView> {
    requirements.filter_map(|r: RequirementView| renamed_requirement(table, r))
}

/// The dependencies whose recipe the table knows, renamed, in order.
pub open spec fn translated_dependencies(
    table: Map<Seq<char>, Seq<char>>,
    dependencies: Seq<DependencyView>,
) -> Seq<DependencyView> {
    dependencies.filter_map(|d: DependencyView| renamed_dependency(table, d))
}

/// The tags whose label the table knows, renamed, in order.
pub open spec fn translated_tags(table: Map<Seq<char>, Seq<char>>, tags: Seq<EntryView>) -> Seq<
    EntryView,
> {
    tags.filter_map(|tag: EntryView| renamed(table, tag))
}

/// Of the requirements that name one ingredient, the first.
pub open spec fn once_per_ingredient(requirements: Seq<RequirementView>) -> Seq<RequirementView> {
    first_of_each(requirements, |r: RequirementView| r.ingredient.id)
}

/// Of the dependencies that name one recipe, the first.
pub open spec fn once_per_recipe(dependencies: Seq<DependencyView>) -> Seq<DependencyView> {
    first_of_each(dependencies, |d: DependencyView| d.recipe.id)
}

/// Of the tags that name one label, the first.
pub open spec fn once_per_label(tags: Seq<EntryView>) -> Seq<EntryView> {
    first_of_each(tags, |tag: EntryView| tag.id)
}

/// The requirements of a recipe after rewriting: those whose ingredient the
/// table knows, renamed; where two come out under one identifier, the first
/// stays.
pub open spec fn renamed_requirements(
    table: Map<Seq<char>, Seq<char>>,
    requirements: Seq<RequirementView>,
) -> Seq<RequirementView> {
    once_per_ingredient(translated_requirements(table, requirements))
}

/// The dependencies of a recipe after rewriting: those whose recipe the
/// table knows, renamed; where two come out under one identifier, the first
/// stays.
pub open spec fn renamed_dependencies(
    table: Map<Seq<char>, Seq<char>>,
    dependencies: Seq<DependencyView>,
) -> Seq<DependencyView> {
    once_per_recipe(translated_dependencies(table, dependencies))
}

/// The tags of a recipe after rewriting: those whose label the table knows,
/// renamed; where two come out under one identifier, the first stays.
pub open spec fn renamed_tags(table: Map<Seq<char>, Seq<char>>, tags: Seq<EntryView>) -> Seq<
    EntryView,
> {
    once_per_label(translated_tags(table, tags))
}

/// `recipe` with every reference rewritten through the tables: a reference
/// that a table knows gets the identifier from the table, any other is left
/// out, and so is one that comes out under the identifier of an earlier
/// one. The recipe's own fields stay.
pub open spec fn stripped(
    recipe: RecipeView,
    recipes: Map<Seq<char>, Seq<char>>,
    ingredients: Map<Seq<char>, Seq<char>>,
    labels: Map<Seq<char>, Seq<char>>,
) -> RecipeView {
    RecipeView {
        requirements: renamed_requirements(ingredients, recipe.requirements),
        dependencies: renamed_dependencies(recipes, recipe.dependencies),
        tags: renamed_tags(labels, recipe.tags),
        ..recipe
    }
}

/// The names of the tags whose label the table does not know.
pub open spec fn unmapped_labels(table: Map<Seq<char>, Seq<char>>, tags: Seq<EntryView>) -> Seq<
    Seq<char>,
> {
    tags.filter_map(|tag: EntryView| unmapped(table, tag))
}

/// The names of the references that a rewriting left out of a recipe.
#[derive(Debug, PartialEq, Eq)]
pub struct Dropped {
    /// The ingredients of the requirements that were left out.
    pub ingredients: Vec<String>,
    /// The recipes of the dependencies that were left out.
    pub recipes: Vec<String>,
    /// The labels of the tags that were left out.
    pub labels: Vec<String>,
}

/// What a list of dropped references names.
pub struct DroppedView {
    pub ingredients: Seq<Seq<char>>,
    pub recipes: Seq<Seq<char>>,
    pub labels: Seq<Seq<char>>,
}

impl View for Dropped {
    type V = DroppedView;

    open spec fn view(&self) -> DroppedView {
        DroppedView {
            ingredients: views(self.ingredients@),
            recipes: views(self.recipes@),
            labels: views(self.labels@),
        }
    }
}

/// What rewriting `recipe` through the tables leaves out.
pub open spec fn dropped_of(
    recipe: RecipeView,
    recipes: Map<Seq<char>, Seq<char>>,
    ingredients: Map<Seq<char>, Seq<char>>,
    labels: Map<Seq<char>, Seq<char>>,
) -> DroppedView {
    DroppedView {
        ingredients: unmapped_ingredients(ingredients, recipe.requirements),
        recipes: unmapped_recipes(recipes, recipe.dependencies),
        labels: unmapped_labels(labels, recipe.tags),
    }
}

fn holds_ingredient(kept: &Vec<Requirement>, id: &str) -> (found: bool)
    ensures
        found == has_id(views(kept@), |r: RequirementView| r.ingredient.id, id@),
{
    let mut k: usize = 0;
    while k < kept.len()
        invariant
            k <= kept.len(),
            forall|m: int| 0 <= m < k ==> (#[trigger] views(kept@)[m]).ingredient.id != id@,
        decreases kept.len() - k,
    {
        if same_text(kept[k].ingredient.id.as_str(), id) {
            assert(views(kept@)[k as int].ingredient.id == id@);
            return true;
        }
        k += 1;
    }
    false
}

fn holds_recipe(kept: &Vec<Dependency>, id: &str) -> (found: bool)
    ensures
        found == has_id(views(kept@), |d: DependencyView| d.recipe.id, id@),
{
    let mut k: usize = 0;
    while k < kept.len()
        invariant
            k <= kept.len(),
            forall|m: int| 0 <= m < k ==> (#[trigger] views(kept@)[m]).recipe.id != id@,
        decreases kept.len() - k,
    {
        if same_text(kept[k].recipe.id.as_str(), id) {
            assert(views(kept@)[k as int].recipe.id == id@);
            return true;
        }
        k += 1;
    }
    false
}

fn holds_label(kept: &Vec<LabelIndex>, id: &str) -> (found: bool)
    ensures
        found == has_id(views(kept@), |tag: EntryView| tag.id, id@),
{
    let mut k: usize = 0;
    while k < kept.len()
        invariant
            k <= kept.len(),
            forall|m: int| 0 <= m < k ==> (#[trigger] views(kept@)[m]).id != id@,
        decreases kept.len() - k,
    {
        if same_text(kept[k].id.as_str(), id) {
            assert(views(kept@)[k as int].id == id@);
            return true;
        }
        k += 1;
    }
    false
}

fn rename_requirements(table: &TranslationTable, requirements: &Vec<Requirement>) -> (renamed: (
    Vec<Requirement>,
    Vec<String>,
))
    ensures
        views(renamed.0@) == renamed_requirements(table@, views(requirements@)),
        views(renamed.1@) == unmapped_ingredients(table@, views(requirements@)),
{
    let mut kept: Vec<Requirement> = Vec::new();
    let mut dropped: Vec<String> = Vec::new();
    let ghost all = views(requirements@);
    let mut i: usize = 0;
    assert(all.take(0) =~= Seq::empty());
    while i < requirements.len()
        invariant
            i <= requirements.len(),
            all == views(requirements@),
            views(kept@) == renamed_requirements(table@, all.take(i as int)),
            views(dropped@) == unmapped_ingredients(table@, all.take(i as int)),
        decreases requirements.len() - i,
    {
        let requirement = &requirements[i];
        let ghost before = views(kept@);
        let ghost before_dropped = views(dropped@);
        let ghost mapped = translated_requirements(table@, all.take(i as int));
        if let Some(replacement) = table.get(requirement.ingredient.id.as_str()) {
            let ghost renamed = renamed_requirement(table@, requirement@)->0;
            assert((mapped + seq![renamed]).drop_last() =~= mapped);
            if !holds_ingredient(&kept, replacement.as_str()) {
                kept.push(
                    Requirement {
                        ingredient: IngredientIndex {
                            id: replacement.clone(),
                            name: requirement.ingredient.name.clone(),
                        },
                        quantity: requirement.quantity.clone(),
                        optional: requirement.optional,
                    },
                );
                assert(views(kept@) =~= before.push(renamed));
            }
        } else {
            dropped.push(requirement.ingredient.name.clone());
            assert(views(dropped@) =~= before_dropped + seq![requirement.ingredient.name@]);
        }
        proof {
            let next = all.take(i as int + 1);
            assert(next.drop_last() =~= all.take(i as int));
            assert(next.last() == requirement@);
        }
        i += 1;
    }
    assert(all.take(i as int) =~= all);
    (kept, dropped)
}

fn rename_dependencies(table: &TranslationTable, dependencies: &Vec<Dependency>) -> (renamed: (
    Vec<Dependency>,
    Vec<String>,
))
    ensures
        views(renamed.0@) == renamed_dependencies(table@, views(dependencies@)),
        views(renamed.1@) == unmapped_recipes(table@, views(dependencies@)),
{
    let mut kept: Vec<Dependency> = Vec::new();
    let mut dropped: Vec<String> = Vec::new();
    let ghost all = views(dependencies@);
    let mut i: usize = 0;
    assert(all.take(0) =~= Seq::empty());
    while i < dependencies.len()
        invariant
            i <= dependencies.len(),
            all == views(dependencies@),
            views(kept@) == renamed_dependencies(table@, all.take(i as int)),
            views(dropped@) == unmapped_recipes(table@, all.take(i as int)),
        decreases dependencies.len() - i,
    {
        let dependency = &dependencies[i];
        let ghost before = views(kept@);
        let ghost before_dropped = views(dropped@);
        let ghost mapped = translated_dependencies(table@, all.take(i as int));
        if let Some(replacement) = table.get(dependency.recipe.id.as_str()) {
            let ghost renamed = renamed_dependency(table@, dependency@)->0;
            assert((mapped + seq![renamed]).drop_last() =~= mapped);
            if !holds_recipe(&kept, replacement.as_str()) {
                kept.push(
                    Dependency {
                        recipe: RecipeIndex {
                            id: replacement.clone(),
                            name: dependency.recipe.name.clone(),
                        },
                        quantity: dependency.quantity.clone(),
                        optional: dependency.optional,
                    },
                );
                assert(views(kept@) =~= before.push(renamed));
            }
        } else {
            dropped.push(dependency.recipe.name.clone());
            assert(views(dropped@) =~= before_dropped + seq![dependency.recipe.name@]);
        }
        proof {
            let next = all.take(i as int + 1);
            assert(next.drop_last() =~= all.take(i as int));
            assert(next.last() == dependency@);
        }
        i += 1;
    }
    assert(all.take(i as int) =~= all);
    (kept, dropped)
}

fn rename_tags(table: &TranslationTable, tags: &Vec<LabelIndex>) -> (renamed: (
    Vec<LabelIndex>,
    Vec<String>,
))
    ensures
        views(renamed.0@) == renamed_tags(table@, views(tags@)),
        views(renamed.1@) == unmapped_labels(table@, views(tags@)),
{
    let mut kept: Vec<LabelIndex> = Vec::new();
    let mut dropped: Vec<String> = Vec::new();
    let ghost all = views(tags@);
    let mut i: usize = 0;
    assert(all.take(0) =~= Seq::empty());
    while i < tags.len()
        invariant
            i <= tags.len(),
            all == views(tags@),
            views(kept@) == renamed_tags(table@, all.take(i as int)),
            views(dropped@) == unmapped_labels(table@, all.take(i as int)),
        decreases tags.len() - i,
    {
        let tag = &tags[i];
        let ghost before = views(kept@);
        let ghost before_dropped = views(dropped@);
        let ghost mapped = translated_tags(table@, all.take(i as int));
        if let Some(replacement) = table.get(tag.id.as_str()) {
            let ghost renamed = renamed(table@, tag@)->0;
            assert((mapped + seq![renamed]).drop_last() =~= mapped);
            if !holds_label(&kept, replacement.as_str()) {
                kept.push(LabelIndex { id: replacement.clone(), name: tag.name.clone() });
                assert(views(kept@) =~= before.push(renamed));
            }
        } else {
            dropped.push(tag.name.clone());
            assert(views(dropped@) =~= before_dropped + seq![tag.name@]);
        }
        proof {
            let next = all.take(i as int + 1);
            assert(next.drop_last() =~= all.take(i as int));
            assert(next.last() == tag@);
        }
        i += 1;
    }
    assert(all.take(i as int) =~= all);
    (kept, dropped)
}

/// What comes out of a rewriting names each ingredient, each recipe and
/// each label once at most.
pub proof fn lemma_stripped_refers_once(
    recipe: RecipeView,
    recipes: Map<Seq<char>, Seq<char>>,
    ingredients: Map<Seq<char>, Seq<char>>,
    labels: Map<Seq<char>, Seq<char>>,
)
    ensures
        stripped(recipe, recipes, ingredients, labels).refers_once(),
{
    let after = stripped(recipe, recipes, ingredients, labels);
    lemma_first_of_each_distinct(
        translated_requirements(ingredients, recipe.requirements),
        |r: RequirementView| r.ingredient.id,
    );
    lemma_first_of_each_distinct(
        translated_dependencies(recipes, recipe.dependencies),
        |d: DependencyView| d.recipe.id,
    );
    lemma_first_of_each_distinct(translated_tags(labels, recipe.tags), |tag: EntryView| tag.id);
    assert forall|i: int, j: int| 0 <= i < j < after.required().len() implies (
    #[trigger] after.required()[i]).id != (#[trigger] after.required()[j]).id by {
        assert(after.required()[i] == after.requirements[i].ingredient);
        assert(after.required()[j] == after.requirements[j].ingredient);
    }
    assert forall|i: int, j: int| 0 <= i < j < after.needed().len() implies (
    #[trigger] after.needed()[i]).id != (#[trigger] after.needed()[j]).id by {
        assert(after.needed()[i] == after.dependencies[i].recipe);
        assert(after.needed()[j] == after.dependencies[j].recipe);
    }
}

/// Rewrites the references of a recipe through the tables: each
/// requirement, dependency and tag whose target has an entry gets the
/// identifier from the table, and any other is dropped. Where two
/// references come out under one identifier, the first stays. What was
/// dropped for want of an entry is handed back by name. What comes out
/// names each ingredient, each recipe and each label once at most.
pub fn strip_ids(
    recipe: &mut Recipe,
    recipe_table: &TranslationTable,
    ingredient_table: &TranslationTable,
    label_table: &TranslationTable,
) -> (dropped: Dropped)
    ensures
        final(recipe)@ == stripped(
            old(recipe)@,
            recipe_table@,
            ingredient_table@,
            label_table@,
        ),
        dropped@ == dropped_of(old(recipe)@, recipe_table@, ingredient_table@, label_table@),
        final(recipe)@.refers_once(),
{
    proof {
        lemma_stripped_refers_once(recipe@, recipe_table@, ingredient_table@, label_table@);
    }
    let (requirements, ingredients) = rename_requirements(ingredient_table, &recipe.requirements);
    let (dependencies, recipes) = rename_dependencies(recipe_table, &recipe.dependencies);
    let (tags, labels) = rename_tags(label_table, &recipe.tags);
    recipe.requirements = requirements;
    recipe.dependencies = dependencies;
    recipe.tags = tags;
    Dropped { ingredients, recipes, labels }
}

/// The placeholder of the label at position `n`.
pub open spec fn label_placeholder(n: nat) -> Seq<char> {
    "__label_"@ + decimal(n)
}

/// The placeholder of the ingredient at position `n`.
pub open spec fn ingredient_placeholder(n: nat) -> Seq<char> {
    "__ingredient_"@ + decimal(n)
}

/// The placeholder of the recipe at position `n`.
pub open spec fn recipe_placeholder(n: nat) -> Seq<char> {
    "__recipe_"@ + decimal(n)
}

/// For each label, its identifier and its placeholder.
pub open spec fn label_pairs(labels: Seq<LabelView>) -> Seq<(Seq<char>, Seq<char>)> {
    Seq::new(labels.len(), |i: int| (labels[i].id, label_placeholder(i as nat)))
}

/// For each ingredient, its identifier and its placeholder.
pub open spec fn ingredient_pairs(ingredients: Seq<IngredientView>) -> Seq<
    (Seq<char>, Seq<char>),
> {
    Seq::new(ingredients.len(), |i: int| (ingredients[i].id, ingredient_placeholder(i as nat)))
}

/// For each recipe, its identifier and its placeholder.
pub open spec fn recipe_pairs(recipes: Seq<RecipeView>) -> Seq<(Seq<char>, Seq<char>)> {
    Seq::new(recipes.len(), |i: int| (recipes[i].id, recipe_placeholder(i as nat)))
}

/// The labels under their placeholders, with no recipe listed.
pub open spec fn stripped_labels(labels: Seq<LabelView>) -> Seq<LabelView> {
    Seq::new(
        labels.len(),
        |i: int|
            LabelView {
                id: label_placeholder(i as nat),
                name: labels[i].name,
                tagged_recipes: Seq::empty(),
            },
    )
}

/// The ingredients under their placeholders, with no recipe listed.
pub open spec fn stripped_ingredients(ingredients: Seq<IngredientView>) -> Seq<IngredientView> {
    Seq::new(
        ingredients.len(),
        |i: int|
            IngredientView {
                id: ingredient_placeholder(i as nat),
                name: ingredients[i].name,
                classifications: ingredients[i].classifications,
                used_in: Seq::empty(),
            },
    )
}

/// The recipe at position `i` under its placeholder, its references
/// rewritten. A dependency is rewritten through the placeholders of the
/// recipes that stand before the recipe, so that one on a recipe that stands
/// behind it, or on itself, is left out.
pub open spec fn stripped_recipe(
    recipes: Seq<RecipeView>,
    ingredients: Map<Seq<char>, Seq<char>>,
    labels: Map<Seq<char>, Seq<char>>,
    i: int,
) -> RecipeView {
    RecipeView {
        id: recipe_placeholder(i as nat),
        ..stripped(recipes[i], recorded(recipe_pairs(recipes).take(i)), ingredients, labels)
    }
}

/// The recipes under their placeholders, their references rewritten.
pub open spec fn stripped_recipes(
    recipes: Seq<RecipeView>,
    ingredients: Map<Seq<char>, Seq<char>>,
    labels: Map<Seq<char>, Seq<char>>,
) -> Seq<RecipeView> {
    Seq::new(recipes.len(), |i: int| stripped_recipe(recipes, ingredients, labels, i))
}

/// What stripping leaves out of the recipe at position `i`.
pub open spec fn dropped_at(
    recipes: Seq<RecipeView>,
    ingredients: Map<Seq<char>, Seq<char>>,
    labels: Map<Seq<char>, Seq<char>>,
    i: int,
) -> DroppedView {
    dropped_of(recipes[i], recorded(recipe_pairs(recipes).take(i)), ingredients, labels)
}

/// What stripping leaves out of each recipe of a snapshot, in order.
pub open spec fn dropped_by_strip(dump: DatadumpView) -> Seq<DroppedView> {
    Seq::new(
        dump.recipes.len(),
        |i: int|
            dropped_at(
                dump.recipes,
                recorded(ingredient_pairs(dump.ingredients)),
                recorded(label_pairs(dump.labels)),
                i,
            ),
    )
}

/// The snapshot with every identifier replaced by a placeholder.
pub open spec fn stripped_dump(dump: DatadumpView) -> DatadumpView {
    DatadumpView {
        recipes: stripped_recipes(
            dump.recipes,
            recorded(ingredient_pairs(dump.ingredients)),
            recorded(label_pairs(dump.labels)),
        ),
        ingredients: stripped_ingredients(dump.ingredients),
        labels: stripped_labels(dump.labels),
    }
}

fn strip_labels(labels: &Vec<Label>) -> (stripped: (Vec<Label>, TranslationTable))
    ensures
        views(stripped.0@) == stripped_labels(views(labels@)),
        stripped.1@ == recorded(label_pairs(views(labels@))),
{
    let mut kept: Vec<Label> = Vec::new();
    let mut table = TranslationTable::new();
    let ghost all = views(labels@);
    let mut i: usize = 0;
    assert(label_pairs(all).take(0) =~= Seq::empty());
    while i < labels.len()
        invariant
            i <= labels.len(),
            all == views(labels@),
            kept.len() == i,
            forall|k: int| 0 <= k < i ==> (#[trigger] kept[k])@ == stripped_labels(all)[k],
            table@ == recorded(label_pairs(all).take(i as int)),
        decreases labels.len() - i,
    {
        let id = numbered("__label_", i as u64);
        proof {
            let next = label_pairs(all).take(i as int + 1);
            assert(next.drop_last() =~= label_pairs(all).take(i as int));
            assert(next.last() == (labels[i as int].id@, id@));
        }
        table.insert(labels[i].id.clone(), id.clone());
        let label = Label { id, name: labels[i].name.clone(), tagged_recipes: Vec::new() };
        assert(label@.tagged_recipes =~= Seq::empty());
        kept.push(label);
        i += 1;
    }
    assert(label_pairs(all).take(i as int) =~= label_pairs(all));
    assert(views(kept@) =~= stripped_labels(all));
    (kept, table)
}

fn strip_ingredients(ingredients: &Vec<Ingredient>) -> (stripped: (
    Vec<Ingredient>,
    TranslationTable,
))
    ensures
        views(stripped.0@) == stripped_ingredients(views(ingredients@)),
        stripped.1@ == recorded(ingredient_pairs(views(ingredients@))),
{
    let mut kept: Vec<Ingredient> = Vec::new();
    let mut table = TranslationTable::new();
    let ghost all = views(ingredients@);
    let mut i: usize = 0;
    assert(ingredient_pairs(all).take(0) =~= Seq::empty());
    while i < ingredients.len()
        invariant
            i <= ingredients.len(),
            all == views(ingredients@),
            kept.len() == i,
            forall|k: int| 0 <= k < i ==> (#[trigger] kept[k])@ == stripped_ingredients(all)[k],
            table@ == recorded(ingredient_pairs(all).take(i as int)),
        decreases ingredients.len() - i,
    {
        let id = numbered("__ingredient_", i as u64);
        proof {
            let next = ingredient_pairs(all).take(i as int + 1);
            assert(next.drop_last() =~= ingredient_pairs(all).take(i as int));
            assert(next.last() == (ingredients[i as int].id@, id@));
        }
        table.insert(ingredients[i].id.clone(), id.clone());
        let ingredient = Ingredient {
            id,
            name: ingredients[i].name.clone(),
            classifications: ingredients[i].classifications,
            used_in: Vec::new(),
        };
        assert(ingredient@.used_in =~= Seq::empty());
        kept.push(ingredient);
        i += 1;
    }
    assert(ingredient_pairs(all).take(i as int) =~= ingredient_pairs(all));
    assert(views(kept@) =~= stripped_ingredients(all));
    (kept, table)
}

fn strip_recipes(
    recipes: &Vec<Recipe>,
    ingredient_table: &TranslationTable,
    label_table: &TranslationTable,
) -> (stripped: (Vec<Recipe>, Vec<Dropped>))
    ensures
        views(stripped.0@) == stripped_recipes(views(recipes@), ingredient_table@, label_table@),
        stripped.1.len() == recipes.len(),
        forall|k: int|
            0 <= k < recipes.len() ==> (#[trigger] stripped.1[k])@ == dropped_at(
                views(recipes@),
                ingredient_table@,
                label_table@,
                k,
            ),
{
    let mut kept: Vec<Recipe> = Vec::new();
    let mut left_out: Vec<Dropped> = Vec::new();
    let mut table = TranslationTable::new();
    let ghost all = views(recipes@);
    let mut i: usize = 0;
    assert(recipe_pairs(all).take(0) =~= Seq::empty());
    while i < recipes.len()
        invariant
            i <= recipes.len(),
            all == views(recipes@),
            kept.len() == i,
            left_out.len() == i,
            forall|k: int|
                0 <= k < i ==> (#[trigger] kept[k])@ == stripped_recipe(
                    all,
                    ingredient_table@,
                    label_table@,
                    k,
                ),
            forall|k: int|
                0 <= k < i ==> (#[trigger] left_out[k])@ == dropped_at(
                    all,
                    ingredient_table@,
                    label_table@,
                    k,
                ),
            table@ == recorded(recipe_pairs(all).take(i as int)),
        decreases recipes.len() - i,
    {
        let id = numbered("__recipe_", i as u64);
        let mut recipe = recipes[i].duplicate();
        let dropped = strip_ids(&mut recipe, &table, ingredient_table, label_table);
        proof {
            let next = recipe_pairs(all).take(i as int + 1);
            assert(next.drop_last() =~= recipe_pairs(all).take(i as int));
            assert(next.last() == (recipes[i as int].id@, id@));
        }
        table.insert(recipes[i].id.clone(), id.clone());
        recipe.id = id;
        kept.push(recipe);
        left_out.push(dropped);
        i += 1;
    }
    assert(views(kept@) =~= stripped_recipes(all, ingredient_table@, label_table@));
    (kept, left_out)
}

impl Datadump {
    /// Replaces every identifier of the snapshot by a placeholder: the
    /// labels, the ingredients and the recipes are numbered, each kind by
    /// itself, in the order in which they stand. Every reference of a recipe
    /// is rewritten to the placeholder of its target, and dropped where the
    /// target has none. The lists of the recipes that refer to a label or to
    /// an ingredient are emptied. Hands back, for each recipe in order, the
    /// names of the references that it lost.
    pub fn strip(&mut self) -> (dropped: Vec<Dropped>)
        ensures
            final(self)@ == stripped_dump(old(self)@),
            views(dropped@) == dropped_by_strip(old(self)@),
    {
        let (labels, label_table) = strip_labels(&self.labels);
        let (ingredients, ingredient_table) = strip_ingredients(&self.ingredients);
        let (recipes, dropped) = strip_recipes(&self.recipes, &ingredient_table, &label_table);
        assert(views(dropped@) =~= dropped_by_strip(self@));
        self.labels = labels;
        self.ingredients = ingredients;
        self.recipes = recipes;
        dropped
    }
}

/// Where each recipe of `a` stands in `b`, for two lists that hold the same
/// recipes, each once.
proof fn lemma_rearrangement(a: Seq<RecipeView>, b: Seq<RecipeView>) -> (to: Seq<int>)
    requires
        a.to_multiset() == b.to_multiset(),
        a.no_duplicates(),
    ensures
        rearranges(a, b, to),
        b.no_duplicates(),
{
    broadcast use group_to_multiset_ensures;

    assert(a.len() == a.to_multiset().len());
    assert(b.len() == b.to_multiset().len());
    a.lemma_multiset_has_no_duplicates();
    b.lemma_multiset_has_no_duplicates_conv();
    let to = Seq::new(a.len(), |i: int| b.index_of(a[i]));
    assert forall|i: int| 0 <= i < a.len() implies 0 <= #[trigger] to[i] < b.len() && b[to[i]]
        == a[i] by {
        assert(a.contains(a[i]));
        assert(b.to_multiset().count(a[i]) > 0);
        assert(b.contains(a[i]));
    }
    assert forall|j: int| 0 <= j < b.len() implies #[trigger] to.contains(j) by {
        assert(b.contains(b[j]));
        assert(a.to_multiset().count(b[j]) > 0);
        assert(a.contains(b[j]));
        let i = choose|i: int| 0 <= i < a.len() && a[i] == b[j];
        assert(b[to[i]] == b[j]);
        assert(to[i] == j);
    }
    to
}

/// Two lists without repetitions that have the same members hold the same
/// items.
proof fn lemma_same_members<V>(x: Seq<V>, y: Seq<V>)
    requires
        x.no_duplicates(),
        y.no_duplicates(),
        forall|v: V| x.contains(v) <==> y.contains(v),
    ensures
        x.to_multiset() == y.to_multiset(),
{
    broadcast use group_to_multiset_ensures;

    x.lemma_multiset_has_no_duplicates();
    y.lemma_multiset_has_no_duplicates();
    assert forall|v: V| x.to_multiset().count(v) == y.to_multiset().count(v) by {
        assert(x.contains(v) <==> x.to_multiset().count(v) > 0);
        assert(y.contains(v) <==> y.to_multiset().count(v) > 0);
        if x.contains(v) {
            assert(x.to_multiset().contains(v));
            assert(y.to_multiset().contains(v));
        }
    }
    assert(x.to_multiset() =~= y.to_multiset());
}

/// A tier comes out in the same order wherever its recipes stand in the
/// list, where no two recipes have names with the same key.
proof fn lemma_tier_rearranged(
    a: Seq<RecipeView>,
    b: Seq<RecipeView>,
    to: Seq<int>,
    tier_a: Seq<int>,
    tier_b: Seq<int>,
)
    requires
        rearranges(a, b, to),
        unique_recipes(a),
        ascending(tier_a),
        ascending(tier_b),
        forall|k: int| 0 <= k < tier_a.len() ==> 0 <= #[trigger] tier_a[k] < a.len(),
        forall|k: int| 0 <= k < tier_b.len() ==> 0 <= #[trigger] tier_b[k] < b.len(),
        forall|i: int|
            0 <= i < a.len() ==> (tier_a.contains(i) <==> tier_b.contains(#[trigger] to[i])),
    ensures
        tier_by_name(a, tier_a) == tier_by_name(b, tier_b),
{
    let key = |r: RecipeView| dump_key(r.name, r.id);
    let xa = arranged(a, tier_a);
    let xb = arranged(b, tier_b);
    let keys = recipe_keys(a);
    lemma_recipe_keys_differ(a);
    assert forall|i: int, j: int| 0 <= i < a.len() && 0 <= j < a.len() && i != j implies a[i]
        != a[j] by {
        if i < j {
            assert(a[i].id != a[j].id);
        } else {
            assert(a[j].id != a[i].id);
        }
    }
    assert forall|i: int, j: int| 0 <= i < b.len() && 0 <= j < b.len() && i != j implies b[i]
        != b[j] by {
        assert(to.contains(i) && to.contains(j));
        let m = choose|m: int| 0 <= m < to.len() && to[m] == i;
        let n = choose|n: int| 0 <= n < to.len() && to[n] == j;
        assert(b[to[m]] == a[m] && b[to[n]] == a[n]);
    }
    assert(xa.no_duplicates()) by {
        assert forall|i: int, j: int|
            0 <= i < xa.len() && 0 <= j < xa.len() && i != j implies xa[i] != xa[j] by {
            if i < j {
                assert(tier_a[i] < tier_a[j]);
            } else {
                assert(tier_a[j] < tier_a[i]);
            }
        }
    }
    assert(xb.no_duplicates()) by {
        assert forall|i: int, j: int|
            0 <= i < xb.len() && 0 <= j < xb.len() && i != j implies xb[i] != xb[j] by {
            if i < j {
                assert(tier_b[i] < tier_b[j]);
            } else {
                assert(tier_b[j] < tier_b[i]);
            }
        }
    }
    assert forall|v: RecipeView| xa.contains(v) <==> xb.contains(v) by {
        if xa.contains(v) {
            let k = choose|k: int| 0 <= k < xa.len() && xa[k] == v;
            let i = tier_a[k];
            assert(tier_a.contains(i));
            assert(tier_b.contains(to[i]));
            let m = choose|m: int| 0 <= m < tier_b.len() && tier_b[m] == to[i];
            assert(xb[m] == v);
        }
        if xb.contains(v) {
            let m = choose|m: int| 0 <= m < xb.len() && xb[m] == v;
            let j = tier_b[m];
            assert(to.contains(j));
            let i = choose|i: int| 0 <= i < to.len() && to[i] == j;
            assert(tier_b.contains(to[i]));
            assert(tier_a.contains(i));
            let k = choose|k: int| 0 <= k < tier_a.len() && tier_a[k] == i;
            assert(xa[k] == v);
        }
    }
    lemma_same_members(xa, xb);
    assert(xa.map_values(key) =~= arranged(recipe_keys(a), tier_a));
    assert(xb.map_values(key) =~= arranged(recipe_keys(b), tier_b));
    let tier_keys = xa.map_values(key);
    assert forall|i: int, j: int| 0 <= i < j < tier_keys.len() implies tier_keys[i]
        != tier_keys[j] by {
        assert(tier_keys[i] == keys[tier_a[i]] && tier_keys[j] == keys[tier_a[j]]);
        assert(tier_a[i] < tier_a[j]);
    }
    lemma_sorted_ignores_order(xa, xb, key);
}

/// The recipes of a snapshot come out in the same order wherever they stand
/// in the list.
proof fn lemma_recipes_rearranged(
    a: Seq<RecipeView>,
    b: Seq<RecipeView>,
    to: Seq<int>,
    ta: Seq<Seq<int>>,
    tb: Seq<Seq<int>>,
    count: int,
)
    requires
        rearranges(a, b, to),
        unique_recipes(a),
        is_tiering(graph(a), ta),
        is_tiering(graph(b), tb),
        0 <= count <= ta.len(),
    ensures
        ta.len() == tb.len(),
        recipes_in_order(a, ta.take(count)) == recipes_in_order(b, tb.take(count)),
    decreases count,
{
    lemma_tiers_rearranged(a, b, to, ta, tb);
    if count == 0 {
        assert(ta.take(0) =~= Seq::empty());
        assert(tb.take(0) =~= Seq::empty());
    } else {
        lemma_recipes_rearranged(a, b, to, ta, tb, count - 1);
        let t = count - 1;
        assert(ta.take(count).drop_last() =~= ta.take(t));
        assert(tb.take(count).drop_last() =~= tb.take(t));
        assert(ta.take(count).last() == ta[t]);
        assert(tb.take(count).last() == tb[t]);
        assert forall|k: int| 0 <= k < ta[t].len() implies 0 <= #[trigger] ta[t][k] < a.len() by {
            assert(ta[t].contains(ta[t][k]));
            assert(in_tier(graph(a), t as nat, ta[t][k]));
        }
        assert forall|k: int| 0 <= k < tb[t].len() implies 0 <= #[trigger] tb[t][k] < b.len() by {
            assert(tb[t].contains(tb[t][k]));
            assert(in_tier(graph(b), t as nat, tb[t][k]));
        }
        lemma_tier_rearranged(a, b, to, ta[t], tb[t]);
    }
}

/// A snapshot does not depend on the order in which the records arrived.
/// Where two runs fetched the same recipes, the same ingredients and the
/// same labels, each in whatever order, the two snapshots are the same, and
/// so are the two stripped snapshots, placeholder for placeholder. This
/// holds where no recipes depend on each other in a circle and, within a
/// kind, no two records have the same identifier, which is what `gather`
/// leaves.
pub proof fn lemma_dump_ignores_arrival_order(
    recipes: Seq<RecipeView>,
    ingredients: Seq<IngredientView>,
    labels: Seq<LabelView>,
    other_recipes: Seq<RecipeView>,
    other_ingredients: Seq<IngredientView>,
    other_labels: Seq<LabelView>,
)
    requires
        recipes.to_multiset() == other_recipes.to_multiset(),
        ingredients.to_multiset() == other_ingredients.to_multiset(),
        labels.to_multiset() == other_labels.to_multiset(),
        unique_recipes(recipes),
        unique_ingredients(ingredients),
        unique_labels(labels),
        acyclic(graph(recipes)),
    ensures
        dump_of(recipes, ingredients, labels) == dump_of(
            other_recipes,
            other_ingredients,
            other_labels,
        ),
        stripped_dump(dump_of(recipes, ingredients, labels)) == stripped_dump(
            dump_of(other_recipes, other_ingredients, other_labels),
        ),
        dropped_by_strip(dump_of(recipes, ingredients, labels)) == dropped_by_strip(
            dump_of(other_recipes, other_ingredients, other_labels),
        ),
{
    assert(recipes.no_duplicates()) by {
        assert forall|i: int, j: int|
            0 <= i < recipes.len() && 0 <= j < recipes.len() && i != j implies recipes[i]
            != recipes[j] by {
            if i < j {
                assert(recipes[i].id != recipes[j].id);
            } else {
                assert(recipes[j].id != recipes[i].id);
            }
        }
    }
    let to = lemma_rearrangement(recipes, other_recipes);
    lemma_acyclic_rearranged(recipes, other_recipes, to);
    lemma_acyclic_has_tiering(graph(recipes));
    lemma_acyclic_has_tiering(graph(other_recipes));
    let ta = tiering(graph(recipes));
    let tb = tiering(graph(other_recipes));
    lemma_recipes_rearranged(recipes, other_recipes, to, ta, tb, ta.len() as int);
    assert(ta.take(ta.len() as int) =~= ta);
    assert(tb.take(tb.len() as int) =~= tb);
    let ingredient_key = |i: IngredientView| dump_key(i.name, i.id);
    assert(distinct_keys(ingredients.map_values(ingredient_key))) by {
        assert forall|i: int, j: int| 0 <= i < j < ingredients.len() implies dump_key(
            ingredients[i].name,
            ingredients[i].id,
        ) != dump_key(ingredients[j].name, ingredients[j].id) by {
            if encode_utf8(ingredients[i].id) == encode_utf8(ingredients[j].id) {
                lemma_bytes_tell_texts_apart(ingredients[i].id, ingredients[j].id);
            }
        }
    }
    lemma_sorted_ignores_order(ingredients, other_ingredients, ingredient_key);
    assert(ingredients.map_values(ingredient_key) =~= ingredient_keys(ingredients));
    assert(other_ingredients.map_values(ingredient_key) =~= ingredient_keys(other_ingredients));
    let label_key = |l: LabelView| dump_key(l.name, l.id);
    assert(distinct_keys(labels.map_values(label_key))) by {
        assert forall|i: int, j: int| 0 <= i < j < labels.len() implies dump_key(
            labels[i].name,
            labels[i].id,
        ) != dump_key(labels[j].name, labels[j].id) by {
            if encode_utf8(labels[i].id) == encode_utf8(labels[j].id) {
                lemma_bytes_tell_texts_apart(labels[i].id, labels[j].id);
            }
        }
    }
    lemma_sorted_ignores_order(labels, other_labels, label_key);
    assert(labels.map_values(label_key) =~= label_keys(labels));
    assert(other_labels.map_values(label_key) =~= label_keys(other_labels));
}

/// Recipes with different identifiers have different sort keys.
proof fn lemma_recipe_keys_differ(recipes: Seq<RecipeView>)
    requires
        unique_recipes(recipes),
    ensures
        distinct_keys(recipe_keys(recipes)),
{
    assert forall|i: int, j: int| 0 <= i < j < recipes.len() implies recipe_keys(recipes)[i]
        != recipe_keys(recipes)[j] by {
        if encode_utf8(recipes[i].id) == encode_utf8(recipes[j].id) {
            lemma_bytes_tell_texts_apart(recipes[i].id, recipes[j].id);
        }
    }
}

/// Every recipe of a stripped snapshot names each ingredient, each recipe
/// and each label once at most.
pub proof fn lemma_stripped_dump_refers_once(dump: DatadumpView, i: int)
    requires
        0 <= i < dump.recipes.len(),
    ensures
        stripped_dump(dump).recipes[i].refers_once(),
{
    let ingredients = recorded(ingredient_pairs(dump.ingredients));
    let labels = recorded(label_pairs(dump.labels));
    let recipes = recorded(recipe_pairs(dump.recipes).take(i));
    let plain = stripped(dump.recipes[i], recipes, ingredients, labels);
    let named = stripped_dump(dump).recipes[i];
    lemma_stripped_refers_once(dump.recipes[i], recipes, ingredients, labels);
    assert(named.required() == plain.required());
    assert(named.needed() == plain.needed());
    assert(named.tags == plain.tags);
}

} // verus!
