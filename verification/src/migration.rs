//! Replaying a recipe graph onto another service.
//!
//! A run creates the ingredients first and records which identifier each got,
//! then walks the recipes tier by tier: it creates the recipes of a tier,
//! attaches to each what it carries, and only then records the identifiers of
//! that tier, so that a dependency is attached only to a recipe of an earlier
//! tier. A reference whose target has no entry in the tables is left out and
//! reported by name; the run goes on.

use crate::gateway::{
    dependency_create, dependency_create_request, ingredient_create, ingredient_create_request,
    recipe_create, recipe_create_request, recipe_tag, recipe_tag_request, requirement_create,
    requirement_create_request, Request, RequestView,
};
use crate::models::{
    views, Dependency, DependencyView, EntryView, Ingredient, IngredientIndex, IngredientView,
    LabelIndex, Recipe, RecipeView, Requirement, RequirementView,
};
use crate::order::arranged;
use crate::tables::{
    extended, lemma_extended_domain, lemma_translations_sources, translations, TranslationTable,
};
use crate::tiers::{
    acyclic, graph, in_tier, is_stuck, is_tiering, lemma_acyclic_has_tiering, lemma_placed_grows,
    lemma_tiering_unique, lemma_tiers_count, place_count, placed_before, positions,
    recipe_tier_positions, tier_positions, tiering, CycleError,
};
use vstd::prelude::*;

verus! {

/// A request that attaches something to a recipe, with the name of what it
/// attaches.
#[derive(Debug, PartialEq, Eq)]
pub struct Attachment {
    pub subject: String,
    pub request: Request,
}

/// What an attachment holds.
pub struct AttachmentView {
    pub subject: Seq<char>,
    pub request: RequestView,
}

impl View for Attachment {
    type V = AttachmentView;

    open spec fn view(&self) -> AttachmentView {
        AttachmentView { subject: self.subject@, request: self.request@ }
    }
}

/// What is left to do for a recipe once the destination has created it.
#[derive(Debug, PartialEq, Eq)]
pub struct Attachments {
    /// The name of the recipe.
    pub recipe: String,
    /// One request per tag of the recipe.
    pub tags: Vec<Attachment>,
    /// One request per requirement whose ingredient the destination has.
    pub requirements: Vec<Attachment>,
    /// One request per dependency on a recipe that the destination has.
    pub dependencies: Vec<Attachment>,
    /// The names of the ingredients that the destination lacks.
    pub unmapped_ingredients: Vec<String>,
    /// The names of the required recipes that the destination lacks.
    pub unmapped_recipes: Vec<String>,
}

/// What is planned for a recipe.
pub struct AttachmentsView {
    pub recipe: Seq<char>,
    pub tags: Seq<AttachmentView>,
    pub requirements: Seq<AttachmentView>,
    pub dependencies: Seq<AttachmentView>,
    pub unmapped_ingredients: Seq<Seq<char>>,
    pub unmapped_recipes: Seq<Seq<char>>,
}

impl View for Attachments {
    type V = AttachmentsView;

    open spec fn view(&self) -> AttachmentsView {
        AttachmentsView {
            recipe: self.recipe@,
            tags: views(self.tags@),
            requirements: views(self.requirements@),
            dependencies: views(self.dependencies@),
            unmapped_ingredients: views(self.unmapped_ingredients@),
            unmapped_recipes: views(self.unmapped_recipes@),
        }
    }
}

/// The request that tags the recipe `remote_id` like `tag`. The destination
/// finds or creates the label by its name.
pub open spec fn tag_attachment(
    remote: Seq<char>,
    remote_id: Seq<char>,
    tag: EntryView,
) -> AttachmentView {
    AttachmentView { subject: tag.name, request: recipe_tag_request(remote, remote_id, tag.name) }
}

/// The request that gives the recipe `remote_id` the requirement
/// `requirement`, if the table knows the ingredient.
pub open spec fn requirement_attachment(
    remote: Seq<char>,
    remote_id: Seq<char>,
    ingredients: Map<Seq<char>, Seq<char>>,
    requirement: RequirementView,
) -> Option<AttachmentView> {
    if ingredients.contains_key(requirement.ingredient.id) {
        Some(
            AttachmentView {
                subject: requirement.ingredient.name,
                request: requirement_create_request(
                    remote,
                    remote_id,
                    ingredients[requirement.ingredient.id],
                    requirement.quantity,
                    requirement.optional,
                ),
            },
        )
    } else {
        None
    }
}

/// The request that gives the recipe `remote_id` the dependency
/// `dependency`, if the table knows the required recipe.
pub open spec fn dependency_attachment(
    remote: Seq<char>,
    remote_id: Seq<char>,
    recipes: Map<Seq<char>, Seq<char>>,
    dependency: DependencyView,
) -> Option<AttachmentView> {
    if recipes.contains_key(dependency.recipe.id) {
        Some(
            AttachmentView {
                subject: dependency.recipe.name,
                request: dependency_create_request(
                    remote,
                    remote_id,
                    recipes[dependency.recipe.id],
                    dependency.quantity,
                    dependency.optional,
                ),
            },
        )
    } else {
        None
    }
}

/// The name of `entry`, if the table does not know it.
pub open spec fn unmapped(table: Map<Seq<char>, Seq<char>>, entry: EntryView) -> Option<Seq<char>> {
    if table.contains_key(entry.id) {
        None
    } else {
        Some(entry.name)
    }
}

/// One request per tag, in order.
pub open spec fn tag_attachments(
    remote: Seq<char>,
    remote_id: Seq<char>,
    tags: Seq<EntryView>,
) -> Seq<AttachmentView> {
    tags.map_values(|tag: EntryView| tag_attachment(remote, remote_id, tag))
}

/// One request per requirement whose ingredient the table knows, in order.
pub open spec fn requirement_attachments(
    remote: Seq<char>,
    remote_id: Seq<char>,
    ingredients: Map<Seq<char>, Seq<char>>,
    requirements: Seq<RequirementView>,
) -> Seq<AttachmentView> {
    requirements.filter_map(
        |r: RequirementView| requirement_attachment(remote, remote_id, ingredients, r),
    )
}

/// One request per dependency whose recipe the table knows, in order.
pub open spec fn dependency_attachments(
    remote: Seq<char>,
    remote_id: Seq<char>,
    recipes: Map<Seq<char>, Seq<char>>,
    dependencies: Seq<DependencyView>,
) -> Seq<AttachmentView> {
    dependencies.filter_map(
        |d: DependencyView| dependency_attachment(remote, remote_id, recipes, d),
    )
}

/// The names of the ingredients of the requirements that the table does not
/// know, in order.
pub open spec fn unmapped_ingredients(
    ingredients: Map<Seq<char>, Seq<char>>,
    requirements: Seq<RequirementView>,
) -> Seq<Seq<char>> {
    requirements.filter_map(|r: RequirementView| unmapped(ingredients, r.ingredient))
}

/// The names of the recipes of the dependencies that the table does not
/// know, in order.
pub open spec fn unmapped_recipes(
    recipes: Map<Seq<char>, Seq<char>>,
    dependencies: Seq<DependencyView>,
) -> Seq<Seq<char>> {
    dependencies.filter_map(|d: DependencyView| unmapped(recipes, d.recipe))
}

/// What `recipe_clone` plans for a recipe and two tables.
pub open spec fn recipe_clone_plan(
    remote: Seq<char>,
    recipe: RecipeView,
    remote_id: Seq<char>,
    ingredients: Map<Seq<char>, Seq<char>>,
    recipes: Map<Seq<char>, Seq<char>>,
) -> AttachmentsView {
    AttachmentsView {
        recipe: recipe.name,
        tags: tag_attachments(remote, remote_id, recipe.tags),
        requirements: requirement_attachments(remote, remote_id, ingredients, recipe.requirements),
        dependencies: dependency_attachments(remote, remote_id, recipes, recipe.dependencies),
        unmapped_ingredients: unmapped_ingredients(ingredients, recipe.requirements),
        unmapped_recipes: unmapped_recipes(recipes, recipe.dependencies),
    }
}

fn plan_tags(remote: &str, remote_id: &str, tags: &Vec<LabelIndex>) -> (planned: Vec<Attachment>)
    ensures
        views(planned@) == tag_attachments(remote@, remote_id@, views(tags@)),
{
    let mut planned: Vec<Attachment> = Vec::new();
    let mut i: usize = 0;
    while i < tags.len()
        invariant
            i <= tags.len(),
            planned.len() == i,
            forall|k: int|
                0 <= k < i ==> (#[trigger] planned[k])@ == tag_attachment(
                    remote@,
                    remote_id@,
                    tags[k]@,
                ),
        decreases tags.len() - i,
    {
        let tag = &tags[i];
        planned.push(
            Attachment {
                subject: tag.name.clone(),
                request: recipe_tag(remote, remote_id, tag.name.as_str()),
            },
        );
        i += 1;
    }
    assert(views(planned@) =~= tag_attachments(remote@, remote_id@, views(tags@)));
    planned
}

fn plan_requirements(
    remote: &str,
    remote_id: &str,
    ingredients: &TranslationTable,
    requirements: &Vec<Requirement>,
) -> (planned: (Vec<Attachment>, Vec<String>))
    ensures
        views(planned.0@) == requirement_attachments(
            remote@,
            remote_id@,
            ingredients@,
            views(requirements@),
        ),
        views(planned.1@) == unmapped_ingredients(ingredients@, views(requirements@)),
{
    let mut kept: Vec<Attachment> = Vec::new();
    let mut dropped: Vec<String> = Vec::new();
    let ghost all = views(requirements@);
    let mut i: usize = 0;
    assert(all.take(0) =~= Seq::empty());
    while i < requirements.len()
        invariant
            i <= requirements.len(),
            all == views(requirements@),
            views(kept@) == requirement_attachments(
                remote@,
                remote_id@,
                ingredients@,
                all.take(i as int),
            ),
            views(dropped@) == unmapped_ingredients(ingredients@, all.take(i as int)),
        decreases requirements.len() - i,
    {
        let requirement = &requirements[i];
        let ghost before_kept = views(kept@);
        let ghost before_dropped = views(dropped@);
        match ingredients.get(requirement.ingredient.id.as_str()) {
            Some(remote_ingredient) => {
                kept.push(
                    Attachment {
                        subject: requirement.ingredient.name.clone(),
                        request: requirement_create(
                            remote,
                            remote_id,
                            remote_ingredient.as_str(),
                            requirement.quantity.as_str(),
                            requirement.optional,
                        ),
                    },
                );
                assert(views(kept@) =~= before_kept + seq![kept[kept.len() - 1]@]);
            },
            None => {
                dropped.push(requirement.ingredient.name.clone());
                assert(views(dropped@) =~= before_dropped + seq![requirement.ingredient.name@]);
            },
        }
        proof {
            let next = all.take(i as int + 1);
            assert(next.drop_last() =~= all.take(i as int));
            assert(next.last() == requirement@);
        }
        i += 1;
    }
    assert(all.take(i as int) =~= all);
    (kept, dropped)
}

fn plan_dependencies(
    remote: &str,
    remote_id: &str,
    recipes: &TranslationTable,
    dependencies: &Vec<Dependency>,
) -> (planned: (Vec<Attachment>, Vec<String>))
    ensures
        views(planned.0@) == dependency_attachments(
            remote@,
            remote_id@,
            recipes@,
            views(dependencies@),
        ),
        views(planned.1@) == unmapped_recipes(recipes@, views(dependencies@)),
{
    let mut kept: Vec<Attachment> = Vec::new();
    let mut dropped: Vec<String> = Vec::new();
    let ghost all = views(dependencies@);
    let mut i: usize = 0;
    assert(all.take(0) =~= Seq::empty());
    while i < dependencies.len()
        invariant
            i <= dependencies.len(),
            all == views(dependencies@),
            views(kept@) == dependency_attachments(
                remote@,
                remote_id@,
                recipes@,
                all.take(i as int),
            ),
            views(dropped@) == unmapped_recipes(recipes@, all.take(i as int)),
        decreases dependencies.len() - i,
    {
        let dependency = &dependencies[i];
        let ghost before_kept = views(kept@);
        let ghost before_dropped = views(dropped@);
        match recipes.get(dependency.recipe.id.as_str()) {
            Some(remote_recipe) => {
                kept.push(
                    Attachment {
                        subject: dependency.recipe.name.clone(),
                        request: dependency_create(
                            remote,
                            remote_id,
                            remote_recipe.as_str(),
                            dependency.quantity.as_str(),
                            dependency.optional,
                        ),
                    },
                );
                assert(views(kept@) =~= before_kept + seq![kept[kept.len() - 1]@]);
            },
            None => {
                dropped.push(dependency.recipe.name.clone());
                assert(views(dropped@) =~= before_dropped + seq![dependency.recipe.name@]);
            },
        }
        proof {
            let next = all.take(i as int + 1);
            assert(next.drop_last() =~= all.take(i as int));
            assert(next.last() == dependency@);
        }
        i += 1;
    }
    assert(all.take(i as int) =~= all);
    (kept, dropped)
}

/// Plans what to attach to a recipe that the destination has just created
/// under the identifier `remote_id`: its tags by name, its requirements with
/// the ingredients' identifiers translated, and its dependencies with the
/// required recipes' identifiers translated. A requirement or dependency
/// whose target is in no table is left out and named in the result.
pub fn recipe_clone(
    remote: &str,
    recipe: &Recipe,
    remote_id: &str,
    ingredient_table: &TranslationTable,
    recipe_table: &TranslationTable,
) -> (steps: Attachments)
    ensures
        steps@ == recipe_clone_plan(
            remote@,
            recipe@,
            remote_id@,
            ingredient_table@,
            recipe_table@,
        ),
{
    let tags = plan_tags(remote, remote_id, &recipe.tags);
    let (requirements, unmapped_ingredients) = plan_requirements(
        remote,
        remote_id,
        ingredient_table,
        &recipe.requirements,
    );
    let (dependencies, unmapped_recipes) = plan_dependencies(
        remote,
        remote_id,
        recipe_table,
        &recipe.dependencies,
    );
    Attachments {
        recipe: recipe.name.clone(),
        tags,
        requirements,
        dependencies,
        unmapped_ingredients,
        unmapped_recipes,
    }
}

/// The request that creates `ingredient` on the destination, with its name
/// and flags.
pub open spec fn ingredient_creation(remote: Seq<char>, ingredient: IngredientView) -> RequestView {
    ingredient_create_request(
        remote,
        ingredient.name,
        ingredient.classifications.dairy,
        ingredient.classifications.meat,
        ingredient.classifications.gluten,
        ingredient.classifications.animal_product,
    )
}

/// The request that creates `recipe` on the destination, with its name,
/// author, directions and information as they are.
pub open spec fn recipe_creation(remote: Seq<char>, recipe: RecipeView) -> RequestView {
    recipe_create_request(
        remote,
        recipe.name,
        recipe.author,
        recipe.directions,
        recipe.information,
    )
}

/// The identifiers of a list of ingredients, in order.
pub open spec fn ingredient_ids(ingredients: Seq<IngredientView>) -> Seq<Seq<char>> {
    ingredients.map_values(|i: IngredientView| i.id)
}

/// The identifiers of a list of recipes, in order.
pub open spec fn recipe_ids(recipes: Seq<RecipeView>) -> Seq<Seq<char>> {
    recipes.map_values(|r: RecipeView| r.id)
}

/// The identifiers that the destination returned for a list of ingredient
/// creations; `None` stands for a creation that failed.
pub open spec fn created_ingredient_ids(created: Seq<Option<IngredientIndex>>) -> Seq<
    Option<Seq<char>>,
> {
    created.map_values(
        |c: Option<IngredientIndex>|
            match c {
                Some(index) => Some(index.id@),
                None => None,
            },
    )
}

/// The identifiers that the destination returned for a list of recipe
/// creations; `None` stands for a creation that failed.
pub open spec fn created_recipe_ids(created: Seq<Option<Recipe>>) -> Seq<Option<Seq<char>>> {
    created.map_values(
        |c: Option<Recipe>|
            match c {
                Some(recipe) => Some(recipe.id@),
                None => None,
            },
    )
}

/// One creation request for each ingredient, in order.
pub fn ingredient_creations(remote: &str, ingredients: &Vec<Ingredient>) -> (requests: Vec<Request>)
    ensures
        views(requests@) == views(ingredients@).map_values(
            |i: IngredientView| ingredient_creation(remote@, i),
        ),
{
    let mut requests: Vec<Request> = Vec::new();
    let mut i: usize = 0;
    while i < ingredients.len()
        invariant
            i <= ingredients.len(),
            requests.len() == i,
            forall|k: int|
                0 <= k < i ==> (#[trigger] requests[k])@ == ingredient_creation(
                    remote@,
                    ingredients[k]@,
                ),
        decreases ingredients.len() - i,
    {
        let ingredient = &ingredients[i];
        requests.push(
            ingredient_create(
                remote,
                ingredient.name.as_str(),
                ingredient.classifications.dairy,
                ingredient.classifications.meat,
                ingredient.classifications.gluten,
                ingredient.classifications.animal_product,
            ),
        );
        i += 1;
    }
    assert(views(requests@) =~= views(ingredients@).map_values(
        |i: IngredientView| ingredient_creation(remote@, i),
    ));
    requests
}

/// Builds the ingredient table of a run from what the destination returned
/// for each creation: `created[i]` answers the creation of `ingredients[i]`.
/// The table records the identifier that the destination returned, whatever
/// it is; an ingredient whose creation failed gets no entry.
pub fn gen_ingredient_table(
    ingredients: &Vec<Ingredient>,
    created: &Vec<Option<IngredientIndex>>,
) -> (table: TranslationTable)
    ensures
        table@ == extended(
            Map::empty(),
            translations(
                ingredient_ids(views(ingredients@)),
                created_ingredient_ids(created@),
            ),
        ),
{
    let mut table = TranslationTable::new();
    let ghost sources = ingredient_ids(views(ingredients@));
    let ghost answers = created_ingredient_ids(created@);
    let mut i: usize = 0;
    assert(sources.take(0) =~= Seq::empty());
    while i < ingredients.len()
        invariant
            i <= ingredients.len(),
            sources == ingredient_ids(views(ingredients@)),
            answers == created_ingredient_ids(created@),
            table@ == extended(Map::empty(), translations(sources.take(i as int), answers)),
        decreases ingredients.len() - i,
    {
        proof {
            let next = sources.take(i as int + 1);
            let before = translations(sources.take(i as int), answers);
            assert(next.drop_last() =~= sources.take(i as int));
            assert(next[i as int] == ingredients[i as int].id@);
            if i < answers.len() && answers[i as int] is Some {
                assert(before.push((next[i as int], answers[i as int]->0)).drop_last()
                    =~= before);
            }
        }
        if i < created.len() {
            if let Some(index) = &created[i] {
                table.insert(ingredients[i].id.clone(), index.id.clone());
            }
        }
        i += 1;
    }
    assert(sources.take(i as int) =~= sources);
    table
}

/// One creation request for each recipe of a tier, in order.
pub fn tier_creations(remote: &str, tier: &Vec<&Recipe>) -> (requests: Vec<Request>)
    ensures
        views(requests@) == views(tier@).map_values(|r: RecipeView| recipe_creation(remote@, r)),
{
    let mut requests: Vec<Request> = Vec::new();
    let mut i: usize = 0;
    while i < tier.len()
        invariant
            i <= tier.len(),
            requests.len() == i,
            forall|k: int|
                0 <= k < i ==> (#[trigger] requests[k])@ == recipe_creation(remote@, tier[k]@),
        decreases tier.len() - i,
    {
        let recipe = tier[i];
        requests.push(
            recipe_create(
                remote,
                recipe.name.as_str(),
                recipe.author.as_str(),
                recipe.directions.as_str(),
                recipe.information.as_str(),
            ),
        );
        i += 1;
    }
    assert(views(requests@) =~= views(tier@).map_values(
        |r: RecipeView| recipe_creation(remote@, r),
    ));
    requests
}

/// Records, once a tier is done, the identifiers that the destination gave
/// to its recipes: `created[i]` answers the creation of `tier[i]`. A recipe
/// whose creation failed gets no entry, so that what depends on it is later
/// left out.
pub fn record_tier(
    table: &mut TranslationTable,
    tier: &Vec<&Recipe>,
    created: &Vec<Option<Recipe>>,
)
    ensures
        final(table)@ == extended(
            old(table)@,
            translations(recipe_ids(views(tier@)), created_recipe_ids(created@)),
        ),
{
    let ghost sources = recipe_ids(views(tier@));
    let ghost answers = created_recipe_ids(created@);
    let mut i: usize = 0;
    assert(sources.take(0) =~= Seq::empty());
    while i < tier.len()
        invariant
            i <= tier.len(),
            sources == recipe_ids(views(tier@)),
            answers == created_recipe_ids(created@),
            table@ == extended(old(table)@, translations(sources.take(i as int), answers)),
        decreases tier.len() - i,
    {
        proof {
            let next = sources.take(i as int + 1);
            let before = translations(sources.take(i as int), answers);
            assert(next.drop_last() =~= sources.take(i as int));
            assert(next[i as int] == tier[i as int].id@);
            if i < answers.len() && answers[i as int] is Some {
                assert(before.push((next[i as int], answers[i as int]->0)).drop_last()
                    =~= before);
            }
        }
        if i < created.len() {
            if let Some(recipe) = &created[i] {
                table.insert(tier[i].id.clone(), recipe.id.clone());
            }
        }
        i += 1;
    }
    assert(sources.take(i as int) =~= sources);
}

/// The requirements whose ingredient the table knows.
pub open spec fn mapped_requirements(
    ingredients: Map<Seq<char>, Seq<char>>,
    requirements: Seq<RequirementView>,
) -> Seq<RequirementView> {
    requirements.filter(|r: RequirementView| ingredients.contains_key(r.ingredient.id))
}

/// The dependencies whose recipe the table knows.
pub open spec fn mapped_dependencies(
    recipes: Map<Seq<char>, Seq<char>>,
    dependencies: Seq<DependencyView>,
) -> Seq<DependencyView> {
    dependencies.filter(|d: DependencyView| recipes.contains_key(d.recipe.id))
}

proof fn lemma_requirement_counts(
    remote: Seq<char>,
    remote_id: Seq<char>,
    ingredients: Map<Seq<char>, Seq<char>>,
    requirements: Seq<RequirementView>,
)
    ensures
        requirement_attachments(remote, remote_id, ingredients, requirements).len()
            == mapped_requirements(ingredients, requirements).len(),
        requirement_attachments(remote, remote_id, ingredients, requirements).len()
            + unmapped_ingredients(ingredients, requirements).len() == requirements.len(),
    decreases requirements.len(),
{
    reveal(Seq::filter);
    if requirements.len() > 0 {
        lemma_requirement_counts(remote, remote_id, ingredients, requirements.drop_last());
    }
}

proof fn lemma_dependency_counts(
    remote: Seq<char>,
    remote_id: Seq<char>,
    recipes: Map<Seq<char>, Seq<char>>,
    dependencies: Seq<DependencyView>,
)
    ensures
        dependency_attachments(remote, remote_id, recipes, dependencies).len()
            == mapped_dependencies(recipes, dependencies).len(),
        dependency_attachments(remote, remote_id, recipes, dependencies).len() + unmapped_recipes(
            recipes,
            dependencies,
        ).len() == dependencies.len(),
    decreases dependencies.len(),
{
    reveal(Seq::filter);
    if dependencies.len() > 0 {
        lemma_dependency_counts(remote, remote_id, recipes, dependencies.drop_last());
    }
}

/// A clone keeps the shape of the recipe as far as its references are
/// mapped: it attaches as many tags as the recipe has, as many requirements
/// as the recipe has on ingredients that the table knows, and as many
/// dependencies as the recipe has on recipes that the table knows. Every
/// other requirement and dependency is named as unmapped.
pub proof fn lemma_clone_keeps_shape(
    remote: Seq<char>,
    recipe: RecipeView,
    remote_id: Seq<char>,
    ingredients: Map<Seq<char>, Seq<char>>,
    recipes: Map<Seq<char>, Seq<char>>,
)
    ensures
        ({
            let plan = recipe_clone_plan(remote, recipe, remote_id, ingredients, recipes);
            &&& plan.tags.len() == recipe.tags.len()
            &&& plan.requirements.len() == mapped_requirements(
                ingredients,
                recipe.requirements,
            ).len()
            &&& plan.dependencies.len() == mapped_dependencies(recipes, recipe.dependencies).len()
            &&& plan.requirements.len() + plan.unmapped_ingredients.len()
                == recipe.requirements.len()
            &&& plan.dependencies.len() + plan.unmapped_recipes.len() == recipe.dependencies.len()
        }),
{
    lemma_requirement_counts(remote, remote_id, ingredients, recipe.requirements);
    lemma_dependency_counts(remote, remote_id, recipes, recipe.dependencies);
}

/// One of the recipes placed before tier `t` has the identifier `key`.
pub open spec fn placed_id(recipes: Seq<RecipeView>, t: nat, key: Seq<char>) -> bool {
    exists|i: int|
        placed_before(graph(recipes), t).contains(i) && (#[trigger] recipes[i]).id == key
}

/// What is planned for a recipe, if anything is.
pub open spec fn planned(plan: Option<Attachments>) -> Option<AttachmentsView> {
    match plan {
        Some(steps) => Some(steps@),
        None => None,
    }
}

/// The plan for the recipe at place `k` of a tier: what `recipe_clone` plans
/// for it, if the destination created it.
pub open spec fn tier_plan(
    remote: Seq<char>,
    tier: Seq<RecipeView>,
    created: Seq<Option<Recipe>>,
    ingredients: Map<Seq<char>, Seq<char>>,
    recipes: Map<Seq<char>, Seq<char>>,
    k: int,
) -> Option<AttachmentsView> {
    if 0 <= k < created.len() && created[k] is Some {
        Some(recipe_clone_plan(remote, tier[k], created[k]->0.id@, ingredients, recipes))
    } else {
        None
    }
}

/// The recipes of tier `t` of a set, in the order of the set; none where the
/// set has no such tier.
pub open spec fn tier_at(recipes: Seq<RecipeView>, t: nat) -> Seq<RecipeView> {
    if t < tiering(graph(recipes)).len() {
        arranged(recipes, tiering(graph(recipes))[t as int])
    } else {
        Seq::empty()
    }
}

fn tier_members<'a>(recipes: &'a Vec<Recipe>, tiers: &Vec<Vec<usize>>, next: usize) -> (found: Vec<
    &'a Recipe,
>)
    requires
        is_tiering(graph(views(recipes@)), tier_positions(tiers@)),
        next <= tiers.len(),
    ensures
        views(found@) == tier_at(views(recipes@), next as nat),
        forall|k: int|
            0 <= k < found.len() ==> placed_id(
                views(recipes@),
                (next + 1) as nat,
                (#[trigger] found[k])@.id,
            ),
{
    let ghost set = views(recipes@);
    let ghost deps = graph(set);
    let ghost places = tier_positions(tiers@);
    proof {
        lemma_tiering_unique(deps, places, tiering(deps));
    }
    let mut found: Vec<&'a Recipe> = Vec::new();
    if next < tiers.len() {
        let tier = &tiers[next];
        proof {
            assert(places[next as int] == positions(tier@));
            assert forall|k: int| 0 <= k < tier.len() implies (#[trigger] tier[k]) < recipes.len()
                && in_tier(deps, next as nat, tier[k] as int) by {
                assert(positions(tier@)[k] == tier[k]);
                assert(places[next as int].contains(tier[k] as int));
            }
        }
        let mut k: usize = 0;
        while k < tier.len()
            invariant
                k <= tier.len(),
                found.len() == k,
                set == views(recipes@),
                deps == graph(set),
                forall|m: int|
                    0 <= m < tier.len() ==> (#[trigger] tier[m]) < recipes.len() && in_tier(
                        deps,
                        next as nat,
                        tier[m] as int,
                    ),
                forall|m: int| 0 <= m < k ==> *(#[trigger] found[m]) == recipes[tier[m] as int],
            decreases tier.len() - k,
        {
            found.push(&recipes[tier[k]]);
            k += 1;
        }
        proof {
            assert(views(found@) =~= arranged(set, positions(tier@)));
            assert forall|k: int| 0 <= k < found.len() implies placed_id(
                set,
                (next + 1) as nat,
                (#[trigger] found[k])@.id,
            ) by {
                let i = tier[k] as int;
                assert(in_tier(deps, next as nat, i));
                assert(placed_before(deps, (next + 1) as nat).contains(i));
                assert(set[i].id == found[k]@.id);
            }
        }
    } else {
        assert(views(found@) =~= Seq::<RecipeView>::empty());
    }
    found
}

/// A replay of a set of recipes onto a destination, tier by tier.
///
/// The run hands out the creations of the tier at hand, plans what to
/// attach to the recipes that were created, and moves on to the next tier
/// with `advance`, which is when the identifiers of the tier enter the
/// recipe table. So the table that a plan is made with holds recipes of
/// earlier tiers only.
#[derive(Debug)]
pub struct CloneRun {
    remote: String,
    recipes: Vec<Recipe>,
    tiers: Vec<Vec<usize>>,
    next: usize,
    ingredients: TranslationTable,
    done: TranslationTable,
}

impl CloneRun {
    #[verifier::type_invariant]
    spec fn in_order(&self) -> bool {
        &&& is_tiering(graph(views(self.recipes@)), tier_positions(self.tiers@))
        &&& self.next <= self.tiers.len()
        &&& forall|key: Seq<char>| #[trigger]
            self.done@.contains_key(key) ==> placed_id(views(self.recipes@), self.next as nat, key)
    }

    /// Where the run sends its requests.
    pub closed spec fn remote(&self) -> Seq<char> {
        self.remote@
    }

    /// The recipes to replay.
    pub closed spec fn recipes(&self) -> Seq<RecipeView> {
        views(self.recipes@)
    }

    /// How many tiers are done.
    pub closed spec fn position(&self) -> nat {
        self.next as nat
    }

    /// What the destination calls each ingredient.
    pub closed spec fn ingredient_table(&self) -> Map<Seq<char>, Seq<char>> {
        self.ingredients@
    }

    /// What the destination calls each recipe of the tiers that are done.
    pub closed spec fn recipe_table(&self) -> Map<Seq<char>, Seq<char>> {
        self.done@
    }

    /// The tiers of the run.
    pub open spec fn tiers(&self) -> Seq<Seq<int>> {
        tiering(graph(self.recipes()))
    }

    /// The recipes of the tier at hand; none once every tier is done.
    pub open spec fn tier(&self) -> Seq<RecipeView> {
        tier_at(self.recipes(), self.position())
    }

    /// Starts a run at the first tier, with an empty recipe table. Fails
    /// exactly when recipes depend on each other in a circle.
    pub fn new(remote: &str, recipes: Vec<Recipe>, ingredient_table: TranslationTable) -> (outcome:
        Result<CloneRun, CycleError>)
        ensures
            match outcome {
                Ok(run) => {
                    &&& acyclic(graph(views(recipes@)))
                    &&& is_tiering(graph(run.recipes()), run.tiers())
                    &&& run.remote() == remote@
                    &&& run.recipes() == views(recipes@)
                    &&& run.position() == 0
                    &&& run.ingredient_table() == ingredient_table@
                    &&& run.recipe_table() == Map::<Seq<char>, Seq<char>>::empty()
                },
                Err(error) => !acyclic(graph(views(recipes@))) && is_stuck(
                    graph(views(recipes@)),
                    positions(error.stuck@),
                ),
            },
    {
        let tiers = match recipe_tier_positions(&recipes) {
            Ok(tiers) => tiers,
            Err(error) => {
                return Err(error);
            },
        };
        proof {
            let deps = graph(views(recipes@));
            lemma_tiering_unique(deps, tier_positions(tiers@), tiering(deps));
        }
        Ok(
            CloneRun {
                remote: remote.to_owned(),
                recipes,
                tiers,
                next: 0,
                ingredients: ingredient_table,
                done: TranslationTable::new(),
            },
        )
    }

    /// Whether every tier is done.
    pub fn finished(&self) -> (done: bool)
        ensures
            done == (self.position() >= self.tiers().len()),
            self.position() <= self.tiers().len(),
            is_tiering(graph(self.recipes()), self.tiers()),
    {
        proof {
            use_type_invariant(self);
            let deps = graph(views(self.recipes@));
            lemma_tiering_unique(deps, tier_positions(self.tiers@), tiering(deps));
        }
        self.next >= self.tiers.len()
    }

    fn at_hand(&self) -> (found: Vec<&Recipe>)
        ensures
            views(found@) == self.tier(),
    {
        proof {
            use_type_invariant(self);
        }
        tier_members(&self.recipes, &self.tiers, self.next)
    }

    /// One creation request for each recipe of the tier at hand, in order.
    pub fn creations(&self) -> (requests: Vec<Request>)
        ensures
            views(requests@) == self.tier().map_values(
                |r: RecipeView| recipe_creation(self.remote(), r),
            ),
    {
        let tier = self.at_hand();
        tier_creations(self.remote.as_str(), &tier)
    }

    /// Plans what to attach to each recipe of the tier at hand that the
    /// destination created: `created[k]` answers the creation of the recipe
    /// at place `k` of the tier. The recipe table that the plans are made
    /// with holds recipes of earlier tiers only.
    pub fn attachments(&self, created: &Vec<Option<Recipe>>) -> (plans: Vec<Option<Attachments>>)
        ensures
            plans.len() == self.tier().len(),
            forall|k: int|
                0 <= k < plans.len() ==> planned(#[trigger] plans[k]) == tier_plan(
                    self.remote(),
                    self.tier(),
                    created@,
                    self.ingredient_table(),
                    self.recipe_table(),
                    k,
                ),
            forall|key: Seq<char>| #[trigger]
                self.recipe_table().contains_key(key) ==> placed_id(
                    self.recipes(),
                    self.position(),
                    key,
                ),
    {
        proof {
            use_type_invariant(self);
        }
        let tier = self.at_hand();
        let mut plans: Vec<Option<Attachments>> = Vec::new();
        let mut k: usize = 0;
        while k < tier.len()
            invariant
                k <= tier.len(),
                plans.len() == k,
                views(tier@) == self.tier(),
                forall|m: int|
                    0 <= m < k ==> planned(#[trigger] plans[m]) == tier_plan(
                        self.remote(),
                        self.tier(),
                        created@,
                        self.ingredient_table(),
                        self.recipe_table(),
                        m,
                    ),
            decreases tier.len() - k,
        {
            assert(views(tier@)[k as int] == tier[k as int]@);
            let plan = if k < created.len() {
                match &created[k] {
                    Some(recipe) => Some(
                        recipe_clone(
                            self.remote.as_str(),
                            tier[k],
                            recipe.id.as_str(),
                            &self.ingredients,
                            &self.done,
                        ),
                    ),
                    None => None,
                }
            } else {
                None
            };
            plans.push(plan);
            k += 1;
        }
        plans
    }

    /// Moves on to the next tier: the identifiers that the destination gave
    /// to the recipes of the tier at hand enter the recipe table. A recipe
    /// whose creation failed gets no entry. A run that is finished stays as
    /// it is.
    pub fn advance(self, created: &Vec<Option<Recipe>>) -> (next: CloneRun)
        ensures
            next.remote() == self.remote(),
            next.recipes() == self.recipes(),
            next.ingredient_table() == self.ingredient_table(),
            next.position() == if self.position() < self.tiers().len() {
                self.position() + 1
            } else {
                self.position()
            },
            next.recipe_table() == extended(
                self.recipe_table(),
                translations(recipe_ids(self.tier()), created_recipe_ids(created@)),
            ),
    {
        proof {
            use_type_invariant(&self);
        }
        let ghost before = self.done@;
        let ghost set = views(self.recipes@);
        let ghost sources = recipe_ids(self.tier());
        let ghost added = translations(sources, created_recipe_ids(created@));
        let CloneRun { remote, recipes, tiers, next, ingredients, done } = self;
        let mut done = done;
        let step: usize = if next < tiers.len() {
            1
        } else {
            0
        };
        proof {
            lemma_tiering_unique(graph(set), tier_positions(tiers@), tiering(graph(set)));
        }
        let tier = tier_members(&recipes, &tiers, next);
        record_tier(&mut done, &tier, created);
        proof {
            let deps = graph(set);
            lemma_placed_grows(deps, next as nat, (next + step) as nat);
            assert forall|key: Seq<char>| #[trigger]
                done@.contains_key(key) implies placed_id(set, (next + step) as nat, key) by {
                lemma_extended_domain(before, added, key);
                if before.contains_key(key) {
                    let i = choose|i: int|
                        placed_before(deps, next as nat).contains(i) && (#[trigger] set[i]).id
                            == key;
                    assert(placed_before(deps, (next + step) as nat).contains(i));
                } else {
                    let j = choose|j: int| 0 <= j < added.len() && (#[trigger] added[j]).0 == key;
                    lemma_translations_sources(sources, created_recipe_ids(created@), j);
                    let k = choose|k: int|
                        0 <= k < sources.len() && #[trigger] sources[k] == added[j].0;
                    assert(sources[k] == tier[k]@.id);
                    assert(placed_id(set, (next + 1) as nat, tier[k]@.id));
                    assert(step == 1);
                }
            }
        }
        CloneRun { remote, recipes, tiers, next: next + step, ingredients, done }
    }
}

/// How many recipes a run asks the destination to create in its first
/// `count` tiers.
pub open spec fn creation_count(recipes: Seq<RecipeView>, count: nat) -> nat
    decreases count,
{
    if count == 0 {
        0
    } else {
        creation_count(recipes, (count - 1) as nat) + tier_at(recipes, (count - 1) as nat).len()
    }
}

proof fn lemma_creation_count(recipes: Seq<RecipeView>, count: nat)
    requires
        count <= tiering(graph(recipes)).len(),
    ensures
        creation_count(recipes, count) == place_count(tiering(graph(recipes)).take(count as int)),
    decreases count,
{
    let tiers = tiering(graph(recipes));
    if count == 0 {
        assert(tiers.take(0) =~= Seq::empty());
    } else {
        lemma_creation_count(recipes, (count - 1) as nat);
        assert(tiers.take(count as int).drop_last() =~= tiers.take(count - 1));
        assert(tiers.take(count as int).last() == tiers[count - 1]);
    }
}

/// Over a whole run, the destination is asked to create each recipe once:
/// the creations of all the tiers together are as many as the recipes that
/// the run was given, which are those that were fetched. This holds where
/// no recipes depend on each other in a circle, which is where a run
/// starts.
pub proof fn lemma_run_creates_each_recipe_once(recipes: Seq<RecipeView>)
    requires
        acyclic(graph(recipes)),
    ensures
        creation_count(recipes, tiering(graph(recipes)).len()) == recipes.len(),
{
    let tiers = tiering(graph(recipes));
    lemma_acyclic_has_tiering(graph(recipes));
    lemma_creation_count(recipes, tiers.len());
    assert(tiers.take(tiers.len() as int) =~= tiers);
    lemma_tiers_count(graph(recipes), tiers);
}

} // verus!
