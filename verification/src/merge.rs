//! Merging one ingredient into another.
//!
//! Every recipe that requires the obsolete ingredient gets a requirement of
//! the target ingredient in the same quantity, and loses the old one; then
//! the obsolete ingredient is deleted. The steps are confirmed one before
//! the next: a recipe loses its old requirement only after the new one is
//! confirmed, and the obsolete ingredient is deleted only when no recipe is
//! left behind. So a failure on the way leaves requirements of the obsolete
//! ingredient in place, and never a recipe without either.

use crate::gateway::{
    ingredient_delete, ingredient_delete_request, ingredient_get, ingredient_get_request,
    recipe_get_requirements, recipe_get_requirements_request, requirement_create,
    requirement_create_request, requirement_delete, requirement_delete_request, Request,
    RequestView,
};
use crate::models::{
    views, EntryView, Ingredient, IngredientIndex, RecipeIndex, Requirement, RequirementView,
};
use crate::text::same_text;
use vstd::prelude::*;

verus! {

/// A recipe that requires the obsolete ingredient, and in what quantity.
#[derive(Debug, PartialEq, Eq)]
pub struct MergeTarget {
    pub recipe_id: String,
    pub quantity: String,
}

/// What a target of a merge holds.
pub struct MergeTargetView {
    pub recipe_id: Seq<char>,
    pub quantity: Seq<char>,
}

impl View for MergeTarget {
    type V = MergeTargetView;

    open spec fn view(&self) -> MergeTargetView {
        MergeTargetView { recipe_id: self.recipe_id@, quantity: self.quantity@ }
    }
}

/// The first position from `from` on whose requirement names `ingredient`.
pub open spec fn first_requiring(
    requirements: Seq<RequirementView>,
    ingredient: Seq<char>,
    from: int,
) -> Option<int>
    decreases requirements.len() - from,
{
    if from < 0 || from >= requirements.len() {
        None
    } else if requirements[from].ingredient.id == ingredient {
        Some(from)
    } else {
        first_requiring(requirements, ingredient, from + 1)
    }
}

/// What the requirements of a recipe were found to be; `None` stands for a
/// fetch that failed.
pub open spec fn fetched_requirements(fetched: Seq<Option<Vec<Requirement>>>) -> Seq<
    Option<Seq<RequirementView>>,
> {
    fetched.map_values(
        |answer: Option<Vec<Requirement>>|
            match answer {
                Some(requirements) => Some(views(requirements@)),
                None => None,
            },
    )
}

/// The target that a recipe gives, if its requirements were fetched and
/// name the obsolete ingredient.
pub open spec fn target_of(
    obsolete: Seq<char>,
    recipe: EntryView,
    answer: Option<Seq<RequirementView>>,
) -> Option<MergeTargetView> {
    match answer {
        Some(requirements) => match first_requiring(requirements, obsolete, 0) {
            Some(k) => Some(
                MergeTargetView { recipe_id: recipe.id, quantity: requirements[k].quantity },
            ),
            None => None,
        },
        None => None,
    }
}

/// The answer for the recipe `i`, where a recipe without an answer counts
/// as not fetched.
pub open spec fn answer_for(fetched: Seq<Option<Seq<RequirementView>>>, i: int) -> Option<
    Seq<RequirementView>,
> {
    if 0 <= i < fetched.len() {
        fetched[i]
    } else {
        None
    }
}

/// The targets of a merge: one for each recipe that uses the obsolete
/// ingredient and whose requirements name it, in the order of `uses`.
/// `fetched[i]` answers for `uses[i]`; a recipe beyond the end of `fetched`
/// counts as not fetched.
pub open spec fn targets_of(
    obsolete: Seq<char>,
    uses: Seq<EntryView>,
    fetched: Seq<Option<Seq<RequirementView>>>,
) -> Seq<MergeTargetView>
    decreases uses.len(),
{
    if uses.len() == 0 {
        Seq::empty()
    } else {
        let at = uses.len() - 1;
        let before = targets_of(obsolete, uses.drop_last(), fetched);
        match target_of(obsolete, uses[at], answer_for(fetched, at)) {
            Some(target) => before.push(target),
            None => before,
        }
    }
}

/// The additions that are confirmed, each as the deletion that may follow
/// it: `added[i]` says whether the addition for `targets[i]` went through. A
/// target beyond the end of `added` counts as not confirmed.
pub open spec fn deletions_of(
    origin: Seq<char>,
    obsolete: Seq<char>,
    targets: Seq<MergeTargetView>,
    added: Seq<bool>,
) -> Seq<RequestView>
    decreases targets.len(),
{
    if targets.len() == 0 {
        Seq::empty()
    } else {
        let at = targets.len() - 1;
        let before = deletions_of(origin, obsolete, targets.drop_last(), added);
        if at < added.len() && added[at] {
            before.push(requirement_delete_request(origin, targets[at].recipe_id, obsolete))
        } else {
            before
        }
    }
}

/// The step `i` is confirmed. A step beyond the end of `done` is not.
pub open spec fn is_confirmed(done: Seq<bool>, i: int) -> bool {
    0 <= i < done.len() && done[i]
}

/// The requirements of the recipe `i` were fetched.
pub open spec fn is_answered(fetched: Seq<Option<Vec<Requirement>>>, i: int) -> bool {
    0 <= i < fetched.len() && fetched[i] is Some
}

/// Each of the first `count` steps is confirmed.
pub open spec fn all_confirmed(done: Seq<bool>, count: int) -> bool {
    forall|i: int| 0 <= i < count ==> #[trigger] is_confirmed(done, i)
}

/// The requirements of each of the first `count` recipes were fetched.
pub open spec fn all_answered(fetched: Seq<Option<Vec<Requirement>>>, count: int) -> bool {
    forall|i: int| 0 <= i < count ==> #[trigger] is_answered(fetched, i)
}

/// Nothing is left behind: the requirements of every recipe that uses the
/// obsolete ingredient were fetched, every target got its new requirement,
/// and every old requirement is gone.
pub open spec fn complete(
    uses: int,
    fetched: Seq<Option<Vec<Requirement>>>,
    targets: int,
    added: Seq<bool>,
    deleted: Seq<bool>,
) -> bool {
    &&& all_answered(fetched, uses)
    &&& all_confirmed(added, targets)
    &&& all_confirmed(deleted, targets)
}

/// One request per recipe that uses the obsolete ingredient, for its
/// requirements.
pub fn requirement_fetches(origin: &str, uses: &Vec<RecipeIndex>) -> (requests: Vec<Request>)
    ensures
        views(requests@) == views(uses@).map_values(
            |e: EntryView| recipe_get_requirements_request(origin@, e.id),
        ),
{
    let mut requests: Vec<Request> = Vec::new();
    let mut i: usize = 0;
    while i < uses.len()
        invariant
            i <= uses.len(),
            requests.len() == i,
            forall|k: int|
                0 <= k < i ==> (#[trigger] requests[k])@ == recipe_get_requirements_request(
                    origin@,
                    uses[k].id@,
                ),
        decreases uses.len() - i,
    {
        requests.push(recipe_get_requirements(origin, uses[i].id.as_str()));
        i += 1;
    }
    assert(views(requests@) =~= views(uses@).map_values(
        |e: EntryView| recipe_get_requirements_request(origin@, e.id),
    ));
    requests
}

fn find_requirement<'a>(requirements: &'a Vec<Requirement>, ingredient: &str) -> (found: Option<
    &'a Requirement,
>)
    ensures
        match first_requiring(views(requirements@), ingredient@, 0) {
            Some(k) => 0 <= k < requirements.len() && found == Some(&requirements[k]),
            None => found is None,
        },
{
    let ghost all = views(requirements@);
    let mut k: usize = 0;
    while k < requirements.len()
        invariant
            k <= requirements.len(),
            all == views(requirements@),
            first_requiring(all, ingredient@, 0) == first_requiring(all, ingredient@, k as int),
        decreases requirements.len() - k,
    {
        assert(all[k as int] == requirements[k as int]@);
        if same_text(requirements[k].ingredient.id.as_str(), ingredient) {
            assert(first_requiring(all, ingredient@, k as int) == Some(k as int));
            return Some(&requirements[k]);
        }
        k += 1;
    }
    None
}

/// Finds, among the recipes that use the obsolete ingredient, those whose
/// requirements name it, with the quantity that each requires.
pub fn merge_targets(
    obsolete_id: &str,
    uses: &Vec<RecipeIndex>,
    fetched: &Vec<Option<Vec<Requirement>>>,
) -> (targets: Vec<MergeTarget>)
    ensures
        views(targets@) == targets_of(obsolete_id@, views(uses@), fetched_requirements(fetched@)),
{
    let mut targets: Vec<MergeTarget> = Vec::new();
    let ghost all = views(uses@);
    let ghost answers = fetched_requirements(fetched@);
    let mut i: usize = 0;
    assert(all.take(0) =~= Seq::empty());
    while i < uses.len()
        invariant
            i <= uses.len(),
            all == views(uses@),
            answers == fetched_requirements(fetched@),
            views(targets@) == targets_of(obsolete_id@, all.take(i as int), answers),
        decreases uses.len() - i,
    {
        let ghost before = views(targets@);
        proof {
            let next = all.take(i as int + 1);
            assert(next.drop_last() =~= all.take(i as int));
            assert(next[i as int] == uses[i as int]@);
        }
        if i < fetched.len() {
            match &fetched[i] {
                Some(requirements) => {
                    assert(answers[i as int] == Some(views(requirements@)));
                    match find_requirement(requirements, obsolete_id) {
                        Some(requirement) => {
                            let ghost k = first_requiring(views(requirements@), obsolete_id@, 0)->0;
                            assert(views(requirements@)[k] == requirement@);
                            targets.push(
                                MergeTarget {
                                    recipe_id: uses[i].id.clone(),
                                    quantity: requirement.quantity.clone(),
                                },
                            );
                            assert(views(targets@) =~= before.push(targets[targets.len() - 1]@));
                        },
                        None => {},
                    }
                },
                None => {
                    assert(answers[i as int] is None);
                },
            }
        }
        i += 1;
    }
    assert(all.take(i as int) =~= all);
    targets
}

/// One request per target: the recipe gets a requirement of the target
/// ingredient, in the quantity that it required of the obsolete one, and not
/// optional.
pub fn merge_additions(origin: &str, target_id: &str, targets: &Vec<MergeTarget>) -> (requests:
    Vec<Request>)
    ensures
        views(requests@) == views(targets@).map_values(
            |t: MergeTargetView|
                requirement_create_request(origin@, t.recipe_id, target_id@, t.quantity, false),
        ),
{
    let mut requests: Vec<Request> = Vec::new();
    let mut i: usize = 0;
    while i < targets.len()
        invariant
            i <= targets.len(),
            requests.len() == i,
            forall|k: int|
                0 <= k < i ==> (#[trigger] requests[k])@ == requirement_create_request(
                    origin@,
                    targets[k].recipe_id@,
                    target_id@,
                    targets[k].quantity@,
                    false,
                ),
        decreases targets.len() - i,
    {
        requests.push(
            requirement_create(
                origin,
                targets[i].recipe_id.as_str(),
                target_id,
                targets[i].quantity.as_str(),
                false,
            ),
        );
        i += 1;
    }
    assert(views(requests@) =~= views(targets@).map_values(
        |t: MergeTargetView|
            requirement_create_request(origin@, t.recipe_id, target_id@, t.quantity, false),
    ));
    requests
}

/// One request per target whose addition is confirmed: the recipe loses its
/// requirement of the obsolete ingredient.
pub fn merge_deletions(
    origin: &str,
    obsolete_id: &str,
    targets: &Vec<MergeTarget>,
    added: &Vec<bool>,
) -> (requests: Vec<Request>)
    ensures
        views(requests@) == deletions_of(origin@, obsolete_id@, views(targets@), added@),
{
    let mut requests: Vec<Request> = Vec::new();
    let ghost all = views(targets@);
    let mut i: usize = 0;
    assert(all.take(0) =~= Seq::empty());
    while i < targets.len()
        invariant
            i <= targets.len(),
            all == views(targets@),
            views(requests@) == deletions_of(origin@, obsolete_id@, all.take(i as int), added@),
        decreases targets.len() - i,
    {
        let ghost before = views(requests@);
        proof {
            let next = all.take(i as int + 1);
            assert(next.drop_last() =~= all.take(i as int));
            assert(next[i as int] == targets[i as int]@);
        }
        if i < added.len() && added[i] {
            requests.push(requirement_delete(origin, targets[i].recipe_id.as_str(), obsolete_id));
            assert(views(requests@) =~= before.push(requests[requests.len() - 1]@));
        }
        i += 1;
    }
    assert(all.take(i as int) =~= all);
    requests
}

fn every_confirmed(done: &Vec<bool>, count: usize) -> (all: bool)
    ensures
        all == all_confirmed(done@, count as int),
{
    if done.len() < count {
        assert(!is_confirmed(done@, count - 1));
        return false;
    }
    let mut i: usize = 0;
    while i < count
        invariant
            i <= count <= done.len(),
            forall|k: int| 0 <= k < i ==> #[trigger] is_confirmed(done@, k),
        decreases count - i,
    {
        if !done[i] {
            assert(!is_confirmed(done@, i as int));
            return false;
        }
        i += 1;
    }
    true
}

fn every_answered(fetched: &Vec<Option<Vec<Requirement>>>, count: usize) -> (all: bool)
    ensures
        all == all_answered(fetched@, count as int),
{
    if fetched.len() < count {
        assert(!is_answered(fetched@, count - 1));
        return false;
    }
    let mut i: usize = 0;
    while i < count
        invariant
            i <= count <= fetched.len(),
            forall|k: int| 0 <= k < i ==> #[trigger] is_answered(fetched@, k),
        decreases count - i,
    {
        if fetched[i].is_none() {
            assert(!is_answered(fetched@, i as int));
            return false;
        }
        i += 1;
    }
    true
}

/// The request that ends a merge, if nothing is left behind: the obsolete
/// ingredient is deleted when the requirements of every recipe that uses it
/// were fetched, and every target got its new requirement and lost its old
/// one. `added[i]` says whether the addition for `targets[i]` went through,
/// `deleted[i]` whether the deletion that followed the `i`-th confirmed
/// addition did; where every addition is confirmed, that is the deletion
/// for `targets[i]`. Otherwise there is nothing to send, and the obsolete
/// ingredient stays.
pub fn merge_completion(
    origin: &str,
    obsolete_id: &str,
    uses: &Vec<RecipeIndex>,
    fetched: &Vec<Option<Vec<Requirement>>>,
    targets: &Vec<MergeTarget>,
    added: &Vec<bool>,
    deleted: &Vec<bool>,
) -> (request: Option<Request>)
    ensures
        match request {
            Some(request) => complete(
                uses.len() as int,
                fetched@,
                targets.len() as int,
                added@,
                deleted@,
            ) && request@ == ingredient_delete_request(origin@, obsolete_id@),
            None => !complete(uses.len() as int, fetched@, targets.len() as int, added@, deleted@),
        },
{
    if every_answered(fetched, uses.len()) && every_confirmed(added, targets.len())
        && every_confirmed(deleted, targets.len()) {
        Some(ingredient_delete(origin, obsolete_id))
    } else {
        None
    }
}

/// A merge leaves no recipe out and touches no other: every recipe that
/// uses the obsolete ingredient and whose requirements were fetched and name
/// it is a target, with the quantity that it requires; and every target is
/// such a recipe.
pub proof fn lemma_targets_exact(
    obsolete: Seq<char>,
    uses: Seq<EntryView>,
    fetched: Seq<Option<Seq<RequirementView>>>,
)
    ensures
        forall|i: int|
            0 <= i < uses.len() && target_of(obsolete, #[trigger] uses[i], answer_for(fetched, i))
                is Some ==> targets_of(obsolete, uses, fetched).contains(
                target_of(obsolete, uses[i], answer_for(fetched, i))->0,
            ),
        forall|k: int|
            0 <= k < targets_of(obsolete, uses, fetched).len() ==> exists|i: int|
                0 <= i < uses.len() && target_of(
                    obsolete,
                    #[trigger] uses[i],
                    answer_for(fetched, i),
                ) == Some(#[trigger] targets_of(obsolete, uses, fetched)[k]),
    decreases uses.len(),
{
    if uses.len() > 0 {
        let front = uses.drop_last();
        let at = uses.len() - 1;
        let all = targets_of(obsolete, uses, fetched);
        let before = targets_of(obsolete, front, fetched);
        lemma_targets_exact(obsolete, front, fetched);
        assert forall|i: int|
            0 <= i < uses.len() && target_of(obsolete, #[trigger] uses[i], answer_for(fetched, i))
                is Some implies all.contains(
            target_of(obsolete, uses[i], answer_for(fetched, i))->0,
        ) by {
            let target = target_of(obsolete, uses[i], answer_for(fetched, i))->0;
            if i < at {
                assert(front[i] == uses[i]);
                assert(before.contains(target));
                let k = choose|k: int| 0 <= k < before.len() && before[k] == target;
                assert(all[k] == target);
            } else {
                assert(all[all.len() - 1] == target);
            }
        }
        assert forall|k: int| 0 <= k < all.len() implies exists|i: int|
            0 <= i < uses.len() && target_of(obsolete, #[trigger] uses[i], answer_for(fetched, i))
                == Some(#[trigger] all[k]) by {
            if k < before.len() {
                let i = choose|i: int|
                    0 <= i < front.len() && target_of(
                        obsolete,
                        #[trigger] front[i],
                        answer_for(fetched, i),
                    ) == Some(before[k]);
                assert(uses[i] == front[i]);
            } else {
                assert(target_of(obsolete, uses[at], answer_for(fetched, at)) == Some(all[k]));
            }
        }
    }
}

/// What a target holds is what the recipe requires of the obsolete
/// ingredient: `first_requiring` finds the first requirement that names it,
/// if there is any.
pub proof fn lemma_first_requiring(
    requirements: Seq<RequirementView>,
    obsolete: Seq<char>,
    from: int,
)
    requires
        0 <= from <= requirements.len(),
    ensures
        match first_requiring(requirements, obsolete, from) {
            Some(k) => from <= k < requirements.len() && requirements[k].ingredient.id == obsolete
                && forall|j: int|
                from <= j < k ==> (#[trigger] requirements[j]).ingredient.id != obsolete,
            None => forall|j: int|
                from <= j < requirements.len() ==> (#[trigger] requirements[j]).ingredient.id
                    != obsolete,
        },
    decreases requirements.len() - from,
{
    if from < requirements.len() && requirements[from].ingredient.id != obsolete {
        lemma_first_requiring(requirements, obsolete, from + 1);
    }
}

/// Once every addition is confirmed, every target loses its old
/// requirement: there is one deletion for each target, in order.
pub proof fn lemma_deletions_when_confirmed(
    origin: Seq<char>,
    obsolete: Seq<char>,
    targets: Seq<MergeTargetView>,
    added: Seq<bool>,
)
    requires
        all_confirmed(added, targets.len() as int),
    ensures
        deletions_of(origin, obsolete, targets, added) == targets.map_values(
            |t: MergeTargetView| requirement_delete_request(origin, t.recipe_id, obsolete),
        ),
    decreases targets.len(),
{
    let expected = targets.map_values(
        |t: MergeTargetView| requirement_delete_request(origin, t.recipe_id, obsolete),
    );
    if targets.len() > 0 {
        let front = targets.drop_last();
        assert forall|i: int| 0 <= i < front.len() implies #[trigger] is_confirmed(added, i) by {}
        lemma_deletions_when_confirmed(origin, obsolete, front, added);
        assert(is_confirmed(added, targets.len() - 1));
        assert(deletions_of(origin, obsolete, targets, added) =~= expected);
    } else {
        assert(deletions_of(origin, obsolete, targets, added) =~= expected);
    }
}

/// The requirements of a recipe without those that name `ingredient`.
pub open spec fn without_requirement(
    requirements: Seq<RequirementView>,
    ingredient: Seq<char>,
) -> Seq<RequirementView> {
    requirements.filter(|r: RequirementView| r.ingredient.id != ingredient)
}

/// The requirements of a recipe with `added` in place of any that names the
/// same ingredient.
pub open spec fn with_requirement(
    requirements: Seq<RequirementView>,
    added: RequirementView,
) -> Seq<RequirementView> {
    without_requirement(requirements, added.ingredient.id).push(added)
}

/// The requirements of a recipe after a merge has dealt with it, where an
/// addition puts a requirement in place and a deletion takes the
/// requirements of an ingredient away: a recipe that names the obsolete
/// ingredient gets the target ingredient in the quantity of the first
/// requirement that names the obsolete one, not optional, and loses the
/// obsolete one; any other recipe stays as it is.
pub open spec fn merged(
    requirements: Seq<RequirementView>,
    obsolete: Seq<char>,
    target: EntryView,
) -> Seq<RequirementView> {
    match first_requiring(requirements, obsolete, 0) {
        Some(k) => without_requirement(
            with_requirement(
                requirements,
                RequirementView {
                    ingredient: target,
                    quantity: requirements[k].quantity,
                    optional: false,
                },
            ),
            obsolete,
        ),
        None => requirements,
    }
}

/// After a merge has dealt with a recipe, none of its requirements names
/// the obsolete ingredient; if one did, the recipe requires the target
/// ingredient in that quantity; and what the recipe requires of other
/// ingredients is what it required before. This holds where the target is
/// another ingredient than the obsolete one.
pub proof fn lemma_merged_requirements(
    requirements: Seq<RequirementView>,
    obsolete: Seq<char>,
    target: EntryView,
)
    requires
        target.id != obsolete,
    ensures
        forall|i: int|
            0 <= i < merged(requirements, obsolete, target).len() ==> (#[trigger] merged(
                requirements,
                obsolete,
                target,
            )[i]).ingredient.id != obsolete,
        first_requiring(requirements, obsolete, 0) matches Some(k) ==> merged(
            requirements,
            obsolete,
            target,
        ).contains(
            RequirementView {
                ingredient: target,
                quantity: requirements[k].quantity,
                optional: false,
            },
        ),
        forall|i: int|
            0 <= i < requirements.len() && (#[trigger] requirements[i]).ingredient.id != obsolete
                && requirements[i].ingredient.id != target.id ==> merged(
                requirements,
                obsolete,
                target,
            ).contains(requirements[i]),
        forall|i: int|
            0 <= i < merged(requirements, obsolete, target).len() && (#[trigger] merged(
                requirements,
                obsolete,
                target,
            )[i]).ingredient.id != target.id ==> requirements.contains(
                merged(requirements, obsolete, target)[i],
            ),
{
    broadcast use {
        Seq::lemma_filter_pred,
        Seq::lemma_filter_contains,
        Seq::lemma_filter_contains_rev,
    };

    lemma_first_requiring(requirements, obsolete, 0);
    let after = merged(requirements, obsolete, target);
    match first_requiring(requirements, obsolete, 0) {
        Some(k) => {
            let added = RequirementView {
                ingredient: target,
                quantity: requirements[k].quantity,
                optional: false,
            };
            let kept = without_requirement(requirements, target.id);
            let put = kept.push(added);
            let keep_others = |r: RequirementView| r.ingredient.id != obsolete;
            let keep_apart = |r: RequirementView| r.ingredient.id != target.id;
            assert(after == put.filter(keep_others));
            assert(kept == requirements.filter(keep_apart));
            assert(put[put.len() - 1] == added);
            assert(after.contains(added));
            assert forall|i: int|
                0 <= i < requirements.len() && (#[trigger] requirements[i]).ingredient.id
                    != obsolete && requirements[i].ingredient.id
                    != target.id implies after.contains(requirements[i]) by {
                assert(kept.contains(requirements[i]));
                let m = choose|m: int| 0 <= m < kept.len() && kept[m] == requirements[i];
                assert(put[m] == requirements[i]);
                assert(keep_others(put[m]));
            }
            assert forall|i: int|
                0 <= i < after.len() && (#[trigger] after[i]).ingredient.id
                    != target.id implies requirements.contains(after[i]) by {
                assert(after.contains(after[i]));
                assert(put.contains(after[i]));
                let m = choose|m: int| 0 <= m < put.len() && put[m] == after[i];
                assert(m < kept.len());
                assert(kept.contains(kept[m]));
            }
        },
        None => {
            assert forall|i: int| 0 <= i < after.len() implies requirements.contains(
                #[trigger] after[i],
            ) by {
                assert(requirements[i] == after[i]);
            }
        },
    }
}

/// What a merge knows so far. A step hands it out with its request, and the
/// caller hands it back with the answer.
#[derive(Debug)]
pub struct MergeState {
    /// The ingredient to keep.
    pub target_id: String,
    /// The ingredient to merge and delete.
    pub obsolete_id: String,
    /// The recipes that use the obsolete ingredient.
    pub uses: Vec<RecipeIndex>,
    /// The requirements of each of them; `None` for a fetch that failed.
    pub fetched: Vec<Option<Vec<Requirement>>>,
    /// The recipes whose requirements name the obsolete ingredient.
    pub targets: Vec<MergeTarget>,
    /// For each target, whether its new requirement is confirmed.
    pub added: Vec<bool>,
}

/// What a merge knows.
pub struct MergeStateView {
    pub target_id: Seq<char>,
    pub obsolete_id: Seq<char>,
    pub uses: Seq<EntryView>,
    pub fetched: Seq<Option<Seq<RequirementView>>>,
    pub targets: Seq<MergeTargetView>,
    pub added: Seq<bool>,
}

impl View for MergeState {
    type V = MergeStateView;

    open spec fn view(&self) -> MergeStateView {
        MergeStateView {
            target_id: self.target_id@,
            obsolete_id: self.obsolete_id@,
            uses: views(self.uses@),
            fetched: fetched_requirements(self.fetched@),
            targets: views(self.targets@),
            added: self.added@,
        }
    }
}

/// What the caller brings to a step of a merge: the two ingredients that the
/// clues were resolved to, or the state of the merge with the answer to the
/// request of the step before. `None` and `false` stand for a clue that was
/// not resolved and for a request that failed.
#[derive(Debug)]
pub enum Merging {
    /// The ingredient to keep and the ingredient to merge.
    Identified(Option<IngredientIndex>, Option<IngredientIndex>),
    /// The record of the obsolete ingredient.
    Used(MergeState, Option<Ingredient>),
    /// The requirements of each recipe that uses it.
    Required(MergeState, Vec<Option<Vec<Requirement>>>),
    /// Whether each addition went through.
    Added(MergeState, Vec<bool>),
    /// Whether each deletion went through.
    Deleted(MergeState, Vec<bool>),
    /// Whether the deletion of the obsolete ingredient went through.
    Completed(bool),
}

/// Why a merge ended without merging.
#[derive(Debug, PartialEq, Eq)]
pub enum MergeError {
    /// One of the two clues was not resolved.
    Unresolved,
    /// The service did not answer a request that the merge depends on.
    Unanswered,
    /// Recipes are left behind; the obsolete ingredient stays.
    Incomplete,
}

/// What a step of a merge decides.
#[derive(Debug)]
pub enum MergeStep {
    /// Fetch the obsolete ingredient; come back with `Merging::Used`.
    FetchObsolete(MergeState, Request),
    /// Fetch the requirements of each recipe; come back with
    /// `Merging::Required`, the answers in the order of the requests.
    FetchRequirements(MergeState, Vec<Request>),
    /// Add the new requirements; come back with `Merging::Added`.
    Add(MergeState, Vec<Request>),
    /// Delete the old requirements; come back with `Merging::Deleted`.
    Delete(MergeState, Vec<Request>),
    /// Delete the obsolete ingredient; come back with `Merging::Completed`.
    Complete(Request),
    /// The merge is done.
    Done,
    /// The merge ended without merging.
    Failed(MergeError),
}

/// A merge that has resolved its two ingredients and knows nothing else.
pub open spec fn merge_start(target: Seq<char>, obsolete: Seq<char>) -> MergeStateView {
    MergeStateView {
        target_id: target,
        obsolete_id: obsolete,
        uses: Seq::empty(),
        fetched: Seq::empty(),
        targets: Seq::empty(),
        added: Seq::empty(),
    }
}

/// One step of merging an ingredient into another. The merge ends at once
/// where a clue was not resolved or the obsolete ingredient cannot be
/// fetched. A recipe whose requirements cannot be fetched, or whose new
/// requirement is not confirmed, keeps its old requirement, and the
/// obsolete ingredient then stays.
pub fn ingredient_merge(origin: &str, progress: Merging) -> (step: MergeStep)
    ensures
        match progress {
            Merging::Identified(Some(target), Some(obsolete)) => {
                &&& step matches MergeStep::FetchObsolete(state, request)
                &&& state@ == merge_start(target.id@, obsolete.id@)
                &&& request@ == ingredient_get_request(origin@, obsolete.id@)
            },
            Merging::Identified(_, _) => step matches MergeStep::Failed(error) && error
                == MergeError::Unresolved,
            Merging::Used(_, None) => step matches MergeStep::Failed(error) && error
                == MergeError::Unanswered,
            Merging::Used(state, Some(record)) => step matches MergeStep::FetchRequirements(
                next,
                requests,
            ) && next@ == (MergeStateView { uses: views(record.used_in@), ..state@ }) && views(
                requests@,
            ) == views(record.used_in@).map_values(
                |e: EntryView| recipe_get_requirements_request(origin@, e.id),
            ),
            Merging::Required(state, fetched) => {
                &&& step matches MergeStep::Add(next, requests)
                &&& next@ == (MergeStateView {
                    fetched: fetched_requirements(fetched@),
                    targets: targets_of(
                        state@.obsolete_id,
                        state@.uses,
                        fetched_requirements(fetched@),
                    ),
                    ..state@
                })
                &&& next.fetched == fetched
                &&& views(requests@) == next@.targets.map_values(
                    |t: MergeTargetView|
                        requirement_create_request(
                            origin@,
                            t.recipe_id,
                            state@.target_id,
                            t.quantity,
                            false,
                        ),
                )
            },
            Merging::Added(state, added) => step matches MergeStep::Delete(next, requests) && next@
                == (MergeStateView { added: added@, ..state@ }) && next.fetched == state.fetched
                && views(requests@) == deletions_of(
                origin@,
                state@.obsolete_id,
                state@.targets,
                added@,
            ),
            Merging::Deleted(state, deleted) => if complete(
                state.uses.len() as int,
                state.fetched@,
                state.targets.len() as int,
                state.added@,
                deleted@,
            ) {
                step matches MergeStep::Complete(request) && request@ == ingredient_delete_request(
                    origin@,
                    state@.obsolete_id,
                )
            } else {
                step matches MergeStep::Failed(error) && error == MergeError::Incomplete
            },
            Merging::Completed(true) => step is Done,
            Merging::Completed(false) => step matches MergeStep::Failed(error) && error
                == MergeError::Unanswered,
        },
{
    match progress {
        Merging::Identified(Some(target), Some(obsolete)) => {
            let request = ingredient_get(origin, obsolete.id.as_str());
            let state = MergeState {
                target_id: target.id,
                obsolete_id: obsolete.id,
                uses: Vec::new(),
                fetched: Vec::new(),
                targets: Vec::new(),
                added: Vec::new(),
            };
            assert(state@.uses =~= Seq::empty());
            assert(state@.fetched =~= Seq::empty());
            assert(state@.targets =~= Seq::empty());
            assert(state@.added =~= Seq::empty());
            MergeStep::FetchObsolete(state, request)
        },
        Merging::Identified(_, _) => MergeStep::Failed(MergeError::Unresolved),
        Merging::Used(_, None) => MergeStep::Failed(MergeError::Unanswered),
        Merging::Used(state, Some(record)) => {
            let requests = requirement_fetches(origin, &record.used_in);
            let MergeState { target_id, obsolete_id, uses: _, fetched, targets, added } = state;
            let uses = record.used_in;
            MergeStep::FetchRequirements(
                MergeState { target_id, obsolete_id, uses, fetched, targets, added },
                requests,
            )
        },
        Merging::Required(state, fetched) => {
            let targets = merge_targets(state.obsolete_id.as_str(), &state.uses, &fetched);
            let requests = merge_additions(origin, state.target_id.as_str(), &targets);
            let MergeState { target_id, obsolete_id, uses, fetched: _, targets: _, added } = state;
            MergeStep::Add(
                MergeState { target_id, obsolete_id, uses, fetched, targets, added },
                requests,
            )
        },
        Merging::Added(state, added) => {
            let requests = merge_deletions(
                origin,
                state.obsolete_id.as_str(),
                &state.targets,
                &added,
            );
            let MergeState { target_id, obsolete_id, uses, fetched, targets, added: _ } = state;
            MergeStep::Delete(
                MergeState { target_id, obsolete_id, uses, fetched, targets, added },
                requests,
            )
        },
        Merging::Deleted(state, deleted) => {
            match merge_completion(
                origin,
                state.obsolete_id.as_str(),
                &state.uses,
                &state.fetched,
                &state.targets,
                &state.added,
                &deleted,
            ) {
                Some(request) => MergeStep::Complete(request),
                None => MergeStep::Failed(MergeError::Incomplete),
            }
        },
        Merging::Completed(true) => MergeStep::Done,
        Merging::Completed(false) => MergeStep::Failed(MergeError::Unanswered),
    }
}

} // verus!
