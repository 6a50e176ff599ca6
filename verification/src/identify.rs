//! Resolving a clue to an entity.
//!
//! A clue is what a user typed: an identifier, a name, or part of a name.
//! Resolution first asks the service for the record with that identifier. If
//! there is none, it lists the entities whose name matches the clue: a single
//! candidate is taken, whatever its name; of several, the first whose name is
//! the clue. Otherwise the clue identifies nothing, and either an entity of
//! that name is created or the candidates are reported. Nothing is ever
//! guessed.
//!
//! The functions here decide; the caller talks to the service. It starts
//! with `Progress::Start`, sends the request that a step hands out, and comes
//! back with what the service answered, until a step is `Found` or `Failed`.

use crate::gateway::{
    ingredient_create, ingredient_create_request, ingredient_get, ingredient_get_request,
    ingredient_index, ingredient_index_request, label_create, label_create_request, label_get,
    label_get_request, label_index, label_index_request, recipe_get, recipe_get_request,
    recipe_index, recipe_index_request, Request,
};
use crate::models::{
    record_names, views, Ingredient, IngredientIndex, Label, LabelIndex, Recipe, RecipeIndex,
    Record,
};
use crate::text::same_text;
use vstd::prelude::*;
use vstd::string::StringExecFns;

verus! {

/// What a listing says about a clue.
#[derive(Debug)]
pub enum Resolution<I> {
    /// A candidate whose name is the clue.
    ExactMatch(I),
    /// The only candidate; its name differs from the clue.
    UniqueFuzzyMatch(I),
    /// Several candidates, none of them named like the clue. Holds the names
    /// of all of them.
    AmbiguousCandidates(Vec<String>),
    /// No candidate.
    NoMatch,
}

/// Which candidate of a listing a clue picks.
pub enum Verdict {
    Exact(int),
    Fuzzy(int),
    Ambiguous,
    Nothing,
}

/// The first position from `from` on whose candidate is named `clue`.
pub open spec fn first_named<I: Record>(matches: Seq<I>, clue: Seq<char>, from: int) -> Option<int>
    decreases matches.len() - from,
{
    if from < 0 || from >= matches.len() {
        None
    } else if matches[from].label() == clue {
        Some(from)
    } else {
        first_named(matches, clue, from + 1)
    }
}

/// What a listing says about a clue: a single candidate is picked whatever
/// its name; of none or several, the first that is named like the clue.
pub open spec fn verdict<I: Record>(clue: Seq<char>, matches: Seq<I>) -> Verdict {
    if matches.len() == 1 {
        if matches[0].label() == clue {
            Verdict::Exact(0)
        } else {
            Verdict::Fuzzy(0)
        }
    } else {
        match first_named(matches, clue, 0) {
            Some(i) => Verdict::Exact(i),
            None => if matches.len() == 0 {
                Verdict::Nothing
            } else {
                Verdict::Ambiguous
            },
        }
    }
}

/// `found` says of `matches` what `verdict` says.
pub open spec fn agrees<I: Record>(found: Resolution<I>, clue: Seq<char>, matches: Seq<I>) -> bool {
    match verdict(clue, matches) {
        Verdict::Exact(i) => found == Resolution::ExactMatch(matches[i]),
        Verdict::Fuzzy(i) => found == Resolution::UniqueFuzzyMatch(matches[i]),
        Verdict::Ambiguous => found matches Resolution::AmbiguousCandidates(names) && views(names@)
            == record_names(matches),
        Verdict::Nothing => found == Resolution::<I>::NoMatch,
    }
}

/// `first_named` finds a candidate named `clue`, the first one, if there
/// is any.
pub proof fn lemma_first_named<I: Record>(matches: Seq<I>, clue: Seq<char>, from: int)
    requires
        0 <= from <= matches.len(),
    ensures
        match first_named(matches, clue, from) {
            Some(i) => from <= i < matches.len() && matches[i].label() == clue && forall|j: int|
                from <= j < i ==> (#[trigger] matches[j]).label() != clue,
            None => forall|j: int|
                from <= j < matches.len() ==> (#[trigger] matches[j]).label() != clue,
        },
    decreases matches.len() - from,
{
    if from < matches.len() && matches[from].label() != clue {
        lemma_first_named(matches, clue, from + 1);
    }
}

fn names_of<I: Record>(matches: &Vec<I>) -> (names: Vec<String>)
    ensures
        views(names@) == record_names(matches@),
{
    let mut names: Vec<String> = Vec::new();
    let mut i: usize = 0;
    while i < matches.len()
        invariant
            i <= matches.len(),
            names.len() == i,
            forall|k: int| 0 <= k < i ==> (#[trigger] names[k])@ == matches[k].label(),
        decreases matches.len() - i,
    {
        names.push(matches[i].name().clone());
        i += 1;
    }
    assert(views(names@) =~= record_names(matches@));
    names
}

/// Decides what a listing says about a clue.
pub fn identify<I: Record>(clue: &str, matches: Vec<I>) -> (found: Resolution<I>)
    ensures
        agrees(found, clue@, matches@),
{
    let mut candidates = matches;
    if candidates.len() == 1 {
        let exact = same_text(candidates[0].name().as_str(), clue);
        let entry = candidates.remove(0);
        return if exact {
            Resolution::ExactMatch(entry)
        } else {
            Resolution::UniqueFuzzyMatch(entry)
        };
    }
    let mut i: usize = 0;
    while i < candidates.len()
        invariant
            i <= candidates.len(),
            candidates@ == matches@,
            matches.len() != 1,
            first_named(matches@, clue@, 0) == first_named(matches@, clue@, i as int),
        decreases candidates.len() - i,
    {
        if same_text(candidates[i].name().as_str(), clue) {
            assert(first_named(matches@, clue@, i as int) == Some(i as int));
            let entry = candidates.remove(i);
            return Resolution::ExactMatch(entry);
        }
        i += 1;
    }
    if candidates.len() == 0 {
        Resolution::NoMatch
    } else {
        Resolution::AmbiguousCandidates(names_of(&candidates))
    }
}

/// Why a clue was not resolved.
#[derive(Debug, PartialEq, Eq)]
pub enum IdentifyError {
    /// The clue is no identifier and picks no candidate. Holds the names of
    /// all the candidates.
    Unmatched { message: String, candidates: Vec<String> },
    /// The service did not answer a request that resolution depends on.
    Unanswered,
}

/// What the caller brings to a step: nothing yet, or the answer to the
/// request of the step before. `None` stands for a request that failed.
#[derive(Debug)]
pub enum Progress<R, I> {
    Start,
    Fetched(Option<R>),
    Listed(Option<Vec<I>>),
    Created(Option<I>),
}

/// What a step decides: a request to send, and what kind of answer to come
/// back with, or the end of the resolution.
#[derive(Debug, PartialEq)]
pub enum Step<I> {
    /// Fetch a record; come back with `Progress::Fetched`.
    Fetch(Request),
    /// List candidates; come back with `Progress::Listed`.
    List(Request),
    /// Create an entity; come back with `Progress::Created`.
    Create(Request),
    /// The clue stands for `entry`. `fuzzy` says that `entry` was picked as
    /// the only candidate although its name is not the clue.
    Found { entry: I, fuzzy: bool },
    Failed(IdentifyError),
}

/// The text that reports a clue that identifies no entity of kind `what`.
pub open spec fn unmatched_message(what: Seq<char>, clue: Seq<char>) -> Seq<char> {
    "Failed to identify "@ + what + " from: `"@ + clue + "`"@
}

/// The step after a listing, where nothing may be created.
pub open spec fn listing_decides<I: Record>(
    step: Step<I>,
    what: Seq<char>,
    clue: Seq<char>,
    matches: Seq<I>,
) -> bool {
    match verdict(clue, matches) {
        Verdict::Exact(i) => step == (Step::Found { entry: matches[i], fuzzy: false }),
        Verdict::Fuzzy(i) => step == (Step::Found { entry: matches[i], fuzzy: true }),
        _ => step matches Step::Failed(IdentifyError::Unmatched { message, candidates })
            && message@ == unmatched_message(what, clue) && views(candidates@) == record_names(
            matches,
        ),
    }
}

/// Whether a listing leaves a clue unresolved.
pub open spec fn unresolved<I: Record>(clue: Seq<char>, matches: Seq<I>) -> bool {
    verdict(clue, matches) is Ambiguous || verdict(clue, matches) is Nothing
}

fn after_listing<I: Record>(what: &str, clue: &str, matches: Vec<I>) -> (step: Step<I>)
    ensures
        listing_decides(step, what@, clue@, matches@),
{
    match identify(clue, matches) {
        Resolution::ExactMatch(entry) => Step::Found { entry, fuzzy: false },
        Resolution::UniqueFuzzyMatch(entry) => Step::Found { entry, fuzzy: true },
        Resolution::AmbiguousCandidates(candidates) => {
            let mut message = String::from_str("Failed to identify ");
            message.append(what);
            message.append(" from: `");
            message.append(clue);
            message.append("`");
            Step::Failed(IdentifyError::Unmatched { message, candidates })
        },
        Resolution::NoMatch => {
            let mut message = String::from_str("Failed to identify ");
            message.append(what);
            message.append(" from: `");
            message.append(clue);
            message.append("`");
            let candidates: Vec<String> = Vec::new();
            assert(views(candidates@) =~= record_names(matches@));
            Step::Failed(IdentifyError::Unmatched { message, candidates })
        },
    }
}

/// One step of resolving a clue to an ingredient. With `create`, a clue
/// that identifies nothing gives a new ingredient of that name, without
/// flags.
pub fn ingredient_identify(
    url: &str,
    clue: &str,
    create: bool,
    progress: Progress<Ingredient, IngredientIndex>,
) -> (step: Step<IngredientIndex>)
    ensures
        match progress {
            Progress::Start => step matches Step::Fetch(request) && request@
                == ingredient_get_request(url@, clue@),
            Progress::Fetched(Some(record)) => step == (Step::Found {
                entry: IngredientIndex { id: record.id, name: record.name },
                fuzzy: false,
            }),
            Progress::Fetched(None) => step matches Step::List(request) && request@
                == ingredient_index_request(url@, clue@),
            Progress::Listed(Some(matches)) => if create && unresolved(clue@, matches@) {
                step matches Step::Create(request) && request@ == ingredient_create_request(
                    url@,
                    clue@,
                    false,
                    false,
                    false,
                    false,
                )
            } else {
                listing_decides(step, "ingredient"@, clue@, matches@)
            },
            Progress::Created(Some(entry)) => step == (Step::Found { entry, fuzzy: false }),
            Progress::Listed(None) | Progress::Created(None) => step == Step::<
                IngredientIndex,
            >::Failed(IdentifyError::Unanswered),
        },
{
    match progress {
        Progress::Start => Step::Fetch(ingredient_get(url, clue)),
        Progress::Fetched(Some(record)) => Step::Found {
            entry: IngredientIndex { id: record.id, name: record.name },
            fuzzy: false,
        },
        Progress::Fetched(None) => Step::List(ingredient_index(url, clue)),
        Progress::Listed(Some(matches)) => {
            match after_listing("ingredient", clue, matches) {
                Step::Failed(error) => if create {
                    Step::Create(ingredient_create(url, clue, false, false, false, false))
                } else {
                    Step::Failed(error)
                },
                step => step,
            }
        },
        Progress::Created(Some(entry)) => Step::Found { entry, fuzzy: false },
        Progress::Listed(None) | Progress::Created(None) => Step::Failed(IdentifyError::Unanswered),
    }
}

/// One step of resolving a clue to a label. With `create`, a clue that
/// identifies nothing gives a new label of that name.
pub fn label_identify(
    url: &str,
    clue: &str,
    create: bool,
    progress: Progress<Label, LabelIndex>,
) -> (step: Step<LabelIndex>)
    ensures
        match progress {
            Progress::Start => step matches Step::Fetch(request) && request@ == label_get_request(
                url@,
                clue@,
            ),
            Progress::Fetched(Some(record)) => step == (Step::Found {
                entry: LabelIndex { id: record.id, name: record.name },
                fuzzy: false,
            }),
            Progress::Fetched(None) => step matches Step::List(request) && request@
                == label_index_request(url@, clue@),
            Progress::Listed(Some(matches)) => if create && unresolved(clue@, matches@) {
                step matches Step::Create(request) && request@ == label_create_request(url@, clue@)
            } else {
                listing_decides(step, "label"@, clue@, matches@)
            },
            Progress::Created(Some(entry)) => step == (Step::Found { entry, fuzzy: false }),
            Progress::Listed(None) | Progress::Created(None) => step == Step::<
                LabelIndex,
            >::Failed(IdentifyError::Unanswered),
        },
{
    match progress {
        Progress::Start => Step::Fetch(label_get(url, clue)),
        Progress::Fetched(Some(record)) => Step::Found {
            entry: LabelIndex { id: record.id, name: record.name },
            fuzzy: false,
        },
        Progress::Fetched(None) => Step::List(label_index(url, clue)),
        Progress::Listed(Some(matches)) => {
            match after_listing("label", clue, matches) {
                Step::Failed(error) => if create {
                    Step::Create(label_create(url, clue))
                } else {
                    Step::Failed(error)
                },
                step => step,
            }
        },
        Progress::Created(Some(entry)) => Step::Found { entry, fuzzy: false },
        Progress::Listed(None) | Progress::Created(None) => Step::Failed(IdentifyError::Unanswered),
    }
}

/// One step of resolving a clue to a recipe. A recipe is never created to
/// satisfy a clue.
pub fn recipe_identify(url: &str, clue: &str, progress: Progress<Recipe, RecipeIndex>) -> (step:
    Step<RecipeIndex>)
    ensures
        match progress {
            Progress::Start => step matches Step::Fetch(request) && request@ == recipe_get_request(
                url@,
                clue@,
            ),
            Progress::Fetched(Some(record)) => step == (Step::Found {
                entry: RecipeIndex { id: record.id, name: record.name },
                fuzzy: false,
            }),
            Progress::Fetched(None) => step matches Step::List(request) && request@
                == recipe_index_request(url@, clue@),
            Progress::Listed(Some(matches)) => listing_decides(step, "recipe"@, clue@, matches@),
            Progress::Created(Some(entry)) => step == (Step::Found { entry, fuzzy: false }),
            Progress::Listed(None) | Progress::Created(None) => step == Step::<
                RecipeIndex,
            >::Failed(IdentifyError::Unanswered),
        },
{
    match progress {
        Progress::Start => Step::Fetch(recipe_get(url, clue)),
        Progress::Fetched(Some(record)) => Step::Found {
            entry: RecipeIndex { id: record.id, name: record.name },
            fuzzy: false,
        },
        Progress::Fetched(None) => Step::List(recipe_index(url, clue)),
        Progress::Listed(Some(matches)) => after_listing("recipe", clue, matches),
        Progress::Created(Some(entry)) => Step::Found { entry, fuzzy: false },
        Progress::Listed(None) | Progress::Created(None) => Step::Failed(IdentifyError::Unanswered),
    }
}

} // verus!
