//! Reclaiming entities that no recipe refers to.
//!
//! A pass fetches every ingredient (or every label), keeps those whose list
//! of referring recipes is empty, each entity once, and deletes them. An
//! entity whose fetch failed is not considered in that run. The pass over
//! the ingredients and the pass over the labels do not depend on each other.

use crate::fetch::{
    gather, gathered, known, lemma_gathered_covers, lemma_gathered_distinct,
    lemma_gathered_fetched,
};
use crate::fetch::{ingredient_fetches, label_fetches};
use crate::gateway::{
    ingredient_delete, ingredient_delete_request, ingredient_get_request, ingredient_index,
    ingredient_index_request, label_delete, label_delete_request, label_get_request, label_index,
    label_index_request, Request, RequestView,
};
use crate::models::{
    views, EntryView, Ingredient, IngredientIndex, IngredientView, Label, LabelIndex, LabelView,
    Record, Referenced,
};
use vstd::prelude::*;

verus! {

/// A fetched record, if no recipe refers to it.
pub open spec fn if_unreferenced<T: Referenced>(answer: Option<T>) -> Option<T> {
    match answer {
        Some(record) => if record.references() == 0 {
            Some(record)
        } else {
            None
        },
        None => None,
    }
}

/// The records to delete after a batch of fetches: those that arrived and
/// that no recipe refers to, in order, each entity once.
pub open spec fn unused_of<T: Referenced>(fetched: Seq<Option<T>>) -> Seq<T> {
    gathered(fetched.map_values(|answer: Option<T>| if_unreferenced(answer)))
}

/// Picks from a batch of fetches the records to delete.
pub fn unused<T: Referenced>(fetched: Vec<Option<T>>) -> (found: Vec<T>)
    ensures
        found@ == unused_of(fetched@),
{
    let mut candidates: Vec<Option<T>> = Vec::new();
    let ghost all = fetched@;
    for answer in it: fetched
        invariant
            it.seq() == all,
            candidates.len() == it.index(),
            forall|k: int|
                0 <= k < it.index() ==> #[trigger] candidates[k] == if_unreferenced(all[k]),
    {
        let candidate = match answer {
            Some(record) => if record.reference_count() == 0 {
                Some(record)
            } else {
                None
            },
            None => None,
        };
        candidates.push(candidate);
    }
    assert(candidates@ =~= all.map_values(|answer: Option<T>| if_unreferenced(answer)));
    gather(candidates)
}

/// Every record that is picked for deletion was fetched and has no recipe
/// referring to it; no entity is picked twice; and every fetched record
/// that no recipe refers to has its entity picked. So what a pass leaves
/// behind, of what it fetched, is referred to by some recipe, and it deletes
/// nothing that is.
pub proof fn lemma_unused_exact<T: Referenced>(fetched: Seq<Option<T>>)
    ensures
        forall|k: int|
            0 <= k < unused_of(fetched).len() ==> (#[trigger] unused_of(fetched)[k]).references()
                == 0 && fetched.contains(Some(unused_of(fetched)[k])),
        forall|a: int, b: int|
            0 <= a < b < unused_of(fetched).len() ==> (#[trigger] unused_of(fetched)[a]).key() != (
            #[trigger] unused_of(fetched)[b]).key(),
        forall|i: int|
            0 <= i < fetched.len() && (#[trigger] fetched[i]) is Some && fetched[i]->0.references()
                == 0 ==> known(unused_of(fetched), fetched[i]->0.key()),
{
    let candidates = fetched.map_values(|answer: Option<T>| if_unreferenced(answer));
    assert forall|k: int| 0 <= k < unused_of(fetched).len() implies (#[trigger] unused_of(
        fetched,
    )[k]).references() == 0 && fetched.contains(Some(unused_of(fetched)[k])) by {
        lemma_gathered_fetched(candidates, k);
        let i = choose|i: int|
            0 <= i < candidates.len() && #[trigger] candidates[i] == Some(gathered(candidates)[k]);
        assert(fetched[i] == Some(unused_of(fetched)[k]));
    }
    lemma_gathered_distinct(candidates);
    assert forall|i: int|
        0 <= i < fetched.len() && (#[trigger] fetched[i]) is Some && fetched[i]->0.references()
            == 0 implies known(unused_of(fetched), fetched[i]->0.key()) by {
        assert(candidates[i] == fetched[i]);
        lemma_gathered_covers(candidates, i);
    }
}

/// One deletion request per ingredient, in order.
pub fn ingredient_deletions(origin: &str, unused: &Vec<Ingredient>) -> (requests: Vec<Request>)
    ensures
        views(requests@) == views(unused@).map_values(
            |i: IngredientView| ingredient_delete_request(origin@, i.id),
        ),
{
    let mut requests: Vec<Request> = Vec::new();
    let mut i: usize = 0;
    while i < unused.len()
        invariant
            i <= unused.len(),
            requests.len() == i,
            forall|k: int|
                0 <= k < i ==> (#[trigger] requests[k])@ == ingredient_delete_request(
                    origin@,
                    unused[k].id@,
                ),
        decreases unused.len() - i,
    {
        requests.push(ingredient_delete(origin, unused[i].id.as_str()));
        i += 1;
    }
    assert(views(requests@) =~= views(unused@).map_values(
        |i: IngredientView| ingredient_delete_request(origin@, i.id),
    ));
    requests
}

/// One deletion request per label, in order.
pub fn label_deletions(origin: &str, unused: &Vec<Label>) -> (requests: Vec<Request>)
    ensures
        views(requests@) == views(unused@).map_values(
            |l: LabelView| label_delete_request(origin@, l.id),
        ),
{
    let mut requests: Vec<Request> = Vec::new();
    let mut i: usize = 0;
    while i < unused.len()
        invariant
            i <= unused.len(),
            requests.len() == i,
            forall|k: int|
                0 <= k < i ==> (#[trigger] requests[k])@ == label_delete_request(
                    origin@,
                    unused[k].id@,
                ),
        decreases unused.len() - i,
    {
        requests.push(label_delete(origin, unused[i].id.as_str()));
        i += 1;
    }
    assert(views(requests@) =~= views(unused@).map_values(
        |l: LabelView| label_delete_request(origin@, l.id),
    ));
    requests
}

/// What the caller brings to a step of a pass: nothing yet, the listing,
/// the records, or what became of the deletions. `None` and `false` stand
/// for a request that failed.
#[derive(Debug)]
pub enum Cleaning<I, T> {
    Start,
    Listed(Option<Vec<I>>),
    Fetched(Vec<Option<T>>),
    /// The records that the pass asked to delete, and for each whether the
    /// deletion went through.
    Deleted(Vec<T>, Vec<bool>),
}

/// What a pass did: the names of the entities that it deleted, and of those
/// that it could not delete.
#[derive(Debug, PartialEq, Eq)]
pub struct CleanReport {
    pub deleted: Vec<String>,
    pub failed: Vec<String>,
}

/// What a step of a pass decides.
#[derive(Debug)]
pub enum CleanStep<T> {
    /// Ask for the listing; come back with `Cleaning::Listed`.
    List(Request),
    /// Ask for each record; come back with `Cleaning::Fetched`, the answers
    /// in the order of the requests.
    Fetch(Vec<Request>),
    /// Delete these records, by these requests in the same order; come back
    /// with `Cleaning::Deleted`.
    Delete(Vec<T>, Vec<Request>),
    /// The pass is over.
    Done(CleanReport),
    /// The listing failed, and with it the pass.
    Failed,
}

/// The names of the records whose deletion went through, if `wanted`, or of
/// those whose deletion did not, if not. `done[i]` answers for
/// `records[i]`; a record beyond the end of `done` counts as not deleted.
pub open spec fn names_where<T: Record>(records: Seq<T>, done: Seq<bool>, wanted: bool) -> Seq<
    Seq<char>,
>
    decreases records.len(),
{
    if records.len() == 0 {
        Seq::empty()
    } else {
        let at = records.len() - 1;
        let before = names_where(records.drop_last(), done, wanted);
        if (at < done.len() && done[at]) == wanted {
            before.push(records[at].label())
        } else {
            before
        }
    }
}

fn report<T: Record>(records: &Vec<T>, done: &Vec<bool>) -> (report: CleanReport)
    ensures
        views(report.deleted@) == names_where(records@, done@, true),
        views(report.failed@) == names_where(records@, done@, false),
{
    let mut deleted: Vec<String> = Vec::new();
    let mut failed: Vec<String> = Vec::new();
    let mut i: usize = 0;
    assert(records@.take(0) =~= Seq::empty());
    while i < records.len()
        invariant
            i <= records.len(),
            views(deleted@) == names_where(records@.take(i as int), done@, true),
            views(failed@) == names_where(records@.take(i as int), done@, false),
        decreases records.len() - i,
    {
        let ghost was_deleted = views(deleted@);
        let ghost was_failed = views(failed@);
        proof {
            let next = records@.take(i as int + 1);
            assert(next.drop_last() =~= records@.take(i as int));
            assert(next.last() == records[i as int]);
        }
        if i < done.len() && done[i] {
            deleted.push(records[i].name().clone());
            assert(views(deleted@) =~= was_deleted.push(records[i as int].label()));
        } else {
            failed.push(records[i].name().clone());
            assert(views(failed@) =~= was_failed.push(records[i as int].label()));
        }
        i += 1;
    }
    assert(records@.take(i as int) =~= records@);
    CleanReport { deleted, failed }
}

/// One step of the pass over the ingredients. The listing is what the pass
/// cannot do without. An ingredient that fails to arrive is not considered;
/// one whose deletion fails is reported, and the pass goes on.
pub fn clean_ingredients(origin: &str, progress: Cleaning<IngredientIndex, Ingredient>) -> (step:
    CleanStep<Ingredient>)
    ensures
        match progress {
            Cleaning::Start => step matches CleanStep::List(request) && request@
                == ingredient_index_request(origin@, ""@),
            Cleaning::Listed(None) => step is Failed,
            Cleaning::Listed(Some(index)) => step matches CleanStep::Fetch(requests) && views(
                requests@,
            ) == views(index@).map_values(|e: EntryView| ingredient_get_request(origin@, e.id)),
            Cleaning::Fetched(answers) => step matches CleanStep::Delete(records, requests)
                && records@ == unused_of(answers@) && views(requests@) == views(
                records@,
            ).map_values(|i: IngredientView| ingredient_delete_request(origin@, i.id)),
            Cleaning::Deleted(records, done) => step matches CleanStep::Done(report) && views(
                report.deleted@,
            ) == names_where(records@, done@, true) && views(report.failed@) == names_where(
                records@,
                done@,
                false,
            ),
        },
{
    match progress {
        Cleaning::Start => CleanStep::List(ingredient_index(origin, "")),
        Cleaning::Listed(None) => CleanStep::Failed,
        Cleaning::Listed(Some(index)) => CleanStep::Fetch(ingredient_fetches(origin, &index)),
        Cleaning::Fetched(answers) => {
            let records = unused(answers);
            let requests = ingredient_deletions(origin, &records);
            CleanStep::Delete(records, requests)
        },
        Cleaning::Deleted(records, done) => CleanStep::Done(report(&records, &done)),
    }
}

/// One step of the pass over the labels; see `clean_ingredients`.
pub fn clean_labels(origin: &str, progress: Cleaning<LabelIndex, Label>) -> (step: CleanStep<Label>)
    ensures
        match progress {
            Cleaning::Start => step matches CleanStep::List(request) && request@
                == label_index_request(origin@, ""@),
            Cleaning::Listed(None) => step is Failed,
            Cleaning::Listed(Some(index)) => step matches CleanStep::Fetch(requests) && views(
                requests@,
            ) == views(index@).map_values(|e: EntryView| label_get_request(origin@, e.id)),
            Cleaning::Fetched(answers) => step matches CleanStep::Delete(records, requests)
                && records@ == unused_of(answers@) && views(requests@) == views(
                records@,
            ).map_values(|l: LabelView| label_delete_request(origin@, l.id)),
            Cleaning::Deleted(records, done) => step matches CleanStep::Done(report) && views(
                report.deleted@,
            ) == names_where(records@, done@, true) && views(report.failed@) == names_where(
                records@,
                done@,
                false,
            ),
        },
{
    match progress {
        Cleaning::Start => CleanStep::List(label_index(origin, "")),
        Cleaning::Listed(None) => CleanStep::Failed,
        Cleaning::Listed(Some(index)) => CleanStep::Fetch(label_fetches(origin, &index)),
        Cleaning::Fetched(answers) => {
            let records = unused(answers);
            let requests = label_deletions(origin, &records);
            CleanStep::Delete(records, requests)
        },
        Cleaning::Deleted(records, done) => CleanStep::Done(report(&records, &done)),
    }
}

} // verus!
