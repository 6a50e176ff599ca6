//! Fetching whole collections from a service.
//!
//! A collection is fetched in two steps: its listing, then one request per
//! listed element. An element whose request fails is left out; the others
//! are kept, each entity once.

use crate::gateway::{
    ingredient_get, ingredient_get_request, ingredient_index, ingredient_index_request, label_get,
    label_get_request, label_index, label_index_request, recipe_get, recipe_get_request,
    recipe_index, recipe_index_request, Request, RequestView,
};
use crate::models::{
    views, EntryView, Ingredient, IngredientIndex, Label, LabelIndex, Recipe, RecipeIndex, Record,
};
use crate::text::same_text;
use vstd::prelude::*;

verus! {

/// Whether one of `records` has the identifier `key`.
pub open spec fn known<T: Record>(records: Seq<T>, key: Seq<char>) -> bool {
    exists|i: int| 0 <= i < records.len() && (#[trigger] records[i]).key() == key
}

/// The records that were fetched, in order, without those that failed
/// (`None`) and without those whose identifier an earlier one has.
pub open spec fn gathered<T: Record>(fetched: Seq<Option<T>>) -> Seq<T>
    decreases fetched.len(),
{
    if fetched.len() == 0 {
        Seq::empty()
    } else {
        let before = gathered(fetched.drop_last());
        match fetched.last() {
            Some(record) => if known(before, record.key()) {
                before
            } else {
                before.push(record)
            },
            None => before,
        }
    }
}

/// Whether one of `records` has the identifier `key`.
pub fn is_known<T: Record>(records: &Vec<T>, key: &str) -> (found: bool)
    ensures
        found == known(records@, key@),
{
    let mut i: usize = 0;
    while i < records.len()
        invariant
            i <= records.len(),
            forall|k: int| 0 <= k < i ==> (#[trigger] records[k]).key() != key@,
        decreases records.len() - i,
    {
        if same_text(records[i].id().as_str(), key) {
            return true;
        }
        i += 1;
    }
    false
}

/// Keeps of a batch of fetches the records that arrived, each entity once.
pub fn gather<T: Record>(fetched: Vec<Option<T>>) -> (records: Vec<T>)
    ensures
        records@ == gathered(fetched@),
        forall|a: int, b: int|
            0 <= a < b < records.len() ==> (#[trigger] records[a]).key() != (
            #[trigger] records[b]).key(),
{
    let mut records: Vec<T> = Vec::new();
    let ghost all = fetched@;
    assert(all.take(0) =~= Seq::empty());
    for answer in it: fetched
        invariant
            it.seq() == all,
            records@ == gathered(all.take(it.index() as int)),
    {
        proof {
            let next = all.take(it.index() + 1);
            assert(next.drop_last() =~= all.take(it.index() as int));
            assert(next.last() == answer);
        }
        if let Some(record) = answer {
            if !is_known(&records, record.id().as_str()) {
                records.push(record);
            }
        }
    }
    assert(all.take(all.len() as int) =~= all);
    proof {
        lemma_gathered_distinct(all);
    }
    records
}

/// One request per listed recipe, for its full record.
pub fn recipe_fetches(origin: &str, index: &Vec<RecipeIndex>) -> (requests: Vec<Request>)
    ensures
        views(requests@) == views(index@).map_values(
            |e: EntryView| recipe_get_request(origin@, e.id),
        ),
{
    let mut requests: Vec<Request> = Vec::new();
    let mut i: usize = 0;
    while i < index.len()
        invariant
            i <= index.len(),
            requests.len() == i,
            forall|k: int|
                0 <= k < i ==> (#[trigger] requests[k])@ == recipe_get_request(
                    origin@,
                    index[k].id@,
                ),
        decreases index.len() - i,
    {
        requests.push(recipe_get(origin, index[i].id.as_str()));
        i += 1;
    }
    assert(views(requests@) =~= views(index@).map_values(
        |e: EntryView| recipe_get_request(origin@, e.id),
    ));
    requests
}

/// One request per listed ingredient, for its full record.
pub fn ingredient_fetches(origin: &str, index: &Vec<IngredientIndex>) -> (requests: Vec<Request>)
    ensures
        views(requests@) == views(index@).map_values(
            |e: EntryView| ingredient_get_request(origin@, e.id),
        ),
{
    let mut requests: Vec<Request> = Vec::new();
    let mut i: usize = 0;
    while i < index.len()
        invariant
            i <= index.len(),
            requests.len() == i,
            forall|k: int|
                0 <= k < i ==> (#[trigger] requests[k])@ == ingredient_get_request(
                    origin@,
                    index[k].id@,
                ),
        decreases index.len() - i,
    {
        requests.push(ingredient_get(origin, index[i].id.as_str()));
        i += 1;
    }
    assert(views(requests@) =~= views(index@).map_values(
        |e: EntryView| ingredient_get_request(origin@, e.id),
    ));
    requests
}

/// One request per listed label, for its full record.
pub fn label_fetches(origin: &str, index: &Vec<LabelIndex>) -> (requests: Vec<Request>)
    ensures
        views(requests@) == views(index@).map_values(
            |e: EntryView| label_get_request(origin@, e.id),
        ),
{
    let mut requests: Vec<Request> = Vec::new();
    let mut i: usize = 0;
    while i < index.len()
        invariant
            i <= index.len(),
            requests.len() == i,
            forall|k: int|
                0 <= k < i ==> (#[trigger] requests[k])@ == label_get_request(
                    origin@,
                    index[k].id@,
                ),
        decreases index.len() - i,
    {
        requests.push(label_get(origin, index[i].id.as_str()));
        i += 1;
    }
    assert(views(requests@) =~= views(index@).map_values(
        |e: EntryView| label_get_request(origin@, e.id),
    ));
    requests
}

/// Every record that `gathered` keeps was fetched.
pub proof fn lemma_gathered_fetched<T: Record>(fetched: Seq<Option<T>>, k: int)
    requires
        0 <= k < gathered(fetched).len(),
    ensures
        exists|i: int|
            0 <= i < fetched.len() && #[trigger] fetched[i] == Some(gathered(fetched)[k]),
    decreases fetched.len(),
{
    if fetched.len() > 0 {
        let front = fetched.drop_last();
        if k < gathered(front).len() {
            lemma_gathered_fetched(front, k);
            let i = choose|i: int|
                0 <= i < front.len() && #[trigger] front[i] == Some(gathered(front)[k]);
            assert(fetched[i] == Some(gathered(fetched)[k]));
        } else {
            assert(fetched[fetched.len() - 1] == Some(gathered(fetched)[k]));
        }
    }
}

/// `gathered` keeps no two records with the same identifier.
pub proof fn lemma_gathered_distinct<T: Record>(fetched: Seq<Option<T>>)
    ensures
        forall|a: int, b: int|
            0 <= a < b < gathered(fetched).len() ==> (#[trigger] gathered(fetched)[a]).key() != (
            #[trigger] gathered(fetched)[b]).key(),
    decreases fetched.len(),
{
    if fetched.len() > 0 {
        let before = gathered(fetched.drop_last());
        let all = gathered(fetched);
        lemma_gathered_distinct(fetched.drop_last());
        assert forall|a: int, b: int| 0 <= a < b < all.len() implies (#[trigger] all[a]).key() != (
        #[trigger] all[b]).key() by {
            if b < before.len() {
                assert(all[a] == before[a] && all[b] == before[b]);
            } else {
                assert(all[a] == before[a]);
                assert(!known(before, all[b].key()));
            }
        }
    }
}

/// `gathered` keeps a record for the identifier of every record that was
/// fetched.
pub proof fn lemma_gathered_covers<T: Record>(fetched: Seq<Option<T>>, i: int)
    requires
        0 <= i < fetched.len(),
        fetched[i] is Some,
    ensures
        known(gathered(fetched), fetched[i]->0.key()),
    decreases fetched.len(),
{
    let front = fetched.drop_last();
    let key = fetched[i]->0.key();
    if i < fetched.len() - 1 {
        lemma_gathered_covers(front, i);
        let k = choose|k: int|
            0 <= k < gathered(front).len() && (#[trigger] gathered(front)[k]).key() == key;
        assert(gathered(fetched)[k].key() == key);
    } else if known(gathered(front), key) {
        let k = choose|k: int|
            0 <= k < gathered(front).len() && (#[trigger] gathered(front)[k]).key() == key;
        assert(gathered(fetched)[k].key() == key);
    } else {
        assert(gathered(fetched)[gathered(fetched).len() - 1].key() == key);
    }
}

/// What the caller brings to a step of a fetch: nothing yet, the listing,
/// or the records. `None` stands for a request that failed.
#[derive(Debug)]
pub enum Fetching<I, T> {
    Start,
    Listed(Option<Vec<I>>),
    Fetched(Vec<Option<T>>),
}

/// What a step of a fetch decides.
#[derive(Debug)]
pub enum FetchStep<T> {
    /// Ask for the listing; come back with `Fetching::Listed`.
    List(Request),
    /// Ask for each record, all at once; come back with `Fetching::Fetched`,
    /// the answers in the order of the requests.
    Fetch(Vec<Request>),
    /// The collection: the records that arrived, each entity once.
    Done(Vec<T>),
    /// The listing failed, and with it the fetch.
    Failed,
}

/// One step of fetching every recipe of a service. The listing is what the
/// fetch cannot do without: where it fails, the fetch fails. A record that
/// fails to arrive is left out, and the fetch goes on.
pub fn fetch_recipes(origin: &str, progress: Fetching<RecipeIndex, Recipe>) -> (step: FetchStep<
    Recipe,
>)
    ensures
        match progress {
            Fetching::Start => step matches FetchStep::List(request) && request@
                == recipe_index_request(origin@, ""@),
            Fetching::Listed(None) => step is Failed,
            Fetching::Listed(Some(index)) => step matches FetchStep::Fetch(requests) && views(
                requests@,
            ) == views(index@).map_values(|e: EntryView| recipe_get_request(origin@, e.id)),
            Fetching::Fetched(answers) => step matches FetchStep::Done(records) && records@
                == gathered(answers@),
        },
{
    match progress {
        Fetching::Start => FetchStep::List(recipe_index(origin, "")),
        Fetching::Listed(None) => FetchStep::Failed,
        Fetching::Listed(Some(index)) => FetchStep::Fetch(recipe_fetches(origin, &index)),
        Fetching::Fetched(answers) => FetchStep::Done(gather(answers)),
    }
}

/// One step of fetching every ingredient of a service; see `fetch_recipes`.
pub fn fetch_ingredients(origin: &str, progress: Fetching<IngredientIndex, Ingredient>) -> (step:
    FetchStep<Ingredient>)
    ensures
        match progress {
            Fetching::Start => step matches FetchStep::List(request) && request@
                == ingredient_index_request(origin@, ""@),
            Fetching::Listed(None) => step is Failed,
            Fetching::Listed(Some(index)) => step matches FetchStep::Fetch(requests) && views(
                requests@,
            ) == views(index@).map_values(|e: EntryView| ingredient_get_request(origin@, e.id)),
            Fetching::Fetched(answers) => step matches FetchStep::Done(records) && records@
                == gathered(answers@),
        },
{
    match progress {
        Fetching::Start => FetchStep::List(ingredient_index(origin, "")),
        Fetching::Listed(None) => FetchStep::Failed,
        Fetching::Listed(Some(index)) => FetchStep::Fetch(ingredient_fetches(origin, &index)),
        Fetching::Fetched(answers) => FetchStep::Done(gather(answers)),
    }
}

/// One step of fetching every label of a service; see `fetch_recipes`.
pub fn fetch_labels(origin: &str, progress: Fetching<LabelIndex, Label>) -> (step: FetchStep<Label>)
    ensures
        match progress {
            Fetching::Start => step matches FetchStep::List(request) && request@
                == label_index_request(origin@, ""@),
            Fetching::Listed(None) => step is Failed,
            Fetching::Listed(Some(index)) => step matches FetchStep::Fetch(requests) && views(
                requests@,
            ) == views(index@).map_values(|e: EntryView| label_get_request(origin@, e.id)),
            Fetching::Fetched(answers) => step matches FetchStep::Done(records) && records@
                == gathered(answers@),
        },
{
    match progress {
        Fetching::Start => FetchStep::List(label_index(origin, "")),
        Fetching::Listed(None) => FetchStep::Failed,
        Fetching::Listed(Some(index)) => FetchStep::Fetch(label_fetches(origin, &index)),
        Fetching::Fetched(answers) => FetchStep::Done(gather(answers)),
    }
}

} // verus!
