//! Identifier translation tables.
//!
//! A table lives for one run. It maps the identifier that an entity has on the
//! source to the identifier that stands for it on the other side: the one a
//! destination service returned, or a placeholder.

use crate::text::same_text;
use vstd::prelude::*;

verus! {

/// The map `base` after the pairs of `pairs` were recorded in it one after
/// the other: the pair recorded last for an identifier decides.
pub open spec fn extended(
    base: Map<Seq<char>, Seq<char>>,
    pairs: Seq<(Seq<char>, Seq<char>)>,
) -> Map<Seq<char>, Seq<char>>
    decreases pairs.len(),
{
    if pairs.len() == 0 {
        base
    } else {
        extended(base, pairs.drop_last()).insert(pairs.last().0, pairs.last().1)
    }
}

/// What a list of recorded pairs maps each identifier to.
pub open spec fn recorded(pairs: Seq<(Seq<char>, Seq<char>)>) -> Map<Seq<char>, Seq<char>> {
    extended(Map::empty(), pairs)
}

/// The pairs that translate `sources`: one for each source whose creation
/// returned an identifier, in the order of the sources. A source beyond the
/// end of `created` counts as not created.
pub open spec fn translations(
    sources: Seq<Seq<char>>,
    created: Seq<Option<Seq<char>>>,
) -> Seq<(Seq<char>, Seq<char>)>
    decreases sources.len(),
{
    if sources.len() == 0 {
        Seq::empty()
    } else {
        let at = sources.len() - 1;
        let before = translations(sources.drop_last(), created);
        if at < created.len() && created[at] is Some {
            before.push((sources[at], created[at]->0))
        } else {
            before
        }
    }
}

/// An identifier that has no later pair in `pairs` maps to what the pair at
/// `at` holds.
pub proof fn lemma_recorded_last(pairs: Seq<(Seq<char>, Seq<char>)>, key: Seq<char>, at: int)
    requires
        0 <= at < pairs.len(),
        pairs[at].0 == key,
        forall|j: int| at < j < pairs.len() ==> (#[trigger] pairs[j]).0 != key,
    ensures
        recorded(pairs).contains_key(key),
        recorded(pairs)[key] == pairs[at].1,
    decreases pairs.len(),
{
    if at < pairs.len() - 1 {
        assert(pairs.last().0 != key);
        let front = pairs.drop_last();
        assert(front[at] == pairs[at]);
        assert forall|j: int| at < j < front.len() implies (#[trigger] front[j]).0 != key by {
            assert(front[j] == pairs[j]);
        }
        lemma_recorded_last(front, key, at);
    }
}

/// The identifiers that a list of pairs maps are those that occur in it.
pub proof fn lemma_recorded_domain(pairs: Seq<(Seq<char>, Seq<char>)>, key: Seq<char>)
    ensures
        recorded(pairs).contains_key(key) <==> exists|j: int|
            0 <= j < pairs.len() && (#[trigger] pairs[j]).0 == key,
    decreases pairs.len(),
{
    if pairs.len() > 0 {
        let front = pairs.drop_last();
        lemma_recorded_domain(front, key);
        if recorded(pairs).contains_key(key) {
            if pairs.last().0 == key {
                assert(pairs[pairs.len() - 1].0 == key);
            } else {
                let j = choose|j: int| 0 <= j < front.len() && (#[trigger] front[j]).0 == key;
                assert(pairs[j].0 == key);
            }
        }
        if exists|j: int| 0 <= j < pairs.len() && (#[trigger] pairs[j]).0 == key {
            let j = choose|j: int| 0 <= j < pairs.len() && (#[trigger] pairs[j]).0 == key;
            if j < front.len() {
                assert(front[j].0 == key);
            }
        }
    }
}

/// What recording adds to a map is found among the recorded pairs: an
/// identifier that the extended map knows was known before or is the source
/// of a pair.
pub proof fn lemma_extended_domain(
    base: Map<Seq<char>, Seq<char>>,
    pairs: Seq<(Seq<char>, Seq<char>)>,
    key: Seq<char>,
)
    requires
        extended(base, pairs).contains_key(key),
    ensures
        base.contains_key(key) || exists|j: int|
            0 <= j < pairs.len() && (#[trigger] pairs[j]).0 == key,
    decreases pairs.len(),
{
    if pairs.len() > 0 {
        if pairs.last().0 == key {
            assert(pairs[pairs.len() - 1].0 == key);
        } else {
            let front = pairs.drop_last();
            lemma_extended_domain(base, front, key);
            if !base.contains_key(key) {
                let j = choose|j: int| 0 <= j < front.len() && (#[trigger] front[j]).0 == key;
                assert(pairs[j].0 == key);
            }
        }
    }
}

/// Every pair that translates a list of sources starts from one of the
/// sources.
pub proof fn lemma_translations_sources(
    sources: Seq<Seq<char>>,
    created: Seq<Option<Seq<char>>>,
    j: int,
)
    requires
        0 <= j < translations(sources, created).len(),
    ensures
        exists|i: int| 0 <= i < sources.len() && #[trigger] sources[i] == translations(
            sources,
            created,
        )[j].0,
    decreases sources.len(),
{
    if sources.len() > 0 {
        let front = sources.drop_last();
        if j < translations(front, created).len() {
            lemma_translations_sources(front, created, j);
            let i = choose|i: int|
                0 <= i < front.len() && #[trigger] front[i] == translations(front, created)[j].0;
            assert(sources[i] == front[i]);
        } else {
            assert(sources[sources.len() - 1] == translations(sources, created)[j].0);
        }
    }
}

/// A map from source identifiers to the identifiers that replace them.
#[derive(Debug)]
pub struct TranslationTable {
    entries: Vec<(String, String)>,
}

impl TranslationTable {
    /// The pairs that were recorded, in the order of their recording.
    pub closed spec fn pairs(&self) -> Seq<(Seq<char>, Seq<char>)> {
        self.entries@.map_values(|e: (String, String)| (e.0@, e.1@))
    }

    /// A table without entries.
    pub fn new() -> (table: Self)
        ensures
            table@ == Map::<Seq<char>, Seq<char>>::empty(),
    {
        let table = TranslationTable { entries: Vec::new() };
        assert(table.pairs() =~= Seq::empty());
        table
    }

    /// Records that `key` is replaced by `value`. An earlier entry for `key`
    /// is superseded.
    pub fn insert(&mut self, key: String, value: String)
        ensures
            final(self)@ == old(self)@.insert(key@, value@),
    {
        self.entries.push((key, value));
        proof {
            assert(self.pairs().drop_last() =~= old(self).pairs());
            assert(self.pairs().last() == (key@, value@));
        }
    }

    /// The identifier that replaces `key`, if the table has one.
    pub fn get(&self, key: &str) -> (found: Option<&String>)
        ensures
            match found {
                Some(value) => self@.contains_key(key@) && value@ == self@[key@],
                None => !self@.contains_key(key@),
            },
    {
        let mut i: usize = self.entries.len();
        while i > 0
            invariant
                i <= self.entries.len(),
                forall|j: int|
                    i <= j < self.entries.len() ==> (#[trigger] self.pairs()[j]).0 != key@,
            decreases i,
        {
            i -= 1;
            if same_text(self.entries[i].0.as_str(), key) {
                proof {
                    assert(self.pairs()[i as int].0 == key@);
                    lemma_recorded_last(self.pairs(), key@, i as int);
                }
                return Some(&self.entries[i].1);
            }
            assert(self.pairs()[i as int].0 != key@);
        }
        proof {
            lemma_recorded_domain(self.pairs(), key@);
        }
        None
    }

    /// Whether the table has an entry for `key`.
    pub fn contains_key(&self, key: &str) -> (found: bool)
        ensures
            found == self@.contains_key(key@),
    {
        self.get(key).is_some()
    }
}

impl View for TranslationTable {
    type V = Map<Seq<char>, Seq<char>>;

    closed spec fn view(&self) -> Map<Seq<char>, Seq<char>> {
        recorded(self.pairs())
    }
}

} // verus!
