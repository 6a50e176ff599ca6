//! Ordering entities by name.
//!
//! A snapshot orders its records by a key that ignores accents and letter
//! case: the name transliterated to ASCII, with capital letters folded to
//! small ones. Records whose names have the same key are ordered by the
//! name itself, and records with the same name by their identifier, so that
//! the order of a set of records does not depend on how the set was given.
//! A listing orders its entries by the transliterated name alone, and
//! leaves entries that agree in it as they stand. Texts compare byte by
//! byte, a shorter text before its extensions.

use crate::models::{views, Record};
use crate::tiers::positions;
use vstd::prelude::*;
use vstd::relations::{sorted_by, total_ordering};
use vstd::seq_lib::{
    group_to_multiset_ensures, lemma_sorted_unique, to_multiset_build, to_multiset_insert,
    to_multiset_remove,
};
use vstd::string::StrSliceExecFns;
use vstd::string::StringSliceAdditionalSpecFns;
use vstd::utf8::{encode_utf8, encode_utf8_decode_utf8};

verus! {

/// The ASCII transliteration of a text.
pub uninterp spec fn unidecoded(text: Seq<char>) -> Seq<char>;

/// Calls `unidecode::unidecode`. Nothing is proved of it: the contract only
/// gives its result the name `unidecoded`. The function transliterates a
/// text character by character from a table that is built into it, so that
/// its result is a function of the text alone.
#[verifier::external_body]
fn transliterated(text: &str) -> (ascii: String)
    ensures
        ascii@ == unidecoded(text@),
{
    unidecode::unidecode(text)
}

/// A capital ASCII letter as the small one; any other byte as it is.
pub open spec fn folded(byte: u8) -> u8 {
    if 65 <= byte <= 90 {
        (byte + 32) as u8
    } else {
        byte
    }
}

/// The bytes of a text, with capital ASCII letters folded to small ones.
pub open spec fn folded_key(text: Seq<char>) -> Seq<u8> {
    encode_utf8(text).map_values(|byte: u8| folded(byte))
}

/// The key that a name is ordered by.
pub open spec fn sort_key_of(name: Seq<char>) -> Seq<u8> {
    folded_key(unidecoded(name))
}

/// The bytes of a text, with capital ASCII letters folded to small ones.
pub fn fold_key(text: &str) -> (key: Vec<u8>)
    ensures
        key@ == folded_key(text@),
{
    let bytes = text.as_bytes();
    let mut key: Vec<u8> = Vec::new();
    let mut i: usize = 0;
    while i < bytes.len()
        invariant
            i <= bytes.len(),
            bytes@ == encode_utf8(text@),
            key.len() == i,
            forall|k: int| 0 <= k < i ==> key[k] == folded(bytes@[k]),
        decreases bytes.len() - i,
    {
        let byte = bytes[i];
        if 65 <= byte && byte <= 90 {
            key.push(byte + 32);
        } else {
            key.push(byte);
        }
        i += 1;
    }
    assert(key@ =~= folded_key(text@));
    key
}

/// The key that `name` is ordered by.
pub fn sort_key(name: &str) -> (key: Vec<u8>)
    ensures
        key@ == sort_key_of(name@),
{
    let ascii = transliterated(name);
    fold_key(ascii.as_str())
}

/// The key `a` comes strictly before the key `b`: at the first byte where
/// they differ `a` has the smaller one, or `a` ends first.
pub open spec fn precedes(a: Seq<u8>, b: Seq<u8>) -> bool
    decreases a.len(),
{
    if a.len() == 0 {
        b.len() > 0
    } else if b.len() == 0 {
        false
    } else if a[0] != b[0] {
        a[0] < b[0]
    } else {
        precedes(a.drop_first(), b.drop_first())
    }
}

/// Of two different keys one comes before the other.
pub proof fn lemma_precedes_connected(a: Seq<u8>, b: Seq<u8>)
    ensures
        a == b || precedes(a, b) || precedes(b, a),
    decreases a.len(),
{
    if a.len() > 0 && b.len() > 0 && a[0] == b[0] {
        lemma_precedes_connected(a.drop_first(), b.drop_first());
        if a.drop_first() == b.drop_first() {
            assert(a =~= seq![a[0]] + a.drop_first());
            assert(b =~= seq![b[0]] + b.drop_first());
        }
    } else if a.len() == 0 && b.len() == 0 {
        assert(a =~= b);
    }
}

/// No key comes before itself, and of two keys only one comes before the
/// other.
pub proof fn lemma_precedes_asymmetric(a: Seq<u8>, b: Seq<u8>)
    ensures
        !(precedes(a, b) && precedes(b, a)),
        !precedes(a, a),
    decreases a.len(),
{
    if a.len() > 0 {
        lemma_precedes_asymmetric(a.drop_first(), a.drop_first());
        if b.len() > 0 {
            lemma_precedes_asymmetric(a.drop_first(), b.drop_first());
        }
    }
}

/// What comes before a key that comes before a third comes before the
/// third.
pub proof fn lemma_precedes_transitive(a: Seq<u8>, b: Seq<u8>, c: Seq<u8>)
    requires
        precedes(a, b),
        precedes(b, c),
    ensures
        precedes(a, c),
    decreases a.len(),
{
    if a.len() > 0 && a[0] == b[0] && b[0] == c[0] {
        lemma_precedes_transitive(a.drop_first(), b.drop_first(), c.drop_first());
    }
}

/// Whether the key `a` comes strictly before the key `b`.
pub fn key_precedes(a: &Vec<u8>, b: &Vec<u8>) -> (before: bool)
    ensures
        before == precedes(a@, b@),
{
    let mut i: usize = 0;
    assert(a@.skip(0) =~= a@ && b@.skip(0) =~= b@);
    while i < a.len() && i < b.len()
        invariant
            i <= a.len(),
            i <= b.len(),
            precedes(a@, b@) == precedes(a@.skip(i as int), b@.skip(i as int)),
        decreases a.len() - i,
    {
        proof {
            assert(a@.skip(i as int).drop_first() =~= a@.skip(i as int + 1));
            assert(b@.skip(i as int).drop_first() =~= b@.skip(i as int + 1));
            assert(a@.skip(i as int)[0] == a@[i as int]);
            assert(b@.skip(i as int)[0] == b@[i as int]);
        }
        if a[i] != b[i] {
            return a[i] < b[i];
        }
        i += 1;
    }
    i < b.len()
}

/// What a record is ordered by: first the key, then the name, then the
/// identifier.
#[derive(Debug)]
pub struct SortKey {
    pub key: Vec<u8>,
    pub name: Vec<u8>,
    pub id: Vec<u8>,
}

/// What a sort key holds.
pub struct SortKeyView {
    pub key: Seq<u8>,
    pub name: Seq<u8>,
    pub id: Seq<u8>,
}

impl View for SortKey {
    type V = SortKeyView;

    open spec fn view(&self) -> SortKeyView {
        SortKeyView { key: self.key@, name: self.name@, id: self.id@ }
    }
}

/// What a record of a snapshot is ordered by: the folded transliteration of
/// its name, then the bytes of the name, then the bytes of the identifier.
pub open spec fn dump_key(name: Seq<char>, id: Seq<char>) -> SortKeyView {
    SortKeyView { key: sort_key_of(name), name: encode_utf8(name), id: encode_utf8(id) }
}

/// What an entry of a listing is ordered by: the transliteration of its
/// name, and nothing else.
pub open spec fn listing_key(name: Seq<char>) -> SortKeyView {
    SortKeyView { key: encode_utf8(unidecoded(name)), name: Seq::empty(), id: Seq::empty() }
}

/// The sort key `a` comes strictly before the sort key `b`: by the key, by
/// the name where the keys are the same, by the identifier where the names
/// are the same too.
pub open spec fn comes_before(a: SortKeyView, b: SortKeyView) -> bool {
    ||| precedes(a.key, b.key)
    ||| a.key == b.key && precedes(a.name, b.name)
    ||| a.key == b.key && a.name == b.name && precedes(a.id, b.id)
}

/// Of two different sort keys one comes before the other.
pub proof fn lemma_comes_before_connected(a: SortKeyView, b: SortKeyView)
    ensures
        a == b || comes_before(a, b) || comes_before(b, a),
{
    lemma_precedes_connected(a.key, b.key);
    lemma_precedes_connected(a.name, b.name);
    lemma_precedes_connected(a.id, b.id);
}

/// No sort key comes before itself, and of two only one comes before the
/// other.
pub proof fn lemma_comes_before_asymmetric(a: SortKeyView, b: SortKeyView)
    ensures
        !(comes_before(a, b) && comes_before(b, a)),
        !comes_before(a, a),
{
    lemma_precedes_asymmetric(a.key, b.key);
    lemma_precedes_asymmetric(a.name, b.name);
    lemma_precedes_asymmetric(a.id, b.id);
    lemma_precedes_asymmetric(a.key, a.key);
    lemma_precedes_asymmetric(a.name, a.name);
    lemma_precedes_asymmetric(a.id, a.id);
    lemma_precedes_asymmetric(b.key, b.key);
    lemma_precedes_asymmetric(b.name, b.name);
}

/// What comes before a sort key that comes before a third comes before the
/// third.
pub proof fn lemma_comes_before_transitive(a: SortKeyView, b: SortKeyView, c: SortKeyView)
    requires
        comes_before(a, b),
        comes_before(b, c),
    ensures
        comes_before(a, c),
{
    if precedes(a.key, b.key) && precedes(b.key, c.key) {
        lemma_precedes_transitive(a.key, b.key, c.key);
    }
    if precedes(a.name, b.name) && precedes(b.name, c.name) {
        lemma_precedes_transitive(a.name, b.name, c.name);
    }
    if precedes(a.id, b.id) && precedes(b.id, c.id) {
        lemma_precedes_transitive(a.id, b.id, c.id);
    }
}

/// Whether the sort key `a` comes strictly before the sort key `b`.
pub fn sort_key_precedes(a: &SortKey, b: &SortKey) -> (before: bool)
    ensures
        before == comes_before(a@, b@),
{
    proof {
        lemma_precedes_connected(a.key@, b.key@);
        lemma_precedes_connected(a.name@, b.name@);
        lemma_precedes_asymmetric(a.key@, b.key@);
        lemma_precedes_asymmetric(a.name@, b.name@);
        lemma_precedes_asymmetric(a.key@, a.key@);
        lemma_precedes_asymmetric(a.name@, a.name@);
    }
    if key_precedes(&a.key, &b.key) {
        true
    } else if key_precedes(&b.key, &a.key) {
        false
    } else if key_precedes(&a.name, &b.name) {
        true
    } else if key_precedes(&b.name, &a.name) {
        false
    } else {
        key_precedes(&a.id, &b.id)
    }
}

/// The sort key of a record of a snapshot.
pub fn dump_sort_key(name: &str, id: &str) -> (key: SortKey)
    ensures
        key@ == dump_key(name@, id@),
{
    SortKey { key: sort_key(name), name: name.as_bytes_vec(), id: id.as_bytes_vec() }
}

/// The sort key of an entry of a listing.
pub fn listing_sort_key(name: &str) -> (key: SortKey)
    ensures
        key@ == listing_key(name@),
{
    let ascii = transliterated(name);
    SortKey { key: ascii.as_str().as_bytes_vec(), name: Vec::new(), id: Vec::new() }
}

/// Position `p` comes no later than position `q`: its sort key comes
/// before, or the sort keys are the same and `p` is not behind `q`.
pub open spec fn in_order(keys: Seq<SortKeyView>, p: int, q: int) -> bool {
    comes_before(keys[p], keys[q]) || (keys[p] == keys[q] && p <= q)
}

/// The order of positions by sort key.
pub open spec fn by_key(keys: Seq<SortKeyView>) -> spec_fn(int, int) -> bool {
    |p: int, q: int| in_order(keys, p, q)
}

/// The positions below `n`, in ascending order.
pub open spec fn identity(n: nat) -> Seq<int> {
    Seq::new(n, |i: int| i)
}

/// The positions of `keys` sorted by sort key; positions with the same sort
/// key stay in ascending order.
pub open spec fn sorted_positions(keys: Seq<SortKeyView>) -> Seq<int> {
    identity(keys.len()).sort_by(by_key(keys))
}

/// Ordering positions by sort key, and by position where the sort keys are
/// the same, is a total order.
pub proof fn lemma_by_key_total(keys: Seq<SortKeyView>)
    ensures
        total_ordering(by_key(keys)),
{
    let leq = by_key(keys);
    assert forall|p: int, q: int| #[trigger] leq(p, q) && #[trigger] leq(q, p) implies p == q by {
        lemma_comes_before_asymmetric(keys[p], keys[q]);
    }
    assert forall|p: int, q: int, r: int| #[trigger] leq(p, q) && #[trigger] leq(q, r) implies leq(
        p,
        r,
    ) by {
        if comes_before(keys[p], keys[q]) && comes_before(keys[q], keys[r]) {
            lemma_comes_before_transitive(keys[p], keys[q], keys[r]);
        }
    }
    assert forall|p: int, q: int| #[trigger] leq(p, q) || #[trigger] leq(q, p) by {
        lemma_comes_before_connected(keys[p], keys[q]);
    }
    assert forall|p: int| #[trigger] leq(p, p) by {}
}

/// Sorts the positions of a list of sort keys. Positions with the same sort
/// key stay in ascending order.
pub fn sort_positions(keys: &Vec<SortKey>) -> (order: Vec<usize>)
    ensures
        positions(order@) == sorted_positions(views(keys@)),
        order.len() == keys.len(),
        forall|k: int| 0 <= k < order.len() ==> (#[trigger] order[k]) < keys.len(),
{
    let n = keys.len();
    let ghost all = views(keys@);
    let ghost leq = by_key(all);
    let mut order: Vec<usize> = Vec::new();
    let mut p: usize = 0;
    proof {
        lemma_by_key_total(all);
        assert(positions(order@) =~= identity(0));
    }
    while p < n
        invariant
            n == keys.len(),
            all == views(keys@),
            leq == by_key(all),
            total_ordering(leq),
            p <= n,
            order.len() == p,
            forall|k: int| 0 <= k < order.len() ==> (#[trigger] order[k]) < p,
            sorted_by(positions(order@), leq),
            positions(order@).to_multiset() == identity(p as nat).to_multiset(),
        decreases n - p,
    {
        let mut j: usize = order.len();
        let mut searching = true;
        while searching && j > 0
            invariant
                n == keys.len(),
                all == views(keys@),
                p < n,
                j <= order.len(),
                forall|k: int| 0 <= k < order.len() ==> (#[trigger] order[k]) < p,
                forall|m: int|
                    j <= m < order.len() ==> comes_before(
                        all[p as int],
                        all[(#[trigger] order[m]) as int],
                    ),
                !searching ==> j > 0 && !comes_before(all[p as int], all[order[j - 1] as int]),
            decreases j + if searching { 1int } else { 0int },
        {
            assert(all[p as int] == keys[p as int]@);
            assert(all[order[j - 1] as int] == keys[order[j - 1] as int]@);
            if sort_key_precedes(&keys[p], &keys[order[j - 1]]) {
                j -= 1;
            } else {
                searching = false;
            }
        }
        let ghost before = positions(order@);
        order.insert(j, p);
        proof {
            let after = positions(order@);
            assert(after =~= before.insert(j as int, p as int));
            assert forall|a: int, b: int| 0 <= a < b < after.len() implies #[trigger] leq(
                after[a],
                after[b],
            ) by {
                if b < j {
                    assert(leq(before[a], before[b]));
                } else if a > j {
                    assert(leq(before[a - 1], before[b - 1]));
                } else if a == j {
                    assert(comes_before(all[p as int], all[before[b - 1]]));
                } else if b == j {
                    let last = before[j - 1];
                    lemma_comes_before_connected(all[last], all[p as int]);
                    assert(leq(last, p as int));
                    if a < j - 1 {
                        assert(leq(before[a], before[j - 1]));
                    }
                } else {
                    assert(leq(before[a], before[b - 1]));
                }
            }
            to_multiset_insert(before, j as int, p as int);
            to_multiset_build(identity(p as nat), p as int);
            assert(identity((p + 1) as nat) =~= identity(p as nat).push(p as int));
        }
        p += 1;
    }
    proof {
        let target = identity(n as nat);
        target.lemma_sort_by_ensures(leq);
        lemma_sorted_unique(positions(order@), target.sort_by(leq), leq);
        assert(all.len() == n);
    }
    order
}

/// The members of `items` at the positions `order`, in that order.
pub open spec fn arranged<V>(items: Seq<V>, order: Seq<int>) -> Seq<V> {
    order.map_values(|p: int| items[p])
}

/// `items` in the order of their sort keys: `keys[i]` is the sort key of
/// `items[i]`. Items with the same sort key stay in the order in which
/// they stand.
pub open spec fn sorted_by_key<V>(items: Seq<V>, keys: Seq<SortKeyView>) -> Seq<V> {
    arranged(items, sorted_positions(keys))
}

/// The sort keys of a list of records in a snapshot.
pub open spec fn dump_keys<T: Record>(records: Seq<T>) -> Seq<SortKeyView> {
    records.map_values(|record: T| dump_key(record.label(), record.key()))
}

/// The sort keys of a list of entries in a listing.
pub open spec fn listing_keys<T: Record>(records: Seq<T>) -> Seq<SortKeyView> {
    records.map_values(|record: T| listing_key(record.label()))
}

/// The positions below `n`, in ascending order.
pub(crate) fn all_positions(n: usize) -> (members: Vec<usize>)
    ensures
        positions(members@) == identity(n as nat),
        members.len() == n,
        forall|k: int| 0 <= k < n ==> #[trigger] members[k] == k,
{
    let mut members: Vec<usize> = Vec::new();
    let mut i: usize = 0;
    while i < n
        invariant
            i <= n,
            members.len() == i,
            forall|k: int| 0 <= k < i ==> members[k] == k,
        decreases n - i,
    {
        members.push(i);
        i += 1;
    }
    assert(positions(members@) =~= identity(n as nat));
    members
}

fn arrange<T: Record>(items: &Vec<T>, members: &Vec<usize>, keys: &Vec<SortKey>) -> (sorted: Vec<
    T,
>)
    requires
        keys.len() == members.len(),
        forall|k: int| 0 <= k < members.len() ==> (#[trigger] members[k]) < items.len(),
    ensures
        views(sorted@) == sorted_by_key(
            arranged(views(items@), positions(members@)),
            views(keys@),
        ),
{
    let order = sort_positions(keys);
    let mut sorted: Vec<T> = Vec::new();
    let mut k: usize = 0;
    while k < order.len()
        invariant
            k <= order.len(),
            order.len() == members.len(),
            sorted.len() == k,
            forall|m: int| 0 <= m < order.len() ==> (#[trigger] order[m]) < members.len(),
            forall|m: int| 0 <= m < members.len() ==> (#[trigger] members[m]) < items.len(),
            forall|m: int|
                0 <= m < k ==> (#[trigger] sorted[m])@ == items[members[order[m] as int] as int]@,
        decreases order.len() - k,
    {
        sorted.push(items[members[order[k]]].duplicate());
        k += 1;
    }
    assert(views(sorted@) =~= sorted_by_key(
        arranged(views(items@), positions(members@)),
        views(keys@),
    ));
    sorted
}

/// Copies of the members of `items` at the positions `members`, in the
/// order of a snapshot.
pub(crate) fn sort_members<T: Record>(items: &Vec<T>, members: &Vec<usize>) -> (sorted: Vec<T>)
    requires
        forall|k: int| 0 <= k < members.len() ==> (#[trigger] members[k]) < items.len(),
    ensures
        views(sorted@) == sorted_by_key(
            arranged(views(items@), positions(members@)),
            arranged(dump_keys(items@), positions(members@)),
        ),
{
    let mut keys: Vec<SortKey> = Vec::new();
    let mut i: usize = 0;
    while i < members.len()
        invariant
            i <= members.len(),
            keys.len() == i,
            forall|k: int| 0 <= k < members.len() ==> (#[trigger] members[k]) < items.len(),
            forall|k: int|
                0 <= k < i ==> (#[trigger] keys[k])@ == dump_key(
                    items[members[k] as int].label(),
                    items[members[k] as int].key(),
                ),
        decreases members.len() - i,
    {
        let item = &items[members[i]];
        keys.push(dump_sort_key(item.name().as_str(), item.id().as_str()));
        i += 1;
    }
    assert(views(keys@) =~= arranged(dump_keys(items@), positions(members@)));
    arrange(items, members, &keys)
}

/// Copies of `items` in the order of a snapshot: by the folded
/// transliteration of the name, then by the name, then by the identifier.
pub fn sort_by_name<T: Record>(items: &Vec<T>) -> (sorted: Vec<T>)
    ensures
        views(sorted@) == sorted_by_key(views(items@), dump_keys(items@)),
{
    let members = all_positions(items.len());
    let sorted = sort_members(items, &members);
    assert(arranged(views(items@), positions(members@)) =~= views(items@));
    assert(arranged(dump_keys(items@), positions(members@)) =~= dump_keys(items@));
    sorted
}

/// Copies of `items` in the order of a listing: by the transliteration of
/// the name. Items that agree in it stay in the order in which they stand.
pub fn sort_listing<T: Record>(items: &Vec<T>) -> (sorted: Vec<T>)
    ensures
        views(sorted@) == sorted_by_key(views(items@), listing_keys(items@)),
{
    let members = all_positions(items.len());
    let mut keys: Vec<SortKey> = Vec::new();
    let mut i: usize = 0;
    while i < items.len()
        invariant
            i <= items.len(),
            keys.len() == i,
            forall|k: int| 0 <= k < i ==> (#[trigger] keys[k])@ == listing_key(items[k].label()),
        decreases items.len() - i,
    {
        keys.push(listing_sort_key(items[i].name().as_str()));
        i += 1;
    }
    assert(views(keys@) =~= listing_keys(items@));
    let sorted = arrange(items, &members, &keys);
    assert(arranged(views(items@), positions(members@)) =~= views(items@));
    sorted
}

/// No two of the sort keys are the same.
pub open spec fn distinct_keys(keys: Seq<SortKeyView>) -> bool {
    forall|i: int, j: int| 0 <= i < j < keys.len() ==> keys[i] != keys[j]
}

/// Two texts with the same bytes are the same text.
pub proof fn lemma_bytes_tell_texts_apart(a: Seq<char>, b: Seq<char>)
    requires
        encode_utf8(a) == encode_utf8(b),
    ensures
        a == b,
{
    encode_utf8_decode_utf8(a);
    encode_utf8_decode_utf8(b);
}

/// Two lists that hold the same members hold the same images of them.
pub proof fn lemma_map_multiset<A, B>(p: Seq<A>, q: Seq<A>, f: spec_fn(A) -> B)
    requires
        p.to_multiset() == q.to_multiset(),
    ensures
        p.map_values(f).to_multiset() == q.map_values(f).to_multiset(),
    decreases p.len(),
{
    broadcast use group_to_multiset_ensures;

    assert(p.len() == p.to_multiset().len());
    assert(q.len() == q.to_multiset().len());
    if p.len() == 0 {
        assert(p.map_values(f) =~= q.map_values(f));
    } else {
        let x = p.last();
        let front = p.drop_last();
        assert(p =~= front.push(x));
        assert(p.to_multiset().count(x) > 0);
        assert(q.contains(x));
        let i = choose|i: int| 0 <= i < q.len() && q[i] == x;
        let rest = q.remove(i);
        assert(front.to_multiset() =~= p.to_multiset().remove(x));
        to_multiset_remove(q, i);
        lemma_map_multiset(front, rest, f);
        assert(p.map_values(f) =~= front.map_values(f).push(f(x)));
        assert(q.map_values(f) =~= rest.map_values(f).insert(i, f(x)));
        to_multiset_build(front.map_values(f), f(x));
        to_multiset_insert(rest.map_values(f), i, f(x));
    }
}

/// The sorted positions are the positions, each once, in the order of
/// their sort keys.
pub proof fn lemma_sorted_positions(keys: Seq<SortKeyView>)
    ensures
        sorted_positions(keys).len() == keys.len(),
        sorted_positions(keys).to_multiset() == identity(keys.len()).to_multiset(),
        sorted_positions(keys).no_duplicates(),
        sorted_by(sorted_positions(keys), by_key(keys)),
        forall|a: int|
            0 <= a < keys.len() ==> 0 <= #[trigger] sorted_positions(keys)[a] < keys.len(),
{
    broadcast use group_to_multiset_ensures;

    let all = identity(keys.len());
    let sorted = sorted_positions(keys);
    lemma_by_key_total(keys);
    all.lemma_sort_by_ensures(by_key(keys));
    assert(sorted.to_multiset() == all.to_multiset());
    assert(sorted.len() == sorted.to_multiset().len());
    assert(all.len() == all.to_multiset().len());
    assert(all.no_duplicates());
    all.lemma_multiset_has_no_duplicates();
    sorted.lemma_multiset_has_no_duplicates_conv();
    assert forall|a: int| 0 <= a < keys.len() implies 0 <= #[trigger] sorted[a] < keys.len() by {
        assert(sorted.contains(sorted[a]));
        assert(sorted.to_multiset().count(sorted[a]) > 0);
        assert(all.contains(sorted[a]));
        let k = choose|k: int| 0 <= k < all.len() && all[k] == sorted[a];
        assert(all[k] == k);
    }
}

/// Arranging a list by positions that are the positions of the list, each
/// once, keeps its members.
pub proof fn lemma_arranged_keeps<V>(items: Seq<V>, order: Seq<int>)
    requires
        order.to_multiset() == identity(items.len()).to_multiset(),
    ensures
        arranged(items, order).to_multiset() == items.to_multiset(),
{
    let all = identity(items.len());
    lemma_map_multiset(order, all, |p: int| items[p]);
    assert(all.map_values(|p: int| items[p]) =~= items);
}

/// Two lists whose sort keys grow strictly and that hold the same members
/// are the same list.
pub proof fn lemma_strictly_sorted_unique<V>(x: Seq<V>, y: Seq<V>, key: spec_fn(V) -> SortKeyView)
    requires
        forall|i: int, j: int| 0 <= i < j < x.len() ==> comes_before(key(x[i]), key(x[j])),
        forall|i: int, j: int| 0 <= i < j < y.len() ==> comes_before(key(y[i]), key(y[j])),
        x.to_multiset() == y.to_multiset(),
    ensures
        x == y,
    decreases x.len(),
{
    broadcast use group_to_multiset_ensures;

    assert(x.len() == x.to_multiset().len());
    assert(y.len() == y.to_multiset().len());
    if x.len() == 0 {
        assert(x =~= y);
    } else {
        assert(x.contains(x[0]));
        assert(y.to_multiset().count(x[0]) > 0);
        assert(y.contains(x[0]));
        assert(y.contains(y[0]));
        assert(x.to_multiset().count(y[0]) > 0);
        assert(x.contains(y[0]));
        let i = choose|i: int| 0 <= i < x.len() && x[i] == y[0];
        let j = choose|j: int| 0 <= j < y.len() && y[j] == x[0];
        if i > 0 && j > 0 {
            assert(comes_before(key(x[0]), key(x[i])));
            assert(comes_before(key(y[0]), key(y[j])));
            lemma_comes_before_asymmetric(key(x[0]), key(y[0]));
        }
        assert(x[0] == y[0]);
        let xs = x.drop_first();
        let ys = y.drop_first();
        assert(xs =~= x.remove(0));
        assert(ys =~= y.remove(0));
        to_multiset_remove(x, 0);
        to_multiset_remove(y, 0);
        assert forall|a: int, b: int| 0 <= a < b < xs.len() implies comes_before(
            key(xs[a]),
            key(xs[b]),
        ) by {
            assert(xs[a] == x[a + 1] && xs[b] == x[b + 1]);
        }
        assert forall|a: int, b: int| 0 <= a < b < ys.len() implies comes_before(
            key(ys[a]),
            key(ys[b]),
        ) by {
            assert(ys[a] == y[a + 1] && ys[b] == y[b + 1]);
        }
        lemma_strictly_sorted_unique(xs, ys, key);
        assert(x =~= seq![x[0]] + xs);
        assert(y =~= seq![y[0]] + ys);
    }
}

/// Sorting does not depend on the order in which the items stand, where no
/// two items have the same sort key: two lists that hold the same items
/// come out as the same list.
pub proof fn lemma_sorted_ignores_order<V>(a: Seq<V>, b: Seq<V>, key: spec_fn(V) -> SortKeyView)
    requires
        a.to_multiset() == b.to_multiset(),
        distinct_keys(a.map_values(key)),
    ensures
        sorted_by_key(a, a.map_values(key)) == sorted_by_key(b, b.map_values(key)),
        distinct_keys(b.map_values(key)),
{
    broadcast use group_to_multiset_ensures;

    let ka = a.map_values(key);
    let kb = b.map_values(key);
    assert(a.len() == a.to_multiset().len());
    assert(b.len() == b.to_multiset().len());
    assert(a.no_duplicates()) by {
        assert forall|i: int, j: int|
            0 <= i < a.len() && 0 <= j < a.len() && i != j implies a[i] != a[j] by {
            if i < j {
                assert(ka[i] != ka[j]);
            } else {
                assert(ka[j] != ka[i]);
            }
        }
    }
    a.lemma_multiset_has_no_duplicates();
    b.lemma_multiset_has_no_duplicates_conv();
    assert forall|i: int, j: int| 0 <= i < j < kb.len() implies kb[i] != kb[j] by {
        assert(b.contains(b[i]) && b.contains(b[j]));
        assert(a.to_multiset().count(b[i]) > 0 && a.to_multiset().count(b[j]) > 0);
        assert(a.contains(b[i]) && a.contains(b[j]));
        let m = choose|m: int| 0 <= m < a.len() && a[m] == b[i];
        let n = choose|n: int| 0 <= n < a.len() && a[n] == b[j];
        assert(b[i] != b[j]);
        if m < n {
            assert(ka[m] != ka[n]);
        } else {
            assert(ka[n] != ka[m]);
        }
    }
    let pa = sorted_positions(ka);
    let pb = sorted_positions(kb);
    lemma_sorted_positions(ka);
    lemma_sorted_positions(kb);
    let sa = arranged(a, pa);
    let sb = arranged(b, pb);
    lemma_arranged_keeps(a, pa);
    lemma_arranged_keeps(b, pb);
    assert forall|i: int, j: int| 0 <= i < j < sa.len() implies comes_before(
        key(sa[i]),
        key(sa[j]),
    ) by {
        assert(by_key(ka)(pa[i], pa[j]));
        assert(pa[i] != pa[j]);
        assert(ka[pa[i]] == key(sa[i]) && ka[pa[j]] == key(sa[j]));
        if pa[i] < pa[j] {
            assert(ka[pa[i]] != ka[pa[j]]);
        } else {
            assert(ka[pa[j]] != ka[pa[i]]);
        }
    }
    assert forall|i: int, j: int| 0 <= i < j < sb.len() implies comes_before(
        key(sb[i]),
        key(sb[j]),
    ) by {
        assert(by_key(kb)(pb[i], pb[j]));
        assert(pb[i] != pb[j]);
        assert(kb[pb[i]] == key(sb[i]) && kb[pb[j]] == key(sb[j]));
        if pb[i] < pb[j] {
            assert(kb[pb[i]] != kb[pb[j]]);
        } else {
            assert(kb[pb[j]] != kb[pb[i]]);
        }
    }
    lemma_strictly_sorted_unique(sa, sb, key);
}

} // verus!
