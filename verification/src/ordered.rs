//! The insertion-ordered maps and sets of the `indexmap` crate.
//!
//! Each instantiation that the library uses has a name for what it holds, a
//! sequence in iteration order, and one wrapper for each method that is called.
//! What the wrappers state is written with the functions of this module on
//! plain sequences: [`lookup`], [`put`], [`swap_drop`], [`include_item`] and
//! [`swap_out`].

use indexmap::{IndexMap, IndexSet};
use vstd::prelude::*;

verus! {

/// The number of a token.
pub type TokenID = u16;

/// The ordered hash map of the `indexmap` crate.
#[verifier::external_type_specification]
#[verifier::external_body]
#[verifier::reject_recursive_types(K)]
#[verifier::reject_recursive_types(V)]
#[verifier::reject_recursive_types(S)]
pub struct ExIndexMap<K, V, S>(IndexMap<K, V, S>);

/// The ordered hash set of the `indexmap` crate.
#[verifier::external_type_specification]
#[verifier::external_body]
#[verifier::reject_recursive_types(T)]
#[verifier::reject_recursive_types(S)]
pub struct ExIndexSet<T, S>(IndexSet<T, S>);

// ---------------------------------------------------------------------------
// Ordered maps as sequences of entries
// ---------------------------------------------------------------------------

/// Some entry has the given key.
pub open spec fn has_key<K, V>(entries: Seq<(K, V)>, key: K) -> bool {
    exists|i: int| 0 <= i < entries.len() && (#[trigger] entries[i]).0 == key
}

/// Where the entry with the given key stands.
pub open spec fn position<K, V>(entries: Seq<(K, V)>, key: K) -> int {
    choose|i: int| 0 <= i < entries.len() && (#[trigger] entries[i]).0 == key
}

/// The value under a key, if there is one.
pub open spec fn lookup<K, V>(entries: Seq<(K, V)>, key: K) -> Option<V> {
    if has_key(entries, key) {
        Some(entries[position(entries, key)].1)
    } else {
        None
    }
}

/// The value under a key, or a default.
pub open spec fn lookup_or<K, V>(entries: Seq<(K, V)>, key: K, default: V) -> V {
    match lookup(entries, key) {
        Some(value) => value,
        None => default,
    }
}

/// The entries after a value was put under a key: an entry with that key keeps
/// its place, a new one comes last.
pub open spec fn put<K, V>(entries: Seq<(K, V)>, key: K, value: V) -> Seq<(K, V)> {
    if has_key(entries, key) {
        entries.update(position(entries, key), (key, value))
    } else {
        entries.push((key, value))
    }
}

/// The entries after the one with the given key was removed and the last one
/// took its place.
pub open spec fn swap_drop<K, V>(entries: Seq<(K, V)>, key: K) -> Seq<(K, V)> {
    if has_key(entries, key) {
        entries.update(position(entries, key), entries.last()).drop_last()
    } else {
        entries
    }
}

/// The items of a set after one was inserted: last, unless it was there.
pub open spec fn include_item<T>(items: Seq<T>, item: T) -> Seq<T> {
    if items.contains(item) {
        items
    } else {
        items.push(item)
    }
}

/// The items of a set after one was removed and the last one took its place.
pub open spec fn swap_out<T>(items: Seq<T>, item: T) -> Seq<T> {
    if items.contains(item) {
        items.update(items.index_of(item), items.last()).drop_last()
    } else {
        items
    }
}

/// No two entries have the same key.
pub open spec fn unique_keys<K, V>(entries: Seq<(K, V)>) -> bool {
    forall|i: int, j: int|
        0 <= i < j < entries.len() ==> (#[trigger] entries[i]).0 != (#[trigger] entries[j]).0
}

/// With unique keys, an entry is found under its own key.
pub proof fn lemma_position<K, V>(entries: Seq<(K, V)>, i: int)
    requires
        unique_keys(entries),
        0 <= i < entries.len(),
    ensures
        has_key(entries, entries[i].0),
        position(entries, entries[i].0) == i,
        lookup(entries, entries[i].0) == Some(entries[i].1),
{
    let p = position(entries, entries[i].0);
    assert(entries[p].0 == entries[i].0);
    if p < i {
        assert(entries[p].0 != entries[i].0);
    } else if i < p {
        assert(entries[i].0 != entries[p].0);
    }
}

/// `put` keeps the keys unique, sets the value of its key and leaves the others.
pub proof fn lemma_put<K, V>(entries: Seq<(K, V)>, key: K, value: V)
    requires
        unique_keys(entries),
    ensures
        unique_keys(put(entries, key, value)),
        forall|k: K| #[trigger]
            lookup(put(entries, key, value), k) == if k == key {
                Some(value)
            } else {
                lookup(entries, k)
            },
        forall|k: K| #[trigger]
            has_key(put(entries, key, value), k) <==> k == key || has_key(entries, k),
{
    let after = put(entries, key, value);
    if has_key(entries, key) {
        let p = position(entries, key);
        assert forall|i: int| 0 <= i < after.len() implies (#[trigger] after[i]).0
            == entries[i].0 by {}
        assert(unique_keys(after)) by {
            assert forall|i: int, j: int| 0 <= i < j < after.len() implies (
            #[trigger] after[i]).0 != (#[trigger] after[j]).0 by {
                assert(entries[i].0 != entries[j].0);
            }
        }
    } else {
        assert forall|i: int, j: int| 0 <= i < j < after.len() implies (#[trigger] after[i]).0 != (
        #[trigger] after[j]).0 by {
            if j < entries.len() {
                assert(entries[i].0 != entries[j].0);
            } else {
                assert(entries[i].0 != key);
            }
        }
    }
    assert forall|k: K|
        #![trigger lookup(after, k)]
        #![trigger has_key(after, k)]
        lookup(after, k) == (if k == key {
            Some(value)
        } else {
            lookup(entries, k)
        }) && (has_key(after, k) <==> k == key || has_key(entries, k)) by {
        if k == key {
            let p = if has_key(entries, key) {
                position(entries, key)
            } else {
                entries.len() as int
            };
            assert(after[p] == (key, value));
            lemma_position(after, p);
        } else {
            if has_key(entries, k) {
                let p = position(entries, k);
                assert(entries[p].0 == k);
                assert(after[p] == entries[p]);
                lemma_position(after, p);
            }
            if has_key(after, k) {
                let p = position(after, k);
                assert(after[p].0 == k);
                assert(p < entries.len() && entries[p].0 == k);
            }
        }
    }
}

/// `swap_drop` keeps the keys unique, takes its key out and leaves the others.
pub proof fn lemma_swap_drop<K, V>(entries: Seq<(K, V)>, key: K)
    requires
        unique_keys(entries),
    ensures
        unique_keys(swap_drop(entries, key)),
        forall|k: K| #[trigger]
            lookup(swap_drop(entries, key), k) == if k == key {
                None
            } else {
                lookup(entries, k)
            },
        forall|k: K| #[trigger]
            has_key(swap_drop(entries, key), k) <==> k != key && has_key(entries, k),
{
    let after = swap_drop(entries, key);
    if has_key(entries, key) {
        let p = position(entries, key);
        let last = entries.len() - 1;
        assert(entries[p].0 == key);
        let home = |i: int|
            if i == p {
                last
            } else {
                i
            };
        assert forall|i: int| 0 <= i < after.len() implies #[trigger] after[i] == entries[home(
            i,
        )] by {}
        assert forall|i: int, j: int| 0 <= i < j < after.len() implies (#[trigger] after[i]).0 != (
        #[trigger] after[j]).0 by {
            assert(after[i] == entries[home(i)] && after[j] == entries[home(j)]);
            if home(i) < home(j) {
                assert(entries[home(i)].0 != entries[home(j)].0);
            } else {
                assert(entries[home(j)].0 != entries[home(i)].0);
            }
        }
        assert forall|k: K|
            #![trigger lookup(after, k)]
            #![trigger has_key(after, k)]
            lookup(after, k) == (if k == key {
                None
            } else {
                lookup(entries, k)
            }) && (has_key(after, k) <==> k != key && has_key(entries, k)) by {
            if has_key(after, k) {
                let q = position(after, k);
                assert(after[q].0 == k && after[q] == entries[home(q)]);
                if k == key {
                    lemma_position(entries, home(q));
                    lemma_position(entries, p);
                }
            }
            if k != key && has_key(entries, k) {
                let q = position(entries, k);
                assert(entries[q].0 == k);
                let r = if q == last {
                    p
                } else {
                    q
                };
                assert(after[r] == entries[q]);
                lemma_position(after, r);
            }
        }
    }
}

/// What `include_item` does to membership.
pub proof fn lemma_include_item<T>(items: Seq<T>, item: T)
    requires
        items.no_duplicates(),
    ensures
        include_item(items, item).no_duplicates(),
        forall|x: T| #[trigger]
            include_item(items, item).contains(x) <==> x == item || items.contains(x),
{
    let after = include_item(items, item);
    assert forall|x: T| #[trigger] after.contains(x) <==> x == item || items.contains(x) by {
        if !items.contains(item) {
            assert(after[items.len() as int] == item);
            if items.contains(x) {
                let i = items.index_of(x);
                assert(after[i] == x);
            }
            if after.contains(x) && x != item {
                let i = after.index_of(x);
                assert(items[i] == x);
            }
        }
    }
    if !items.contains(item) {
        assert forall|i: int, j: int|
            0 <= i < after.len() && 0 <= j < after.len() && i != j implies after[i]
            != after[j] by {
            if i < items.len() && j < items.len() {
                assert(items[i] != items[j]);
            } else if i < items.len() {
                assert(items.contains(items[i]));
            } else {
                assert(items.contains(items[j]));
            }
        }
    }
}

/// What `swap_out` does to membership.
pub proof fn lemma_swap_out<T>(items: Seq<T>, item: T)
    requires
        items.no_duplicates(),
    ensures
        swap_out(items, item).no_duplicates(),
        forall|x: T| #[trigger]
            swap_out(items, item).contains(x) <==> x != item && items.contains(x),
{
    let after = swap_out(items, item);
    if items.contains(item) {
        let p = items.index_of(item);
        let last = items.len() - 1;
        let home = |i: int|
            if i == p {
                last
            } else {
                i
            };
        assert forall|i: int| 0 <= i < after.len() implies #[trigger] after[i] == items[home(
            i,
        )] by {}
        assert forall|i: int, j: int|
            0 <= i < after.len() && 0 <= j < after.len() && i != j implies after[i]
            != after[j] by {
            assert(items[home(i)] != items[home(j)]);
        }
        assert forall|x: T| #[trigger]
            after.contains(x) <==> x != item && items.contains(x) by {
            if after.contains(x) {
                let q = after.index_of(x);
                assert(after[q] == items[home(q)]);
                assert(items[home(q)] != items[p]);
            }
            if x != item && items.contains(x) {
                let q = items.index_of(x);
                let r = if q == last {
                    p
                } else {
                    q
                };
                assert(after[r] == items[q]);
            }
        }
    }
}

// ---------------------------------------------------------------------------
// Merge rules: a pair of tokens and the token it becomes
// ---------------------------------------------------------------------------

/// The rules that a map holds, in order.
pub uninterp spec fn rule_entries(map: IndexMap<(TokenID, TokenID), TokenID>) -> Seq<
    ((TokenID, TokenID), TokenID),
>;

/// `IndexMap::new`: a map without entries.
#[verifier::external_body]
pub(crate) fn rules_new() -> (map: IndexMap<(TokenID, TokenID), TokenID>)
    ensures
        rule_entries(map) == Seq::<((TokenID, TokenID), TokenID)>::empty(),
{
    IndexMap::new()
}

/// `IndexMap::insert`: the value is put under the key.
#[verifier::external_body]
pub(crate) fn rules_insert(
    map: &mut IndexMap<(TokenID, TokenID), TokenID>,
    pair: (TokenID, TokenID),
    id: TokenID,
)
    ensures
        rule_entries(*final(map)) == put(rule_entries(*old(map)), pair, id),
{
    map.insert(pair, id);
}

/// `IndexMap::len`: the number of entries.
#[verifier::external_body]
pub(crate) fn rules_len(map: &IndexMap<(TokenID, TokenID), TokenID>) -> (len: usize)
    ensures
        len == rule_entries(*map).len(),
{
    map.len()
}

/// `IndexMap::get_index`: the entry at a position, if the map has so many. A map
/// has at most as many entries as a `usize` counts.
#[verifier::external_body]
pub(crate) fn rules_get_index(
    map: &IndexMap<(TokenID, TokenID), TokenID>,
    index: usize,
) -> (entry: Option<((TokenID, TokenID), TokenID)>)
    ensures
        entry == if index < rule_entries(*map).len() {
            Some(rule_entries(*map)[index as int])
        } else {
            None
        },
        entry is Some ==> index < usize::MAX,
{
    map.get_index(index).map(|(pair, id)| (*pair, *id))
}

/// `IndexMap::clone`: a map with the same entries in the same order.
#[verifier::external_body]
pub(crate) fn rules_clone(map: &IndexMap<(TokenID, TokenID), TokenID>) -> (copy: IndexMap<
    (TokenID, TokenID),
    TokenID,
>)
    ensures
        rule_entries(copy) == rule_entries(*map),
{
    map.clone()
}

// ---------------------------------------------------------------------------
// The bytes of each token
// ---------------------------------------------------------------------------

/// The bytes that a map gives for each token, in order.
pub uninterp spec fn byte_entries(map: IndexMap<TokenID, Vec<u8>>) -> Seq<(TokenID, Seq<u8>)>;

/// `IndexMap::new`: a map without entries.
#[verifier::external_body]
pub(crate) fn bytes_new() -> (map: IndexMap<TokenID, Vec<u8>>)
    ensures
        byte_entries(map) == Seq::<(TokenID, Seq<u8>)>::empty(),
{
    IndexMap::new()
}

/// `IndexMap::insert`: the value is put under the key.
#[verifier::external_body]
pub(crate) fn bytes_insert(map: &mut IndexMap<TokenID, Vec<u8>>, id: TokenID, bytes: Vec<u8>)
    ensures
        byte_entries(*final(map)) == put(byte_entries(*old(map)), id, bytes@),
{
    map.insert(id, bytes);
}

/// `IndexMap::get`: the value under a key, if there is one.
#[verifier::external_body]
pub(crate) fn bytes_get(map: &IndexMap<TokenID, Vec<u8>>, id: TokenID) -> (bytes: Option<&Vec<u8>>)
    ensures
        match bytes {
            Some(found) => lookup(byte_entries(*map), id) == Some(found@),
            None => lookup(byte_entries(*map), id) is None,
        },
{
    map.get(&id)
}

/// `IndexMap::len`: the number of entries.
#[verifier::external_body]
pub(crate) fn bytes_len(map: &IndexMap<TokenID, Vec<u8>>) -> (len: usize)
    ensures
        len == byte_entries(*map).len(),
{
    map.len()
}

// ---------------------------------------------------------------------------
// How often each pair of tokens occurs
// ---------------------------------------------------------------------------

/// The pairs that a map counts, in order, each with its count.
pub uninterp spec fn count_entries(map: IndexMap<(TokenID, TokenID), usize>) -> Seq<
    ((TokenID, TokenID), usize),
>;

/// `IndexMap::new`: a map without entries.
#[verifier::external_body]
pub(crate) fn counts_new() -> (map: IndexMap<(TokenID, TokenID), usize>)
    ensures
        count_entries(map) == Seq::<((TokenID, TokenID), usize)>::empty(),
{
    IndexMap::new()
}

/// `IndexMap::entry` and `Entry::or_insert`: the place of the value under a key,
/// which gets a value of zero first where the key is new. What is written there
/// is what the map holds under the key.
#[verifier::external_body]
pub(crate) fn counts_slot<'a>(
    map: &'a mut IndexMap<(TokenID, TokenID), usize>,
    pair: (TokenID, TokenID),
) -> (slot: &'a mut usize)
    ensures
        *slot == lookup_or(count_entries(*old(map)), pair, 0),
        count_entries(*final(map)) == put(count_entries(*old(map)), pair, *final(slot)),
{
    map.entry(pair).or_insert(0)
}

/// `IndexMap::swap_remove`: the entry goes and the last one takes its place.
#[verifier::external_body]
pub(crate) fn counts_swap_remove(
    map: &mut IndexMap<(TokenID, TokenID), usize>,
    pair: (TokenID, TokenID),
)
    ensures
        count_entries(*final(map)) == swap_drop(count_entries(*old(map)), pair),
{
    map.swap_remove(&pair);
}

/// `IndexMap::get_index`: the entry at a position, if the map has so many. A map
/// has at most as many entries as a `usize` counts.
#[verifier::external_body]
pub(crate) fn counts_get_index(
    map: &IndexMap<(TokenID, TokenID), usize>,
    index: usize,
) -> (entry: Option<((TokenID, TokenID), usize)>)
    ensures
        entry == if index < count_entries(*map).len() {
            Some(count_entries(*map)[index as int])
        } else {
            None
        },
        entry is Some ==> index < usize::MAX,
{
    map.get_index(index).map(|(pair, count)| (*pair, *count))
}

// ---------------------------------------------------------------------------
// How often each word occurs
// ---------------------------------------------------------------------------

/// The words that a map counts, in order, each with its count.
pub uninterp spec fn word_entries(map: IndexMap<Vec<TokenID>, usize>) -> Seq<
    (Seq<TokenID>, usize),
>;

/// `IndexMap::new`: a map without entries.
#[verifier::external_body]
pub(crate) fn words_new() -> (map: IndexMap<Vec<TokenID>, usize>)
    ensures
        word_entries(map) == Seq::<(Seq<TokenID>, usize)>::empty(),
{
    IndexMap::new()
}

/// `IndexMap::entry` and `Entry::or_insert`: the place of the value under a key,
/// which gets a value of zero first where the key is new. What is written there
/// is what the map holds under the key.
#[verifier::external_body]
pub(crate) fn words_slot<'a>(
    map: &'a mut IndexMap<Vec<TokenID>, usize>,
    word: Vec<TokenID>,
) -> (slot: &'a mut usize)
    ensures
        *slot == lookup_or(word_entries(*old(map)), word@, 0),
        word_entries(*final(map)) == put(word_entries(*old(map)), word@, *final(slot)),
{
    map.entry(word).or_insert(0)
}

/// `IndexMap::swap_remove`: the entry goes, the last one takes its place, and
/// the value that was there is returned.
#[verifier::external_body]
pub(crate) fn words_swap_remove(
    map: &mut IndexMap<Vec<TokenID>, usize>,
    word: &Vec<TokenID>,
) -> (count: Option<usize>)
    ensures
        count == lookup(word_entries(*old(map)), word@),
        word_entries(*final(map)) == swap_drop(word_entries(*old(map)), word@),
{
    map.swap_remove(word)
}

/// `IndexMap::get_index`: the entry at a position, if the map has so many. A map
/// has at most as many entries as a `usize` counts.
#[verifier::external_body]
pub(crate) fn words_get_index(map: &IndexMap<Vec<TokenID>, usize>, index: usize) -> (entry: Option<
    (&Vec<TokenID>, usize),
>)
    ensures
        entry is Some <==> index < word_entries(*map).len(),
        entry matches Some((word, count)) ==> (word@, count) == word_entries(*map)[index as int],
        entry is Some ==> index < usize::MAX,
{
    map.get_index(index).map(|(word, count)| (word, *count))
}

// ---------------------------------------------------------------------------
// Sets of words
// ---------------------------------------------------------------------------

/// The words of a set, in order.
pub uninterp spec fn set_items(set: IndexSet<Vec<TokenID>>) -> Seq<Seq<TokenID>>;

/// `IndexSet::new`: a set without items.
#[verifier::external_body]
pub(crate) fn set_new() -> (set: IndexSet<Vec<TokenID>>)
    ensures
        set_items(set) == Seq::<Seq<TokenID>>::empty(),
{
    IndexSet::new()
}

/// `IndexSet::insert`: the item comes last, unless an equal one was there.
#[verifier::external_body]
pub(crate) fn set_insert(set: &mut IndexSet<Vec<TokenID>>, word: Vec<TokenID>)
    ensures
        set_items(*final(set)) == include_item(set_items(*old(set)), word@),
{
    set.insert(word);
}

/// `IndexSet::swap_remove`: the item goes and the last one takes its place.
#[verifier::external_body]
pub(crate) fn set_swap_remove(set: &mut IndexSet<Vec<TokenID>>, word: &Vec<TokenID>)
    ensures
        set_items(*final(set)) == swap_out(set_items(*old(set)), word@),
{
    set.swap_remove(word);
}

/// `IndexSet::get_index`: the item at a position, if the set has so many. A set
/// has at most as many items as a `usize` counts.
#[verifier::external_body]
pub(crate) fn set_get_index(set: &IndexSet<Vec<TokenID>>, index: usize) -> (item: Option<
    &Vec<TokenID>,
>)
    ensures
        item is Some <==> index < set_items(*set).len(),
        item matches Some(word) ==> word@ == set_items(*set)[index as int],
        item is Some ==> index < usize::MAX,
{
    set.get_index(index)
}

// ---------------------------------------------------------------------------
// The words in which each pair of tokens occurs
// ---------------------------------------------------------------------------

/// The pairs that a map lists, in order, each with its words.
pub uninterp spec fn index_entries(
    map: IndexMap<(TokenID, TokenID), IndexSet<Vec<TokenID>>>,
) -> Seq<((TokenID, TokenID), Seq<Seq<TokenID>>)>;

/// `IndexMap::new`: a map without entries.
#[verifier::external_body]
pub(crate) fn index_new() -> (map: IndexMap<(TokenID, TokenID), IndexSet<Vec<TokenID>>>)
    ensures
        index_entries(map) == Seq::<((TokenID, TokenID), Seq<Seq<TokenID>>)>::empty(),
{
    IndexMap::new()
}

/// `IndexMap::entry` and `Entry::or_insert`: the place of the value under a key,
/// which gets the given value first where the key is new. What is written there
/// is what the map holds under the key.
#[verifier::external_body]
pub(crate) fn index_slot<'a>(
    map: &'a mut IndexMap<(TokenID, TokenID), IndexSet<Vec<TokenID>>>,
    pair: (TokenID, TokenID),
    default: IndexSet<Vec<TokenID>>,
) -> (slot: &'a mut IndexSet<Vec<TokenID>>)
    ensures
        set_items(*slot) == lookup_or(index_entries(*old(map)), pair, set_items(default)),
        index_entries(*final(map)) == put(
            index_entries(*old(map)),
            pair,
            set_items(*final(slot)),
        ),
{
    map.entry(pair).or_insert(default)
}

/// `IndexMap::get_mut`: the place of the value under a key, if there is one.
/// What is written there is what the map holds under the key.
#[verifier::external_body]
pub(crate) fn index_get_mut<'a>(
    map: &'a mut IndexMap<(TokenID, TokenID), IndexSet<Vec<TokenID>>>,
    pair: (TokenID, TokenID),
) -> (slot: Option<&'a mut IndexSet<Vec<TokenID>>>)
    ensures
        match slot {
            Some(set) => {
                &&& lookup(index_entries(*old(map)), pair) == Some(set_items(*set))
                &&& index_entries(*final(map)) == put(
                    index_entries(*old(map)),
                    pair,
                    set_items(*final(set)),
                )
            },
            None => {
                &&& lookup(index_entries(*old(map)), pair) is None
                &&& index_entries(*final(map)) == index_entries(*old(map))
            },
        },
{
    map.get_mut(&pair)
}

/// `IndexMap::swap_remove`: the entry goes, the last one takes its place, and
/// the value that was there is returned.
#[verifier::external_body]
pub(crate) fn index_swap_remove(
    map: &mut IndexMap<(TokenID, TokenID), IndexSet<Vec<TokenID>>>,
    pair: (TokenID, TokenID),
) -> (removed: Option<IndexSet<Vec<TokenID>>>)
    ensures
        match removed {
            Some(set) => lookup(index_entries(*old(map)), pair) == Some(set_items(set)),
            None => lookup(index_entries(*old(map)), pair) is None,
        },
        index_entries(*final(map)) == swap_drop(index_entries(*old(map)), pair),
{
    map.swap_remove(&pair)
}

// ---------------------------------------------------------------------------
// How often each text occurs
// ---------------------------------------------------------------------------

/// The texts that a map counts, in order, each with its count.
pub uninterp spec fn text_entries(map: IndexMap<String, usize>) -> Seq<(Seq<char>, usize)>;

/// `IndexMap::new`: a map without entries.
#[verifier::external_body]
pub(crate) fn texts_new() -> (map: IndexMap<String, usize>)
    ensures
        text_entries(map) == Seq::<(Seq<char>, usize)>::empty(),
{
    IndexMap::new()
}

/// `IndexMap::entry` and `Entry::or_insert`: the place of the value under a key,
/// which gets a value of zero first where the key is new. What is written there
/// is what the map holds under the key.
#[verifier::external_body]
pub(crate) fn texts_slot<'a>(
    map: &'a mut IndexMap<String, usize>,
    text: String,
) -> (slot: &'a mut usize)
    ensures
        *slot == lookup_or(text_entries(*old(map)), text@, 0),
        text_entries(*final(map)) == put(text_entries(*old(map)), text@, *final(slot)),
{
    map.entry(text).or_insert(0)
}

/// `IndexMap::get_index`: the entry at a position, if the map has so many. A map
/// has at most as many entries as a `usize` counts.
#[verifier::external_body]
pub(crate) fn texts_get_index(map: &IndexMap<String, usize>, index: usize) -> (entry: Option<
    (&String, usize),
>)
    ensures
        entry is Some <==> index < text_entries(*map).len(),
        entry matches Some((text, count)) ==> (text@, count) == text_entries(*map)[index as int],
        entry is Some ==> index < usize::MAX,
{
    map.get_index(index).map(|(text, count)| (text, *count))
}

/// A new value under a key replaces the one before.
pub proof fn lemma_put_again<K, V>(entries: Seq<(K, V)>, key: K, first: V, second: V)
    requires
        unique_keys(entries),
    ensures
        put(put(entries, key, first), key, second) == put(entries, key, second),
{
    let once = put(entries, key, first);
    lemma_put(entries, key, first);
    let p = if has_key(entries, key) {
        position(entries, key)
    } else {
        entries.len() as int
    };
    assert(once[p] == (key, first));
    lemma_position(once, p);
}

/// Values under different keys can be put in either order, where the first key
/// has its place already.
pub proof fn lemma_put_swap<K, V>(entries: Seq<(K, V)>, a: K, x: V, b: K, y: V)
    requires
        unique_keys(entries),
        a != b,
        has_key(entries, a),
    ensures
        put(put(entries, a, x), b, y) == put(put(entries, b, y), a, x),
{
    let p = position(entries, a);
    assert(entries[p].0 == a);
    lemma_put(entries, a, x);
    lemma_put(entries, b, y);
    let with_a = put(entries, a, x);
    let with_b = put(entries, b, y);
    assert(with_b[p] == entries[p]);
    lemma_position(with_b, p);
    if has_key(entries, b) {
        let q = position(entries, b);
        assert(entries[q].0 == b);
        assert(with_a[q] == entries[q]);
        lemma_position(with_a, q);
    }
    assert(put(with_a, b, y) == put(with_b, a, x));
}

} // verus!
