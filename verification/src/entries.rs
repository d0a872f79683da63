//! Entries in order: the mathematical model of a map that remembers the
//! order in which its keys were first put.
//!
//! A sequence of key and value pairs stands for the map. Putting a value
//! under a key that is there replaces the value where it stands; putting it
//! under a new key adds an entry at the end.

use vstd::prelude::*;

use crate::sequence::{lemma_position, lemma_position_is_first, position};

verus! {

/// The keys of a sequence of entries, in the entries' order.
pub open spec fn keys<K, V>(entries: Seq<(K, V)>) -> Seq<K> {
    entries.map_values(|e: (K, V)| e.0)
}

/// Whether no key stands in two entries.
pub open spec fn keys_unique<K, V>(entries: Seq<(K, V)>) -> bool {
    keys(entries).no_duplicates()
}

/// The index of the first entry under `key`, or the number of entries if
/// there is none.
pub open spec fn key_index<K, V>(entries: Seq<(K, V)>, key: K) -> nat {
    position(keys(entries), key)
}

/// Whether an entry stands under `key`.
pub open spec fn has_key<K, V>(entries: Seq<(K, V)>, key: K) -> bool {
    key_index(entries, key) < entries.len()
}

/// The value of the first entry under `key`.
pub open spec fn value_of<K, V>(entries: Seq<(K, V)>, key: K) -> Option<V> {
    if has_key(entries, key) {
        Some(entries[key_index(entries, key) as int].1)
    } else {
        None
    }
}

/// The entries after `value` is put under `key`: an entry under `key` keeps
/// its place and takes the new value, a new key goes to the end.
pub open spec fn put<K, V>(entries: Seq<(K, V)>, key: K, value: V) -> Seq<(K, V)> {
    if has_key(entries, key) {
        entries.update(key_index(entries, key) as int, (key, value))
    } else {
        entries.push((key, value))
    }
}

/// The entries as a map, without their order.
pub open spec fn as_map<K, V>(entries: Seq<(K, V)>) -> Map<K, V> {
    Map::new(|k: K| has_key(entries, k), |k: K| entries[key_index(entries, k) as int].1)
}

/// The entries after every item that is there was put, in the items'
/// order, starting from no entries.
pub open spec fn put_all<K, V>(items: Seq<Option<(K, V)>>) -> Seq<(K, V)>
    decreases items.len(),
{
    if items.len() == 0 {
        Seq::empty()
    } else {
        let before = put_all(items.drop_last());
        match items.last() {
            Some((key, value)) => put(before, key, value),
            None => before,
        }
    }
}

/// Whether the item at index `i` is there and has the key `key`.
pub open spec fn item_has_key<K, V>(items: Seq<Option<(K, V)>>, i: int, key: K) -> bool {
    0 <= i < items.len() && match items[i] {
        Some(entry) => entry.0 == key,
        None => false,
    }
}

/// The key of each item that is there.
pub open spec fn item_keys<K, V>(items: Seq<Option<(K, V)>>) -> Seq<Option<K>> {
    items.map_values(
        |item: Option<(K, V)>|
            match item {
                Some(entry) => Some(entry.0),
                None => None,
            },
    )
}

/// The index of the first item that has the key `key`, or the number of
/// items if none has it.
pub open spec fn first_item<K, V>(items: Seq<Option<(K, V)>>, key: K) -> nat {
    position(item_keys(items), Some(key))
}

/// How many of the items are there.
pub open spec fn present<T>(items: Seq<Option<T>>) -> nat
    decreases items.len(),
{
    if items.len() == 0 {
        0
    } else if items.last() is Some {
        present(items.drop_last()) + 1
    } else {
        present(items.drop_last())
    }
}

/// Whether no two of the items that are there have the same key.
pub open spec fn keys_distinct<K, V>(items: Seq<Option<(K, V)>>) -> bool {
    forall|i: int, j: int|
        0 <= i < j < items.len() ==> match (#[trigger] items[i], #[trigger] items[j]) {
            (Some(first), Some(second)) => first.0 != second.0,
            _ => true,
        }
}

/// An entry stands under `key` exactly when `key` is one of the keys.
pub proof fn lemma_has_key<K, V>(entries: Seq<(K, V)>, key: K)
    ensures
        has_key(entries, key) <==> exists|i: int| 0 <= i < entries.len() && entries[i].0 == key,
        has_key(entries, key) ==> entries[key_index(entries, key) as int].0 == key,
{
    let ks = keys(entries);
    lemma_position_is_first(ks, key);
    if has_key(entries, key) {
        assert(ks[key_index(entries, key) as int] == key);
    }
    if exists|i: int| 0 <= i < entries.len() && entries[i].0 == key {
        let i = choose|i: int| 0 <= i < entries.len() && entries[i].0 == key;
        assert(ks[i] == key);
    }
}

/// Putting a value under a key keeps the keys unique.
pub proof fn lemma_put_keeps_unique<K, V>(entries: Seq<(K, V)>, key: K, value: V)
    requires
        keys_unique(entries),
    ensures
        keys_unique(put(entries, key, value)),
{
    let ks = keys(entries);
    let after = put(entries, key, value);
    lemma_position_is_first(ks, key);
    if has_key(entries, key) {
        assert(keys(after) =~= ks);
    } else {
        assert(keys(after) =~= ks.push(key));
    }
}

/// Putting a value under a key changes the number of entries by one if the
/// key is new, and not at all if it is not.
pub proof fn lemma_put_len<K, V>(entries: Seq<(K, V)>, key: K, value: V)
    ensures
        has_key(entries, key) ==> put(entries, key, value).len() == entries.len(),
        !has_key(entries, key) ==> put(entries, key, value).len() == entries.len() + 1,
{
}

/// After a value is put under a key, that key has that value and every
/// other key has what it had.
pub proof fn lemma_put_value<K, V>(entries: Seq<(K, V)>, key: K, value: V, other: K)
    ensures
        value_of(put(entries, key, value), key) == Some(value),
        other != key ==> value_of(put(entries, key, value), other) == value_of(entries, other),
        has_key(put(entries, key, value), other) <==> other == key || has_key(entries, other),
{
    let ks = keys(entries);
    let after = put(entries, key, value);
    let i = key_index(entries, key) as int;
    lemma_position_is_first(ks, key);
    lemma_position_is_first(ks, other);
    if has_key(entries, key) {
        assert(keys(after) =~= ks);
    } else {
        assert(keys(after) =~= ks.push(key));
        lemma_position(keys(after), key, i);
        if other != key {
            let j = key_index(entries, other) as int;
            if j < ks.len() {
                lemma_position(keys(after), other, j);
            } else {
                lemma_position(keys(after), other, j + 1);
            }
        }
    }
}

/// As maps, putting a value under a key is the map's insertion.
pub proof fn lemma_put_as_map<K, V>(entries: Seq<(K, V)>, key: K, value: V)
    ensures
        as_map(put(entries, key, value)) == as_map(entries).insert(key, value),
{
    let after = put(entries, key, value);
    assert forall|k: K|
        as_map(after).dom().contains(k) == as_map(entries).insert(key, value).dom().contains(
            k,
        ) by {
        lemma_put_value(entries, key, value, k);
    }
    assert forall|k: K| as_map(after).dom().contains(k) implies as_map(after)[k] == as_map(
        entries,
    ).insert(key, value)[k] by {
        lemma_put_value(entries, key, value, k);
    }
    assert(as_map(after) =~= as_map(entries).insert(key, value));
}

/// Whatever was put, no key stands in two entries.
pub proof fn lemma_put_all_unique<K, V>(items: Seq<Option<(K, V)>>)
    ensures
        keys_unique(put_all(items)),
    decreases items.len(),
{
    if items.len() > 0 {
        lemma_put_all_unique(items.drop_last());
        match items.last() {
            Some((key, value)) => {
                lemma_put_keeps_unique(put_all(items.drop_last()), key, value);
            },
            None => {},
        }
    }
}

/// A key has an entry exactly when one of the items has that key.
pub proof fn lemma_put_all_has_key<K, V>(items: Seq<Option<(K, V)>>, key: K)
    ensures
        has_key(put_all(items), key) <==> exists|i: int| item_has_key(items, i, key),
    decreases items.len(),
{
    if items.len() > 0 {
        let front = items.drop_last();
        let last = items.len() - 1;
        lemma_put_all_has_key(front, key);
        match items.last() {
            Some((k, v)) => {
                lemma_put_value(put_all(front), k, v, key);
            },
            None => {},
        }
        if has_key(put_all(items), key) {
            if item_has_key(items, last, key) {
            } else {
                let i = choose|i: int| item_has_key(front, i, key);
                assert(item_has_key(items, i, key));
            }
        }
        if exists|i: int| item_has_key(items, i, key) {
            let i = choose|i: int| item_has_key(items, i, key);
            if i < last {
                assert(item_has_key(front, i, key));
            }
        }
    }
}

/// A key has the value of the last item that has that key.
pub proof fn lemma_put_all_last_wins<K, V>(
    items: Seq<Option<(K, V)>>,
    i: int,
    key: K,
    value: V,
)
    requires
        0 <= i < items.len(),
        items[i] == Some((key, value)),
        forall|j: int| i < j < items.len() ==> !item_has_key(items, j, key),
    ensures
        value_of(put_all(items), key) == Some(value),
    decreases items.len(),
{
    let front = items.drop_last();
    let last = items.len() - 1;
    if i == last {
        lemma_put_value(put_all(front), key, value, key);
    } else {
        assert(front[i] == items[i]);
        assert forall|j: int| i < j < front.len() implies !item_has_key(front, j, key) by {
            assert(!item_has_key(items, j, key));
        }
        lemma_put_all_last_wins(front, i, key, value);
        assert(!item_has_key(items, last, key));
        match items.last() {
            Some((k, v)) => {
                lemma_put_value(put_all(front), k, v, key);
            },
            None => {},
        }
    }
}

/// Where no item is there, none is counted.
pub proof fn lemma_present_none<T>(items: Seq<Option<T>>)
    requires
        forall|i: int| 0 <= i < items.len() ==> items[i] is None,
    ensures
        present(items) == 0,
    decreases items.len(),
{
    if items.len() > 0 {
        let front = items.drop_last();
        assert forall|i: int| 0 <= i < front.len() implies front[i] is None by {
            assert(front[i] == items[i]);
        }
        lemma_present_none(front);
        assert(items[items.len() - 1] is None);
    }
}

/// There are at most as many entries as items that are there, and exactly
/// as many where no two of those have the same key.
pub proof fn lemma_put_all_len<K, V>(items: Seq<Option<(K, V)>>)
    ensures
        put_all(items).len() <= present(items),
        keys_distinct(items) ==> put_all(items).len() == present(items),
    decreases items.len(),
{
    if items.len() > 0 {
        let front = items.drop_last();
        let last = items.len() - 1;
        lemma_put_all_len(front);
        if keys_distinct(items) {
            assert(keys_distinct(front)) by {
                assert forall|i: int, j: int| 0 <= i < j < front.len() implies match (
                    #[trigger] front[i],
                    #[trigger] front[j],
                ) {
                    (Some(first), Some(second)) => first.0 != second.0,
                    _ => true,
                } by {
                    assert(front[i] == items[i] && front[j] == items[j]);
                }
            }
        }
        match items.last() {
            Some((key, value)) => {
                lemma_put_len(put_all(front), key, value);
                if keys_distinct(items) && has_key(put_all(front), key) {
                    lemma_put_all_has_key(front, key);
                    let i = choose|i: int| item_has_key(front, i, key);
                    assert(front[i] == items[i]);
                    assert(items[last] == Some((key, value)));
                    assert(false);
                }
            },
            None => {},
        }
    }
}

/// A key has an entry exactly when a first item with that key exists.
pub proof fn lemma_first_item<K, V>(items: Seq<Option<(K, V)>>, key: K)
    ensures
        has_key(put_all(items), key) <==> first_item(items, key) < items.len(),
        first_item(items, key) < items.len() ==> item_has_key(
            items,
            first_item(items, key) as int,
            key,
        ),
        forall|i: int| 0 <= i < first_item(items, key) ==> !item_has_key(items, i, key),
{
    let ks = item_keys(items);
    lemma_put_all_has_key(items, key);
    lemma_position_is_first(ks, Some(key));
    if exists|i: int| item_has_key(items, i, key) {
        let i = choose|i: int| item_has_key(items, i, key);
        assert(ks[i] == Some(key));
    }
    if first_item(items, key) < items.len() {
        assert(item_has_key(items, first_item(items, key) as int, key));
    }
    assert forall|i: int| 0 <= i < first_item(items, key) implies !item_has_key(items, i, key) by {
        assert(ks[i] != Some(key));
    }
}

/// The first item with a key stays the first when an item is added at the
/// end.
proof fn lemma_first_item_stays<K, V>(items: Seq<Option<(K, V)>>, key: K)
    requires
        items.len() > 0,
        first_item(items.drop_last(), key) < items.len() - 1,
    ensures
        first_item(items, key) == first_item(items.drop_last(), key),
{
    let front = items.drop_last();
    let at = first_item(front, key) as int;
    lemma_position_is_first(item_keys(front), Some(key));
    assert forall|k: int| 0 <= k < at implies item_keys(items)[k] != Some(key) by {
        assert(item_keys(front)[k] != Some(key));
    }
    assert(item_keys(items)[at] == item_keys(front)[at]);
    lemma_position(item_keys(items), Some(key), at);
}

/// The entries stand in the order in which their keys first occur among the
/// items.
pub proof fn lemma_put_all_order<K, V>(items: Seq<Option<(K, V)>>, p: int, q: int)
    requires
        0 <= p < q < put_all(items).len(),
    ensures
        first_item(items, put_all(items)[p].0) < first_item(items, put_all(items)[q].0),
        first_item(items, put_all(items)[q].0) < items.len(),
    decreases items.len(),
{
    let after = put_all(items);
    let front = items.drop_last();
    let before = put_all(front);
    let last = items.len() - 1;
    let kp = after[p].0;
    let kq = after[q].0;
    assert(items.len() > 0);
    assert(keys(after)[p] == kp && keys(after)[q] == kq);
    let grown = match items.last() {
        Some((key, value)) => !has_key(before, key),
        None => false,
    };
    match items.last() {
        Some((key, value)) => {
            lemma_has_key(before, key);
            if has_key(before, key) {
                assert(keys(after) =~= keys(before));
            } else {
                assert(keys(after) =~= keys(before).push(key));
            }
        },
        None => {},
    }
    if p < before.len() {
        assert(keys(before)[p] == kp);
        lemma_has_key(before, kp);
        lemma_first_item(front, kp);
        lemma_first_item_stays(items, kp);
    }
    if q < before.len() {
        assert(keys(before)[q] == kq);
        lemma_has_key(before, kq);
        lemma_first_item(front, kq);
        lemma_first_item_stays(items, kq);
        lemma_put_all_order(front, p, q);
    } else {
        assert(grown);
        assert(items.last() matches Some(entry) && entry.0 == kq);
        lemma_first_item(front, kq);
        assert forall|k: int| 0 <= k < last implies item_keys(items)[k] != Some(kq) by {
            assert(!item_has_key(front, k, kq));
        }
        lemma_position(item_keys(items), Some(kq), last);
    }
}

} // verus!
