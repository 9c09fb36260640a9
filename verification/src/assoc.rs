//! Association sequences: entries of a key and a value, in the order in which
//! they were first written, read as a mapping.

use crate::text::{first_index, lemma_first_index, lemma_first_index_is, str_eq};
use vstd::prelude::*;

verus! {

/// The keys of `entries`, in order.
pub open spec fn keys<V>(entries: Seq<(Seq<char>, V)>) -> Seq<Seq<char>> {
    Seq::new(entries.len(), |i: int| entries[i].0)
}

/// No key stands in `entries` twice.
pub open spec fn distinct_keys<V>(entries: Seq<(Seq<char>, V)>) -> bool {
    forall|i: int, j: int|
        0 <= i < j < entries.len() ==> (#[trigger] entries[i]).0 != (#[trigger] entries[j]).0
}

/// The value that `entries` holds for `key`: that of the first entry with
/// that key.
pub open spec fn lookup<V>(entries: Seq<(Seq<char>, V)>, key: Seq<char>) -> Option<V> {
    let i = first_index(keys(entries), key);
    if i < entries.len() {
        Some(entries[i].1)
    } else {
        None
    }
}

/// `entries` after `key` was set to `value`: an entry with that key keeps its
/// place and takes the new value, a new key goes to the end.
pub open spec fn put<V>(entries: Seq<(Seq<char>, V)>, key: Seq<char>, value: V) -> Seq<
    (Seq<char>, V),
> {
    let i = first_index(keys(entries), key);
    if i < entries.len() {
        entries.update(i, (key, value))
    } else {
        entries.push((key, value))
    }
}

/// `entries` without the first entry for `key`.
pub open spec fn del<V>(entries: Seq<(Seq<char>, V)>, key: Seq<char>) -> Seq<(Seq<char>, V)> {
    let i = first_index(keys(entries), key);
    if i < entries.len() {
        entries.remove(i)
    } else {
        entries
    }
}

/// `entries` as a mapping from each key to its value.
pub open spec fn to_map<V>(entries: Seq<(Seq<char>, V)>) -> Map<Seq<char>, V> {
    Map::new(
        |k: Seq<char>| keys(entries).contains(k),
        |k: Seq<char>| entries[first_index(keys(entries), k)].1,
    )
}

/// Where the keys are distinct, each entry is what the mapping holds for its
/// key.
pub proof fn lemma_entry_in_map<V>(entries: Seq<(Seq<char>, V)>, i: int)
    requires
        distinct_keys(entries),
        0 <= i < entries.len(),
    ensures
        first_index(keys(entries), entries[i].0) == i,
        to_map(entries).contains_key(entries[i].0),
        to_map(entries)[entries[i].0] == entries[i].1,
{
    let ks = keys(entries);
    assert(ks[i] == entries[i].0);
    assert forall|j: int| 0 <= j < i implies ks[j] != entries[i].0 by {
        assert(entries[j].0 != entries[i].0);
    }
    lemma_first_index_is(ks, entries[i].0, i);
}

/// `lookup` reads the mapping.
pub proof fn lemma_lookup<V>(entries: Seq<(Seq<char>, V)>, key: Seq<char>)
    ensures
        lookup(entries, key) is Some <==> to_map(entries).contains_key(key),
        lookup(entries, key) matches Some(v) ==> to_map(entries)[key] == v,
{
    lemma_first_index(keys(entries), key);
}

/// `put` keeps the keys distinct and sets `key` in the mapping.
pub proof fn lemma_put<V>(entries: Seq<(Seq<char>, V)>, key: Seq<char>, value: V)
    ensures
        distinct_keys(entries) ==> distinct_keys(put(entries, key, value)),
        to_map(put(entries, key, value)) == to_map(entries).insert(key, value),
{
    let ks = keys(entries);
    let after = put(entries, key, value);
    let i = first_index(ks, key);
    lemma_first_index(ks, key);
    if i < entries.len() {
        assert(keys(after) =~= ks);
        assert forall|k: Seq<char>| to_map(after).contains_key(k) implies #[trigger] to_map(
            after,
        )[k] == to_map(entries).insert(key, value)[k] by {
            lemma_first_index(ks, k);
        }
    } else {
        assert(keys(after) =~= ks.push(key));
        assert forall|k: Seq<char>|
            to_map(after).contains_key(k) <==> #[trigger] to_map(entries).insert(
                key,
                value,
            ).contains_key(k) by {
            if ks.contains(k) {
                let j = choose|j: int| 0 <= j < ks.len() && ks[j] == k;
                assert(ks.push(key)[j] == k);
            }
            if k == key {
                assert(ks.push(key)[ks.len() as int] == k);
            }
        }
        assert forall|k: Seq<char>| to_map(after).contains_key(k) implies #[trigger] to_map(
            after,
        )[k] == to_map(entries).insert(key, value)[k] by {
            lemma_first_index(ks, k);
            let j = first_index(ks, k);
            if j < ks.len() {
                assert forall|l: int| 0 <= l < j implies ks.push(key)[l] != k by {
                    assert(ks[l] != k);
                }
                assert(ks.push(key)[j] == k);
                lemma_first_index_is(ks.push(key), k, j);
            } else {
                assert forall|l: int| 0 <= l < ks.len() implies ks.push(key)[l] != k by {
                    assert(ks[l] != k);
                }
                lemma_first_index_is(ks.push(key), k, ks.len() as int);
            }
        }
        if distinct_keys(entries) {
            assert forall|a: int, b: int| 0 <= a < b < after.len() implies (#[trigger] after[a]).0
                != (#[trigger] after[b]).0 by {
                if b == entries.len() {
                    assert(ks[a] != key);
                } else {
                    assert(entries[a].0 != entries[b].0);
                }
            }
        }
    }
    assert(to_map(after) =~= to_map(entries).insert(key, value));
}

/// Where the keys are distinct, `del` keeps them so and takes `key` out of
/// the mapping.
pub proof fn lemma_del<V>(entries: Seq<(Seq<char>, V)>, key: Seq<char>)
    requires
        distinct_keys(entries),
    ensures
        distinct_keys(del(entries, key)),
        to_map(del(entries, key)) == to_map(entries).remove(key),
{
    let ks = keys(entries);
    let after = del(entries, key);
    let i = first_index(ks, key);
    lemma_first_index(ks, key);
    if i < entries.len() {
        assert forall|a: int, b: int| 0 <= a < b < after.len() implies (#[trigger] after[a]).0 != (
        #[trigger] after[b]).0 by {
            let a0 = if a < i { a } else { a + 1 };
            let b0 = if b < i { b } else { b + 1 };
            assert(entries[a0].0 != entries[b0].0);
        }
        assert forall|k: Seq<char>|
            to_map(after).contains_key(k) <==> #[trigger] to_map(entries).remove(key).contains_key(
                k,
            ) by {
            if keys(after).contains(k) {
                let j = choose|j: int| 0 <= j < after.len() && keys(after)[j] == k;
                let j0 = if j < i { j } else { j + 1 };
                assert(ks[j0] == k);
                assert(entries[j0].0 != entries[i].0);
            }
            if ks.contains(k) && k != key {
                let j = choose|j: int| 0 <= j < ks.len() && ks[j] == k;
                let j1 = if j < i { j } else { j - 1 };
                assert(keys(after)[j1] == k);
            }
        }
        assert forall|k: Seq<char>| to_map(after).contains_key(k) implies #[trigger] to_map(
            after,
        )[k] == to_map(entries).remove(key)[k] by {
            let j = choose|j: int| 0 <= j < after.len() && keys(after)[j] == k;
            let j0 = if j < i { j } else { j + 1 };
            lemma_entry_in_map(after, j);
            lemma_entry_in_map(entries, j0);
        }
    }
    assert(to_map(after) =~= to_map(entries).remove(key));
}

/// Taking out an entry with another key changes nothing of what `entries`
/// holds for `key`.
pub proof fn lemma_lookup_after_remove<V>(entries: Seq<(Seq<char>, V)>, i: int, key: Seq<char>)
    requires
        0 <= i < entries.len(),
        entries[i].0 != key,
    ensures
        lookup(entries.remove(i), key) == lookup(entries, key),
{
    let ks = keys(entries);
    let after = keys(entries.remove(i));
    let f = first_index(ks, key);
    lemma_first_index(ks, key);
    assert(ks[i] != key);
    let g = if f < i {
        f
    } else {
        f - 1
    };
    assert forall|j: int| 0 <= j < g implies after[j] != key by {
        let j0 = if j < i {
            j
        } else {
            j + 1
        };
        assert(after[j] == ks[j0]);
    }
    if g < after.len() {
        assert(after[g] == ks[f]);
    }
    lemma_first_index_is(after, key, g);
}

/// The keys of stored entries, as sequences of characters.
pub open spec fn stored_keys<V>(entries: Seq<(String, V)>) -> Seq<Seq<char>> {
    Seq::new(entries.len(), |i: int| entries[i].0@)
}

/// The position of the first entry of `entries` whose key is `key`.
pub fn find_key<V>(entries: &Vec<(String, V)>, key: &str) -> (r: Option<usize>)
    ensures
        match r {
            Some(i) => i < entries@.len() && i == first_index(stored_keys(entries@), key@),
            None => first_index(stored_keys(entries@), key@) == entries@.len(),
        },
{
    let ghost ks = stored_keys(entries@);
    let mut i: usize = 0;
    while i < entries.len()
        invariant
            i <= entries@.len(),
            ks == stored_keys(entries@),
            forall|j: int| 0 <= j < i ==> ks[j] != key@,
        decreases entries@.len() - i,
    {
        if str_eq(entries[i].0.as_str(), key) {
            proof {
                lemma_first_index_is(ks, key@, i as int);
            }
            return Some(i);
        }
        assert(ks[i as int] != key@);
        i += 1;
    }
    proof {
        lemma_first_index_is(ks, key@, i as int);
    }
    None
}

} // verus!
