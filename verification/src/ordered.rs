//! Entries kept in ascending order of their keys: how a map and a collection
//! hold what they hold, and why that order is the only one there is.

use vstd::prelude::*;

verus! {

/// Whether the keys strictly ascend along the entries.
pub open spec fn keys_ascend<V>(entries: Seq<(u64, V)>) -> bool {
    forall|i: int, j: int| 0 <= i < j < entries.len() ==> entries[i].0 < entries[j].0
}

/// Whether some entry has the key.
pub open spec fn has_key<V>(entries: Seq<(u64, V)>, key: u64) -> bool {
    exists|i: int| 0 <= i < entries.len() && (#[trigger] entries[i]).0 == key
}

/// The position of an entry with the key.
pub open spec fn index_of_key<V>(entries: Seq<(u64, V)>, key: u64) -> int {
    choose|i: int| 0 <= i < entries.len() && (#[trigger] entries[i]).0 == key
}

/// The map from each key among the entries to the value that stands with it.
pub open spec fn as_map<V>(entries: Seq<(u64, V)>) -> Map<u64, V> {
    Map::new(
        |key: u64| has_key(entries, key),
        |key: u64| entries[index_of_key(entries, key)].1,
    )
}

/// The entries of a map in ascending order of their keys.
pub open spec fn ascending_entries<V>(map: Map<u64, V>) -> Seq<(u64, V)> {
    choose|entries: Seq<(u64, V)>| keys_ascend(entries) && as_map(entries) == map
}

/// Among ascending entries each key stands with its own value in the map.
pub proof fn lemma_as_map_values<V>(entries: Seq<(u64, V)>)
    requires
        keys_ascend(entries),
    ensures
        forall|i: int|
            0 <= i < entries.len() ==> as_map(entries).contains_key((#[trigger] entries[i]).0)
                && as_map(entries)[entries[i].0] == entries[i].1,
{
    assert forall|i: int| 0 <= i < entries.len() implies as_map(entries).contains_key(
        (#[trigger] entries[i]).0,
    ) && as_map(entries)[entries[i].0] == entries[i].1 by {
        let key = entries[i].0;
        assert(has_key(entries, key));
        let found = index_of_key(entries, key);
        assert(found == i) by {
            if found < i {
                assert(entries[found].0 < entries[i].0);
            } else if i < found {
                assert(entries[i].0 < entries[found].0);
            }
        }
    }
}

/// Ascending entries without the last stand for the map without the last key.
pub proof fn lemma_as_map_drop_last<V>(entries: Seq<(u64, V)>)
    requires
        keys_ascend(entries),
        entries.len() > 0,
    ensures
        keys_ascend(entries.drop_last()),
        as_map(entries.drop_last()) == as_map(entries).remove(entries.last().0),
{
    let front = entries.drop_last();
    let last = entries.last();
    assert(keys_ascend(front)) by {
        assert forall|i: int, j: int| 0 <= i < j < front.len() implies front[i].0
            < front[j].0 by {
            assert(entries[i].0 < entries[j].0);
        }
    }
    lemma_as_map_values(entries);
    lemma_as_map_values(front);
    assert forall|key: u64| as_map(front).contains_key(key) <==> as_map(entries).remove(
        last.0,
    ).contains_key(key) by {
        if has_key(front, key) {
            let i = index_of_key(front, key);
            assert(entries[i].0 == key);
            assert(entries[i].0 < entries[entries.len() - 1].0);
        }
        if has_key(entries, key) && key != last.0 {
            let i = index_of_key(entries, key);
            assert(front[i].0 == key);
        }
    }
    assert forall|key: u64| as_map(front).contains_key(key) implies as_map(front)[key] == as_map(
        entries,
    ).remove(last.0)[key] by {
        let i = index_of_key(front, key);
        assert(front[i].0 == key);
        assert(entries[i].0 == key);
    }
    assert(as_map(front) =~= as_map(entries).remove(last.0));
}

/// Ascending entries stand for a finite map with as many keys as there are
/// entries.
pub proof fn lemma_as_map_size<V>(entries: Seq<(u64, V)>)
    requires
        keys_ascend(entries),
    ensures
        as_map(entries).dom().finite(),
        as_map(entries).dom().len() == entries.len(),
    decreases entries.len(),
{
    if entries.len() == 0 {
        assert(as_map(entries).dom() =~= Set::<u64>::empty());
    } else {
        let front = entries.drop_last();
        let key = entries.last().0;
        lemma_as_map_drop_last(entries);
        lemma_as_map_size(front);
        lemma_as_map_values(entries);
        assert(as_map(entries).contains_key(entries[entries.len() - 1].0));
        assert(as_map(entries).dom() =~= as_map(front).dom().insert(key));
        assert(!as_map(front).dom().contains(key));
    }
}

/// A map has its entries in ascending order in one way only.
pub proof fn lemma_ascending_is_unique<V>(a: Seq<(u64, V)>, b: Seq<(u64, V)>)
    requires
        keys_ascend(a),
        keys_ascend(b),
        as_map(a) == as_map(b),
    ensures
        a == b,
    decreases a.len(),
{
    lemma_as_map_values(a);
    lemma_as_map_values(b);
    if a.len() == 0 {
        if b.len() > 0 {
            assert(as_map(b).contains_key(b[0].0));
            assert(has_key(a, b[0].0));
        }
        assert(a =~= b);
    } else if b.len() == 0 {
        assert(as_map(a).contains_key(a[0].0));
        assert(has_key(b, a[0].0));
    } else {
        let x = a.last();
        let y = b.last();
        assert(as_map(a).contains_key(a[a.len() - 1].0));
        assert(has_key(b, x.0));
        let j = index_of_key(b, x.0);
        assert(as_map(b).contains_key(b[b.len() - 1].0));
        assert(has_key(a, y.0));
        let i = index_of_key(a, y.0);
        if j < b.len() - 1 {
            assert(b[j].0 < b[b.len() - 1].0);
        }
        if i < a.len() - 1 {
            assert(a[i].0 < a[a.len() - 1].0);
        }
        assert(x.0 == y.0);
        assert(x.1 == as_map(a)[x.0]);
        assert(y.1 == as_map(b)[y.0]);
        assert(x == y);
        lemma_as_map_drop_last(a);
        lemma_as_map_drop_last(b);
        lemma_ascending_is_unique(a.drop_last(), b.drop_last());
        assert(a =~= a.drop_last().push(x));
        assert(b =~= b.drop_last().push(y));
    }
}

/// Ascending entries are the ascending entries of the map that they stand for.
pub proof fn lemma_ascending_entries_of<V>(entries: Seq<(u64, V)>)
    requires
        keys_ascend(entries),
    ensures
        ascending_entries(as_map(entries)) == entries,
{
    let map = as_map(entries);
    let chosen = ascending_entries(map);
    assert(keys_ascend(chosen) && as_map(chosen) == map);
    lemma_ascending_is_unique(chosen, entries);
}

/// Putting an entry between a smaller and a greater key keeps the order and
/// adds the entry to the map.
pub proof fn lemma_insert_entry<V>(entries: Seq<(u64, V)>, at: int, key: u64, value: V)
    requires
        keys_ascend(entries),
        0 <= at <= entries.len(),
        forall|i: int| 0 <= i < at ==> (#[trigger] entries[i]).0 < key,
        forall|i: int| at <= i < entries.len() ==> key < (#[trigger] entries[i]).0,
    ensures
        keys_ascend(entries.insert(at, (key, value))),
        as_map(entries.insert(at, (key, value))) == as_map(entries).insert(key, value),
{
    let after = entries.insert(at, (key, value));
    assert(keys_ascend(after)) by {
        assert forall|i: int, j: int| 0 <= i < j < after.len() implies after[i].0
            < after[j].0 by {
            if j < at {
                assert(entries[i].0 < entries[j].0);
            } else if j == at {
                assert(after[i] == entries[i]);
            } else if i < at {
                assert(after[i] == entries[i] && after[j] == entries[j - 1]);
                if i < j - 1 {
                    assert(entries[i].0 < entries[j - 1].0);
                }
            } else if i == at {
                assert(after[j] == entries[j - 1]);
            } else {
                assert(after[i] == entries[i - 1] && after[j] == entries[j - 1]);
                assert(entries[i - 1].0 < entries[j - 1].0);
            }
        }
    }
    lemma_as_map_values(entries);
    lemma_as_map_values(after);
    let want = as_map(entries).insert(key, value);
    assert forall|k: u64| as_map(after).contains_key(k) <==> want.contains_key(k) by {
        if has_key(after, k) {
            let i = index_of_key(after, k);
            if i < at {
                assert(entries[i].0 == k);
            } else if i > at {
                assert(entries[i - 1].0 == k);
            }
        }
        if has_key(entries, k) {
            let i = index_of_key(entries, k);
            if i < at {
                assert(after[i].0 == k);
            } else {
                assert(after[i + 1].0 == k);
            }
        }
        if k == key {
            assert(after[at].0 == k);
        }
    }
    assert forall|k: u64| as_map(after).contains_key(k) implies as_map(after)[k] == want[k] by {
        let i = index_of_key(after, k);
        assert(after[i].0 == k);
        if i < at {
            assert(entries[i].0 == k);
        } else if i > at {
            assert(entries[i - 1].0 == k);
        }
    }
    assert(as_map(after) =~= want);
}

/// Replacing the value that stands with a key keeps the order and replaces the
/// value in the map.
pub proof fn lemma_update_entry<V>(entries: Seq<(u64, V)>, at: int, value: V)
    requires
        keys_ascend(entries),
        0 <= at < entries.len(),
    ensures
        keys_ascend(entries.update(at, (entries[at].0, value))),
        as_map(entries.update(at, (entries[at].0, value))) == as_map(entries).insert(
            entries[at].0,
            value,
        ),
{
    let key = entries[at].0;
    let after = entries.update(at, (key, value));
    assert(keys_ascend(after)) by {
        assert forall|i: int, j: int| 0 <= i < j < after.len() implies after[i].0
            < after[j].0 by {
            assert(entries[i].0 < entries[j].0);
        }
    }
    lemma_as_map_values(entries);
    lemma_as_map_values(after);
    let want = as_map(entries).insert(key, value);
    assert forall|k: u64| as_map(after).contains_key(k) <==> want.contains_key(k) by {
        if has_key(after, k) {
            let i = index_of_key(after, k);
            assert(entries[i].0 == k);
        }
        if has_key(entries, k) {
            let i = index_of_key(entries, k);
            assert(after[i].0 == k);
        }
        if k == key {
            assert(after[at].0 == k);
        }
    }
    assert forall|k: u64| as_map(after).contains_key(k) implies as_map(after)[k] == want[k] by {
        let i = index_of_key(after, k);
        assert(after[i].0 == k);
        assert(entries[i].0 == k);
    }
    assert(as_map(after) =~= want);
}

/// Taking an entry out keeps the order and takes its key out of the map.
pub proof fn lemma_remove_entry<V>(entries: Seq<(u64, V)>, at: int)
    requires
        keys_ascend(entries),
        0 <= at < entries.len(),
    ensures
        keys_ascend(entries.remove(at)),
        as_map(entries.remove(at)) == as_map(entries).remove(entries[at].0),
{
    let key = entries[at].0;
    let after = entries.remove(at);
    assert(keys_ascend(after)) by {
        assert forall|i: int, j: int| 0 <= i < j < after.len() implies after[i].0
            < after[j].0 by {
            let si = if i < at {
                i
            } else {
                i + 1
            };
            let sj = if j < at {
                j
            } else {
                j + 1
            };
            assert(after[i] == entries[si] && after[j] == entries[sj]);
            assert(entries[si].0 < entries[sj].0);
        }
    }
    lemma_as_map_values(entries);
    lemma_as_map_values(after);
    let want = as_map(entries).remove(key);
    assert forall|k: u64| as_map(after).contains_key(k) <==> want.contains_key(k) by {
        if has_key(after, k) {
            let i = index_of_key(after, k);
            let si = if i < at {
                i
            } else {
                i + 1
            };
            assert(entries[si].0 == k);
            if si < at {
                assert(entries[si].0 < entries[at].0);
            } else {
                assert(entries[at].0 < entries[si].0);
            }
        }
        if has_key(entries, k) && k != key {
            let i = index_of_key(entries, k);
            if i < at {
                assert(after[i].0 == k);
            } else {
                assert(after[i - 1].0 == k);
            }
        }
    }
    assert forall|k: u64| as_map(after).contains_key(k) implies as_map(after)[k] == want[k] by {
        let i = index_of_key(after, k);
        let si = if i < at {
            i
        } else {
            i + 1
        };
        assert(after[i].0 == k);
        assert(entries[si].0 == k);
    }
    assert(as_map(after) =~= want);
}

/// The position of the first entry whose key is not below `key`: where an entry
/// with that key stands, or where it would have to go.
pub fn search<V>(entries: &Vec<(u64, V)>, key: u64) -> (at: usize)
    requires
        keys_ascend(entries@),
    ensures
        at <= entries@.len(),
        forall|i: int| 0 <= i < at ==> (#[trigger] entries@[i]).0 < key,
        forall|i: int| at <= i < entries@.len() ==> key <= (#[trigger] entries@[i]).0,
        has_key(entries@, key) <==> at < entries@.len() && entries@[at as int].0 == key,
{
    let mut at: usize = 0;
    while at < entries.len() && entries[at].0 < key
        invariant
            at <= entries@.len(),
            forall|i: int| 0 <= i < at ==> (#[trigger] entries@[i]).0 < key,
        decreases entries@.len() - at,
    {
        at += 1;
    }
    proof {
        assert forall|i: int| at <= i < entries@.len() implies key <= (#[trigger] entries@[i]).0 by {
            if at < i {
                assert(entries@[at as int].0 < entries@[i].0);
            }
        }
        if has_key(entries@, key) {
            let i = index_of_key(entries@, key);
            assert(entries@[i].0 == key);
            if at < i {
                assert(entries@[at as int].0 < entries@[i].0);
            }
        }
    }
    at
}

} // verus!
