//! A map from indices to values, which hashes its entries in ascending order of
//! the indices.

use crate::encoding::{
    bcs_bytes,
    bcs_u64,
    encode_entries,
    encode_map,
    encode_u64,
    lemma_encode_entries_prefix,
};
use crate::hasher::{Hasher, HashingContext};
use crate::ordered::{
    as_map,
    ascending_entries,
    has_key,
    keys_ascend,
    lemma_as_map_size,
    lemma_as_map_values,
    lemma_ascending_entries_of,
    lemma_insert_entry,
    lemma_remove_entry,
    lemma_update_entry,
    search,
};
use crate::views::{hash_of, HashView, ViewError};
use vstd::prelude::*;

verus! {

/// What the entries hold: each index with the bytes of its value.
pub open spec fn entry_views(entries: Seq<(u64, Vec<u8>)>) -> Seq<(u64, Seq<u8>)> {
    entries.map_values(|entry: (u64, Vec<u8>)| (entry.0, entry.1@))
}

/// A container that holds one value for each index of a set of indices.
pub struct MapView<C> {
    context: C,
    entries: Vec<(u64, Vec<u8>)>,
}

impl<C> View for MapView<C> {
    type V = Map<u64, Seq<u8>>;

    closed spec fn view(&self) -> Map<u64, Seq<u8>> {
        as_map(entry_views(self.entries@))
    }
}

/// The entries' keys ascend exactly when their views' keys do.
proof fn lemma_views_ascend(entries: Seq<(u64, Vec<u8>)>)
    ensures
        keys_ascend(entries) <==> keys_ascend(entry_views(entries)),
{
    let views = entry_views(entries);
    if keys_ascend(entries) {
        assert forall|i: int, j: int| 0 <= i < j < views.len() implies views[i].0
            < views[j].0 by {
            assert(entries[i].0 < entries[j].0);
        }
    }
    if keys_ascend(views) {
        assert forall|i: int, j: int| 0 <= i < j < entries.len() implies entries[i].0
            < entries[j].0 by {
            assert(views[i].0 < views[j].0);
        }
    }
}

impl<C> MapView<C> {
    #[verifier::type_invariant]
    spec fn well_formed(&self) -> bool {
        keys_ascend(self.entries@)
    }

    /// An empty map.
    pub fn new(context: C) -> (map: Self)
        ensures
            map@ == Map::<u64, Seq<u8>>::empty(),
    {
        let map = MapView { context, entries: Vec::new() };
        assert(map@ =~= Map::<u64, Seq<u8>>::empty());
        map
    }

    /// Sets the value at an index, whether or not the index had one.
    pub fn insert(&mut self, index: u64, value: Vec<u8>)
        ensures
            final(self)@ == old(self)@.insert(index, value@),
    {
        proof {
            use_type_invariant(&*self);
            lemma_views_ascend(self.entries@);
        }
        // The entries leave the map while they change, so that what the map
        // holds is in order at every moment.
        let mut entries: Vec<(u64, Vec<u8>)> = Vec::new();
        std::mem::swap(&mut self.entries, &mut entries);
        let ghost before = entries@;
        let at = search(&entries, index);
        if at < entries.len() && entries[at].0 == index {
            entries.set(at, (index, value));
            proof {
                lemma_update_entry(entry_views(before), at as int, value@);
                assert(entry_views(entries@) =~= entry_views(before).update(
                    at as int,
                    (index, value@),
                ));
            }
        } else {
            entries.insert(at, (index, value));
            proof {
                assert forall|i: int| at <= i < before.len() implies index < (#[trigger] entry_views(
                    before,
                )[i]).0 by {
                    assert(index <= before[i].0);
                    if before[i].0 == index {
                        assert(has_key(before, index));
                    }
                }
                assert forall|i: int| 0 <= i < at implies (#[trigger] entry_views(before)[i]).0
                    < index by {
                    assert(before[i].0 < index);
                }
                lemma_insert_entry(entry_views(before), at as int, index, value@);
                assert(entry_views(entries@) =~= entry_views(before).insert(
                    at as int,
                    (index, value@),
                ));
            }
        }
        proof {
            lemma_views_ascend(entries@);
        }
        self.entries = entries;
    }

    /// Takes an index and its value away, if the index has one.
    pub fn remove(&mut self, index: u64)
        ensures
            final(self)@ == old(self)@.remove(index),
    {
        proof {
            use_type_invariant(&*self);
            lemma_views_ascend(self.entries@);
        }
        let mut entries: Vec<(u64, Vec<u8>)> = Vec::new();
        std::mem::swap(&mut self.entries, &mut entries);
        let ghost before = entries@;
        let at = search(&entries, index);
        if at < entries.len() && entries[at].0 == index {
            entries.remove(at);
            proof {
                lemma_remove_entry(entry_views(before), at as int);
                assert(entry_views(entries@) =~= entry_views(before).remove(at as int));
                lemma_views_ascend(entries@);
            }
        } else {
            proof {
                assert(!has_key(entry_views(before), index)) by {
                    if has_key(entry_views(before), index) {
                        let i = choose|i: int|
                            0 <= i < before.len() && (#[trigger] entry_views(before)[i]).0
                                == index;
                        assert(before[i].0 == index);
                        assert(has_key(before, index));
                    }
                }
                assert(as_map(entry_views(before)).remove(index) =~= as_map(
                    entry_views(before),
                ));
            }
        }
        self.entries = entries;
    }

    /// The value at an index, if the index has one.
    pub fn get(&self, index: u64) -> (value: Option<&Vec<u8>>)
        ensures
            match value {
                Some(value) => self@.contains_key(index) && self@[index] == value@,
                None => !self@.contains_key(index),
            },
    {
        proof {
            use_type_invariant(self);
            lemma_views_ascend(self.entries@);
            lemma_as_map_values(entry_views(self.entries@));
        }
        let at = search(&self.entries, index);
        if at < self.entries.len() && self.entries[at].0 == index {
            assert(entry_views(self.entries@)[at as int].0 == index);
            Some(&self.entries[at].1)
        } else {
            proof {
                if has_key(entry_views(self.entries@), index) {
                    let i = choose|i: int|
                        0 <= i < self.entries@.len() && (#[trigger] entry_views(
                            self.entries@,
                        )[i]).0 == index;
                    assert(self.entries@[i].0 == index);
                    assert(has_key(self.entries@, index));
                }
            }
            None
        }
    }

    /// The number of indices that have a value.
    pub fn count(&self) -> (count: usize)
        ensures
            self@.dom().finite(),
            count == self@.dom().len(),
    {
        proof {
            use_type_invariant(self);
            lemma_views_ascend(self.entries@);
            lemma_as_map_size(entry_views(self.entries@));
        }
        self.entries.len()
    }

    /// The indices that have a value, in ascending order.
    pub fn indices(&self) -> (indices: Vec<u64>)
        ensures
            indices@ == ascending_entries(self@).map_values(|entry: (u64, Seq<u8>)| entry.0),
    {
        proof {
            use_type_invariant(self);
            lemma_views_ascend(self.entries@);
            lemma_ascending_entries_of(entry_views(self.entries@));
        }
        let mut indices: Vec<u64> = Vec::new();
        let mut i: usize = 0;
        while i < self.entries.len()
            invariant
                i <= self.entries@.len(),
                indices@ =~= entry_views(self.entries@).map_values(
                    |entry: (u64, Seq<u8>)| entry.0,
                ).take(i as int),
            decreases self.entries@.len() - i,
        {
            indices.push(self.entries[i].0);
            i += 1;
        }
        assert(indices@ =~= entry_views(self.entries@).map_values(
            |entry: (u64, Seq<u8>)| entry.0,
        ));
        indices
    }
}

/// The order in which two indices get their values leaves no trace in the hash.
pub proof fn lemma_insert_order_is_forgotten<C: HashingContext>(
    content: Map<u64, Seq<u8>>,
    first: (u64, Seq<u8>),
    second: (u64, Seq<u8>),
)
    requires
        first.0 != second.0,
    ensures
        content.insert(first.0, first.1).insert(second.0, second.1) == content.insert(
            second.0,
            second.1,
        ).insert(first.0, first.1),
        hash_of::<C, MapView<C>>(content.insert(first.0, first.1).insert(second.0, second.1))
            == hash_of::<C, MapView<C>>(
            content.insert(second.0, second.1).insert(first.0, first.1),
        ),
{
    assert(content.insert(first.0, first.1).insert(second.0, second.1) =~= content.insert(
        second.0,
        second.1,
    ).insert(first.0, first.1));
}

impl<C: HashingContext> HashView<C> for MapView<C> {
    open spec fn canonical(content: Map<u64, Seq<u8>>) -> Option<Seq<u8>> {
        encode_map(ascending_entries(content))
    }

    fn hash(&mut self) -> (r: Result<<C::Hasher as Hasher>::Output, ViewError>) {
        proof {
            use_type_invariant(&*self);
            lemma_views_ascend(self.entries@);
            lemma_ascending_entries_of(entry_views(self.entries@));
        }
        let ghost views = entry_views(self.entries@);
        let mut hasher = <C::Hasher as Hasher>::fresh();
        let count = self.entries.len();
        match bcs_u64(count as u64) {
            Ok(bytes) => hasher.write_all(bytes.as_slice()),
            Err(error) => {
                return Err(ViewError::Encoding(error));
            },
        }
        assert(views.take(0) =~= Seq::<(u64, Seq<u8>)>::empty());
        let mut i: usize = 0;
        while i < count
            invariant
                i <= count == self.entries@.len(),
                *self == *old(self),
                views == entry_views(self.entries@),
                views == ascending_entries(self@),
                encode_entries(views.take(i as int)) is Some,
                hasher.written() == encode_u64(count as u64) + encode_entries(
                    views.take(i as int),
                ).unwrap(),
            decreases count - i,
        {
            proof {
                assert(views.take(i as int + 1).drop_last() =~= views.take(i as int));
                assert(views.take(i as int + 1).last() == views[i as int]);
            }
            let ghost front = encode_entries(views.take(i as int)).unwrap();
            match bcs_u64(self.entries[i].0) {
                Ok(bytes) => hasher.write_all(bytes.as_slice()),
                Err(error) => {
                    return Err(ViewError::Encoding(error));
                },
            }
            match bcs_bytes(&self.entries[i].1) {
                Ok(bytes) => {
                    hasher.write_all(bytes.as_slice());
                    assert(hasher.written() =~= encode_u64(count as u64) + (front + encode_u64(
                        views[i as int].0,
                    ) + bytes@));
                },
                Err(error) => {
                    proof {
                        assert(views[i as int].1 == self.entries@[i as int].1@);
                        assert(encode_entries(views.take(i as int + 1)) is None);
                        if encode_entries(views) is Some {
                            lemma_encode_entries_prefix(views, i as int + 1);
                        }
                    }
                    return Err(ViewError::Encoding(error));
                },
            }
            i += 1;
        }
        assert(views.take(i as int) =~= views);
        Ok(hasher.finalize())
    }
}

} // verus!
