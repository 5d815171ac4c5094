//! A collection of containers by index, which hashes the hashes of its children
//! in ascending order of the indices, and a wrapper that hashes as what it wraps.

use crate::encoding::{bcs_u64, encode_u64, lemma_encode_u64_injective};
use crate::hasher::{no_collision, Hasher, HashingContext};
use crate::ordered::{
    as_map,
    ascending_entries,
    has_key,
    keys_ascend,
    lemma_as_map_values,
    lemma_ascending_entries_of,
    lemma_insert_entry,
    lemma_remove_entry,
    lemma_update_entry,
    search,
};
use crate::views::{hash_of, HashView, ViewError};
use vstd::prelude::*;

verus! {

/// What the entries hold: each index with the content of its child.
pub open spec fn child_views<W: View>(entries: Seq<(u64, W)>) -> Seq<(u64, W::V)> {
    entries.map_values(|entry: (u64, W)| (entry.0, entry.1@))
}

/// Whether every child has a canonical encoding, and so a hash.
pub open spec fn children_encodable<C: HashingContext, W: HashView<C>>(
    entries: Seq<(u64, W::V)>,
) -> bool {
    forall|i: int| 0 <= i < entries.len() ==> W::canonical((#[trigger] entries[i]).1) is Some
}

/// Each index with the digest of its child's canonical encoding.
pub open spec fn child_digests<C: HashingContext, W: HashView<C>>(
    entries: Seq<(u64, W::V)>,
) -> Seq<(u64, Seq<u8>)> {
    entries.map_values(
        |entry: (u64, W::V)| (entry.0, <C::Hasher as Hasher>::spec_digest(W::canonical(entry.1).unwrap())),
    )
}

/// Index and digest of each child, one pair behind the other: the index as a
/// 64-bit integer, the digest as its bare bytes.
pub open spec fn encode_digests(digests: Seq<(u64, Seq<u8>)>) -> Seq<u8>
    decreases digests.len(),
{
    if digests.len() == 0 {
        Seq::<u8>::empty()
    } else {
        encode_digests(digests.drop_last()) + encode_u64(digests.last().0) + digests.last().1
    }
}

/// The encoding of a collection, given index and digest of each child in
/// ascending order of the indices: the number of children as a 64-bit integer,
/// then the pairs.
pub open spec fn encode_collection(digests: Seq<(u64, Seq<u8>)>) -> Seq<u8> {
    encode_u64(digests.len() as u64) + encode_digests(digests)
}

/// A container that holds one child container for each index of a set of
/// indices.
pub struct CollectionView<C, W> {
    context: C,
    entries: Vec<(u64, W)>,
}

impl<C, W: View> View for CollectionView<C, W> {
    type V = Map<u64, W::V>;

    closed spec fn view(&self) -> Map<u64, W::V> {
        as_map(child_views(self.entries@))
    }
}

/// The entries' keys ascend exactly when their views' keys do.
proof fn lemma_child_views_ascend<W: View>(entries: Seq<(u64, W)>)
    ensures
        keys_ascend(entries) <==> keys_ascend(child_views(entries)),
{
    let views = child_views(entries);
    if keys_ascend(entries) {
        assert forall|i: int, j: int| 0 <= i < j < views.len() implies views[i].0
            < views[j].0 by {
            assert(entries[i].0 < entries[j].0);
        }
    }
    if keys_ascend(views) {
        assert forall|i: int, j: int| 0 <= i < j < entries.len() implies entries[i].0
            < entries[j].0 by {
            assert(views[i].0 < views[j].0);
        }
    }
}

/// An index is among the entries exactly when it is among their views.
proof fn lemma_child_views_keys<W: View>(entries: Seq<(u64, W)>, index: u64)
    ensures
        has_key(entries, index) <==> has_key(child_views(entries), index),
{
    let views = child_views(entries);
    if has_key(entries, index) {
        let i = choose|i: int| 0 <= i < entries.len() && (#[trigger] entries[i]).0 == index;
        assert(views[i].0 == index);
    }
    if has_key(views, index) {
        let i = choose|i: int| 0 <= i < views.len() && (#[trigger] views[i]).0 == index;
        assert(entries[i].0 == index);
    }
}

impl<C, W> CollectionView<C, W> {
    #[verifier::type_invariant]
    spec fn well_formed(&self) -> bool {
        keys_ascend(self.entries@)
    }
}

impl<C, W: View> CollectionView<C, W> {
    /// An empty collection.
    pub fn new(context: C) -> (collection: Self)
        ensures
            collection@ == Map::<u64, W::V>::empty(),
    {
        let collection = CollectionView { context, entries: Vec::new() };
        assert(collection@ =~= Map::<u64, W::V>::empty());
        collection
    }

    /// Puts a child at an index, in place of the child that the index had, if
    /// it had one.
    pub fn insert_entry(&mut self, index: u64, child: W)
        ensures
            final(self)@ == old(self)@.insert(index, child@),
    {
        proof {
            use_type_invariant(&*self);
            lemma_child_views_ascend(self.entries@);
        }
        // The entries leave the collection while they change, so that what the
        // collection holds is in order at every moment.
        let mut entries: Vec<(u64, W)> = Vec::new();
        std::mem::swap(&mut self.entries, &mut entries);
        let ghost before = entries@;
        let ghost content = child@;
        let at = search(&entries, index);
        proof {
            lemma_child_views_keys(before, index);
        }
        if at < entries.len() && entries[at].0 == index {
            entries.set(at, (index, child));
            proof {
                lemma_update_entry(child_views(before), at as int, content);
                assert(child_views(entries@) =~= child_views(before).update(
                    at as int,
                    (index, content),
                ));
            }
        } else {
            entries.insert(at, (index, child));
            proof {
                assert forall|i: int| at <= i < before.len() implies index < (#[trigger] child_views(
                    before,
                )[i]).0 by {
                    assert(index <= before[i].0);
                    if before[i].0 == index {
                        assert(has_key(before, index));
                    }
                }
                assert forall|i: int| 0 <= i < at implies (#[trigger] child_views(before)[i]).0
                    < index by {
                    assert(before[i].0 < index);
                }
                lemma_insert_entry(child_views(before), at as int, index, content);
                assert(child_views(entries@) =~= child_views(before).insert(
                    at as int,
                    (index, content),
                ));
            }
        }
        proof {
            lemma_child_views_ascend(entries@);
        }
        self.entries = entries;
    }

    /// Takes the child at an index out, if the index has one.
    pub fn remove_entry(&mut self, index: u64) -> (child: Option<W>)
        ensures
            final(self)@ == old(self)@.remove(index),
            match child {
                Some(child) => old(self)@.contains_key(index) && old(self)@[index] == child@,
                None => !old(self)@.contains_key(index),
            },
    {
        proof {
            use_type_invariant(&*self);
            lemma_child_views_ascend(self.entries@);
            lemma_as_map_values(child_views(self.entries@));
        }
        let mut entries: Vec<(u64, W)> = Vec::new();
        std::mem::swap(&mut self.entries, &mut entries);
        let ghost before = entries@;
        let at = search(&entries, index);
        proof {
            lemma_child_views_keys(before, index);
        }
        let child = if at < entries.len() && entries[at].0 == index {
            let entry = entries.remove(at);
            proof {
                assert(child_views(before)[at as int].0 == index);
                lemma_remove_entry(child_views(before), at as int);
                assert(child_views(entries@) =~= child_views(before).remove(at as int));
                lemma_child_views_ascend(entries@);
            }
            Some(entry.1)
        } else {
            assert(as_map(child_views(before)).remove(index) =~= as_map(child_views(before)));
            None
        };
        self.entries = entries;
        child
    }

    /// The child at an index, if the index has one.
    pub fn entry(&self, index: u64) -> (child: Option<&W>)
        ensures
            match child {
                Some(child) => self@.contains_key(index) && self@[index] == child@,
                None => !self@.contains_key(index),
            },
    {
        proof {
            use_type_invariant(self);
            lemma_child_views_ascend(self.entries@);
            lemma_as_map_values(child_views(self.entries@));
            lemma_child_views_keys(self.entries@, index);
        }
        let at = search(&self.entries, index);
        if at < self.entries.len() && self.entries[at].0 == index {
            assert(child_views(self.entries@)[at as int].0 == index);
            Some(&self.entries[at].1)
        } else {
            None
        }
    }

    /// The indices that have a child, in ascending order.
    pub fn indices(&self) -> (indices: Vec<u64>)
        ensures
            indices@ == ascending_entries(self@).map_values(|entry: (u64, W::V)| entry.0),
    {
        proof {
            use_type_invariant(self);
            lemma_child_views_ascend(self.entries@);
            lemma_ascending_entries_of(child_views(self.entries@));
        }
        let mut indices: Vec<u64> = Vec::new();
        let mut i: usize = 0;
        while i < self.entries.len()
            invariant
                i <= self.entries@.len(),
                indices@ =~= child_views(self.entries@).map_values(
                    |entry: (u64, W::V)| entry.0,
                ).take(i as int),
            decreases self.entries@.len() - i,
        {
            indices.push(self.entries[i].0);
            i += 1;
        }
        assert(indices@ =~= child_views(self.entries@).map_values(|entry: (u64, W::V)| entry.0));
        indices
    }
}

impl<C: HashingContext, W: HashView<C>> HashView<C> for CollectionView<C, W> {
    open spec fn canonical(content: Map<u64, W::V>) -> Option<Seq<u8>> {
        let entries = ascending_entries(content);
        if children_encodable::<C, W>(entries) {
            Some(encode_collection(child_digests::<C, W>(entries)))
        } else {
            None
        }
    }

    fn hash(&mut self) -> (r: Result<<C::Hasher as Hasher>::Output, ViewError>) {
        proof {
            use_type_invariant(&*self);
            lemma_child_views_ascend(self.entries@);
            lemma_ascending_entries_of(child_views(self.entries@));
        }
        // The children are hashed through exclusive access, for which the
        // entries leave the collection until the hash is done.
        let mut entries: Vec<(u64, W)> = Vec::new();
        std::mem::swap(&mut self.entries, &mut entries);
        let ghost views = child_views(entries@);
        let ghost digests = child_digests::<C, W>(views);
        let count = entries.len();
        let mut hasher = <C::Hasher as Hasher>::fresh();
        match bcs_u64(count as u64) {
            Ok(bytes) => hasher.write_all(bytes.as_slice()),
            Err(error) => {
                self.entries = entries;
                return Err(ViewError::Encoding(error));
            },
        }
        assert(digests.take(0) =~= Seq::<(u64, Seq<u8>)>::empty());
        let mut i: usize = 0;
        while i < count
            invariant
                i <= count == entries@.len(),
                self.entries@.len() == 0,
                views == ascending_entries(old(self)@),
                as_map(views) == old(self)@,
                keys_ascend(entries@),
                views == child_views(entries@),
                digests == child_digests::<C, W>(views),
                forall|k: int| 0 <= k < i ==> W::canonical((#[trigger] views[k]).1) is Some,
                hasher.written() == encode_u64(count as u64) + encode_digests(
                    digests.take(i as int),
                ),
            decreases count - i,
        {
            let ghost before = entries@;
            let ghost front = encode_digests(digests.take(i as int));
            match bcs_u64(entries[i].0) {
                Ok(bytes) => hasher.write_all(bytes.as_slice()),
                Err(error) => {
                    self.entries = entries;
                    return Err(ViewError::Encoding(error));
                },
            }
            let child = &mut entries[i].1;
            let outcome = child.hash();
            proof {
                assert(entries@.len() == before.len());
                assert(child_views(entries@) =~= child_views(before));
                assert forall|a: int, b: int| 0 <= a < b < entries@.len() implies entries@[a].0
                    < entries@[b].0 by {
                    assert(before[a].0 < before[b].0);
                }
            }
            match outcome {
                Ok(out) => {
                    hasher.write_all(<C::Hasher as Hasher>::as_bytes(&out));
                    proof {
                        assert(digests.take(i as int + 1).drop_last() =~= digests.take(i as int));
                        assert(digests.take(i as int + 1).last() == digests[i as int]);
                        assert(hasher.written() =~= encode_u64(count as u64) + (front + encode_u64(
                            digests[i as int].0,
                        ) + digests[i as int].1));
                    }
                },
                Err(error) => {
                    self.entries = entries;
                    assert(W::canonical(views[i as int].1) is None);
                    return Err(error);
                },
            }
            i += 1;
        }
        self.entries = entries;
        assert(digests.take(i as int) =~= digests);
        Ok(hasher.finalize())
    }
}

/// A collection's hash is made of its indices and its children's hashes and of
/// nothing else: collections with the same indices, whose children at each index
/// have the same hash, have the same hash.
pub proof fn lemma_collection_hash_composes<C: HashingContext, W: HashView<C>>(
    a: Seq<(u64, W::V)>,
    b: Seq<(u64, W::V)>,
)
    requires
        keys_ascend(a),
        keys_ascend(b),
        a.len() == b.len(),
        forall|i: int|
            0 <= i < a.len() ==> (#[trigger] a[i]).0 == b[i].0 && hash_of::<C, W>(a[i].1)
                == hash_of::<C, W>(b[i].1),
    ensures
        hash_of::<C, CollectionView<C, W>>(as_map(a)) == hash_of::<C, CollectionView<C, W>>(
            as_map(b),
        ),
{
    lemma_ascending_entries_of(a);
    lemma_ascending_entries_of(b);
    if children_encodable::<C, W>(a) {
        assert forall|i: int| 0 <= i < b.len() implies W::canonical((#[trigger] b[i]).1) is Some by {
            assert(hash_of::<C, W>(a[i].1) is Some);
        }
    }
    if children_encodable::<C, W>(b) {
        assert forall|i: int| 0 <= i < a.len() implies W::canonical((#[trigger] a[i]).1) is Some by {
            assert(hash_of::<C, W>(a[i].1) == hash_of::<C, W>(b[i].1));
        }
        assert forall|i: int| 0 <= i < a.len() implies child_digests::<C, W>(a)[i]
            == child_digests::<C, W>(b)[i] by {
            assert(hash_of::<C, W>(a[i].1) == hash_of::<C, W>(b[i].1));
        }
        assert(child_digests::<C, W>(a) =~= child_digests::<C, W>(b));
    }
}

/// Pairs of index and digest, all digests of one size, can be read back from
/// their encoding.
pub proof fn lemma_encode_digests_injective(
    a: Seq<(u64, Seq<u8>)>,
    b: Seq<(u64, Seq<u8>)>,
    size: nat,
)
    requires
        a.len() == b.len(),
        forall|i: int| 0 <= i < a.len() ==> (#[trigger] a[i]).1.len() == size,
        forall|i: int| 0 <= i < b.len() ==> (#[trigger] b[i]).1.len() == size,
        encode_digests(a) == encode_digests(b),
    ensures
        a == b,
    decreases a.len(),
{
    if a.len() == 0 {
        assert(a =~= b);
    } else {
        let whole = encode_digests(a);
        let (fa, la) = (a.drop_last(), a.last());
        let (fb, lb) = (b.drop_last(), b.last());
        let ha = encode_digests(fa) + encode_u64(la.0);
        let hb = encode_digests(fb) + encode_u64(lb.0);
        assert(la == a[a.len() - 1] && lb == b[b.len() - 1]);
        assert(la.1 =~= whole.skip(whole.len() - size));
        assert(lb.1 =~= whole.skip(whole.len() - size));
        assert(ha =~= whole.take(whole.len() - size));
        assert(hb =~= whole.take(whole.len() - size));
        lemma_encode_u64_injective(la.0, lb.0);
        lemma_encode_u64_injective(lb.0, la.0);
        assert(encode_u64(la.0) =~= ha.skip(ha.len() - 8));
        assert(encode_u64(lb.0) =~= hb.skip(hb.len() - 8));
        assert(encode_digests(fa) =~= ha.take(ha.len() - 8));
        assert(encode_digests(fb) =~= hb.take(hb.len() - 8));
        assert forall|i: int| 0 <= i < fa.len() implies (#[trigger] fa[i]).1.len() == size by {
            assert(fa[i] == a[i]);
        }
        assert forall|i: int| 0 <= i < fb.len() implies (#[trigger] fb[i]).1.len() == size by {
            assert(fb[i] == b[i]);
        }
        lemma_encode_digests_injective(fa, fb, size);
        assert(a =~= fa.push(la));
        assert(b =~= fb.push(lb));
    }
}

/// The encoding of a collection tells the number of its children, their indices
/// and their digests: where the digests are all of one size, as those of one
/// algorithm are, two collections with one encoding agree in all three.
pub proof fn lemma_encode_collection_injective(
    a: Seq<(u64, Seq<u8>)>,
    b: Seq<(u64, Seq<u8>)>,
    size: nat,
)
    requires
        a.len() <= u64::MAX,
        b.len() <= u64::MAX,
        forall|i: int| 0 <= i < a.len() ==> (#[trigger] a[i]).1.len() == size,
        forall|i: int| 0 <= i < b.len() ==> (#[trigger] b[i]).1.len() == size,
        encode_collection(a) == encode_collection(b),
    ensures
        a == b,
{
    let whole = encode_collection(a);
    lemma_encode_u64_injective(a.len() as u64, b.len() as u64);
    lemma_encode_u64_injective(b.len() as u64, a.len() as u64);
    assert(encode_u64(a.len() as u64) =~= whole.take(8));
    assert(encode_u64(b.len() as u64) =~= whole.take(8));
    assert(encode_digests(a) =~= whole.skip(8));
    assert(encode_digests(b) =~= whole.skip(8));
    lemma_encode_digests_injective(a, b, size);
}

/// A collection's hash tells the number of its children, their indices and
/// their hashes: two collections with one hash agree in all three, unless the
/// digest algorithm fails to tell their encodings apart.
pub proof fn lemma_collection_hash_tells_children<C: HashingContext, W: HashView<C>>(
    a: Seq<(u64, W::V)>,
    b: Seq<(u64, W::V)>,
    size: nat,
)
    requires
        keys_ascend(a),
        keys_ascend(b),
        a.len() <= u64::MAX,
        b.len() <= u64::MAX,
        children_encodable::<C, W>(a),
        children_encodable::<C, W>(b),
        forall|i: int|
            0 <= i < a.len() ==> (#[trigger] child_digests::<C, W>(a)[i]).1.len() == size,
        forall|i: int|
            0 <= i < b.len() ==> (#[trigger] child_digests::<C, W>(b)[i]).1.len() == size,
        no_collision::<C::Hasher>(
            encode_collection(child_digests::<C, W>(a)),
            encode_collection(child_digests::<C, W>(b)),
        ),
        hash_of::<C, CollectionView<C, W>>(as_map(a)) == hash_of::<C, CollectionView<C, W>>(
            as_map(b),
        ),
    ensures
        child_digests::<C, W>(a) == child_digests::<C, W>(b),
{
    lemma_ascending_entries_of(a);
    lemma_ascending_entries_of(b);
    lemma_encode_collection_injective(
        child_digests::<C, W>(a),
        child_digests::<C, W>(b),
        size,
    );
}

/// A container under a fixed index of its own, which holds and hashes as the
/// container that it wraps.
pub struct ScopedView<const INDEX: u64, W> {
    /// The wrapped container.
    pub view: W,
}

impl<const INDEX: u64, W: View> View for ScopedView<INDEX, W> {
    type V = W::V;

    open spec fn view(&self) -> W::V {
        self.view@
    }
}

impl<const INDEX: u64, C: HashingContext, W: HashView<C>> HashView<C> for ScopedView<INDEX, W> {
    open spec fn canonical(content: W::V) -> Option<Seq<u8>> {
        W::canonical(content)
    }

    fn hash(&mut self) -> (r: Result<<C::Hasher as Hasher>::Output, ViewError>) {
        self.view.hash()
    }
}

} // verus!
