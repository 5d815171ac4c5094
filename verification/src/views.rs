//! Containers that can be hashed, and the three plain ones: a register, an
//! append-only log and a queue.
//!
//! A container's hash is the digest of the canonical encoding of its logical
//! content. How the content is laid out in memory, and by which steps it came
//! about, has no part in it.

use crate::encoding::{
    bcs_bytes,
    bcs_list,
    encode_bytes,
    encode_list,
    items_of,
    lemma_encode_list_order_matters,
};
use crate::hasher::{digest_of, no_collision, Hasher, HashingContext};
use vstd::prelude::*;
use vstd::slice::slice_to_vec;

verus! {

/// Why a container could not be hashed.
#[derive(Debug)]
pub enum ViewError {
    /// The content has no canonical encoding.
    Encoding(bcs::Error),
}

/// A container with a canonical hash.
pub trait HashView<C: HashingContext>: Sized + View {
    /// The canonical encoding of a logical content, where it has one.
    spec fn canonical(content: Self::V) -> Option<Seq<u8>>;

    /// Computes the hash of the content: the digest of its canonical encoding.
    /// There is a hash exactly when there is an encoding, and the content is
    /// left as it was.
    fn hash(&mut self) -> (r: Result<<C::Hasher as Hasher>::Output, ViewError>)
        ensures
            final(self)@ == old(self)@,
            r is Ok <==> Self::canonical(old(self)@) is Some,
            r matches Ok(out) ==> <C::Hasher as Hasher>::output_bytes(&out)
                == <C::Hasher as Hasher>::spec_digest(Self::canonical(old(self)@).unwrap()),
            r matches Ok(out) ==> <C::Hasher as Hasher>::output_bytes(&out).len()
                == <C::Hasher as Hasher>::output_size(),
    ;
}

/// The hash of a logical content: the digest of its canonical encoding, where
/// it has one.
pub open spec fn hash_of<C: HashingContext, W: HashView<C>>(content: W::V) -> Option<Seq<u8>> {
    match W::canonical(content) {
        Some(bytes) => Some(<C::Hasher as Hasher>::spec_digest(bytes)),
        None => None,
    }
}

/// Two containers with the same logical content have the same hash, however
/// each of them came to hold it.
pub proof fn lemma_hash_depends_on_content_only<C: HashingContext, W: HashView<C>>(a: &W, b: &W)
    requires
        a@ == b@,
    ensures
        hash_of::<C, W>(a@) == hash_of::<C, W>(b@),
{
}

/// The digest of an encoding, or the encoder's error.
pub(crate) fn hash_encoded<H: Hasher>(encoded: Result<Vec<u8>, bcs::Error>) -> (r: Result<
    H::Output,
    ViewError,
>)
    ensures
        match r {
            Ok(out) => encoded matches Ok(bytes) && H::output_bytes(&out) == H::spec_digest(bytes@)
                && H::output_bytes(&out).len() == H::output_size(),
            Err(_) => encoded is Err,
        },
{
    match encoded {
        Ok(bytes) => Ok(digest_of::<H>(bytes.as_slice())),
        Err(error) => Err(ViewError::Encoding(error)),
    }
}

/// A container that holds one value.
pub struct RegisterView<C> {
    context: C,
    value: Vec<u8>,
}

impl<C> View for RegisterView<C> {
    type V = Seq<u8>;

    closed spec fn view(&self) -> Seq<u8> {
        self.value@
    }
}

impl<C> RegisterView<C> {
    /// A register that holds the empty value.
    pub fn new(context: C) -> (register: Self)
        ensures
            register@ == Seq::<u8>::empty(),
    {
        RegisterView { context, value: Vec::new() }
    }

    /// The value held.
    pub fn get(&self) -> (value: &Vec<u8>)
        ensures
            value@ == self@,
    {
        &self.value
    }

    /// Replaces the value held.
    pub fn set(&mut self, value: Vec<u8>)
        ensures
            final(self)@ == value@,
    {
        self.value = value;
    }
}

impl<C: HashingContext> HashView<C> for RegisterView<C> {
    open spec fn canonical(content: Seq<u8>) -> Option<Seq<u8>> {
        encode_bytes(content)
    }

    fn hash(&mut self) -> (r: Result<<C::Hasher as Hasher>::Output, ViewError>) {
        hash_encoded::<C::Hasher>(bcs_bytes(self.get()))
    }
}

/// A container that holds a list of values, to which values are added at the
/// end and from which none is taken away.
pub struct AppendOnlyLogView<C> {
    context: C,
    elements: Vec<Vec<u8>>,
}

impl<C> View for AppendOnlyLogView<C> {
    type V = Seq<Seq<u8>>;

    closed spec fn view(&self) -> Seq<Seq<u8>> {
        items_of(self.elements@)
    }
}

/// Copies the items of `list` from position `start` up to, not including, `end`.
pub(crate) fn copy_items(list: &Vec<Vec<u8>>, start: usize, end: usize) -> (copy: Vec<Vec<u8>>)
    requires
        start <= end <= list@.len(),
    ensures
        items_of(copy@) == items_of(list@).subrange(start as int, end as int),
{
    let mut copy: Vec<Vec<u8>> = Vec::new();
    let mut i: usize = start;
    while i < end
        invariant
            start <= i <= end <= list@.len(),
            items_of(copy@) =~= items_of(list@).subrange(start as int, i as int),
        decreases end - i,
    {
        let ghost before = copy@;
        let item = slice_to_vec(list[i].as_slice());
        copy.push(item);
        proof {
            assert(items_of(copy@) =~= items_of(before).push(item@));
            assert(items_of(list@)[i as int] == list@[i as int]@);
            assert(items_of(list@).subrange(start as int, i as int + 1) =~= items_of(
                list@,
            ).subrange(start as int, i as int).push(item@));
        }
        i += 1;
    }
    copy
}

impl<C> AppendOnlyLogView<C> {
    /// An empty log.
    pub fn new(context: C) -> (log: Self)
        ensures
            log@ == Seq::<Seq<u8>>::empty(),
    {
        let log = AppendOnlyLogView { context, elements: Vec::new() };
        assert(log@ =~= Seq::<Seq<u8>>::empty());
        log
    }

    /// Adds a value at the end.
    pub fn push(&mut self, value: Vec<u8>)
        ensures
            final(self)@ == old(self)@.push(value@),
    {
        self.elements.push(value);
        assert(self@ =~= old(self)@.push(value@));
    }

    /// The number of values in the log.
    pub fn count(&self) -> (count: usize)
        ensures
            count == self@.len(),
    {
        self.elements.len()
    }

    /// The values from position `start` up to, not including, `end`, both cut
    /// down to the length of the log.
    pub fn read(&self, start: usize, end: usize) -> (values: Vec<Vec<u8>>)
        ensures
            items_of(values@) == self@.subrange(
                vstd::math::min(vstd::math::min(start as int, end as int), self@.len() as int),
                vstd::math::min(end as int, self@.len() as int),
            ),
    {
        let count = self.elements.len();
        let end = if end < count {
            end
        } else {
            count
        };
        let start = if start < end {
            start
        } else {
            end
        };
        copy_items(&self.elements, start, end)
    }
}

impl<C: HashingContext> HashView<C> for AppendOnlyLogView<C> {
    open spec fn canonical(content: Seq<Seq<u8>>) -> Option<Seq<u8>> {
        encode_list(content)
    }

    fn hash(&mut self) -> (r: Result<<C::Hasher as Hasher>::Output, ViewError>) {
        let count = self.count();
        let elements = self.read(0, count);
        assert(items_of(elements@) =~= self@);
        hash_encoded::<C::Hasher>(bcs_list(&elements))
    }
}

/// The order of a log's values shows in its hash: two different values the
/// other way round give another hash, unless the digest algorithm fails to tell
/// the two encodings apart.
pub proof fn lemma_log_order_matters<C: HashingContext>(a: Seq<u8>, b: Seq<u8>)
    requires
        a != b,
        encode_list(seq![a, b]) is Some,
        encode_list(seq![b, a]) matches Some(swapped) ==> no_collision::<C::Hasher>(
            encode_list(seq![a, b]).unwrap(),
            swapped,
        ),
    ensures
        hash_of::<C, AppendOnlyLogView<C>>(seq![a, b]) != hash_of::<C, AppendOnlyLogView<C>>(
            seq![b, a],
        ),
{
    lemma_encode_list_order_matters(a, b);
}

/// A container that holds a queue of values: values are added at the back and
/// taken away at the front.
pub struct QueueView<C> {
    context: C,
    elements: Vec<Vec<u8>>,
}

impl<C> View for QueueView<C> {
    type V = Seq<Seq<u8>>;

    closed spec fn view(&self) -> Seq<Seq<u8>> {
        items_of(self.elements@)
    }
}

impl<C> QueueView<C> {
    /// An empty queue.
    pub fn new(context: C) -> (queue: Self)
        ensures
            queue@ == Seq::<Seq<u8>>::empty(),
    {
        let queue = QueueView { context, elements: Vec::new() };
        assert(queue@ =~= Seq::<Seq<u8>>::empty());
        queue
    }

    /// Adds a value at the back.
    pub fn push_back(&mut self, value: Vec<u8>)
        ensures
            final(self)@ == old(self)@.push(value@),
    {
        self.elements.push(value);
        assert(self@ =~= old(self)@.push(value@));
    }

    /// Takes the value at the front away, if there is one.
    pub fn delete_front(&mut self)
        ensures
            final(self)@ == if old(self)@.len() > 0 {
                old(self)@.drop_first()
            } else {
                old(self)@
            },
    {
        if self.elements.len() > 0 {
            self.elements.remove(0);
            assert(self@ =~= old(self)@.drop_first());
        }
    }

    /// The number of values in the queue.
    pub fn count(&self) -> (count: usize)
        ensures
            count == self@.len(),
    {
        self.elements.len()
    }

    /// The first `count` values from the front, or all if there are fewer.
    pub fn read_front(&self, count: usize) -> (values: Vec<Vec<u8>>)
        ensures
            items_of(values@) == self@.take(vstd::math::min(count as int, self@.len() as int)),
    {
        let available = self.elements.len();
        let taken = if count < available {
            count
        } else {
            available
        };
        let values = copy_items(&self.elements, 0, taken);
        assert(items_of(values@) =~= self@.take(taken as int));
        values
    }
}

impl<C: HashingContext> HashView<C> for QueueView<C> {
    open spec fn canonical(content: Seq<Seq<u8>>) -> Option<Seq<u8>> {
        encode_list(content)
    }

    fn hash(&mut self) -> (r: Result<<C::Hasher as Hasher>::Output, ViewError>) {
        let count = self.count();
        let elements = self.read_front(count);
        assert(items_of(elements@) =~= self@);
        hash_encoded::<C::Hasher>(bcs_list(&elements))
    }
}

} // verus!
