//! The canonical order of a certificate's signatures: ascending by public key,
//! signatures of one key in the order in which they arrived.

use crate::crypto::{ValidatorPublicKey, ValidatorSignature};
use vstd::prelude::*;
use vstd::slice::slice_to_vec;

verus! {

/// A signature together with the key of the validator that claims it.
pub type Signed = (ValidatorPublicKey, ValidatorSignature);

/// A list of signatures that either is borrowed from the caller, to be read in
/// place, or belongs to whoever holds this handle.
#[derive(Clone, Debug)]
pub enum Signatures<'a> {
    /// The caller's list.
    Borrowed(&'a [Signed]),
    /// A list of the holder's own.
    Owned(Vec<Signed>),
}

impl<'a> View for Signatures<'a> {
    type V = Seq<Signed>;

    open spec fn view(&self) -> Seq<Signed> {
        match self {
            Signatures::Borrowed(borrowed) => borrowed@,
            Signatures::Owned(owned) => owned@,
        }
    }
}

impl<'a> Signatures<'a> {
    /// The signatures, whoever owns them.
    pub fn as_slice(&self) -> (signatures: &[Signed])
        ensures
            signatures@ == self@,
    {
        match self {
            Signatures::Borrowed(borrowed) => borrowed,
            Signatures::Owned(owned) => owned.as_slice(),
        }
    }

    /// Hands the list over as the caller's own, copying it if it was borrowed.
    pub fn into_owned(self) -> (signatures: Vec<Signed>)
        ensures
            signatures@ == self@,
    {
        match self {
            Signatures::Borrowed(borrowed) => slice_to_vec(borrowed),
            Signatures::Owned(owned) => owned,
        }
    }

    /// A handle on a copy of the list that the handle owns.
    pub fn to_owned(&self) -> (copy: Signatures<'static>)
        ensures
            copy@ == self@,
            copy is Owned,
    {
        Signatures::Owned(slice_to_vec(self.as_slice()))
    }
}

/// Whether the keys never descend along the sequence.
pub open spec fn ordered_by_key(s: Seq<Signed>) -> bool {
    forall|i: int, j: int| 0 <= i < j < s.len() ==> s[i].0.spec_le(s[j].0)
}

/// `s` with `e` put in behind the last entry whose key is not above `e`'s.
pub open spec fn insert_by_key(s: Seq<Signed>, e: Signed) -> Seq<Signed>
    decreases s.len(),
{
    if s.len() == 0 {
        seq![e]
    } else if s.last().0.spec_le(e.0) {
        s.push(e)
    } else {
        insert_by_key(s.drop_last(), e).push(s.last())
    }
}

/// The stable sort of `s` by key: the entries of `s` in ascending key order,
/// entries of equal keys in the order that they have in `s`.
pub open spec fn sorted_by_key(s: Seq<Signed>) -> Seq<Signed>
    decreases s.len(),
{
    if s.len() == 0 {
        s
    } else {
        insert_by_key(sorted_by_key(s.drop_last()), s.last())
    }
}

/// Whether entries of `s` with one key are one entry: in particular where no key
/// occurs twice.
pub open spec fn key_determines_entry(s: Seq<Signed>) -> bool {
    forall|i: int, j: int| 0 <= i < s.len() && 0 <= j < s.len() && s[i].0 == s[j].0 ==> s[i] == s[j]
}

/// Inserting adds one entry and loses none.
pub proof fn lemma_insert_by_key_permutes(s: Seq<Signed>, e: Signed)
    ensures
        insert_by_key(s, e).to_multiset() == s.to_multiset().insert(e),
        insert_by_key(s, e).len() == s.len() + 1,
    decreases s.len(),
{
    broadcast use vstd::seq_lib::to_multiset_build;

    if s.len() == 0 {
        assert(seq![e] =~= s.push(e));
    } else if s.last().0.spec_le(e.0) {
    } else {
        lemma_insert_by_key_permutes(s.drop_last(), e);
        assert(s =~= s.drop_last().push(s.last()));
        assert(insert_by_key(s, e).to_multiset() =~= s.to_multiset().insert(e));
    }
}

/// Inserting into an ordered sequence leaves it ordered.
pub proof fn lemma_insert_by_key_ordered(s: Seq<Signed>, e: Signed)
    requires
        ordered_by_key(s),
    ensures
        ordered_by_key(insert_by_key(s, e)),
    decreases s.len(),
{
    let r = insert_by_key(s, e);
    lemma_insert_by_key_permutes(s, e);
    if s.len() == 0 {
    } else if s.last().0.spec_le(e.0) {
        assert forall|i: int, j: int| 0 <= i < j < r.len() implies r[i].0.spec_le(r[j].0) by {
            if j == s.len() {
                if i < s.len() - 1 {
                    assert(s[i].0.spec_le(s[s.len() - 1].0));
                    crate::crypto::lemma_lex_le_transitive(s[i].0.0@, s.last().0.0@, e.0.0@);
                }
            } else {
                assert(s[i].0.spec_le(s[j].0));
            }
        }
    } else {
        let front = s.drop_last();
        let inner = insert_by_key(front, e);
        lemma_insert_by_key_ordered(front, e);
        lemma_insert_by_key_permutes(front, e);
        broadcast use vstd::seq_lib::group_to_multiset_ensures;

        assert forall|i: int, j: int| 0 <= i < j < r.len() implies r[i].0.spec_le(r[j].0) by {
            if j == inner.len() {
                let x = inner[i];
                assert(inner.contains(x));
                assert(inner.to_multiset().count(x) > 0);
                if x == e {
                    crate::crypto::lemma_lex_le_total(s.last().0.0@, e.0.0@);
                } else {
                    assert(front.to_multiset().count(x) > 0);
                    assert(front.contains(x));
                    let k = choose|k: int| 0 <= k < front.len() && front[k] == x;
                    assert(s[k] == x);
                }
            } else {
                assert(r[i] == inner[i] && r[j] == inner[j]);
            }
        }
    }
}

/// The sort puts the entries in ascending key order.
pub proof fn lemma_sorted_by_key_ordered(s: Seq<Signed>)
    ensures
        ordered_by_key(sorted_by_key(s)),
    decreases s.len(),
{
    if s.len() > 0 {
        lemma_sorted_by_key_ordered(s.drop_last());
        lemma_insert_by_key_ordered(sorted_by_key(s.drop_last()), s.last());
    }
}

/// The sort keeps every entry, as often as it occurs.
pub proof fn lemma_sorted_by_key_permutes(s: Seq<Signed>)
    ensures
        sorted_by_key(s).to_multiset() == s.to_multiset(),
        sorted_by_key(s).len() == s.len(),
    decreases s.len(),
{
    broadcast use vstd::seq_lib::to_multiset_build;

    if s.len() > 0 {
        lemma_sorted_by_key_permutes(s.drop_last());
        lemma_insert_by_key_permutes(sorted_by_key(s.drop_last()), s.last());
        assert(s =~= s.drop_last().push(s.last()));
    }
}

/// The sort leaves a sequence alone that is in order already.
pub proof fn lemma_sorted_by_key_fixes_ordered(s: Seq<Signed>)
    requires
        ordered_by_key(s),
    ensures
        sorted_by_key(s) == s,
    decreases s.len(),
{
    if s.len() > 0 {
        let front = s.drop_last();
        lemma_sorted_by_key_fixes_ordered(front);
        if front.len() > 0 {
            assert(front.last() == s[s.len() - 2]);
        }
        assert(s =~= front.push(s.last()));
    }
}

/// Two ordered sequences with the same entries, in which a key determines its
/// entry, are the same sequence.
pub proof fn lemma_ordered_is_unique(a: Seq<Signed>, b: Seq<Signed>)
    requires
        ordered_by_key(a),
        ordered_by_key(b),
        a.to_multiset() == b.to_multiset(),
        key_determines_entry(a),
    ensures
        a == b,
    decreases a.len(),
{
    broadcast use vstd::seq_lib::group_to_multiset_ensures;

    assert(a.len() == a.to_multiset().len());
    assert(b.len() == b.to_multiset().len());
    if a.len() > 0 {
        let x = a.last();
        let y = b.last();
        assert(a.contains(x));
        assert(b.to_multiset().count(x) > 0);
        assert(b.contains(x));
        let kx = choose|k: int| 0 <= k < b.len() && b[k] == x;
        assert(b.contains(y));
        assert(a.to_multiset().count(y) > 0);
        assert(a.contains(y));
        let ky = choose|k: int| 0 <= k < a.len() && a[k] == y;
        if kx < b.len() - 1 {
            assert(b[kx].0.spec_le(b[b.len() - 1].0));
        } else {
            crate::crypto::lemma_lex_le_reflexive(x.0.0@);
        }
        if ky < a.len() - 1 {
            assert(a[ky].0.spec_le(a[a.len() - 1].0));
        } else {
            crate::crypto::lemma_lex_le_reflexive(y.0.0@);
        }
        x.0.lemma_le_antisymmetric(y.0);
        assert(a[ky].0 == a[a.len() - 1].0);
        assert(x == y);
        let fa = a.drop_last();
        let fb = b.drop_last();
        assert(a =~= fa.push(x));
        assert(b =~= fb.push(y));
        assert(fa.to_multiset() =~= a.to_multiset().remove(x)) by {
            assert(fa =~= a.remove(a.len() - 1));
        }
        assert(fb.to_multiset() =~= b.to_multiset().remove(y)) by {
            assert(fb =~= b.remove(b.len() - 1));
        }
        assert(ordered_by_key(fa)) by {
            assert forall|i: int, j: int| 0 <= i < j < fa.len() implies fa[i].0.spec_le(
                fa[j].0,
            ) by {
                assert(a[i].0.spec_le(a[j].0));
            }
        }
        assert(ordered_by_key(fb)) by {
            assert forall|i: int, j: int| 0 <= i < j < fb.len() implies fb[i].0.spec_le(
                fb[j].0,
            ) by {
                assert(b[i].0.spec_le(b[j].0));
            }
        }
        assert(key_determines_entry(fa)) by {
            assert forall|i: int, j: int|
                0 <= i < fa.len() && 0 <= j < fa.len() && fa[i].0 == fa[j].0 implies fa[i]
                == fa[j] by {
                assert(a[i].0 == a[j].0);
            }
        }
        lemma_ordered_is_unique(fa, fb);
    }
}

/// However the same signatures are arranged, provided that a key determines its
/// entry among them, the sort brings them into one and the same sequence.
pub proof fn lemma_sort_forgets_arrangement(a: Seq<Signed>, b: Seq<Signed>)
    requires
        a.to_multiset() == b.to_multiset(),
        key_determines_entry(a),
    ensures
        sorted_by_key(a) == sorted_by_key(b),
{
    broadcast use vstd::seq_lib::group_to_multiset_ensures;

    let ra = sorted_by_key(a);
    let rb = sorted_by_key(b);
    lemma_sorted_by_key_ordered(a);
    lemma_sorted_by_key_ordered(b);
    lemma_sorted_by_key_permutes(a);
    lemma_sorted_by_key_permutes(b);
    assert(key_determines_entry(ra)) by {
        assert forall|i: int, j: int|
            0 <= i < ra.len() && 0 <= j < ra.len() && ra[i].0 == ra[j].0 implies ra[i]
            == ra[j] by {
            assert(ra.contains(ra[i]));
            assert(ra.contains(ra[j]));
            assert(a.to_multiset().count(ra[i]) > 0);
            assert(a.to_multiset().count(ra[j]) > 0);
            assert(a.contains(ra[i]));
            assert(a.contains(ra[j]));
            let ki = choose|k: int| 0 <= k < a.len() && a[k] == ra[i];
            let kj = choose|k: int| 0 <= k < a.len() && a[k] == ra[j];
            assert(a[ki].0 == a[kj].0);
        }
    }
    lemma_ordered_is_unique(ra, rb);
}

/// Sorts the signatures by public key. The sort is stable.
pub fn sort_by_key(signatures: &mut Vec<Signed>)
    ensures
        final(signatures)@ == sorted_by_key(old(signatures)@),
{
    let mut out: Vec<Signed> = Vec::new();
    let mut i: usize = 0;
    assert(signatures@.take(0) =~= Seq::<Signed>::empty());
    while i < signatures.len()
        invariant
            i <= signatures@.len(),
            out@ == sorted_by_key(signatures@.take(i as int)),
        decreases signatures@.len() - i,
    {
        let e = signatures[i];
        let mut j: usize = out.len();
        assert(out@.take(j as int) =~= out@ && out@.skip(j as int) =~= Seq::<Signed>::empty());
        while j > 0 && !out[j - 1].0.le(&e.0)
            invariant
                j <= out@.len(),
                insert_by_key(out@, e) == insert_by_key(out@.take(j as int), e) + out@.skip(
                    j as int,
                ),
            decreases j,
        {
            proof {
                let head = out@.take(j as int);
                assert(head.last() == out@[j - 1]);
                assert(head.drop_last() =~= out@.take(j - 1));
                assert(insert_by_key(head, e) == insert_by_key(out@.take(j - 1), e).push(
                    out@[j - 1],
                ));
                assert(insert_by_key(out@.take(j - 1), e).push(out@[j - 1]) + out@.skip(j as int)
                    =~= insert_by_key(out@.take(j - 1), e) + out@.skip(j - 1));
            }
            j -= 1;
        }
        proof {
            let head = out@.take(j as int);
            if j > 0 {
                assert(head.last() == out@[j - 1]);
            }
            assert(insert_by_key(head, e) =~= head.push(e));
            assert(head.push(e) + out@.skip(j as int) =~= out@.insert(j as int, e));
            let upto = signatures@.take(i as int + 1);
            assert(upto.drop_last() =~= signatures@.take(i as int));
            assert(upto.last() == e);
        }
        out.insert(j, e);
        i += 1;
    }
    assert(signatures@.take(i as int) =~= signatures@);
    *signatures = out;
}

} // verus!
