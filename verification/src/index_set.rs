//! A set of arena indices, kept in a `hashbrown::HashSet`.

use crate::arena::NodeIndex;
use vstd::prelude::*;

verus! {

/// The indices that share a name, kept in a `hashbrown::HashSet`. The set
/// is not looked into: what it holds goes by the name `index_set_contents`,
/// and of each method of the set that is called, a function below says what
/// it does to that.
#[verifier::external_body]
pub struct IndexSet {
    inner: hashbrown::HashSet<NodeIndex>,
}

/// The indices that a set holds.
pub uninterp spec fn index_set_contents(set: IndexSet) -> Set<NodeIndex>;

impl View for IndexSet {
    type V = Set<NodeIndex>;

    open spec fn view(&self) -> Set<NodeIndex> {
        index_set_contents(*self)
    }
}

/// `HashSet::with_capacity`: a set that holds nothing.
#[verifier::external_body]
pub(crate) fn set_with_capacity(capacity: usize) -> (set: IndexSet)
    ensures
        index_set_contents(set) == Set::<NodeIndex>::empty(),
{
    IndexSet { inner: hashbrown::HashSet::with_capacity(capacity) }
}

/// `HashSet::insert`: adds the index, and tells whether it was new.
#[verifier::external_body]
pub(crate) fn set_insert(set: &mut IndexSet, index: NodeIndex) -> (fresh: bool)
    ensures
        index_set_contents(*final(set)) == index_set_contents(*old(set)).insert(index),
        fresh == !index_set_contents(*old(set)).contains(index),
{
    set.inner.insert(index)
}

/// `HashSet::remove`: takes the index out, and tells whether it was there.
#[verifier::external_body]
pub(crate) fn set_remove(set: &mut IndexSet, index: NodeIndex) -> (present: bool)
    ensures
        index_set_contents(*final(set)) == index_set_contents(*old(set)).remove(index),
        present == index_set_contents(*old(set)).contains(index),
{
    set.inner.remove(&index)
}

/// `HashSet::contains`.
#[verifier::external_body]
pub(crate) fn set_contains(set: &IndexSet, index: NodeIndex) -> (present: bool)
    ensures
        present == index_set_contents(*set).contains(index),
{
    set.inner.contains(&index)
}

/// `HashSet::len`: the number of indices.
#[verifier::external_body]
pub(crate) fn set_len(set: &IndexSet) -> (count: usize)
    ensures
        count == index_set_contents(*set).len(),
{
    set.inner.len()
}

/// `HashSet::is_empty`.
#[verifier::external_body]
pub(crate) fn set_is_empty(set: &IndexSet) -> (empty: bool)
    ensures
        empty == (index_set_contents(*set) == Set::<NodeIndex>::empty()),
{
    set.inner.is_empty()
}

/// `HashSet::iter`, collected: every index of the set once, in an order
/// that the set does not promise.
#[verifier::external_body]
pub(crate) fn set_to_vec(set: &IndexSet) -> (out: Vec<NodeIndex>)
    ensures
        out@.no_duplicates(),
        out@.to_set() == index_set_contents(*set),
{
    set.inner.iter().copied().collect()
}

impl IndexSet {
    /// A set that holds nothing.
    pub fn new() -> (set: Self)
        ensures
            set@ == Set::<NodeIndex>::empty(),
    {
        set_with_capacity(0)
    }

    /// A set that holds nothing, with room for `capacity` indices.
    pub fn with_capacity(capacity: usize) -> (set: Self)
        ensures
            set@ == Set::<NodeIndex>::empty(),
    {
        set_with_capacity(capacity)
    }

    /// Adds the index, and tells whether it was new.
    pub fn insert(&mut self, index: NodeIndex) -> (fresh: bool)
        ensures
            final(self)@ == old(self)@.insert(index),
            fresh == !old(self)@.contains(index),
    {
        set_insert(self, index)
    }

    /// Takes the index out, and tells whether it was there.
    pub fn remove(&mut self, index: NodeIndex) -> (present: bool)
        ensures
            final(self)@ == old(self)@.remove(index),
            present == old(self)@.contains(index),
    {
        set_remove(self, index)
    }

    /// Whether the set holds the index.
    pub fn contains(&self, index: NodeIndex) -> (present: bool)
        ensures
            present == self@.contains(index),
    {
        set_contains(self, index)
    }

    /// How many indices the set holds.
    pub fn len(&self) -> (n: usize)
        ensures
            n == self@.len(),
    {
        set_len(self)
    }

    /// Whether the set holds nothing.
    pub fn is_empty(&self) -> (empty: bool)
        ensures
            empty == (self@ == Set::<NodeIndex>::empty()),
    {
        set_is_empty(self)
    }

    /// The indices of the set from the smallest to the largest.
    pub fn to_sorted_vec(&self) -> (out: Vec<NodeIndex>)
        ensures
            out@.to_set() == self@,
            forall|i: int, j: int| 0 <= i < j < out@.len() ==> out@[i] < out@[j],
    {
        let items = set_to_vec(self);
        let mut out: Vec<NodeIndex> = Vec::new();
        let mut k: usize = 0;
        while k < items.len()
            invariant
                k <= items@.len(),
                out@.to_set() == items@.take(k as int).to_set(),
                forall|i: int, j: int| 0 <= i < j < out@.len() ==> out@[i] < out@[j],
            decreases items@.len() - k,
        {
            let x = items[k];
            let ghost before = out@;
            // the place of `x` among what is sorted so far
            let mut at: usize = 0;
            while at < out.len() && out[at] < x
                invariant
                    at <= out@.len(),
                    forall|i: int| 0 <= i < at ==> out@[i] < x,
                decreases out@.len() - at,
            {
                at += 1;
            }
            if at < out.len() && out[at] == x {
                proof {
                    assert(items@.take(k + 1) =~= items@.take(k as int).push(x));
                    assert(before.contains(x));
                    assert(before.to_set().insert(x) =~= before.to_set());
                    assert(items@.take(k as int).push(x).to_set() =~= items@.take(
                        k as int,
                    ).to_set().insert(x)) by {
                        lemma_push_to_set(items@.take(k as int), x);
                    }
                }
            } else {
                out.insert(at, x);
                proof {
                    assert(items@.take(k + 1) =~= items@.take(k as int).push(x));
                    lemma_push_to_set(items@.take(k as int), x);
                    lemma_insert_to_set(before, at as int, x);
                }
            }
            k += 1;
        }
        proof {
            assert(items@.take(items@.len() as int) =~= items@);
        }
        out
    }
}

/// The members of a sequence with one more at its end.
proof fn lemma_push_to_set(s: Seq<NodeIndex>, x: NodeIndex)
    ensures
        s.push(x).to_set() =~= s.to_set().insert(x),
{
    assert forall|y: NodeIndex| s.push(x).to_set().contains(y) <==> s.to_set().insert(x).contains(
        y,
    ) by {
        if s.push(x).contains(y) {
            let i = choose|i: int| 0 <= i < s.push(x).len() && s.push(x)[i] == y;
            if i < s.len() {
                assert(s[i] == y);
            }
        }
        if s.contains(y) {
            let i = choose|i: int| 0 <= i < s.len() && s[i] == y;
            assert(s.push(x)[i] == y);
        }
        if y == x {
            assert(s.push(x)[s.len() as int] == x);
        }
    }
}

/// The members of a sequence with one more put in.
proof fn lemma_insert_to_set(s: Seq<NodeIndex>, at: int, x: NodeIndex)
    requires
        0 <= at <= s.len(),
    ensures
        s.insert(at, x).to_set() =~= s.to_set().insert(x),
{
    let t = s.insert(at, x);
    assert forall|y: NodeIndex| t.to_set().contains(y) <==> s.to_set().insert(x).contains(y) by {
        if t.contains(y) {
            let i = choose|i: int| 0 <= i < t.len() && t[i] == y;
            if i < at {
                assert(s[i] == y);
            } else if i > at {
                assert(s[i - 1] == y);
            }
        }
        if s.contains(y) {
            let i = choose|i: int| 0 <= i < s.len() && s[i] == y;
            if i < at {
                assert(t[i] == y);
            } else {
                assert(t[i + 1] == y);
            }
        }
        if y == x {
            assert(t[at] == x);
        }
    }
}

} // verus!
