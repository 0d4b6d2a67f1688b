//! A slab of records with stable indices.
//!
//! A record keeps the index that `insert` gave it until it is removed.
//! The slot of a removed record is put on a free list and handed out again
//! by a later `insert`, so an index that was removed must not be used any
//! more: it may by then name another record.

use vstd::prelude::*;

verus! {

/// The handle of a record in an arena.
pub type NodeIndex = usize;

/// Whether `post` is `pre` with `value` stored under an index that was free.
pub open spec fn inserted<T>(pre: Map<usize, T>, post: Map<usize, T>, index: usize, value: T) -> bool {
    !pre.contains_key(index) && post == pre.insert(index, value)
}

/// Whether `post` is `pre` without the record under `index`.
pub open spec fn removed<T>(pre: Map<usize, T>, post: Map<usize, T>, index: usize) -> bool {
    post == pre.remove(index)
}

/// Whether the step from `pre` to `post` is an `insert`, or a `remove` of an
/// index other than `index`.
pub open spec fn spares<T>(pre: Map<usize, T>, post: Map<usize, T>, index: usize) -> bool {
    ||| exists|at: usize, value: T| inserted(pre, post, at, value)
    ||| exists|at: usize| at != index && removed(pre, post, at)
}

/// An index names the same record until it is removed. Through any run of
/// calls of `insert` and `remove` that does not remove `index`, the record
/// under `index` stays what it was.
pub proof fn lemma_index_stable<T>(states: Seq<Map<usize, T>>, index: usize, from: int, to: int)
    requires
        0 <= from <= to < states.len(),
        states[from].contains_key(index),
        forall|s: int| from <= s < to ==> spares(#[trigger] states[s], states[s + 1], index),
    ensures
        states[to].contains_key(index),
        states[to][index] == states[from][index],
    decreases to - from,
{
    if from < to {
        lemma_index_stable(states, index, from, to - 1);
        assert(spares(states[to - 1], states[to - 1 + 1], index));
    }
}

/// A slab of records of type `T`, each under an index of its own.
pub struct NodeArena<T> {
    slots: Vec<Option<T>>,
    /// The vacant slots, the one vacated last at the end.
    free: Vec<usize>,
}

impl<T> View for NodeArena<T> {
    type V = Map<usize, T>;

    /// The records by their indices.
    closed spec fn view(&self) -> Map<usize, T> {
        Map::new(
            |i: usize| i < self.slots@.len() && self.slots@[i as int] is Some,
            |i: usize| self.slots@[i as int]->0,
        )
    }
}

impl<T> NodeArena<T> {
    /// The free list holds the vacant slots, each of them once.
    pub closed spec fn wf(&self) -> bool {
        &&& forall|k: int|
            0 <= k < self.free@.len() ==> (#[trigger] self.free@[k]) < self.slots@.len()
                && self.slots@[self.free@[k] as int] is None
        &&& forall|k: int, l: int|
            0 <= k < l < self.free@.len() ==> #[trigger] self.free@[k] != #[trigger] self.free@[l]
        &&& forall|i: usize|
            i < self.slots@.len() && (#[trigger] self.slots@[i as int]) is None
                ==> self.free@.contains(i)
        &&& self.slots@.len() <= usize::MAX
    }

    /// One more than the largest index ever handed out.
    pub closed spec fn bound(&self) -> int {
        self.slots@.len() as int
    }

    /// Whether a slot below the bound is vacant.
    pub open spec fn has_vacancy(&self) -> bool {
        exists|i: usize| i < self.bound() && !self@.contains_key(i)
    }

    /// Every index in use lies below the bound.
    pub proof fn lemma_bound(&self)
        requires
            self.wf(),
        ensures
            forall|i: usize| self@.contains_key(i) ==> i < self.bound(),
            self@.dom().finite(),
    {
        let n = self.slots@.len();
        let below = Set::new(|i: usize| i < n);
        assert(below.finite()) by {
            lemma_below_finite(n);
        }
        assert(self@.dom().subset_of(below));
        vstd::set_lib::lemma_len_subset(self@.dom(), below);
    }

    /// An arena without records.
    pub fn new() -> (r: Self)
        ensures
            r.wf(),
            r.bound() == 0,
            r@ == Map::<usize, T>::empty(),
    {
        let r = Self { slots: Vec::new(), free: Vec::new() };
        proof {
            assert(r@ =~= Map::<usize, T>::empty());
        }
        r
    }

    /// The arena of a sequence of slots: the record of slot `i`, where there
    /// is one, stands under index `i`. The vacant slots are handed out
    /// from the last to the first.
    pub fn from_slots(slots: Vec<Option<T>>) -> (r: Self)
        ensures
            r.wf(),
            r.bound() == slots@.len(),
            forall|i: usize|
                r@.contains_key(i) <==> i < slots@.len() && (#[trigger] slots@[i as int]) is Some,
            forall|i: usize| r@.contains_key(i) ==> r@[i] == slots@[i as int]->0,
    {
        let mut free: Vec<usize> = Vec::new();
        let mut i: usize = 0;
        while i < slots.len()
            invariant
                i <= slots@.len(),
                forall|k: int|
                    0 <= k < free@.len() ==> (#[trigger] free@[k]) < i && slots@[free@[k] as int] is None,
                forall|k: int, l: int| 0 <= k < l < free@.len() ==> free@[k] < free@[l],
                forall|j: usize|
                    j < i && (#[trigger] slots@[j as int]) is None ==> free@.contains(j),
            decreases slots@.len() - i,
        {
            if slots[i].is_none() {
                let ghost before = free@;
                free.push(i);
                proof {
                    assert forall|j: usize|
                        j < i + 1 && (#[trigger] slots@[j as int]) is None implies free@.contains(
                        j,
                    ) by {
                        if j < i {
                            assert(before.contains(j));
                            let k = choose|k: int| 0 <= k < before.len() && before[k] == j;
                            assert(free@[k] == j);
                        } else {
                            assert(free@[before.len() as int] == j);
                        }
                    }
                }
            }
            i += 1;
        }
        Self { slots, free }
    }

    /// The slots of the arena: slot `i` holds the record under index `i`,
    /// or nothing where that index is not in use.
    pub fn into_slots(self) -> (slots: Vec<Option<T>>)
        ensures
            slots@.len() == self.bound(),
            forall|i: usize|
                self@.contains_key(i) <==> i < slots@.len() && (#[trigger] slots@[i as int]) is Some,
            forall|i: usize| self@.contains_key(i) ==> self@[i] == slots@[i as int]->0,
    {
        self.slots
    }

    /// Stores a record and returns its index: that of the slot vacated
    /// last, or a new one where no slot is vacant.
    pub fn insert(&mut self, value: T) -> (index: NodeIndex)
        requires
            old(self).wf(),
        ensures
            final(self).wf(),
            inserted(old(self)@, final(self)@, index, value),
            old(self).has_vacancy() ==> index < old(self).bound() && final(self).bound() == old(
                self,
            ).bound(),
            !old(self).has_vacancy() ==> index == old(self).bound() && final(self).bound() == old(
                self,
            ).bound() + 1,
    {
        match self.free.pop() {
            Some(index) => {
                assert(old(self).free@[old(self).free@.len() - 1] == index);
                assert(!old(self)@.contains_key(index));
                self.slots[index] = Some(value);
                proof {
                    assert(self@ =~= old(self)@.insert(index, value));
                    assert forall|i: usize|
                        i < self.slots@.len() && (#[trigger] self.slots@[i as int]) is None
                        implies self.free@.contains(i) by {
                        assert(old(self).slots@[i as int] is None);
                        assert(old(self).free@.contains(i));
                        let k = choose|k: int|
                            0 <= k < old(self).free@.len() && old(self).free@[k] == i;
                        assert(self.free@[k] == i);
                    }
                }
                index
            },
            None => {
                proof {
                    if old(self).has_vacancy() {
                        let i = choose|i: usize| i < old(self).bound() && !old(self)@.contains_key(i);
                        assert(old(self).slots@[i as int] is None);
                        assert(old(self).free@.contains(i));
                    }
                }
                let index = self.slots.len();
                self.slots.push(Some(value));
                let bound = self.slots.len();
                proof {
                    assert(self.slots@.len() == bound);
                    assert(self@ =~= old(self)@.insert(index, value));
                    assert forall|i: usize|
                        i < self.slots@.len() && (#[trigger] self.slots@[i as int]) is None
                        implies self.free@.contains(i) by {
                        assert(old(self).slots@[i as int] is None);
                    }
                }
                index
            },
        }
    }

    /// Takes the record under `index` out, if there is one, and puts its
    /// slot on the free list.
    pub fn remove(&mut self, index: NodeIndex) -> (r: Option<T>)
        requires
            old(self).wf(),
        ensures
            final(self).wf(),
            final(self).bound() == old(self).bound(),
            removed(old(self)@, final(self)@, index),
            r == if old(self)@.contains_key(index) {
                Some(old(self)@[index])
            } else {
                None
            },
    {
        if index >= self.slots.len() {
            proof {
                assert(self@ =~= old(self)@.remove(index));
            }
            return None;
        }
        let mut taken: Option<T> = None;
        std::mem::swap(&mut self.slots[index], &mut taken);
        if taken.is_some() {
            self.free.push(index);
            proof {
                assert(self@ =~= old(self)@.remove(index));
                assert forall|i: usize|
                    i < self.slots@.len() && (#[trigger] self.slots@[i as int]) is None
                    implies self.free@.contains(i) by {
                    if i == index {
                        assert(self.free@[self.free@.len() - 1] == index);
                    } else {
                        assert(old(self).slots@[i as int] is None);
                        let k = choose|k: int|
                            0 <= k < old(self).free@.len() && old(self).free@[k] == i;
                        assert(self.free@[k] == i);
                    }
                }
            }
        } else {
            proof {
                assert(self.slots@ =~= old(self).slots@);
                assert(self@ =~= old(self)@.remove(index));
            }
        }
        taken
    }

    /// The record under `index`, if there is one.
    pub fn get(&self, index: NodeIndex) -> (r: Option<&T>)
        ensures
            match r {
                Some(value) => self@.contains_key(index) && *value == self@[index],
                None => !self@.contains_key(index),
            },
    {
        if index < self.slots.len() {
            self.slots[index].as_ref()
        } else {
            None
        }
    }

    /// The record under `index`, if there is one, to be changed in place.
    pub fn get_mut(&mut self, index: NodeIndex) -> (r: Option<&mut T>)
        requires
            old(self).wf(),
        ensures
            final(self).wf(),
            final(self).bound() == old(self).bound(),
            match r {
                Some(value) => old(self)@.contains_key(index) && *value == old(self)@[index]
                    && final(self)@ == old(self)@.insert(index, *final(value)),
                None => !old(self)@.contains_key(index) && final(self)@ == old(self)@,
            },
    {
        if index < self.slots.len() {
            self.slots[index].as_mut()
        } else {
            None
        }
    }

    /// The indices in use, from the smallest to the largest.
    pub fn indices(&self) -> (out: Vec<NodeIndex>)
        ensures
            forall|i: usize| out@.contains(i) <==> self@.contains_key(i),
            forall|k: int, l: int| 0 <= k < l < out@.len() ==> out@[k] < out@[l],
    {
        let mut out: Vec<NodeIndex> = Vec::new();
        let mut i: usize = 0;
        while i < self.slots.len()
            invariant
                i <= self.slots@.len(),
                forall|j: usize| out@.contains(j) <==> j < i && self@.contains_key(j),
                forall|k: int, l: int| 0 <= k < l < out@.len() ==> out@[k] < out@[l],
                forall|k: int| 0 <= k < out@.len() ==> out@[k] < i,
            decreases self.slots@.len() - i,
        {
            if self.slots[i].is_some() {
                let ghost before = out@;
                out.push(i);
                proof {
                    assert(out@[out@.len() - 1] == i);
                    assert forall|j: usize| out@.contains(j) <==> j < i + 1 && self@.contains_key(
                        j,
                    ) by {
                        if out@.contains(j) {
                            let k = choose|k: int| 0 <= k < out@.len() && out@[k] == j;
                            if k < before.len() {
                                assert(before[k] == j);
                                assert(before.contains(j));
                            }
                        }
                        if j < i && self@.contains_key(j) {
                            assert(before.contains(j));
                            let k = choose|k: int| 0 <= k < before.len() && before[k] == j;
                            assert(out@[k] == j);
                        }
                    }
                }
            }
            i += 1;
        }
        out
    }

    /// Whether no record is stored.
    pub fn is_empty(&self) -> (r: bool)
        requires
            self.wf(),
        ensures
            r == (self@ == Map::<usize, T>::empty()),
    {
        let r = self.free.len() >= self.slots.len();
        proof {
            if self@ =~= Map::<usize, T>::empty() {
                self.lemma_all_vacant();
            } else {
                let i = choose|i: usize| self@.contains_key(i);
                self.lemma_one_taken(i);
            }
        }
        r
    }

    proof fn lemma_all_vacant(&self)
        requires
            self.wf(),
            self@ =~= Map::<usize, T>::empty(),
        ensures
            self.free@.len() >= self.slots@.len(),
    {
        let n = self.slots@.len();
        let all = Set::new(|i: usize| i < n);
        lemma_below_finite(n);
        assert forall|i: usize| all.contains(i) implies self.free@.to_set().contains(i) by {
            assert(!self@.contains_key(i));
            assert(self.slots@[i as int] is None);
            assert(self.free@.contains(i));
        }
        assert(all.subset_of(self.free@.to_set()));
        self.free@.lemma_cardinality_of_set();
        vstd::set_lib::lemma_len_subset(all, self.free@.to_set());
    }

    proof fn lemma_one_taken(&self, i: usize)
        requires
            self.wf(),
            self@.contains_key(i),
        ensures
            self.free@.len() < self.slots@.len(),
    {
        let n = self.slots@.len();
        let all = Set::new(|j: usize| j < n);
        lemma_below_finite(n);
        let vacant = self.free@.to_set();
        assert forall|j: usize| vacant.contains(j) implies all.remove(i).contains(j) by {
            let k = choose|k: int| 0 <= k < self.free@.len() && self.free@[k] == j;
            assert(self.slots@[self.free@[k] as int] is None);
        }
        assert(vacant.subset_of(all.remove(i)));
        vstd::set_lib::lemma_len_subset(vacant, all.remove(i));
        assert(self.free@.no_duplicates());
        self.free@.unique_seq_to_set();
    }
}

/// The set of the indices below `n` is finite and has `n` members.
proof fn lemma_below_finite(n: nat)
    requires
        n <= usize::MAX + 1,
    ensures
        Set::new(|i: usize| i < n).finite(),
        Set::new(|i: usize| i < n).len() == n,
    decreases n,
{
    let s = Set::new(|i: usize| i < n);
    if n == 0 {
        assert(s =~= Set::<usize>::empty());
    } else {
        let m = (n - 1) as nat;
        lemma_below_finite(m);
        let t = Set::new(|i: usize| i < m);
        assert(s =~= t.insert(m as usize));
    }
}

} // verus!
