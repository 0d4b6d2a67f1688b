//! The inverted index from names to the records that bear them.
//!
//! The index keeps one entry for each name in use, ordered by name. An
//! entry holds the offset of the name in a name pool, and the set of the
//! arena indices of the records with that name. The pool is not part of the
//! index: it is handed to each operation, and may be shared with whatever
//! else holds names. A name without records has no entry.

use crate::arena::{NodeArena, NodeIndex};
use crate::index_set::{IndexSet, set_insert, set_is_empty, set_remove, set_to_vec};
use crate::lex::{bytes_lt, compare, lemma_lt_asymmetric, lemma_lt_transitive, Rank};
use crate::namepool::NamePool;
use crate::node::NodeRecord;
use crate::search::{is_fenced, is_start, lemma_append_keeps_names, lemma_round_trip};
use crate::span::{guard_free, span_bytes, GUARD};
use vstd::prelude::*;
use vstd::string::StringSliceAdditionalSpecFns;
use vstd::utf8::encode_utf8;

verus! {

/// The map that a sequence of distinct names and a sequence of sets stand
/// for, the set at a position going with the name at that position.
pub open spec fn as_map(keys: Seq<Seq<u8>>, sets: Seq<Set<NodeIndex>>) -> Map<
    Seq<u8>,
    Set<NodeIndex>,
> {
    Map::new(|name: Seq<u8>| keys.contains(name), |name: Seq<u8>| sets[keys.index_of(name)])
}

/// Whether the names stand in their order, each before the next.
pub open spec fn is_sorted(keys: Seq<Seq<u8>>) -> bool {
    forall|i: int, j: int| 0 <= i < j < keys.len() ==> bytes_lt(#[trigger] keys[i], #[trigger] keys[j])
}

proof fn lemma_sorted_distinct(keys: Seq<Seq<u8>>)
    requires
        is_sorted(keys),
    ensures
        keys.no_duplicates(),
        forall|i: int| 0 <= i < keys.len() ==> keys.index_of(#[trigger] keys[i]) == i,
{
    assert forall|i: int, j: int| 0 <= i < keys.len() && 0 <= j < keys.len() && i != j implies keys[i]
        != keys[j] by {
        if i < j {
            lemma_lt_asymmetric(keys[i], keys[j]);
        } else {
            lemma_lt_asymmetric(keys[j], keys[i]);
        }
    }
    assert forall|i: int| 0 <= i < keys.len() implies keys.index_of(#[trigger] keys[i]) == i by {
        let k = keys.index_of(keys[i]);
        assert(keys.contains(keys[i]));
        assert(0 <= k < keys.len() && keys[k] == keys[i]);
    }
}

proof fn lemma_map_at(keys: Seq<Seq<u8>>, sets: Seq<Set<NodeIndex>>, i: int)
    requires
        is_sorted(keys),
        keys.len() == sets.len(),
        0 <= i < keys.len(),
    ensures
        as_map(keys, sets).contains_key(keys[i]),
        as_map(keys, sets)[keys[i]] == sets[i],
{
    lemma_sorted_distinct(keys);
    assert(keys.contains(keys[i]));
}

proof fn lemma_map_insert(
    keys: Seq<Seq<u8>>,
    sets: Seq<Set<NodeIndex>>,
    at: int,
    key: Seq<u8>,
    set: Set<NodeIndex>,
)
    requires
        is_sorted(keys),
        is_sorted(keys.insert(at, key)),
        keys.len() == sets.len(),
        0 <= at <= keys.len(),
    ensures
        as_map(keys.insert(at, key), sets.insert(at, set)) == as_map(keys, sets).insert(key, set),
{
    let keys2 = keys.insert(at, key);
    let sets2 = sets.insert(at, set);
    let lhs = as_map(keys2, sets2);
    let rhs = as_map(keys, sets).insert(key, set);
    lemma_sorted_distinct(keys);
    lemma_sorted_distinct(keys2);
    assert(keys2[at] == key);
    assert forall|name: Seq<u8>| lhs.contains_key(name) <==> rhs.contains_key(name) by {
        if keys2.contains(name) {
            let i = choose|i: int| 0 <= i < keys2.len() && keys2[i] == name;
            if i < at {
                assert(keys[i] == name);
            } else if i > at {
                assert(keys[i - 1] == name);
            }
        }
        if keys.contains(name) {
            let i = choose|i: int| 0 <= i < keys.len() && keys[i] == name;
            if i < at {
                assert(keys2[i] == name);
            } else {
                assert(keys2[i + 1] == name);
            }
        }
    }
    assert forall|name: Seq<u8>| lhs.contains_key(name) implies lhs[name] == rhs[name] by {
        let i = choose|i: int| 0 <= i < keys2.len() && keys2[i] == name;
        assert(keys2.index_of(keys2[i]) == i);
        if i < at {
            assert(keys[i] == name);
            assert(keys.index_of(keys[i]) == i);
        } else if i > at {
            assert(keys[i - 1] == name);
            assert(keys.index_of(keys[i - 1]) == i - 1);
        }
    }
    assert(lhs =~= rhs);
}

proof fn lemma_map_update(keys: Seq<Seq<u8>>, sets: Seq<Set<NodeIndex>>, at: int, set: Set<NodeIndex>)
    requires
        is_sorted(keys),
        keys.len() == sets.len(),
        0 <= at < keys.len(),
    ensures
        as_map(keys, sets.update(at, set)) == as_map(keys, sets).insert(keys[at], set),
{
    let lhs = as_map(keys, sets.update(at, set));
    let rhs = as_map(keys, sets).insert(keys[at], set);
    lemma_sorted_distinct(keys);
    assert(keys.contains(keys[at]));
    assert forall|name: Seq<u8>| lhs.contains_key(name) implies lhs[name] == rhs[name] by {
        let i = choose|i: int| 0 <= i < keys.len() && keys[i] == name;
        assert(keys.index_of(keys[i]) == i);
    }
    assert(lhs =~= rhs);
}

proof fn lemma_map_remove(keys: Seq<Seq<u8>>, sets: Seq<Set<NodeIndex>>, at: int)
    requires
        is_sorted(keys),
        keys.len() == sets.len(),
        0 <= at < keys.len(),
    ensures
        is_sorted(keys.remove(at)),
        as_map(keys.remove(at), sets.remove(at)) == as_map(keys, sets).remove(keys[at]),
{
    let keys2 = keys.remove(at);
    let sets2 = sets.remove(at);
    let lhs = as_map(keys2, sets2);
    let rhs = as_map(keys, sets).remove(keys[at]);
    assert forall|i: int, j: int| 0 <= i < j < keys2.len() implies bytes_lt(
        #[trigger] keys2[i],
        #[trigger] keys2[j],
    ) by {
        let a = if i < at { i } else { i + 1 };
        let c = if j < at { j } else { j + 1 };
        assert(keys2[i] == keys[a] && keys2[j] == keys[c]);
    }
    lemma_sorted_distinct(keys);
    lemma_sorted_distinct(keys2);
    assert forall|name: Seq<u8>| lhs.contains_key(name) <==> rhs.contains_key(name) by {
        if keys2.contains(name) {
            let i = choose|i: int| 0 <= i < keys2.len() && keys2[i] == name;
            let a = if i < at { i } else { i + 1 };
            assert(keys[a] == name);
            assert(keys.contains(name));
        }
        if keys.contains(name) && name != keys[at] {
            let i = choose|i: int| 0 <= i < keys.len() && keys[i] == name;
            if i < at {
                assert(keys2[i] == name);
            } else {
                assert(keys2[i - 1] == name);
            }
        }
    }
    assert forall|name: Seq<u8>| lhs.contains_key(name) implies lhs[name] == rhs[name] by {
        let i = choose|i: int| 0 <= i < keys2.len() && keys2[i] == name;
        assert(keys2.index_of(keys2[i]) == i);
        let a = if i < at { i } else { i + 1 };
        assert(keys[a] == name);
        assert(keys.index_of(keys[a]) == a);
    }
    assert(lhs =~= rhs);
}

/// Whether no name of a map goes with an empty set.
pub open spec fn no_empty_set(map: Map<Seq<u8>, Set<NodeIndex>>) -> bool {
    forall|name: Seq<u8>| map.contains_key(name) ==> #[trigger] map[name] != Set::<NodeIndex>::empty()
}

/// Whether `parts` lists the sets, one for one: each part holds the members
/// of its set, each of them once.
pub open spec fn lists(parts: Seq<Seq<NodeIndex>>, sets: Seq<Set<NodeIndex>>) -> bool {
    &&& parts.len() == sets.len()
    &&& forall|i: int|
        0 <= i < parts.len() ==> (#[trigger] parts[i]).no_duplicates() && parts[i].to_set()
            == sets[i]
}

/// One name with the records that bear it.
pub struct Entry {
    /// Where the name begins in the pool.
    name: usize,
    indices: IndexSet,
}

/// The names in use, in their order, each with the records that bear it.
pub struct NameIndex {
    entries: Vec<Entry>,
}

impl NameIndex {
    /// The names of the entries, in their order.
    pub closed spec fn keys(&self, pool: Seq<u8>) -> Seq<Seq<u8>> {
        Seq::new(self.entries@.len(), |i: int| span_bytes(pool, self.entries@[i].name as int))
    }

    /// The sets of the entries, in the order of the names.
    pub closed spec fn sets(&self) -> Seq<Set<NodeIndex>> {
        Seq::new(self.entries@.len(), |i: int| self.entries@[i].indices@)
    }

    /// The index as a map from names to sets of indices, the names read
    /// from the buffer `pool`.
    pub open spec fn view_in(&self, pool: Seq<u8>) -> Map<Seq<u8>, Set<NodeIndex>> {
        as_map(self.keys(pool), self.sets())
    }

    /// Whether `index` is listed under `name`.
    pub open spec fn holds(&self, pool: Seq<u8>, name: Seq<u8>, index: NodeIndex) -> bool {
        self.view_in(pool).contains_key(name) && self.view_in(pool)[name].contains(index)
    }

    /// The index is sound with respect to a pool: every entry names a
    /// string of the pool, the entries stand in the order of their names,
    /// and no entry has an empty set.
    pub closed spec fn wf(&self, pool: Seq<u8>) -> bool {
        &&& is_fenced(pool)
        &&& forall|i: int|
            0 <= i < self.entries@.len() ==> is_start(pool, (#[trigger] self.entries@[i]).name as int)
        &&& is_sorted(self.keys(pool))
        &&& forall|i: int|
            0 <= i < self.entries@.len() ==> (#[trigger] self.entries@[i]).indices@
                != Set::<NodeIndex>::empty()
    }

    /// No name maps to an empty set: a name is a key of the index only
    /// while a record bears it.
    pub proof fn lemma_no_empty_set(&self, pool: Seq<u8>, name: Seq<u8>)
        requires
            self.wf(pool),
            self.view_in(pool).contains_key(name),
        ensures
            self.view_in(pool)[name] != Set::<NodeIndex>::empty(),
            exists|index: NodeIndex| self.holds(pool, name, index),
    {
        let keys = self.keys(pool);
        let i = choose|i: int| 0 <= i < keys.len() && keys[i] == name;
        lemma_map_at(keys, self.sets(), i);
        let set = self.entries@[i].indices@;
        assert(self.sets()[i] == set);
        if forall|x: NodeIndex| !set.contains(x) {
            assert(set =~= Set::<NodeIndex>::empty());
        }
        let x = choose|x: NodeIndex| set.contains(x);
        assert(self.holds(pool, name, x));
    }

    /// How the entries of a sound index stand to its map: the names are in
    /// their order, each once; each name goes with the set at its place; and
    /// there are as many entries as the map has names.
    pub proof fn lemma_entries(&self, pool: Seq<u8>)
        requires
            self.wf(pool),
        ensures
            is_sorted(self.keys(pool)),
            self.keys(pool).no_duplicates(),
            self.keys(pool).len() == self.sets().len(),
            forall|i: int|
                0 <= i < self.keys(pool).len() ==> self.view_in(pool).contains_key(
                    #[trigger] self.keys(pool)[i],
                ) && self.view_in(pool)[self.keys(pool)[i]] == self.sets()[i] && self.sets()[i]
                    != Set::<NodeIndex>::empty(),
            self.keys(pool).to_set() == self.view_in(pool).dom(),
            self.view_in(pool).dom().finite(),
            self.view_in(pool).dom().len() == self.keys(pool).len(),
    {
        let keys = self.keys(pool);
        lemma_sorted_distinct(keys);
        assert forall|i: int| 0 <= i < keys.len() implies self.view_in(pool).contains_key(
            #[trigger] keys[i],
        ) && self.view_in(pool)[keys[i]] == self.sets()[i] && self.sets()[i] != Set::<
            NodeIndex,
        >::empty() by {
            lemma_map_at(keys, self.sets(), i);
            assert(self.sets()[i] == self.entries@[i].indices@);
        }
        assert(keys.to_set() =~= self.view_in(pool).dom());
        keys.unique_seq_to_set();
    }

    /// No name of a sound index goes with an empty set.
    pub proof fn lemma_sound(&self, pool: Seq<u8>)
        requires
            self.wf(pool),
        ensures
            no_empty_set(self.view_in(pool)),
    {
        assert forall|name: Seq<u8>| self.view_in(pool).contains_key(name) implies #[trigger] self.view_in(
            pool,
        )[name] != Set::<NodeIndex>::empty() by {
            self.lemma_no_empty_set(pool, name);
        }
    }

    /// The names of the index are names without a guard byte.
    pub proof fn lemma_keys_guard_free(&self, pool: Seq<u8>, name: Seq<u8>)
        requires
            self.wf(pool),
            self.view_in(pool).contains_key(name),
        ensures
            guard_free(name),
    {
        let keys = self.keys(pool);
        let i = choose|i: int| 0 <= i < keys.len() && keys[i] == name;
        let h = self.entries@[i].name as int;
        crate::search::lemma_start(pool, h);
    }

    /// What is appended to the pool leaves the index as it is.
    pub proof fn lemma_pool_grows(&self, pool: Seq<u8>, pushed: Seq<u8>)
        requires
            self.wf(pool),
            is_fenced(pool + pushed),
        ensures
            self.wf(pool + pushed),
            self.keys(pool + pushed) == self.keys(pool),
            self.view_in(pool + pushed) == self.view_in(pool),
    {
        assert forall|i: int| 0 <= i < self.entries@.len() implies span_bytes(
            pool + pushed,
            self.entries@[i].name as int,
        ) == span_bytes(pool, self.entries@[i].name as int) by {
            assert(is_start(pool, self.entries@[i].name as int));
            lemma_append_keeps_names(pool, pushed, self.entries@[i].name as int);
        }
        assert(self.keys(pool + pushed) =~= self.keys(pool));
        assert forall|i: int| 0 <= i < self.entries@.len() implies is_start(
            pool + pushed,
            (#[trigger] self.entries@[i]).name as int,
        ) by {
            assert(is_start(pool, self.entries@[i].name as int));
        }
    }

    /// An index without names: it has no entry, whatever pool it is read
    /// with, and so it is sound with respect to every pool.
    pub fn new() -> (r: Self)
        ensures
            forall|pool: Seq<u8>| is_fenced(pool) ==> #[trigger] r.wf(pool),
            forall|pool: Seq<u8>| #[trigger] r.view_in(pool) == Map::<Seq<u8>, Set<NodeIndex>>::empty(),
            forall|pool: Seq<u8>| #[trigger] r.keys(pool) == Seq::<Seq<u8>>::empty(),
            r.sets() == Seq::<Set<NodeIndex>>::empty(),
    {
        let r = Self { entries: Vec::new() };
        proof {
            assert forall|pool: Seq<u8>| #[trigger]
                r.view_in(pool) == Map::<Seq<u8>, Set<NodeIndex>>::empty() by {
                assert(r.keys(pool) =~= Seq::<Seq<u8>>::empty());
                assert(r.view_in(pool) =~= Map::<Seq<u8>, Set<NodeIndex>>::empty());
            }
            assert forall|pool: Seq<u8>| #[trigger] r.keys(pool) == Seq::<Seq<u8>>::empty() by {
                assert(r.keys(pool) =~= Seq::<Seq<u8>>::empty());
            }
            assert(r.sets() =~= Seq::<Set<NodeIndex>>::empty());
        }
        r
    }

    /// The number of names.
    pub fn len(&self) -> (r: usize)
        ensures
            forall|pool: Seq<u8>| r == (#[trigger] self.keys(pool)).len(),
    {
        self.entries.len()
    }

    /// Whether the index is without names.
    pub fn is_empty(&self) -> (r: bool)
        ensures
            forall|pool: Seq<u8>|
                r == (#[trigger] self.view_in(pool) == Map::<Seq<u8>, Set<NodeIndex>>::empty()),
    {
        let r = self.entries.len() == 0;
        proof {
            assert forall|pool: Seq<u8>|
                r == (#[trigger] self.view_in(pool) == Map::<Seq<u8>, Set<NodeIndex>>::empty()) by {
                if r {
                    assert(self.keys(pool) =~= Seq::<Seq<u8>>::empty());
                    assert(self.view_in(pool) =~= Map::<Seq<u8>, Set<NodeIndex>>::empty());
                } else {
                    assert(self.keys(pool).contains(self.keys(pool)[0]));
                    assert(self.view_in(pool).contains_key(self.keys(pool)[0]));
                }
            }
        }
        r
    }

    /// Where `name` stands among the entries: the position of its entry, or
    /// else the position at which its entry would have to be put.
    fn locate(&self, pool: &NamePool, name: &[u8]) -> (r: Result<usize, usize>)
        requires
            pool.wf(),
            self.wf(pool@),
        ensures
            match r {
                Ok(at) => at < self.entries@.len() && self.keys(pool@)[at as int] == name@,
                Err(at) => {
                    &&& at <= self.entries@.len()
                    &&& !self.keys(pool@).contains(name@)
                    &&& forall|i: int| 0 <= i < at ==> bytes_lt(#[trigger] self.keys(pool@)[i], name@)
                    &&& forall|i: int|
                        at <= i < self.entries@.len() ==> bytes_lt(
                            name@,
                            #[trigger] self.keys(pool@)[i],
                        )
                },
            },
    {
        let ghost keys = self.keys(pool@);
        let mut lo: usize = 0;
        let mut hi: usize = self.entries.len();
        while lo < hi
            invariant
                pool.wf(),
                self.wf(pool@),
                keys == self.keys(pool@),
                lo <= hi <= self.entries@.len(),
                forall|i: int| 0 <= i < lo ==> bytes_lt(#[trigger] keys[i], name@),
                forall|i: int| hi <= i < self.entries@.len() ==> bytes_lt(name@, #[trigger] keys[i]),
            decreases hi - lo,
        {
            let mid = lo + (hi - lo) / 2;
            let handle = self.entries[mid].name;
            assert(is_start(pool@, self.entries@[mid as int].name as int));
            let (_, text) = pool.get(handle);
            assert(text.spec_bytes() == keys[mid as int]);
            match compare(text.as_bytes(), name) {
                Rank::Same => {
                    return Ok(mid);
                },
                Rank::Before => {
                    proof {
                        assert forall|i: int| 0 <= i < mid + 1 implies bytes_lt(
                            #[trigger] keys[i],
                            name@,
                        ) by {
                            if i < mid {
                                lemma_lt_transitive(keys[i], keys[mid as int], name@);
                            }
                        }
                    }
                    lo = mid + 1;
                },
                Rank::After => {
                    proof {
                        assert forall|i: int| mid <= i < self.entries@.len() implies bytes_lt(
                            name@,
                            #[trigger] keys[i],
                        ) by {
                            if mid < i {
                                lemma_lt_transitive(name@, keys[mid as int], keys[i]);
                            }
                        }
                    }
                    hi = mid;
                },
            }
        }
        proof {
            if keys.contains(name@) {
                let i = choose|i: int| 0 <= i < keys.len() && keys[i] == name@;
                if i < lo {
                    lemma_lt_asymmetric(keys[i], name@);
                } else {
                    lemma_lt_asymmetric(name@, keys[i]);
                }
            }
        }
        Err(lo)
    }

    /// The records that bear `name`, if any does.
    pub fn get(&self, pool: &NamePool, name: &str) -> (r: Option<&IndexSet>)
        requires
            pool.wf(),
            self.wf(pool@),
        ensures
            match r {
                Some(set) => self.view_in(pool@).contains_key(name.spec_bytes()) && set@
                    == self.view_in(pool@)[name.spec_bytes()],
                None => !self.view_in(pool@).contains_key(name.spec_bytes()),
            },
    {
        match self.locate(pool, name.as_bytes()) {
            Ok(at) => {
                proof {
                    lemma_map_at(self.keys(pool@), self.sets(), at as int);
                }
                Some(&self.entries[at].indices)
            },
            Err(_) => None,
        }
    }

    /// Where the pool holds `name`, if the name is a key of the index.
    pub fn handle_of(&self, pool: &NamePool, name: &str) -> (r: Option<usize>)
        requires
            pool.wf(),
            self.wf(pool@),
        ensures
            match r {
                Some(handle) => self.view_in(pool@).contains_key(name.spec_bytes()) && is_start(
                    pool@,
                    handle as int,
                ) && span_bytes(pool@, handle as int) == name.spec_bytes(),
                None => !self.view_in(pool@).contains_key(name.spec_bytes()),
            },
    {
        match self.locate(pool, name.as_bytes()) {
            Ok(at) => {
                proof {
                    lemma_map_at(self.keys(pool@), self.sets(), at as int);
                }
                Some(self.entries[at].name)
            },
            Err(_) => None,
        }
    }

    /// The set listed under `name`, or the empty set where the name is no
    /// key.
    pub open spec fn listed(&self, pool: Seq<u8>, name: Seq<u8>) -> Set<NodeIndex> {
        if self.view_in(pool).contains_key(name) {
            self.view_in(pool)[name]
        } else {
            Set::<NodeIndex>::empty()
        }
    }

    /// Lists `index` under `name`. A name that is new to the index is
    /// interned in the pool first.
    pub fn add_index(&mut self, pool: &mut NamePool, name: &str, index: NodeIndex)
        requires
            old(pool).wf(),
            old(self).wf(old(pool)@),
            guard_free(name.spec_bytes()),
        ensures
            final(pool).wf(),
            final(self).wf(final(pool)@),
            no_empty_set(final(self).view_in(final(pool)@)),
            final(self).view_in(final(pool)@) == old(self).view_in(old(pool)@).insert(
                name.spec_bytes(),
                old(self).listed(old(pool)@, name.spec_bytes()).insert(index),
            ),
            final(pool)@ == if old(self).view_in(old(pool)@).contains_key(name.spec_bytes()) {
                old(pool)@
            } else {
                old(pool)@ + name.spec_bytes() + seq![GUARD]
            },
    {
        let ghost keys = self.keys(pool@);
        let ghost sets = self.sets();
        match self.locate(pool, name.as_bytes()) {
            Ok(at) => {
                proof {
                    lemma_map_at(keys, sets, at as int);
                }
                set_insert(&mut self.entries[at].indices, index);
                proof {
                    let set = sets[at as int].insert(index);
                    assert(set.contains(index));
                    assert(self.keys(pool@) =~= keys);
                    assert(self.sets() =~= sets.update(at as int, set));
                    lemma_map_update(keys, sets, at as int, set);
                }
            },
            Err(at) => {
                let mut indices = IndexSet::with_capacity(1);
                indices.insert(index);
                let handle = pool.push(name);
                proof {
                    let pushed = name.spec_bytes() + seq![GUARD];
                    assert(pool@ =~= old(pool)@ + pushed);
                    lemma_round_trip(old(pool)@, name.spec_bytes());
                    old(self).lemma_pool_grows(old(pool)@, pushed);
                }
                self.entries.insert(at, Entry { name: handle, indices });
                proof {
                    let set = Set::<NodeIndex>::empty().insert(index);
                    assert(set.contains(index));
                    assert(self.keys(pool@) =~= keys.insert(at as int, name.spec_bytes()));
                    assert(self.sets() =~= sets.insert(at as int, set));
                    let keys2 = keys.insert(at as int, name.spec_bytes());
                    assert forall|i: int, j: int| 0 <= i < j < keys2.len() implies bytes_lt(
                        #[trigger] keys2[i],
                        #[trigger] keys2[j],
                    ) by {
                        let a = if i < at { i } else { i - 1 };
                        let c = if j < at { j } else { j - 1 };
                        if i != at && j != at {
                            assert(keys2[i] == keys[a] && keys2[j] == keys[c]);
                        } else if i == at {
                            assert(keys2[j] == keys[c]);
                        } else {
                            assert(keys2[i] == keys[a]);
                        }
                    }
                    lemma_map_insert(keys, sets, at as int, name.spec_bytes(), set);
                    assert forall|i: int| 0 <= i < self.entries@.len() implies is_start(
                        pool@,
                        (#[trigger] self.entries@[i]).name as int,
                    ) && self.entries@[i].indices@ != Set::<NodeIndex>::empty() by {
                        if i < at {
                            assert(self.entries@[i] == old(self).entries@[i]);
                        } else if i > at {
                            assert(self.entries@[i] == old(self).entries@[i - 1]);
                        }
                    }
                }
            },
        }
    }

    /// Takes `index` off the list of `name`, and tells whether it was
    /// listed there. A name whose list becomes empty leaves the index.
    pub fn remove_index(&mut self, pool: &NamePool, name: &str, index: NodeIndex) -> (existed: bool)
        requires
            pool.wf(),
            old(self).wf(pool@),
        ensures
            final(self).wf(pool@),
            no_empty_set(final(self).view_in(pool@)),
            existed == old(self).holds(pool@, name.spec_bytes(), index),
            final(self).view_in(pool@) == if !old(self).view_in(pool@).contains_key(
                name.spec_bytes(),
            ) {
                old(self).view_in(pool@)
            } else if old(self).view_in(pool@)[name.spec_bytes()].remove(index) == Set::<
                NodeIndex,
            >::empty() {
                old(self).view_in(pool@).remove(name.spec_bytes())
            } else {
                old(self).view_in(pool@).insert(
                    name.spec_bytes(),
                    old(self).view_in(pool@)[name.spec_bytes()].remove(index),
                )
            },
    {
        let ghost keys = self.keys(pool@);
        let ghost sets = self.sets();
        let at = match self.locate(pool, name.as_bytes()) {
            Ok(at) => at,
            Err(_) => {
                return false;
            },
        };
        proof {
            lemma_map_at(keys, sets, at as int);
        }
        let existed = set_remove(&mut self.entries[at].indices, index);
        let ghost set = sets[at as int].remove(index);
        proof {
            assert(self.keys(pool@) =~= keys);
            assert(self.sets() =~= sets.update(at as int, set));
            lemma_map_update(keys, sets, at as int, set);
        }
        if set_is_empty(&self.entries[at].indices) {
            let ghost mid_keys = self.keys(pool@);
            let ghost mid_sets = self.sets();
            let ghost mid_entries = self.entries@;
            self.entries.remove(at);
            proof {
                assert(self.keys(pool@) =~= mid_keys.remove(at as int));
                assert(self.sets() =~= mid_sets.remove(at as int));
                lemma_map_remove(mid_keys, mid_sets, at as int);
                assert(self.view_in(pool@) =~= old(self).view_in(pool@).remove(
                    name.spec_bytes(),
                ));
                assert forall|i: int| 0 <= i < self.entries@.len() implies is_start(
                    pool@,
                    (#[trigger] self.entries@[i]).name as int,
                ) && self.entries@[i].indices@ != Set::<NodeIndex>::empty() by {
                    let a = if i < at { i } else { i + 1 };
                    assert(self.entries@[i] == mid_entries[a]);
                    assert(mid_entries[a] == old(self).entries@[a]);
                }
            }
        }
        existed
    }

    /// Takes `name` out of the index and returns the records that bore
    /// it, if any did.
    pub fn remove(&mut self, pool: &NamePool, name: &str) -> (r: Option<IndexSet>)
        requires
            pool.wf(),
            old(self).wf(pool@),
        ensures
            final(self).wf(pool@),
            no_empty_set(final(self).view_in(pool@)),
            final(self).view_in(pool@) == old(self).view_in(pool@).remove(name.spec_bytes()),
            match r {
                Some(set) => old(self).view_in(pool@).contains_key(name.spec_bytes()) && set@
                    == old(self).view_in(pool@)[name.spec_bytes()],
                None => !old(self).view_in(pool@).contains_key(name.spec_bytes()),
            },
    {
        let ghost keys = self.keys(pool@);
        let ghost sets = self.sets();
        match self.locate(pool, name.as_bytes()) {
            Ok(at) => {
                let entry = self.entries.remove(at);
                proof {
                    lemma_map_at(keys, sets, at as int);
                    assert(self.keys(pool@) =~= keys.remove(at as int));
                    assert(self.sets() =~= sets.remove(at as int));
                    lemma_map_remove(keys, sets, at as int);
                    assert forall|i: int| 0 <= i < self.entries@.len() implies is_start(
                        pool@,
                        (#[trigger] self.entries@[i]).name as int,
                    ) && self.entries@[i].indices@ != Set::<NodeIndex>::empty() by {
                        let a = if i < at { i } else { i + 1 };
                        assert(self.entries@[i] == old(self).entries@[a]);
                    }
                }
                Some(entry.indices)
            },
            Err(_) => {
                proof {
                    assert(self.view_in(pool@) =~= old(self).view_in(pool@).remove(
                        name.spec_bytes(),
                    ));
                }
                None
            },
        }
    }

    /// Puts `indices` in the place of whatever is listed under the name that
    /// begins at `handle` in the pool. An empty set takes the name out of
    /// the index.
    pub fn insert_owned(&mut self, pool: &NamePool, handle: usize, indices: IndexSet)
        requires
            pool.wf(),
            old(self).wf(pool@),
            is_start(pool@, handle as int),
        ensures
            final(self).wf(pool@),
            no_empty_set(final(self).view_in(pool@)),
            final(self).view_in(pool@) == if indices@ == Set::<NodeIndex>::empty() {
                old(self).view_in(pool@).remove(span_bytes(pool@, handle as int))
            } else {
                old(self).view_in(pool@).insert(span_bytes(pool@, handle as int), indices@)
            },
    {
        let ghost keys = self.keys(pool@);
        let ghost sets = self.sets();
        let ghost key = span_bytes(pool@, handle as int);
        let (_, text) = pool.get(handle);
        let found = self.locate(pool, text.as_bytes());
        if set_is_empty(&indices) {
            match found {
                Ok(at) => {
                    self.entries.remove(at);
                    proof {
                        lemma_map_at(keys, sets, at as int);
                        assert(self.keys(pool@) =~= keys.remove(at as int));
                        assert(self.sets() =~= sets.remove(at as int));
                        lemma_map_remove(keys, sets, at as int);
                        assert forall|i: int| 0 <= i < self.entries@.len() implies is_start(
                            pool@,
                            (#[trigger] self.entries@[i]).name as int,
                        ) && self.entries@[i].indices@ != Set::<NodeIndex>::empty() by {
                            let a = if i < at { i } else { i + 1 };
                            assert(self.entries@[i] == old(self).entries@[a]);
                        }
                    }
                },
                Err(_) => {
                    proof {
                        assert(self.view_in(pool@) =~= old(self).view_in(pool@).remove(key));
                    }
                },
            }
        } else {
            match found {
                Ok(at) => {
                    let name = self.entries[at].name;
                    self.entries[at] = Entry { name, indices };
                    proof {
                        assert(self.keys(pool@) =~= keys);
                        assert(self.sets() =~= sets.update(at as int, indices@));
                        lemma_map_update(keys, sets, at as int, indices@);
                    }
                },
                Err(at) => {
                    self.entries.insert(at, Entry { name: handle, indices });
                    proof {
                        assert(self.keys(pool@) =~= keys.insert(at as int, key));
                        assert(self.sets() =~= sets.insert(at as int, indices@));
                        let keys2 = keys.insert(at as int, key);
                        assert forall|i: int, j: int| 0 <= i < j < keys2.len() implies bytes_lt(
                            #[trigger] keys2[i],
                            #[trigger] keys2[j],
                        ) by {
                            let a = if i < at { i } else { i - 1 };
                            let c = if j < at { j } else { j - 1 };
                            if i != at && j != at {
                                assert(keys2[i] == keys[a] && keys2[j] == keys[c]);
                            } else if i == at {
                                assert(keys2[j] == keys[c]);
                            } else {
                                assert(keys2[i] == keys[a]);
                            }
                        }
                        lemma_map_insert(keys, sets, at as int, key, indices@);
                        assert forall|i: int| 0 <= i < self.entries@.len() implies is_start(
                            pool@,
                            (#[trigger] self.entries@[i]).name as int,
                        ) && self.entries@[i].indices@ != Set::<NodeIndex>::empty() by {
                            if i < at {
                                assert(self.entries@[i] == old(self).entries@[i]);
                            } else if i > at {
                                assert(self.entries@[i] == old(self).entries@[i - 1]);
                            }
                        }
                    }
                },
            }
        }
    }

    /// Lists `index` under the name that begins at `handle` in the pool.
    pub fn add_interned(&mut self, pool: &NamePool, handle: usize, index: NodeIndex)
        requires
            pool.wf(),
            old(self).wf(pool@),
            is_start(pool@, handle as int),
        ensures
            final(self).wf(pool@),
            no_empty_set(final(self).view_in(pool@)),
            final(self).view_in(pool@) == old(self).view_in(pool@).insert(
                span_bytes(pool@, handle as int),
                old(self).listed(pool@, span_bytes(pool@, handle as int)).insert(index),
            ),
    {
        let ghost keys = self.keys(pool@);
        let ghost sets = self.sets();
        let ghost key = span_bytes(pool@, handle as int);
        let (_, text) = pool.get(handle);
        match self.locate(pool, text.as_bytes()) {
            Ok(at) => {
                proof {
                    lemma_map_at(keys, sets, at as int);
                }
                set_insert(&mut self.entries[at].indices, index);
                proof {
                    let set = sets[at as int].insert(index);
                    assert(set.contains(index));
                    assert(self.keys(pool@) =~= keys);
                    assert(self.sets() =~= sets.update(at as int, set));
                    lemma_map_update(keys, sets, at as int, set);
                }
            },
            Err(at) => {
                let mut indices = IndexSet::with_capacity(1);
                indices.insert(index);
                self.entries.insert(at, Entry { name: handle, indices });
                proof {
                    let set = Set::<NodeIndex>::empty().insert(index);
                    assert(set.contains(index));
                    assert(self.keys(pool@) =~= keys.insert(at as int, key));
                    assert(self.sets() =~= sets.insert(at as int, set));
                    let keys2 = keys.insert(at as int, key);
                    assert forall|i: int, j: int| 0 <= i < j < keys2.len() implies bytes_lt(
                        #[trigger] keys2[i],
                        #[trigger] keys2[j],
                    ) by {
                        let a = if i < at { i } else { i - 1 };
                        let c = if j < at { j } else { j - 1 };
                        if i != at && j != at {
                            assert(keys2[i] == keys[a] && keys2[j] == keys[c]);
                        } else if i == at {
                            assert(keys2[j] == keys[c]);
                        } else {
                            assert(keys2[i] == keys[a]);
                        }
                    }
                    lemma_map_insert(keys, sets, at as int, key, set);
                    assert forall|i: int| 0 <= i < self.entries@.len() implies is_start(
                        pool@,
                        (#[trigger] self.entries@[i]).name as int,
                    ) && self.entries@[i].indices@ != Set::<NodeIndex>::empty() by {
                        if i < at {
                            assert(self.entries@[i] == old(self).entries@[i]);
                        } else if i > at {
                            assert(self.entries@[i] == old(self).entries@[i - 1]);
                        }
                    }
                }
            },
        }
    }

    /// The index of an arena: each record is listed under its name. The
    /// names are those of the pool, and nothing is added to it.
    pub fn from_slab(arena: &NodeArena<NodeRecord>, pool: &NamePool) -> (r: Self)
        requires
            pool.wf(),
            forall|i: NodeIndex|
                arena@.contains_key(i) ==> is_start(pool@, (#[trigger] arena@[i]).name as int),
        ensures
            r.wf(pool@),
            forall|name: Seq<u8>, index: NodeIndex|
                #[trigger] r.holds(pool@, name, index) <==> arena@.contains_key(index) && span_bytes(
                    pool@,
                    arena@[index].name as int,
                ) == name,
    {
        let mut r = NameIndex::new();
        let used = arena.indices();
        let mut k: usize = 0;
        proof {
            pool.lemma_fenced();
            assert(r.view_in(pool@) == Map::<Seq<u8>, Set<NodeIndex>>::empty());
        }
        while k < used.len()
            invariant
                pool.wf(),
                r.wf(pool@),
                k <= used@.len(),
                forall|i: NodeIndex| used@.contains(i) <==> arena@.contains_key(i),
                forall|i: NodeIndex|
                    arena@.contains_key(i) ==> is_start(pool@, (#[trigger] arena@[i]).name as int),
                forall|name: Seq<u8>, index: NodeIndex|
                    #[trigger] r.holds(pool@, name, index) <==> used@.take(k as int).contains(index)
                        && span_bytes(pool@, arena@[index].name as int) == name,
            decreases used@.len() - k,
        {
            let index = used[k];
            assert(used@.contains(index));
            let record = match arena.get(index) {
                Some(record) => record,
                None => {
                    k += 1;
                    continue ;
                },
            };
            let ghost before = r;
            let ghost key = span_bytes(pool@, record.name as int);
            r.add_interned(pool, record.name, index);
            proof {
                let seen = used@.take(k as int);
                let seen2 = used@.take(k + 1);
                assert(seen2 =~= seen.push(index));
                assert forall|name: Seq<u8>, x: NodeIndex| #[trigger]
                    r.holds(pool@, name, x) <==> seen2.contains(x) && span_bytes(
                        pool@,
                        arena@[x].name as int,
                    ) == name by {
                    if seen2.contains(x) {
                        let i = choose|i: int| 0 <= i < seen2.len() && seen2[i] == x;
                        if i < seen.len() {
                            assert(seen[i] == x);
                            assert(seen.contains(x));
                        }
                    }
                    if seen.contains(x) {
                        let i = choose|i: int| 0 <= i < seen.len() && seen[i] == x;
                        assert(seen2[i] == x);
                    }
                    assert(seen2[seen.len() as int] == index);
                    assert(before.holds(pool@, name, x) <==> seen.contains(x) && span_bytes(
                        pool@,
                        arena@[x].name as int,
                    ) == name);
                }
            }
            k += 1;
        }
        proof {
            assert(used@.take(used@.len() as int) =~= used@);
        }
        r
    }

    /// The indices of all the sets, set after set in the order of the
    /// names, each set listed once in an order of its own.
    pub fn all_indices(&self) -> (out: Vec<NodeIndex>)
        ensures
            exists|parts: Seq<Seq<NodeIndex>>|
                lists(parts, self.sets()) && out@ == #[trigger] parts.flatten(),
    {
        let mut out: Vec<NodeIndex> = Vec::new();
        let ghost mut parts: Seq<Seq<NodeIndex>> = Seq::empty();
        let mut k: usize = 0;
        proof {
            assert(parts.flatten() =~= Seq::<NodeIndex>::empty());
        }
        while k < self.entries.len()
            invariant
                k <= self.entries@.len(),
                parts.len() == k,
                out@ == parts.flatten(),
                forall|i: int|
                    0 <= i < k ==> (#[trigger] parts[i]).no_duplicates() && parts[i].to_set()
                        == self.sets()[i],
            decreases self.entries@.len() - k,
        {
            let mut part = set_to_vec(&self.entries[k].indices);
            proof {
                parts.lemma_flatten_push(part@);
                parts = parts.push(part@);
            }
            out.append(&mut part);
            k += 1;
        }
        proof {
            assert(lists(parts, self.sets()));
        }
        out
    }

    /// The index with names of its own: for each name, in the order of the
    /// names, the text of the name and the indices listed under it from the
    /// smallest to the largest.
    pub fn into_persistent(&self, pool: &NamePool) -> (out: Vec<(String, Vec<NodeIndex>)>)
        requires
            pool.wf(),
            self.wf(pool@),
        ensures
            out@.len() == self.keys(pool@).len(),
            forall|i: int|
                0 <= i < out@.len() ==> {
                    &&& encode_utf8((#[trigger] out@[i]).0@) == self.keys(pool@)[i]
                    &&& self.view_in(pool@).contains_key(self.keys(pool@)[i])
                    &&& out@[i].1@.to_set() == self.view_in(pool@)[self.keys(pool@)[i]]
                    &&& forall|a: int, b: int|
                        0 <= a < b < out@[i].1@.len() ==> out@[i].1@[a] < out@[i].1@[b]
                },
            forall|name: Seq<u8>| #[trigger]
                self.view_in(pool@).contains_key(name) ==> self.keys(pool@).contains(name),
            is_sorted(self.keys(pool@)),
    {
        let mut out: Vec<(String, Vec<NodeIndex>)> = Vec::new();
        let mut k: usize = 0;
        while k < self.entries.len()
            invariant
                pool.wf(),
                self.wf(pool@),
                k <= self.entries@.len(),
                out@.len() == k,
                forall|i: int|
                    0 <= i < k ==> {
                        &&& encode_utf8((#[trigger] out@[i]).0@) == self.keys(pool@)[i]
                        &&& self.view_in(pool@).contains_key(self.keys(pool@)[i])
                        &&& out@[i].1@.to_set() == self.view_in(pool@)[self.keys(pool@)[i]]
                        &&& forall|a: int, b: int|
                            0 <= a < b < out@[i].1@.len() ==> out@[i].1@[a] < out@[i].1@[b]
                    },
            decreases self.entries@.len() - k,
        {
            assert(is_start(pool@, self.entries@[k as int].name as int));
            let (_, text) = pool.get(self.entries[k].name);
            let name = text.to_owned();
            let indices = self.entries[k].indices.to_sorted_vec();
            proof {
                lemma_map_at(self.keys(pool@), self.sets(), k as int);
            }
            out.push((name, indices));
            k += 1;
        }
        out
    }

    /// The index of a persisted map: each index of each entry is listed
    /// under the name of the entry, and the names are interned in the pool.
    pub fn construct_name_pool(pool: &mut NamePool, data: &Vec<(String, Vec<NodeIndex>)>) -> (r:
        Self)
        requires
            old(pool).wf(),
            forall|i: int|
                0 <= i < data@.len() ==> guard_free(encode_utf8((#[trigger] data@[i]).0@)),
        ensures
            final(pool).wf(),
            r.wf(final(pool)@),
            old(pool)@.is_prefix_of(final(pool)@),
            forall|name: Seq<u8>, index: NodeIndex|
                #[trigger] r.holds(final(pool)@, name, index) <==> exists|i: int|
                    0 <= i < data@.len() && encode_utf8((#[trigger] data@[i]).0@) == name
                        && data@[i].1@.contains(index),
    {
        let mut r = NameIndex::new();
        let mut k: usize = 0;
        proof {
            pool.lemma_fenced();
            assert(r.view_in(pool@) == Map::<Seq<u8>, Set<NodeIndex>>::empty());
        }
        while k < data.len()
            invariant
                pool.wf(),
                r.wf(pool@),
                k <= data@.len(),
                old(pool)@.is_prefix_of(pool@),
                forall|i: int|
                    0 <= i < data@.len() ==> guard_free(encode_utf8((#[trigger] data@[i]).0@)),
                forall|name: Seq<u8>, index: NodeIndex|
                    #[trigger] r.holds(pool@, name, index) <==> exists|i: int|
                        0 <= i < k && encode_utf8((#[trigger] data@[i]).0@) == name
                            && data@[i].1@.contains(index),
            decreases data@.len() - k,
        {
            let name = data[k].0.as_str();
            let indices = &data[k].1;
            let ghost key = encode_utf8(data@[k as int].0@);
            let mut j: usize = 0;
            while j < indices.len()
                invariant
                    pool.wf(),
                    r.wf(pool@),
                    k < data@.len(),
                    j <= indices@.len(),
                    indices@ == data@[k as int].1@,
                    name.spec_bytes() == key,
                    key == encode_utf8(data@[k as int].0@),
                    guard_free(key),
                    old(pool)@.is_prefix_of(pool@),
                    forall|name: Seq<u8>, index: NodeIndex|
                        #[trigger] r.holds(pool@, name, index) <==> (exists|i: int|
                            0 <= i < k && encode_utf8((#[trigger] data@[i]).0@) == name
                                && data@[i].1@.contains(index)) || (name == key && indices@.take(
                            j as int,
                        ).contains(index)),
                decreases indices@.len() - j,
            {
                let index = indices[j];
                let ghost before = r;
                let ghost pool_before = pool@;
                r.add_index(pool, name, index);
                proof {
                    let seen = indices@.take(j as int);
                    let seen2 = indices@.take(j + 1);
                    assert(seen2 =~= seen.push(index));
                    assert forall|n: Seq<u8>, x: NodeIndex| #[trigger]
                        r.holds(pool@, n, x) <==> (exists|i: int|
                            0 <= i < k && encode_utf8((#[trigger] data@[i]).0@) == n
                                && data@[i].1@.contains(x)) || (n == key && seen2.contains(
                            x,
                        )) by {
                        if seen2.contains(x) {
                            let i = choose|i: int| 0 <= i < seen2.len() && seen2[i] == x;
                            if i < seen.len() {
                                assert(seen[i] == x);
                                assert(seen.contains(x));
                            }
                        }
                        if seen.contains(x) {
                            let i = choose|i: int| 0 <= i < seen.len() && seen[i] == x;
                            assert(seen2[i] == x);
                        }
                        assert(seen2[seen.len() as int] == index);
                        assert(before.holds(pool_before, n, x) <==> (exists|i: int|
                            0 <= i < k && encode_utf8((#[trigger] data@[i]).0@) == n
                                && data@[i].1@.contains(x)) || (n == key && seen.contains(x)));
                    }
                }
                j += 1;
            }
            proof {
                assert(indices@.take(indices@.len() as int) =~= indices@);
                assert forall|n: Seq<u8>, x: NodeIndex| #[trigger]
                    r.holds(pool@, n, x) <==> exists|i: int|
                        0 <= i < k + 1 && encode_utf8((#[trigger] data@[i]).0@) == n
                            && data@[i].1@.contains(x) by {
                    if n == key && indices@.contains(x) {
                        assert(encode_utf8(data@[k as int].0@) == n && data@[k as int].1@.contains(
                            x,
                        ));
                    }
                }
            }
            k += 1;
        }
        r
    }
}

/// Two sound indices that list the same indices under the same names are
/// the same map.
pub proof fn lemma_same_listing(a: &NameIndex, pool_a: Seq<u8>, b: &NameIndex, pool_b: Seq<u8>)
    requires
        a.wf(pool_a),
        b.wf(pool_b),
        forall|name: Seq<u8>, index: NodeIndex|
            #[trigger] a.holds(pool_a, name, index) <==> b.holds(pool_b, name, index),
    ensures
        a.view_in(pool_a) == b.view_in(pool_b),
{
    let va = a.view_in(pool_a);
    let vb = b.view_in(pool_b);
    assert forall|name: Seq<u8>| va.contains_key(name) <==> vb.contains_key(name) by {
        if va.contains_key(name) {
            a.lemma_no_empty_set(pool_a, name);
            let i = choose|i: NodeIndex| a.holds(pool_a, name, i);
            assert(b.holds(pool_b, name, i));
        }
        if vb.contains_key(name) {
            b.lemma_no_empty_set(pool_b, name);
            let i = choose|i: NodeIndex| b.holds(pool_b, name, i);
            assert(a.holds(pool_a, name, i));
        }
    }
    assert forall|name: Seq<u8>| va.contains_key(name) implies va[name] == vb[name] by {
        assert forall|i: NodeIndex| va[name].contains(i) <==> vb[name].contains(i) by {
            assert(a.holds(pool_a, name, i) <==> b.holds(pool_b, name, i));
        }
        assert(va[name] =~= vb[name]);
    }
    assert(va =~= vb);
}

/// An index comes back from its persisted form as the map that it was:
/// where `data` is what `into_persistent` gives of `index`, and `restored`
/// is what `construct_name_pool` makes of `data` in a pool of its own, the
/// two are the same map.
pub proof fn lemma_persistent_round_trip(
    index: &NameIndex,
    pool: Seq<u8>,
    data: Seq<(String, Vec<NodeIndex>)>,
    restored: &NameIndex,
    restored_pool: Seq<u8>,
)
    requires
        index.wf(pool),
        restored.wf(restored_pool),
        data.len() == index.keys(pool).len(),
        forall|i: int|
            0 <= i < data.len() ==> encode_utf8((#[trigger] data[i]).0@) == index.keys(pool)[i]
                && data[i].1@.to_set() == index.view_in(pool)[index.keys(pool)[i]],
        forall|name: Seq<u8>, i: NodeIndex|
            #[trigger] restored.holds(restored_pool, name, i) <==> exists|k: int|
                0 <= k < data.len() && encode_utf8((#[trigger] data[k]).0@) == name
                    && data[k].1@.contains(i),
    ensures
        restored.view_in(restored_pool) == index.view_in(pool),
{
    let keys = index.keys(pool);
    let view = index.view_in(pool);
    assert forall|name: Seq<u8>, i: NodeIndex| #[trigger]
        restored.holds(restored_pool, name, i) <==> index.holds(pool, name, i) by {
        if index.holds(pool, name, i) {
            assert(keys.contains(name));
            let k = choose|k: int| 0 <= k < keys.len() && keys[k] == name;
            assert(encode_utf8(data[k].0@) == name);
            assert(data[k].1@.to_set().contains(i));
            assert(data[k].1@.contains(i));
        }
        if restored.holds(restored_pool, name, i) {
            let k = choose|k: int|
                0 <= k < data.len() && encode_utf8((#[trigger] data[k]).0@) == name
                    && data[k].1@.contains(i);
            lemma_map_at(keys, index.sets(), k);
            assert(data[k].1@.to_set().contains(i));
        }
    }
    lemma_same_listing(restored, restored_pool, index, pool);
}

/// Whether no index stands in two of the parts.
pub open spec fn parts_apart(parts: Seq<Seq<NodeIndex>>) -> bool {
    forall|k: int, l: int, x: NodeIndex|
        #![trigger parts[k].contains(x), parts[l].contains(x)]
        0 <= k < l < parts.len() ==> !(parts[k].contains(x) && parts[l].contains(x))
}

/// Parts without repetitions that share no index make, one after another,
/// a sequence without repetitions, of the indices of all the parts.
pub proof fn lemma_flatten_members(parts: Seq<Seq<NodeIndex>>)
    requires
        forall|k: int| 0 <= k < parts.len() ==> (#[trigger] parts[k]).no_duplicates(),
        parts_apart(parts),
    ensures
        parts.flatten().no_duplicates(),
        forall|x: NodeIndex|
            parts.flatten().contains(x) <==> exists|k: int|
                0 <= k < parts.len() && (#[trigger] parts[k]).contains(x),
    decreases parts.len(),
{
    if parts.len() == 0 {
        assert(parts.flatten() =~= Seq::<NodeIndex>::empty());
    } else {
        let front = parts.drop_last();
        let last = parts.last();
        assert(front.push(last) =~= parts);
        front.lemma_flatten_push(last);
        assert forall|k: int| 0 <= k < front.len() implies (#[trigger] front[k]).no_duplicates() by {
            assert(front[k] == parts[k]);
        }
        assert forall|k: int, l: int, x: NodeIndex|
            #![trigger front[k].contains(x), front[l].contains(x)]
            0 <= k < l < front.len() implies !(front[k].contains(x) && front[l].contains(x)) by {
            assert(front[k] == parts[k] && front[l] == parts[l]);
        }
        lemma_flatten_members(front);
        let head = front.flatten();
        let all = parts.flatten();
        assert(all =~= head + last);
        assert forall|x: NodeIndex|
            all.contains(x) <==> exists|k: int|
                0 <= k < parts.len() && (#[trigger] parts[k]).contains(x) by {
            if all.contains(x) {
                let i = choose|i: int| 0 <= i < all.len() && all[i] == x;
                if i < head.len() {
                    assert(head[i] == x);
                    assert(head.contains(x));
                    let k = choose|k: int| 0 <= k < front.len() && (#[trigger] front[k]).contains(x);
                    assert(parts[k].contains(x));
                } else {
                    assert(last[i - head.len()] == x);
                    assert(parts[parts.len() - 1].contains(x));
                }
            }
            if exists|k: int| 0 <= k < parts.len() && (#[trigger] parts[k]).contains(x) {
                let k = choose|k: int| 0 <= k < parts.len() && (#[trigger] parts[k]).contains(x);
                if k < front.len() {
                    assert(front[k].contains(x));
                    assert(head.contains(x));
                    let i = choose|i: int| 0 <= i < head.len() && head[i] == x;
                    assert(all[i] == x);
                } else {
                    let i = choose|i: int| 0 <= i < last.len() && last[i] == x;
                    assert(all[head.len() + i] == x);
                }
            }
        }
        assert forall|i: int, j: int| 0 <= i < all.len() && 0 <= j < all.len() && i != j implies all[i]
            != all[j] by {
            let (a, b) = if i < j {
                (i, j)
            } else {
                (j, i)
            };
            if b < head.len() {
                assert(head[a] == all[a] && head[b] == all[b]);
            } else if a >= head.len() {
                assert(last[a - head.len()] == all[a] && last[b - head.len()] == all[b]);
            } else if all[a] == all[b] {
                let x = all[a];
                assert(head[a] == x);
                assert(head.contains(x));
                let k = choose|k: int| 0 <= k < front.len() && (#[trigger] front[k]).contains(x);
                assert(last[b - head.len()] == x);
                assert(parts[k].contains(x) && parts[parts.len() - 1].contains(x));
            }
        }
    }
}

/// What `all_indices` gives of the index of an arena: every index of the
/// arena once, so that there are as many items as the arena holds
/// records. `out` is what `all_indices` gave, and `index` what `from_slab`
/// made of the arena.
pub proof fn lemma_all_indices_of_arena(
    index: &NameIndex,
    pool: Seq<u8>,
    arena: Map<NodeIndex, NodeRecord>,
    out: Seq<NodeIndex>,
)
    requires
        index.wf(pool),
        forall|name: Seq<u8>, i: NodeIndex|
            #[trigger] index.holds(pool, name, i) <==> arena.contains_key(i) && span_bytes(
                pool,
                arena[i].name as int,
            ) == name,
        exists|parts: Seq<Seq<NodeIndex>>| lists(parts, index.sets()) && out == #[trigger] parts.flatten(),
    ensures
        out.no_duplicates(),
        out.to_set() == arena.dom(),
        out.len() == arena.dom().len(),
{
    let parts = choose|parts: Seq<Seq<NodeIndex>>|
        lists(parts, index.sets()) && out == #[trigger] parts.flatten();
    let keys = index.keys(pool);
    let sets = index.sets();
    assert forall|k: int, x: NodeIndex| 0 <= k < parts.len() && #[trigger] parts[k].contains(
        x,
    ) implies index.holds(pool, keys[k], x) by {
        lemma_map_at(keys, sets, k);
        assert(parts[k].to_set().contains(x));
    }
    assert forall|k: int, l: int, x: NodeIndex|
        #![trigger parts[k].contains(x), parts[l].contains(x)]
        0 <= k < l < parts.len() implies !(parts[k].contains(x) && parts[l].contains(x)) by {
        if parts[k].contains(x) && parts[l].contains(x) {
            assert(index.holds(pool, keys[k], x));
            assert(index.holds(pool, keys[l], x));
            lemma_lt_asymmetric(keys[k], keys[l]);
        }
    }
    lemma_flatten_members(parts);
    assert forall|x: NodeIndex| out.to_set().contains(x) <==> arena.dom().contains(x) by {
        if out.contains(x) {
            let k = choose|k: int| 0 <= k < parts.len() && (#[trigger] parts[k]).contains(x);
            assert(index.holds(pool, keys[k], x));
        }
        if arena.contains_key(x) {
            let name = span_bytes(pool, arena[x].name as int);
            assert(index.holds(pool, name, x));
            assert(keys.contains(name));
            let k = choose|k: int| 0 <= k < keys.len() && keys[k] == name;
            lemma_map_at(keys, sets, k);
            assert(parts[k].to_set().contains(x));
            assert(parts[k].contains(x));
        }
    }
    assert(out.to_set() =~= arena.dom());
    out.unique_seq_to_set();
}

} // verus!
